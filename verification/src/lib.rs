//! A store of facts kept as two-column edge files, and the engine that
//! answers nested queries over it: a schema of trunks and leaves, entries
//! and the grains read out of them and written into them, the plan of a
//! query, and the scan of one file for one step of a plan.
pub mod assoc;
pub mod dataset;
pub mod delete;
pub mod entry;
pub mod error;
pub mod grain;
pub mod insert;
pub mod into_value;
pub mod line;
pub mod lists;
pub mod order;
pub mod pattern;
pub mod records;
pub mod schema;
pub mod select;
pub mod text;
pub mod update;
pub mod value;

pub use dataset::Dataset;
pub use entry::Entry;
pub use error::Error;
pub use grain::Grain;
pub use into_value::IntoValue;
pub use line::Line;
pub use schema::{Branch, Leaves, Schema, Trunks};
pub use select::types::state::State;
pub use select::types::tablet::Tablet;
pub use value::Value;
