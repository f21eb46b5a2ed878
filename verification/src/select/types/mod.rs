pub mod state;
pub mod tablet;
