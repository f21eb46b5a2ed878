//! How many leaves a node has.
use vstd::prelude::*;
use crate::assoc::find;
use crate::schema::{leaves_of, Schema};

verus! {

/// The number of leaves of `branch`; none where the schema has no such node.
pub fn count_leaves(schema: &Schema, branch: &str) -> (r: usize)
    ensures
        r == leaves_of(schema@, branch@).len(),
{
    match find(&schema.0, branch) {
        Some(p) => schema.0[p].1.leaves.0.len(),
        None => 0,
    }
}

} // verus!
