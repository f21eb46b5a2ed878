//! Writing the library's values as JSON.
use vstd::prelude::*;
use crate::value::{Value, ValueModel};

verus! {

/// A value that can be written as JSON.
pub trait IntoValue: Sized {
    /// The JSON value that stands for `self`.
    spec fn as_value(&self) -> ValueModel;

    /// Writes `self` as a JSON value.
    fn into_value(self) -> (v: Value)
        ensures
            v@ == self.as_value(),
    ;
}

} // verus!
