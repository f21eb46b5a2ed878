//! One fact: a value of one node paired with a value of another.
use vstd::prelude::*;
use crate::text::copy_opt_text;

pub mod into_value;
pub mod try_from;

verus! {

/// A fact read from a tree or from a row of an edge file: `base` and its
/// value, `leaf` and its value. A value that is not known is absent.
#[derive(Debug)]
pub struct Grain {
    pub base: String,
    pub base_value: Option<String>,
    pub leaf: String,
    pub leaf_value: Option<String>,
}

/// What a `Grain` stands for.
pub ghost struct GrainModel {
    pub base: Seq<char>,
    pub base_value: Option<Seq<char>>,
    pub leaf: Seq<char>,
    pub leaf_value: Option<Seq<char>>,
}

impl View for Grain {
    type V = GrainModel;

    open spec fn view(&self) -> GrainModel {
        GrainModel {
            base: self.base@,
            base_value: self.base_value.deep_view(),
            leaf: self.leaf@,
            leaf_value: self.leaf_value.deep_view(),
        }
    }
}

impl Clone for Grain {
    fn clone(&self) -> (r: Grain)
        ensures
            r@ == self@,
    {
        Grain {
            base: self.base.clone(),
            base_value: copy_opt_text(&self.base_value),
            leaf: self.leaf.clone(),
            leaf_value: copy_opt_text(&self.leaf_value),
        }
    }
}

impl DeepView for Grain {
    type V = GrainModel;

    open spec fn deep_view(&self) -> GrainModel {
        self@
    }
}

} // verus!
