//! One step of a plan.
use vstd::prelude::*;

verus! {

/// A step of a plan: the edge file it reads, which column holds the trait and
/// which the thing, the node that its results are rooted at, and how it
/// matches and when it hands results on.
#[derive(Debug)]
pub struct Tablet {
    pub filename: String,
    pub thing: String,
    pub trait_: String,
    pub thing_is_first: bool,
    pub trait_is_first: bool,
    pub base: String,
    pub trait_is_regex: bool,
    pub passthrough: bool,
    pub querying: bool,
    pub eager: bool,
    pub accumulating: bool,
}

/// What a `Tablet` stands for.
pub ghost struct TabletModel {
    pub filename: Seq<char>,
    pub thing: Seq<char>,
    pub trait_: Seq<char>,
    pub thing_is_first: bool,
    pub trait_is_first: bool,
    pub base: Seq<char>,
    pub trait_is_regex: bool,
    pub passthrough: bool,
    pub querying: bool,
    pub eager: bool,
    pub accumulating: bool,
}

impl View for Tablet {
    type V = TabletModel;

    open spec fn view(&self) -> TabletModel {
        TabletModel {
            filename: self.filename@,
            thing: self.thing@,
            trait_: self.trait_@,
            thing_is_first: self.thing_is_first,
            trait_is_first: self.trait_is_first,
            base: self.base@,
            trait_is_regex: self.trait_is_regex,
            passthrough: self.passthrough,
            querying: self.querying,
            eager: self.eager,
            accumulating: self.accumulating,
        }
    }
}

impl DeepView for Tablet {
    type V = TabletModel;

    open spec fn deep_view(&self) -> TabletModel {
        self@
    }
}

impl Clone for Tablet {
    fn clone(&self) -> (r: Tablet)
        ensures
            r@ == self@,
    {
        Tablet {
            filename: self.filename.clone(),
            thing: self.thing.clone(),
            trait_: self.trait_.clone(),
            thing_is_first: self.thing_is_first,
            trait_is_first: self.trait_is_first,
            base: self.base.clone(),
            trait_is_regex: self.trait_is_regex,
            passthrough: self.passthrough,
            querying: self.querying,
            eager: self.eager,
            accumulating: self.accumulating,
        }
    }
}

} // verus!
