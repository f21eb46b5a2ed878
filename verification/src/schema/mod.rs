//! The schema: which node is a trunk of which.
use vstd::prelude::*;
use crate::assoc::lookup;
use crate::text::copy_texts;
use crate::schema::find_crown::crown;
use crate::schema::get_nesting_level::nesting_level;
use crate::schema::is_connected::connected;
use crate::schema::sort_nesting_ascending::{ascending, sorted_up};
use crate::schema::sort_nesting_descending::{descending, sorted_down};

pub mod acyclic;
pub mod count_leaves;
pub mod find_crown;
pub mod get_nesting_level;
pub mod is_connected;
pub mod sort_nesting_ascending;
pub mod sort_nesting_descending;
pub mod try_from;

verus! {

/// The names of the nodes directly below a node.
#[derive(Debug)]
pub struct Leaves(pub Vec<String>);

/// The names of the nodes directly above a node.
#[derive(Debug)]
pub struct Trunks(pub Vec<String>);

/// What the schema knows of one node: its trunks and its leaves.
#[derive(Debug)]
pub struct Branch {
    pub trunks: Trunks,
    pub leaves: Leaves,
}

/// The nodes of a dataset by name, in the order in which they were first
/// named. A name is looked up from the front; a schema read off a record
/// holds no name twice.
#[derive(Debug)]
pub struct Schema(pub Vec<(String, Branch)>);

/// What a `Branch` stands for.
pub ghost struct BranchModel {
    pub trunks: Seq<Seq<char>>,
    pub leaves: Seq<Seq<char>>,
}

/// What a `Schema` stands for: its nodes, in order, each with its name.
pub type SchemaModel = Seq<(Seq<char>, BranchModel)>;

impl Clone for Leaves {
    fn clone(&self) -> (r: Leaves)
        ensures
            r@ == self@,
    {
        Leaves(copy_texts(&self.0))
    }
}

impl Clone for Trunks {
    fn clone(&self) -> (r: Trunks)
        ensures
            r@ == self@,
    {
        Trunks(copy_texts(&self.0))
    }
}

impl Clone for Branch {
    fn clone(&self) -> (r: Branch)
        ensures
            r@ == self@,
    {
        Branch { trunks: self.trunks.clone(), leaves: self.leaves.clone() }
    }
}

impl Clone for Schema {
    fn clone(&self) -> (r: Schema)
        ensures
            r@ == self@,
    {
        let mut nodes: Vec<(String, Branch)> = Vec::new();
        let mut i: usize = 0;
        while i < self.0.len()
            invariant
                i <= self.0.len(),
                nodes.len() == i,
                forall|k: int| 0 <= k < i ==> (#[trigger] nodes.deep_view()[k]) == self.0.deep_view()[k],
            decreases self.0.len() - i,
        {
            let ghost before = nodes.deep_view();
            let node = (self.0[i].0.clone(), self.0[i].1.clone());
            nodes.push(node);
            assert(nodes.deep_view() =~= before.push(self.0.deep_view()[i as int]));
            i += 1;
        }
        assert(nodes.deep_view() =~= self.0.deep_view());
        Schema(nodes)
    }
}

impl View for Leaves {
    type V = Seq<Seq<char>>;

    open spec fn view(&self) -> Seq<Seq<char>> {
        self.0.deep_view()
    }
}

impl View for Trunks {
    type V = Seq<Seq<char>>;

    open spec fn view(&self) -> Seq<Seq<char>> {
        self.0.deep_view()
    }
}

impl View for Branch {
    type V = BranchModel;

    open spec fn view(&self) -> BranchModel {
        BranchModel { trunks: self.trunks@, leaves: self.leaves@ }
    }
}

impl DeepView for Branch {
    type V = BranchModel;

    open spec fn deep_view(&self) -> BranchModel {
        self@
    }
}

impl View for Schema {
    type V = SchemaModel;

    open spec fn view(&self) -> SchemaModel {
        self.0.deep_view()
    }
}

impl DeepView for Schema {
    type V = SchemaModel;

    open spec fn deep_view(&self) -> SchemaModel {
        self@
    }
}

/// The trunks of the node `name`; none where the schema has no such node.
pub open spec fn trunks_of(s: SchemaModel, name: Seq<char>) -> Seq<Seq<char>> {
    match lookup(s, name) {
        Some(b) => b.trunks,
        None => Seq::empty(),
    }
}

/// The leaves of the node `name`; none where the schema has no such node.
pub open spec fn leaves_of(s: SchemaModel, name: Seq<char>) -> Seq<Seq<char>> {
    match lookup(s, name) {
        Some(b) => b.leaves,
        None => Seq::empty(),
    }
}

/// The names of the schema's nodes, in order.
pub open spec fn names_of(s: SchemaModel) -> Seq<Seq<char>> {
    Seq::new(s.len(), |i: int| s[i].0)
}

impl Schema {
    /// Whether `branch` is `base` or lies below it.
    pub fn is_connected(&self, base: &str, branch: &str) -> (r: bool)
        ensures
            r == connected(self@, base@, branch@),
    {
        is_connected::is_connected(self, base, branch)
    }

    /// The names of the nodes that are `base` or lie below it, in the order
    /// of the schema.
    pub fn find_crown(&self, base: &str) -> (r: Vec<String>)
        ensures
            r.deep_view() == crown(self@, base@),
            forall|name: Seq<char>|
                r.deep_view().contains(name) <==> names_of(self@).contains(name) && connected(
                    self@,
                    base@,
                    name,
                ),
            names_of(self@).contains(base@) ==> r.deep_view().contains(base@),
            crate::assoc::keys_distinct(self@) ==> r.deep_view().no_duplicates(),
    {
        find_crown::find_crown(self, base)
    }

    /// The number of leaves of `branch`.
    pub fn count_leaves(&self, branch: &str) -> (r: usize)
        ensures
            r == leaves_of(self@, branch@).len(),
    {
        count_leaves::count_leaves(self, branch)
    }

    /// The nesting level of `branch`: 0 for a root, otherwise one more than
    /// the greatest level among its trunks.
    pub fn get_nesting_level(&self, branch: &str) -> (r: usize)
        ensures
            r == nesting_level(self@, branch@),
    {
        get_nesting_level::get_nesting_level(self, branch)
    }

    /// Whether `a` comes strictly before `b` on the way down from the roots.
    pub fn descends_before(&self, a: &str, b: &str) -> (r: bool)
        ensures
            r == sort_nesting_descending::descends_before(self@, a@, b@),
    {
        sort_nesting_descending::comes_before(self, a, b)
    }

    /// Whether `a` comes strictly before `b` on the way up to the roots.
    pub fn ascends_before(&self, a: &str, b: &str) -> (r: bool)
        ensures
            r == sort_nesting_ascending::ascends_before(self@, a@, b@),
    {
        sort_nesting_ascending::comes_first(self, a, b)
    }

    /// `names` in the order of the way down from the roots.
    pub fn sort_nesting_descending(&self, names: Vec<String>) -> (r: Vec<String>)
        ensures
            r.deep_view() == sorted_down(self@, names.deep_view()),
            r.deep_view().to_multiset() == names.deep_view().to_multiset(),
            descending(self@, r.deep_view()),
    {
        sort_nesting_descending::sort_nesting_descending(self, names)
    }

    /// `names` in the order of the way up to the roots.
    pub fn sort_nesting_ascending(&self, names: Vec<String>) -> (r: Vec<String>)
        ensures
            r.deep_view() == sorted_up(self@, names.deep_view()),
            r.deep_view().to_multiset() == names.deep_view().to_multiset(),
            ascending(self@, r.deep_view()),
    {
        sort_nesting_ascending::sort_nesting_ascending(self, names)
    }
}

} // verus!
