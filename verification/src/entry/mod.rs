//! The recursive tree that stands for queries and for results.
use vstd::prelude::*;
use crate::assoc::keys_distinct;
use crate::text::copy_opt_text;

pub mod into_value;
pub mod laws;
pub mod mow;
pub mod round_trip;
pub mod shape;
pub mod sow;
pub mod try_from;

verus! {

/// A node of a query or of a result: a type name, perhaps the value of one
/// instance, perhaps the name of the leaf that the caller wants projected, and
/// for each attribute the list of its children.
///
/// The lists are kept in the order in which they were made, each under its
/// name, and a name is looked up from the front. In a well formed entry no
/// name stands twice ([`well_formed`]); in what queries and results are made
/// of, every child has the name of its list as its base
/// ([`named_by_lists`]).
#[derive(Debug)]
pub struct Entry {
    pub base: String,
    pub base_value: Option<String>,
    pub leader_value: Option<String>,
    pub leaves: Vec<(String, Vec<Entry>)>,
}

/// What an `Entry` stands for.
pub ghost struct EntryModel {
    pub base: Seq<char>,
    pub base_value: Option<Seq<char>>,
    pub leader_value: Option<Seq<char>>,
    pub leaves: Seq<(Seq<char>, Seq<EntryModel>)>,
}

/// The model of an entry, leaf list by leaf list and child by child.
pub open spec fn entry_model(e: Entry) -> EntryModel
    decreases e,
{
    EntryModel {
        base: e.base@,
        base_value: e.base_value.deep_view(),
        leader_value: e.leader_value.deep_view(),
        leaves: Seq::new(
            e.leaves@.len(),
            |i: int|
                if 0 <= i < e.leaves@.len() {
                    (
                        e.leaves@[i].0@,
                        Seq::new(
                            e.leaves@[i].1@.len(),
                            |j: int|
                                if 0 <= j < e.leaves@[i].1@.len() {
                                    entry_model(e.leaves@[i].1@[j])
                                } else {
                                    arbitrary()
                                },
                        ),
                    )
                } else {
                    arbitrary()
                },
        ),
    }
}

impl View for Entry {
    type V = EntryModel;

    open spec fn view(&self) -> EntryModel {
        entry_model(*self)
    }
}

impl DeepView for Entry {
    type V = EntryModel;

    open spec fn deep_view(&self) -> EntryModel {
        entry_model(*self)
    }
}

/// No node of the tree has two lists of the same name.
pub open spec fn well_formed(e: EntryModel) -> bool
    decreases e,
{
    &&& keys_distinct(e.leaves)
    &&& forall|i: int, j: int|
        0 <= i < e.leaves.len() && 0 <= j < e.leaves[i].1.len() ==> well_formed(
            #[trigger] e.leaves[i].1[j],
        )
}

/// Every child in the tree is named like the list it stands in.
pub open spec fn named_by_lists(e: EntryModel) -> bool
    decreases e,
{
    forall|i: int, j: int|
        0 <= i < e.leaves.len() && 0 <= j < e.leaves[i].1.len() ==> (#[trigger] e.leaves[i].1[j]).base
            == e.leaves[i].0 && named_by_lists(e.leaves[i].1[j])
}

/// The leaves of an entry's model are the models of its leaves.
pub proof fn lemma_entry_leaves(e: Entry)
    ensures
        e@.leaves == e.leaves.deep_view(),
{
    assert forall|i: int| 0 <= i < e.leaves@.len() implies e@.leaves[i] == e.leaves.deep_view()[i] by {
        assert(e@.leaves[i].1 =~= e.leaves.deep_view()[i].1);
    }
    assert(e@.leaves =~= e.leaves.deep_view());
}

impl Clone for Entry {
    fn clone(&self) -> (r: Entry)
        ensures
            r@ == self@,
        decreases self,
    {
        let mut leaves: Vec<(String, Vec<Entry>)> = Vec::new();
        let mut i: usize = 0;
        while i < self.leaves.len()
            invariant
                i <= self.leaves.len(),
                leaves.len() == i,
                forall|k: int|
                    0 <= k < i ==> (#[trigger] leaves@[k]).0@ == self.leaves@[k].0@
                        && leaves@[k].1.deep_view() == self.leaves@[k].1.deep_view(),
            decreases self.leaves.len() - i,
        {
            let items = &self.leaves[i].1;
            let mut copies: Vec<Entry> = Vec::new();
            let mut j: usize = 0;
            while j < items.len()
                invariant
                    i < self.leaves.len(),
                    items == &self.leaves@[i as int].1,
                    j <= items.len(),
                    copies.len() == j,
                    forall|k: int| 0 <= k < j ==> (#[trigger] copies@[k])@ == items@[k]@,
                decreases items.len() - j,
            {
                copies.push(items[j].clone());
                j += 1;
            }
            assert(copies.deep_view() =~= items.deep_view());
            leaves.push((self.leaves[i].0.clone(), copies));
            i += 1;
        }
        let r = Entry {
            base: self.base.clone(),
            base_value: copy_opt_text(&self.base_value),
            leader_value: copy_opt_text(&self.leader_value),
            leaves,
        };
        proof {
            lemma_entry_leaves(r);
            lemma_entry_leaves(*self);
            assert forall|k: int| 0 <= k < r.leaves@.len() implies r.leaves.deep_view()[k]
                == self.leaves.deep_view()[k] by {
                assert(r.leaves@[k].0@ == self.leaves@[k].0@);
            }
            assert(r.leaves.deep_view() =~= self.leaves.deep_view());
        }
        r
    }
}

} // verus!
