//! Reading facts out of a tree.
use vstd::prelude::*;
use crate::assoc::{find, has_key, lookup};
use crate::entry::{lemma_entry_leaves, Entry, EntryModel};
use crate::grain::{Grain, GrainModel};
use crate::text::{copy_opt_text, same_text};

verus! {

/// One grain for each of `items`: `base` with its value, and `leaf` with the
/// item's value.
pub open spec fn grains_of_children(
    base: Seq<char>,
    base_value: Option<Seq<char>>,
    leaf: Seq<char>,
    items: Seq<EntryModel>,
) -> Seq<GrainModel> {
    Seq::new(
        items.len(),
        |i: int| GrainModel { base, base_value, leaf, leaf_value: items[i].base_value },
    )
}

/// The grains that one item of a `trait_` list gives: one for each of its
/// `thing` children, or one without a leaf value where it has no such list.
pub open spec fn grains_of_trunk_item(item: EntryModel, trait_: Seq<char>, thing: Seq<char>) -> Seq<
    GrainModel,
> {
    match lookup(item.leaves, thing) {
        Some(children) => grains_of_children(trait_, item.base_value, thing, children),
        None => seq![
            GrainModel { base: trait_, base_value: item.base_value, leaf: thing, leaf_value: None },
        ],
    }
}

/// The grains of the items of a `trait_` list, item after item.
pub open spec fn grains_of_trunk_items(
    items: Seq<EntryModel>,
    trait_: Seq<char>,
    thing: Seq<char>,
) -> Seq<GrainModel>
    decreases items.len(),
{
    if items.len() == 0 {
        Seq::empty()
    } else {
        grains_of_trunk_items(items.drop_last(), trait_, thing) + grains_of_trunk_item(
            items.last(),
            trait_,
            thing,
        )
    }
}

/// Every `(trait_, thing)` fact that the tree `e` holds, in the order of the tree.
///
/// - Where `e` is a `thing`: one grain for each of its `trait_` children, with
///   `e`'s own value as the base value; where `trait_` is `thing` itself, the one
///   grain that pairs `e`'s value with itself.
/// - Where `e` is a `trait_`: one grain for each of its `thing` children, or one
///   without a leaf value where it has no `thing` list.
/// - Where `e` has a `trait_` list: the grains of that list's items.
/// - Otherwise the facts of all its children, list after list.
pub open spec fn mown(e: EntryModel, trait_: Seq<char>, thing: Seq<char>) -> Seq<GrainModel>
    decreases e, 0nat,
{
    if e.base == thing {
        if trait_ == e.base {
            seq![
                GrainModel {
                    base: e.base,
                    base_value: e.base_value,
                    leaf: trait_,
                    leaf_value: e.base_value,
                },
            ]
        } else {
            match lookup(e.leaves, trait_) {
                Some(children) => grains_of_children(e.base, e.base_value, trait_, children),
                None => Seq::empty(),
            }
        }
    } else if e.base == trait_ {
        match lookup(e.leaves, thing) {
            Some(children) => grains_of_children(e.base, e.base_value, thing, children),
            None => seq![
                GrainModel { base: trait_, base_value: e.base_value, leaf: thing, leaf_value: None },
            ],
        }
    } else if has_key(e.leaves, trait_) {
        grains_of_trunk_items(lookup(e.leaves, trait_)->0, trait_, thing)
    } else {
        mown_of_leaves(e.leaves, trait_, thing)
    }
}

/// The facts of the children in `leaves`, list after list.
pub open spec fn mown_of_leaves(
    leaves: Seq<(Seq<char>, Seq<EntryModel>)>,
    trait_: Seq<char>,
    thing: Seq<char>,
) -> Seq<GrainModel>
    decreases leaves, 2nat,
{
    if leaves.len() == 0 {
        Seq::empty()
    } else {
        mown_of_leaves(leaves.drop_last(), trait_, thing) + mown_of_items(
            leaves.last().1,
            trait_,
            thing,
        )
    }
}

/// The facts of `items`, item after item.
pub open spec fn mown_of_items(items: Seq<EntryModel>, trait_: Seq<char>, thing: Seq<char>) -> Seq<
    GrainModel,
>
    decreases items, 1nat,
{
    if items.len() == 0 {
        Seq::empty()
    } else {
        mown_of_items(items.drop_last(), trait_, thing) + mown(items.last(), trait_, thing)
    }
}

/// Moves the grains of `more` to the end of `out`.
fn append_grains(out: &mut Vec<Grain>, more: Vec<Grain>)
    ensures
        final(out).deep_view() == old(out).deep_view() + more.deep_view(),
{
    let ghost added = more.deep_view();
    let mut rest = more;
    out.append(&mut rest);
    assert(out.deep_view() =~= old(out).deep_view() + added);
}

/// One grain for each of `items`.
fn child_grains(base: &str, base_value: &Option<String>, leaf: &str, items: &Vec<Entry>) -> (r: Vec<
    Grain,
>)
    ensures
        r.deep_view() == grains_of_children(
            base@,
            base_value.deep_view(),
            leaf@,
            items.deep_view(),
        ),
{
    let mut out: Vec<Grain> = Vec::new();
    let mut i: usize = 0;
    while i < items.len()
        invariant
            i <= items.len(),
            out.len() == i,
            forall|k: int|
                0 <= k < i ==> (#[trigger] out@[k])@ == (GrainModel {
                    base: base@,
                    base_value: base_value.deep_view(),
                    leaf: leaf@,
                    leaf_value: items@[k]@.base_value,
                }),
        decreases items.len() - i,
    {
        out.push(
            Grain {
                base: base.to_owned(),
                base_value: copy_opt_text(base_value),
                leaf: leaf.to_owned(),
                leaf_value: copy_opt_text(&items[i].base_value),
            },
        );
        i += 1;
    }
    assert(out.deep_view() =~= grains_of_children(
        base@,
        base_value.deep_view(),
        leaf@,
        items.deep_view(),
    ));
    out
}

/// The one grain that pairs `base` with `leaf`.
fn single_grain(
    base: &str,
    base_value: &Option<String>,
    leaf: &str,
    leaf_value: &Option<String>,
) -> (r: Vec<Grain>)
    ensures
        r.deep_view() == seq![
            GrainModel {
                base: base@,
                base_value: base_value.deep_view(),
                leaf: leaf@,
                leaf_value: leaf_value.deep_view(),
            },
        ],
{
    let mut out: Vec<Grain> = Vec::new();
    out.push(
        Grain {
            base: base.to_owned(),
            base_value: copy_opt_text(base_value),
            leaf: leaf.to_owned(),
            leaf_value: copy_opt_text(leaf_value),
        },
    );
    assert(out.deep_view() =~= seq![
        GrainModel {
            base: base@,
            base_value: base_value.deep_view(),
            leaf: leaf@,
            leaf_value: leaf_value.deep_view(),
        },
    ]);
    out
}

/// The grains of the items of a `trait_` list.
fn trunk_item_grains(items: &Vec<Entry>, trait_: &str, thing: &str) -> (r: Vec<Grain>)
    ensures
        r.deep_view() == grains_of_trunk_items(items.deep_view(), trait_@, thing@),
{
    let mut out: Vec<Grain> = Vec::new();
    let mut i: usize = 0;
    assert(items.deep_view().take(0) =~= Seq::<EntryModel>::empty());
    while i < items.len()
        invariant
            i <= items.len(),
            out.deep_view() == grains_of_trunk_items(
                items.deep_view().take(i as int),
                trait_@,
                thing@,
            ),
        decreases items.len() - i,
    {
        let item = &items[i];
        proof {
            lemma_entry_leaves(*item);
            assert(items.deep_view().take(i + 1).drop_last() =~= items.deep_view().take(i as int));
            assert(items.deep_view().take(i + 1).last() == item@);
        }
        let more = match find(&item.leaves, thing) {
            Some(p) => child_grains(trait_, &item.base_value, thing, &item.leaves[p].1),
            None => {
                let none: Option<String> = None;
                single_grain(trait_, &item.base_value, thing, &none)
            },
        };
        append_grains(&mut out, more);
        i += 1;
    }
    assert(items.deep_view().take(items.len() as int) =~= items.deep_view());
    out
}

/// Every `(trait_, thing)` fact that `entry` holds: see [`mown`].
pub fn mow(entry: &Entry, trait_: &str, thing: &str) -> (r: Vec<Grain>)
    ensures
        r.deep_view() == mown(entry@, trait_@, thing@),
    decreases entry,
{
    proof {
        lemma_entry_leaves(*entry);
    }
    if same_text(entry.base.as_str(), thing) {
        if same_text(trait_, entry.base.as_str()) {
            return single_grain(entry.base.as_str(), &entry.base_value, trait_, &entry.base_value);
        }
        return match find(&entry.leaves, trait_) {
            Some(p) => child_grains(
                entry.base.as_str(),
                &entry.base_value,
                trait_,
                &entry.leaves[p].1,
            ),
            None => Vec::new(),
        };
    }
    if same_text(entry.base.as_str(), trait_) {
        return match find(&entry.leaves, thing) {
            Some(p) => child_grains(
                entry.base.as_str(),
                &entry.base_value,
                thing,
                &entry.leaves[p].1,
            ),
            None => {
                let none: Option<String> = None;
                single_grain(trait_, &entry.base_value, thing, &none)
            },
        };
    }
    if let Some(p) = find(&entry.leaves, trait_) {
        return trunk_item_grains(&entry.leaves[p].1, trait_, thing);
    }
    let mut out: Vec<Grain> = Vec::new();
    let mut i: usize = 0;
    assert(entry@.leaves.take(0) =~= Seq::<(Seq<char>, Seq<EntryModel>)>::empty());
    while i < entry.leaves.len()
        invariant
            i <= entry.leaves.len(),
            entry@.leaves == entry.leaves.deep_view(),
            out.deep_view() == mown_of_leaves(entry@.leaves.take(i as int), trait_@, thing@),
        decreases entry.leaves.len() - i,
    {
        let items = &entry.leaves[i].1;
        let mut list: Vec<Grain> = Vec::new();
        let mut j: usize = 0;
        assert(items.deep_view().take(0) =~= Seq::<EntryModel>::empty());
        while j < items.len()
            invariant
                i < entry.leaves.len(),
                items == &entry.leaves@[i as int].1,
                j <= items.len(),
                list.deep_view() == mown_of_items(items.deep_view().take(j as int), trait_@, thing@),
            decreases items.len() - j,
        {
            proof {
                assert(items.deep_view().take(j + 1).drop_last() =~= items.deep_view().take(
                    j as int,
                ));
                assert(items.deep_view().take(j + 1).last() == items@[j as int]@);
            }
            let more = mow(&items[j], trait_, thing);
            append_grains(&mut list, more);
            j += 1;
        }
        proof {
            assert(items.deep_view().take(items.len() as int) =~= items.deep_view());
            assert(entry@.leaves.take(i + 1).drop_last() =~= entry@.leaves.take(i as int));
            assert(entry@.leaves.take(i + 1).last().1 == items.deep_view());
        }
        append_grains(&mut out, list);
        i += 1;
    }
    assert(entry@.leaves.take(entry.leaves.len() as int) =~= entry@.leaves);
    out
}

impl Entry {
    /// Every `(trait_, thing)` fact that this entry holds: see [`mown`].
    pub fn mow(&self, trait_: &str, thing: &str) -> (r: Vec<Grain>)
        ensures
            r.deep_view() == mown(self@, trait_@, thing@),
    {
        mow(self, trait_, thing)
    }
}

} // verus!
