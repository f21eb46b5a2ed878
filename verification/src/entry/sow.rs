//! Writing one fact into a tree.
use vstd::prelude::*;
use crate::assoc::{bind, find, has_key, lookup, put};
use crate::entry::{lemma_entry_leaves, Entry, EntryModel};
use crate::error::Error;
use crate::grain::{Grain, GrainModel};
use crate::text::{copy_opt_text, same_opt_text, same_text};

verus! {

/// A node named `base` that holds `value` and has no children.
pub open spec fn bare(base: Seq<char>, value: Option<Seq<char>>) -> EntryModel {
    EntryModel { base, base_value: value, leader_value: None, leaves: Seq::empty() }
}

/// `leaves` with a bare child added at the end of the list named `name`,
/// which is made where there is none.
pub open spec fn with_added(
    leaves: Seq<(Seq<char>, Seq<EntryModel>)>,
    name: Seq<char>,
    value: Option<Seq<char>>,
) -> Seq<(Seq<char>, Seq<EntryModel>)> {
    let children = match lookup(leaves, name) {
        Some(old) => old.push(bare(name, value)),
        None => seq![bare(name, value)],
    };
    put(leaves, name, children)
}

/// Whether one of `items` holds `value`.
pub open spec fn holds_value(items: Seq<EntryModel>, value: Option<Seq<char>>) -> bool {
    exists|k: int| 0 <= k < items.len() && (#[trigger] items[k]).base_value == value
}

/// Whether the list named `name` has a child that holds `value`.
pub open spec fn has_child(
    leaves: Seq<(Seq<char>, Seq<EntryModel>)>,
    name: Seq<char>,
    value: Option<Seq<char>>,
) -> bool {
    lookup(leaves, name) matches Some(items) && holds_value(items, value)
}

/// `leaves` with the fact that a `name` child holds `value`: where the list
/// named `name` has such a child already, `leaves` as they are; otherwise
/// with a bare child added at the end of that list.
pub open spec fn with_child(
    leaves: Seq<(Seq<char>, Seq<EntryModel>)>,
    name: Seq<char>,
    value: Option<Seq<char>>,
) -> Seq<(Seq<char>, Seq<EntryModel>)> {
    if has_child(leaves, name, value) {
        leaves
    } else {
        with_added(leaves, name, value)
    }
}

/// An item of a trait list after the grain `g` was written: where the item
/// holds the grain's base value it gets the fact that a `thing` child holds
/// the grain's leaf value, otherwise it stays as it is.
pub open spec fn grafted(item: EntryModel, g: GrainModel, thing: Seq<char>) -> EntryModel {
    if item.base_value == g.base_value {
        EntryModel {
            base: item.base,
            base_value: item.base_value,
            leader_value: None,
            leaves: with_child(item.leaves, thing, g.leaf_value),
        }
    } else {
        item
    }
}

/// The tree `e` after the fact `g` was written into it, or `None` where that
/// would put a value on a node that holds another one.
///
/// - Where `e` is a `thing`: it takes the grain's leaf value as its own. A
///   grain without a leaf value changes nothing; a value that differs from
///   the one `e` holds is refused.
/// - Where `e` is a `trait_`: it gets a `thing` child with the grain's leaf
///   value, unless it has one.
/// - Where `e` has a `trait_` list: each item of it that holds the grain's
///   base value gets a `thing` child with the grain's leaf value, unless it
///   has one.
/// - Otherwise the fact is written into all its children.
///
/// Nothing is ever taken out, no list changes its order, and a fact that the
/// tree holds already is not written a second time. The names of the grain
/// play no part: `trait_` and `thing` say where the fact goes.
pub open spec fn sown(e: EntryModel, g: GrainModel, trait_: Seq<char>, thing: Seq<char>) -> Option<
    EntryModel,
>
    decreases e,
{
    if e.base == thing {
        match g.leaf_value {
            None => Some(e),
            Some(v) => if e.base_value is Some && e.base_value != Some(v) {
                None
            } else {
                Some(
                    EntryModel {
                        base: thing,
                        base_value: Some(v),
                        leader_value: None,
                        leaves: e.leaves,
                    },
                )
            },
        }
    } else if e.base == trait_ {
        Some(
            EntryModel {
                base: e.base,
                base_value: e.base_value,
                leader_value: None,
                leaves: with_child(e.leaves, thing, g.leaf_value),
            },
        )
    } else if has_key(e.leaves, trait_) {
        let items = lookup(e.leaves, trait_)->0;
        Some(
            EntryModel {
                base: e.base,
                base_value: e.base_value,
                leader_value: e.leader_value,
                leaves: put(e.leaves, trait_, Seq::new(items.len(), |k: int| grafted(items[k], g, thing))),
            },
        )
    } else if forall|i: int, j: int|
        0 <= i < e.leaves.len() && 0 <= j < e.leaves[i].1.len() ==> sown(
            #[trigger] e.leaves[i].1[j],
            g,
            trait_,
            thing,
        ) is Some {
        Some(
            EntryModel {
                base: e.base,
                base_value: e.base_value,
                leader_value: None,
                leaves: Seq::new(
                    e.leaves.len(),
                    |i: int|
                        if 0 <= i < e.leaves.len() {
                            (
                                e.leaves[i].0,
                                Seq::new(
                                    e.leaves[i].1.len(),
                                    |j: int|
                                        if 0 <= j < e.leaves[i].1.len() {
                                            sown(e.leaves[i].1[j], g, trait_, thing)->0
                                        } else {
                                            arbitrary()
                                        },
                                ),
                            )
                        } else {
                            arbitrary()
                        },
                ),
            },
        )
    } else {
        None
    }
}

/// A copy of `items`.
fn copy_entries(items: &Vec<Entry>) -> (r: Vec<Entry>)
    ensures
        r.deep_view() == items.deep_view(),
{
    let mut out: Vec<Entry> = Vec::new();
    let mut i: usize = 0;
    while i < items.len()
        invariant
            i <= items.len(),
            out.len() == i,
            forall|k: int| 0 <= k < i ==> (#[trigger] out@[k])@ == items@[k]@,
        decreases items.len() - i,
    {
        out.push(items[i].clone());
        i += 1;
    }
    assert(out.deep_view() =~= items.deep_view());
    out
}

/// Adds a bare child at the end of the list named `name`.
pub(crate) fn append_child(
    leaves: &mut Vec<(String, Vec<Entry>)>,
    name: &str,
    value: &Option<String>,
)
    ensures
        final(leaves).deep_view() == with_added(old(leaves).deep_view(), name@, value.deep_view()),
{
    let child = Entry {
        base: name.to_owned(),
        base_value: copy_opt_text(value),
        leader_value: None,
        leaves: Vec::new(),
    };
    proof {
        lemma_entry_leaves(child);
        assert(child@.leaves =~= Seq::empty());
        assert(child@ == bare(name@, value.deep_view()));
    }
    let mut children = match find(leaves, name) {
        Some(p) => copy_entries(&leaves[p].1),
        None => Vec::new(),
    };
    let ghost before = children.deep_view();
    children.push(child);
    proof {
        assert(children.deep_view() =~= before.push(bare(name@, value.deep_view())));
        if !has_key(leaves.deep_view(), name@) {
            assert(children.deep_view() =~= seq![bare(name@, value.deep_view())]);
        }
    }
    bind(leaves, name.to_owned(), children);
}

/// Whether one of `items` holds `value`.
fn any_holds(items: &Vec<Entry>, value: &Option<String>) -> (r: bool)
    ensures
        r == holds_value(items.deep_view(), value.deep_view()),
{
    let mut i: usize = 0;
    while i < items.len()
        invariant
            i <= items.len(),
            forall|k: int| 0 <= k < i ==> (#[trigger] items.deep_view()[k]).base_value != value.deep_view(),
        decreases items.len() - i,
    {
        assert(items.deep_view()[i as int] == items@[i as int]@);
        if same_opt_text(&items[i].base_value, value) {
            return true;
        }
        i += 1;
    }
    false
}

/// Adds a bare child to the list named `name`, unless that list has a child
/// that holds `value`.
pub(crate) fn add_child(leaves: &mut Vec<(String, Vec<Entry>)>, name: &str, value: &Option<String>)
    ensures
        final(leaves).deep_view() == with_child(old(leaves).deep_view(), name@, value.deep_view()),
{
    let present = match find(leaves, name) {
        Some(p) => any_holds(&leaves[p].1, value),
        None => false,
    };
    if !present {
        append_child(leaves, name, value);
    }
}

/// The items of a trait list after `grain` was written: see [`grafted`].
fn graft(items: &Vec<Entry>, grain: &Grain, thing: &str) -> (r: Vec<Entry>)
    ensures
        r.deep_view() == Seq::new(
            items.deep_view().len(),
            |k: int| grafted(items.deep_view()[k], grain@, thing@),
        ),
{
    let mut out: Vec<Entry> = Vec::new();
    let mut i: usize = 0;
    while i < items.len()
        invariant
            i <= items.len(),
            out.len() == i,
            forall|k: int| 0 <= k < i ==> (#[trigger] out@[k])@ == grafted(items@[k]@, grain@, thing@),
        decreases items.len() - i,
    {
        let item = &items[i];
        let mut copy = item.clone();
        proof {
            lemma_entry_leaves(copy);
        }
        if same_opt_text(&item.base_value, &grain.base_value) {
            add_child(&mut copy.leaves, thing, &grain.leaf_value);
            copy.leader_value = None;
            proof {
                lemma_entry_leaves(copy);
            }
        }
        out.push(copy);
        i += 1;
    }
    assert(out.deep_view() =~= Seq::new(
        items.deep_view().len(),
        |k: int| grafted(items.deep_view()[k], grain@, thing@),
    ));
    out
}

/// Writes the fact `grain` into a copy of `entry`: see [`sown`]. Fails with
/// `ConflictingValue`, and only so, where a node would lose the value it holds.
pub fn sow(entry: &Entry, grain: &Grain, trait_: &str, thing: &str) -> (r: Result<Entry, Error>)
    ensures
        r matches Ok(e) ==> sown(entry@, grain@, trait_@, thing@) == Some(e@),
        r matches Err(err) ==> err == Error::ConflictingValue && sown(
            entry@,
            grain@,
            trait_@,
            thing@,
        ) is None,
    decreases entry,
{
    proof {
        lemma_entry_leaves(*entry);
    }
    if same_text(entry.base.as_str(), thing) {
        return match &grain.leaf_value {
            None => Ok(entry.clone()),
            Some(v) => {
                let wanted = Some(v.clone());
                if entry.base_value.is_some() && !same_opt_text(&entry.base_value, &wanted) {
                    Err(Error::ConflictingValue)
                } else {
                    let mut e = entry.clone();
                    proof {
                        lemma_entry_leaves(e);
                    }
                    e.base = thing.to_owned();
                    e.base_value = wanted;
                    e.leader_value = None;
                    proof {
                        lemma_entry_leaves(e);
                    }
                    Ok(e)
                }
            },
        };
    }
    if same_text(entry.base.as_str(), trait_) {
        let mut e = entry.clone();
        proof {
            lemma_entry_leaves(e);
        }
        add_child(&mut e.leaves, thing, &grain.leaf_value);
        e.leader_value = None;
        proof {
            lemma_entry_leaves(e);
        }
        return Ok(e);
    }
    if let Some(p) = find(&entry.leaves, trait_) {
        let items = graft(&entry.leaves[p].1, grain, thing);
        let mut e = entry.clone();
        proof {
            lemma_entry_leaves(e);
        }
        bind(&mut e.leaves, trait_.to_owned(), items);
        proof {
            lemma_entry_leaves(e);
        }
        return Ok(e);
    }
    let mut leaves: Vec<(String, Vec<Entry>)> = Vec::new();
    let mut i: usize = 0;
    while i < entry.leaves.len()
        invariant
            i <= entry.leaves.len(),
            leaves.len() == i,
            entry@.leaves == entry.leaves.deep_view(),
            entry@.base != thing@,
            entry@.base != trait_@,
            !has_key(entry@.leaves, trait_@),
            forall|a: int|
                0 <= a < i ==> (#[trigger] leaves@[a]).0@ == entry@.leaves[a].0 && all_sown(
                    entry@.leaves[a].1,
                    leaves@[a].1.deep_view(),
                    grain@,
                    trait_@,
                    thing@,
                ),
        decreases entry.leaves.len() - i,
    {
        let list = match sow_items(&entry.leaves[i].1, grain, trait_, thing) {
            Ok(list) => list,
            Err(err) => {
                proof {
                    let j = choose|j: int|
                        0 <= j < entry@.leaves[i as int].1.len() && sown(
                            #[trigger] entry@.leaves[i as int].1[j],
                            grain@,
                            trait_@,
                            thing@,
                        ) is None;
                    assert(sown(entry@.leaves[i as int].1[j], grain@, trait_@, thing@) is None);
                }
                return Err(err);
            },
        };
        leaves.push((entry.leaves[i].0.clone(), list));
        i += 1;
    }
    let e = Entry {
        base: entry.base.clone(),
        base_value: copy_opt_text(&entry.base_value),
        leader_value: None,
        leaves,
    };
    proof {
        lemma_entry_leaves(e);
        assert forall|a: int, b: int|
            0 <= a < entry@.leaves.len() && 0 <= b < entry@.leaves[a].1.len() implies sown(
            #[trigger] entry@.leaves[a].1[b],
            grain@,
            trait_@,
            thing@,
        ) is Some by {
            assert(leaves@[a].1.deep_view()[b] == leaves@[a].1@[b]@);
        }
        let want = sown(entry@, grain@, trait_@, thing@)->0;
        assert forall|a: int| 0 <= a < e@.leaves.len() implies e@.leaves[a] == want.leaves[a] by {
            assert(leaves@[a].0@ == entry@.leaves[a].0);
            assert(e@.leaves[a].1 =~= want.leaves[a].1);
        }
        assert(e@.leaves =~= want.leaves);
    }
    Ok(e)
}

/// `out` holds, item for item, what `items` are after `g` was written.
pub open spec fn all_sown(
    items: Seq<EntryModel>,
    out: Seq<EntryModel>,
    g: GrainModel,
    trait_: Seq<char>,
    thing: Seq<char>,
) -> bool {
    &&& out.len() == items.len()
    &&& forall|b: int|
        0 <= b < items.len() ==> sown(#[trigger] items[b], g, trait_, thing) == Some(out[b])
}

/// Writes the fact `grain` into a copy of each of `items`.
fn sow_items(items: &Vec<Entry>, grain: &Grain, trait_: &str, thing: &str) -> (r: Result<
    Vec<Entry>,
    Error,
>)
    ensures
        r matches Ok(out) ==> all_sown(
            items.deep_view(),
            out.deep_view(),
            grain@,
            trait_@,
            thing@,
        ),
        r matches Err(err) ==> err == Error::ConflictingValue && exists|j: int|
            0 <= j < items.deep_view().len() && sown(
                #[trigger] items.deep_view()[j],
                grain@,
                trait_@,
                thing@,
            ) is None,
    decreases items,
{
    let mut out: Vec<Entry> = Vec::new();
    let mut j: usize = 0;
    while j < items.len()
        invariant
            j <= items.len(),
            out.len() == j,
            forall|b: int|
                0 <= b < j ==> sown(#[trigger] items.deep_view()[b], grain@, trait_@, thing@)
                    == Some(out.deep_view()[b]),
        decreases items.len() - j,
    {
        match sow(&items[j], grain, trait_, thing) {
            Ok(e) => {
                let ghost before = out.deep_view();
                out.push(e);
                assert(out.deep_view() =~= before.push(e@));
            },
            Err(err) => {
                assert(sown(items.deep_view()[j as int], grain@, trait_@, thing@) is None);
                return Err(err);
            },
        }
        j += 1;
    }
    Ok(out)
}

impl Entry {
    /// Writes the fact `grain` into a copy of this entry: see [`sown`].
    pub fn sow(&self, grain: &Grain, trait_: &str, thing: &str) -> (r: Result<Entry, Error>)
        ensures
            r matches Ok(e) ==> sown(self@, grain@, trait_@, thing@) == Some(e@),
            r matches Err(err) ==> err == Error::ConflictingValue && sown(
                self@,
                grain@,
                trait_@,
                thing@,
            ) is None,
    {
        sow(self, grain, trait_, thing)
    }
}

} // verus!
