//! The JSON values that keep their facts when they are read as an entry and
//! written again.
use vstd::prelude::*;
use crate::assoc::{keys_distinct, lemma_put_distinct, lemma_put_pairs, lookup, put};
use crate::entry::into_value::value_of;
use crate::entry::round_trip::{lemma_round_trip, regular, regular_child};
use crate::entry::try_from::{
    base_key,
    children_of,
    entry_of,
    items_of_array,
    leader_key,
    leaves_of_members,
    reserved,
    text_member,
};
use crate::entry::EntryModel;
use crate::value::ValueModel;

verus! {

/// An object that stands for a child of the list `key`: it has the shape of
/// a query, and where it has no children of its own it is named like the
/// list, holds a value and names no leader.
pub open spec fn shaped_child(key: Seq<char>, v: ValueModel) -> bool
    decreases v, 1nat,
{
    &&& shaped(v)
    &&& match entry_of(v) {
        Some(c) => c.leaves.len() == 0 ==> c.base == key && c.base_value is Some
            && c.leader_value is None,
        None => true,
    }
}

/// An item of the array of the list `key`: a string or an object.
pub open spec fn shaped_item(key: Seq<char>, v: ValueModel) -> bool
    decreases v, 2nat,
{
    match v {
        ValueModel::String(_) => true,
        ValueModel::Object(_) => shaped_child(key, v),
        _ => false,
    }
}

/// The member `key` of a query: a string, an object, or an array of strings
/// and objects that is not empty.
pub open spec fn shaped_member(key: Seq<char>, v: ValueModel) -> bool
    decreases v, 3nat,
{
    match v {
        ValueModel::String(_) => true,
        ValueModel::Object(_) => shaped_child(key, v),
        ValueModel::Array(items) => items.len() > 0 && forall|j: int|
            0 <= j < items.len() ==> shaped_item(key, #[trigger] items[j]),
        _ => false,
    }
}

/// The JSON values that have the shape of a query.
///
/// The value is an object. Its member `_` is a string, not `__`, and names
/// the base; the member named like the base and the member `__`, where they
/// are there, are strings. Every other member is a [`shaped_member`].
pub open spec fn shaped(v: ValueModel) -> bool
    decreases v, 0nat,
{
    match v {
        ValueModel::Object(members) => match lookup(members, base_key()) {
            Some(ValueModel::String(base)) => {
                &&& base != leader_key()
                &&& text_member(members, base) is Some
                &&& text_member(members, leader_key()) is Some
                &&& forall|i: int|
                    0 <= i < members.len() && !reserved((#[trigger] members[i]).0, base)
                        ==> shaped_member(members[i].0, members[i].1)
            },
            _ => false,
        },
        _ => false,
    }
}

/// The lists are those of a regular entry of the base `base`.
pub open spec fn regular_lists(leaves: Seq<(Seq<char>, Seq<EntryModel>)>, base: Seq<char>) -> bool {
    &&& keys_distinct(leaves)
    &&& forall|i: int|
        0 <= i < leaves.len() ==> !reserved((#[trigger] leaves[i]).0, base) && leaves[i].1.len() > 0
    &&& forall|i: int, j: int|
        0 <= i < leaves.len() && 0 <= j < leaves[i].1.len() ==> regular_child(
            leaves[i].0,
            #[trigger] leaves[i].1[j],
        )
}

/// An object that stands for a child is read as a regular child.
proof fn lemma_shaped_child(key: Seq<char>, v: ValueModel)
    requires
        v is Object,
        shaped_child(key, v),
    ensures
        entry_of(v) is Some,
        regular_child(key, entry_of(v)->0),
    decreases v, 1nat,
{
    lemma_shaped_read(v);
    let c = entry_of(v)->0;
    if c.leaves.len() == 0 {
        assert(c.leaves =~= Seq::empty());
    }
}

/// The items of an array of a query are read as regular children, one for
/// each item.
proof fn lemma_shaped_array(key: Seq<char>, items: Seq<ValueModel>)
    requires
        forall|j: int| 0 <= j < items.len() ==> shaped_item(key, #[trigger] items[j]),
    ensures
        items_of_array(key, items) is Some,
        items_of_array(key, items)->0.len() == items.len(),
        forall|j: int|
            0 <= j < items.len() ==> regular_child(key, #[trigger] items_of_array(key, items)->0[j]),
    decreases items, 2nat,
{
    if items.len() > 0 {
        let first = items.drop_last();
        let n = items.len() - 1;
        assert forall|j: int| 0 <= j < first.len() implies shaped_item(key, #[trigger] first[j]) by {
            assert(first[j] == items[j]);
        }
        lemma_shaped_array(key, first);
        assert(items.last() == items[n]);
        assert(shaped_item(key, items[n]));
        if items[n] is Object {
            lemma_shaped_child(key, items[n]);
        }
        let rest = items_of_array(key, first)->0;
        let all = items_of_array(key, items)->0;
        assert forall|j: int| 0 <= j < items.len() implies regular_child(key, #[trigger] all[j]) by {
            if j < n {
                assert(all[j] == rest[j]);
            }
        }
    }
}

/// A member of a query is read as a list of regular children that is not
/// empty.
proof fn lemma_shaped_children(key: Seq<char>, v: ValueModel)
    requires
        shaped_member(key, v),
    ensures
        children_of(key, v) is Some,
        children_of(key, v)->0.len() > 0,
        forall|j: int|
            0 <= j < children_of(key, v)->0.len() ==> regular_child(
                key,
                #[trigger] children_of(key, v)->0[j],
            ),
    decreases v, 3nat,
{
    match v {
        ValueModel::Array(items) => {
            lemma_shaped_array(key, items);
        },
        ValueModel::Object(_) => {
            lemma_shaped_child(key, v);
        },
        _ => {},
    }
}

/// The members of a query are read as the lists of a regular entry.
proof fn lemma_shaped_members(members: Seq<(Seq<char>, ValueModel)>, base: Seq<char>)
    requires
        forall|i: int|
            0 <= i < members.len() && !reserved((#[trigger] members[i]).0, base) ==> shaped_member(
                members[i].0,
                members[i].1,
            ),
    ensures
        leaves_of_members(members, base) is Some,
        regular_lists(leaves_of_members(members, base)->0, base),
    decreases members, 4nat,
{
    if members.len() > 0 {
        let first = members.drop_last();
        let n = members.len() - 1;
        assert forall|i: int|
            0 <= i < first.len() && !reserved((#[trigger] first[i]).0, base) implies shaped_member(
            first[i].0,
            first[i].1,
        ) by {
            assert(first[i] == members[i]);
        }
        lemma_shaped_members(first, base);
        let rest = leaves_of_members(first, base)->0;
        let key = members.last().0;
        assert(members.last() == members[n]);
        if !reserved(key, base) {
            lemma_shaped_children(key, members[n].1);
            let items = children_of(key, members[n].1)->0;
            let all = put(rest, key, items);
            lemma_put_distinct(rest, key, items);
            lemma_put_pairs(rest, key, items);
            assert forall|i: int| 0 <= i < all.len() implies !reserved((#[trigger] all[i]).0, base)
                && all[i].1.len() > 0 by {
                if all[i] != (key, items) {
                    assert(all[i] == rest[i]);
                }
            }
            assert forall|i: int, j: int|
                0 <= i < all.len() && 0 <= j < all[i].1.len() implies regular_child(
                all[i].0,
                #[trigger] all[i].1[j],
            ) by {
                if all[i] != (key, items) {
                    assert(all[i] == rest[i]);
                    assert(regular_child(rest[i].0, rest[i].1[j]));
                }
            }
        }
    }
}

/// A JSON value that has the shape of a query is read as a regular entry.
pub proof fn lemma_shaped_read(v: ValueModel)
    requires
        shaped(v),
    ensures
        entry_of(v) is Some,
        regular(entry_of(v)->0),
    decreases v, 0nat,
{
    match v {
        ValueModel::Object(members) => {
            match lookup(members, base_key()) {
                Some(ValueModel::String(base)) => {
                    lemma_shaped_members(members, base);
                },
                _ => {},
            }
        },
        _ => {},
    }
}

/// What is written for the entry that was read from a query states what
/// the query states.
///
/// A JSON value that has the shape of a query is read as an entry; what
/// that entry is written as is read as the same entry again. So the two
/// values name the same base, base value and leader, and hold under each
/// name the same children in the same order; they can differ only in the
/// order of their members and in how a child is written.
pub proof fn lemma_written_states_the_same(v: ValueModel)
    requires
        shaped(v),
    ensures
        entry_of(v) is Some,
        entry_of(value_of(entry_of(v)->0)) == entry_of(v),
{
    lemma_shaped_read(v);
    lemma_round_trip(entry_of(v)->0);
}

} // verus!
