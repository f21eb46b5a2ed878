//! Writing an entry as JSON and reading it back.
use vstd::prelude::*;
use crate::assoc::{
    has_key,
    keys_distinct,
    lemma_lookup_concat,
    lemma_no_key,
    lemma_position,
    lemma_position_is,
    lemma_put,
    lemma_put_distinct,
    lemma_put_names,
    lemma_put_pairs,
    lookup,
    put,
};
use crate::entry::into_value::{head_members, item_value, value_of, with_items, with_leaves};
use crate::entry::sow::bare;
use crate::entry::try_from::{
    base_key,
    children_of,
    entry_of,
    items_of_array,
    leader_key,
    leaves_of_members,
    reserved,
    text_member,
};
use crate::entry::laws::lists_well_formed;
use crate::entry::{well_formed, EntryModel};
use crate::value::ValueModel;

verus! {

/// A child that is written so that it can be read back under the list
/// `name`: without children of its own it is the bare child of that name
/// with a value; otherwise it is regular itself.
pub open spec fn regular_child(name: Seq<char>, c: EntryModel) -> bool
    decreases c, 1nat,
{
    if c.leaves.len() == 0 {
        c.base_value is Some && c == bare(name, c.base_value)
    } else {
        regular(c)
    }
}

/// The entries that JSON keeps whole.
///
/// The base is not `__`, and an entry of base `_` holds `_` as its value, so
/// that the members of the entry itself do not run into each other. No two
/// lists have the same name, no list is named `_`, `__` or like the base, no
/// list is empty, and every child is a [`regular_child`] of its list.
pub open spec fn regular(e: EntryModel) -> bool
    decreases e, 0nat,
{
    &&& e.base != leader_key()
    &&& (e.base == base_key() ==> e.base_value == Some(base_key()))
    &&& keys_distinct(e.leaves)
    &&& forall|i: int|
        0 <= i < e.leaves.len() ==> !reserved((#[trigger] e.leaves[i]).0, e.base) && e.leaves[i].1.len()
            > 0
    &&& forall|i: int, j: int|
        0 <= i < e.leaves.len() && 0 <= j < e.leaves[i].1.len() ==> regular_child(
            e.leaves[i].0,
            #[trigger] e.leaves[i].1[j],
        )
}

/// What a child is written as.
pub open spec fn written(c: EntryModel) -> ValueModel {
    item_value(c)->0
}

/// What a list of children is written as: the one child alone, or an array
/// of them.
pub open spec fn packed(items: Seq<EntryModel>) -> ValueModel {
    if items.len() == 1 {
        written(items[0])
    } else {
        ValueModel::Array(Seq::new(items.len(), |j: int| written(items[j])))
    }
}

/// Writing the children of a list under a name that is still free adds one
/// member: the list, packed.
pub proof fn lemma_with_items_fresh(
    members: Seq<(Seq<char>, ValueModel)>,
    name: Seq<char>,
    items: Seq<EntryModel>,
)
    requires
        !has_key(members, name),
        items.len() > 0,
        forall|j: int|
            0 <= j < items.len() ==> item_value(#[trigger] items[j]) is Some && !(written(
                items[j],
            ) is Array),
    ensures
        with_items(members, name, items) == members.push((name, packed(items))),
    decreases items.len(),
{
    let v = written(items.last());
    assert(item_value(items[items.len() - 1]) is Some);
    if items.len() == 1 {
        assert(items.drop_last() =~= Seq::<EntryModel>::empty());
        assert(with_items(members, name, items.drop_last()) == members);
        assert(items[0] == items.last());
    } else {
        let first = items.drop_last();
        assert forall|j: int| 0 <= j < first.len() implies item_value(#[trigger] first[j]) is Some
            && !(written(first[j]) is Array) by {
            assert(first[j] == items[j]);
        }
        lemma_with_items_fresh(members, name, first);
        let before = members.push((name, packed(first)));
        assert forall|j: int| 0 <= j < members.len() implies (#[trigger] before[j]).0 != name by {
            lemma_position(members, name);
            assert(members[j].0 != name);
        }
        lemma_position_is(before, name, members.len() as int);
        if first.len() == 1 {
            assert(first[0] == items[0]);
            assert(seq![written(items[0]), v] =~= Seq::new(
                items.len(),
                |j: int| written(items[j]),
            ));
        } else {
            assert(Seq::new(first.len(), |j: int| written(first[j])).push(v) =~= Seq::new(
                items.len(),
                |j: int| written(items[j]),
            ));
        }
        assert(before.update(members.len() as int, (name, packed(items))) =~= members.push(
            (name, packed(items)),
        ));
    }
}

/// The members that the lists of an entry are written as, list for list.
pub open spec fn packed_lists(leaves: Seq<(Seq<char>, Seq<EntryModel>)>) -> Seq<
    (Seq<char>, ValueModel),
> {
    Seq::new(leaves.len(), |i: int| (leaves[i].0, packed(leaves[i].1)))
}

/// Writing lists whose names are all free and all different adds one member
/// for each list, in order.
pub proof fn lemma_with_leaves_fresh(
    members: Seq<(Seq<char>, ValueModel)>,
    leaves: Seq<(Seq<char>, Seq<EntryModel>)>,
)
    requires
        keys_distinct(leaves),
        forall|i: int| 0 <= i < leaves.len() ==> !has_key(members, (#[trigger] leaves[i]).0),
        forall|i: int| 0 <= i < leaves.len() ==> (#[trigger] leaves[i]).1.len() > 0,
        forall|i: int, j: int|
            0 <= i < leaves.len() && 0 <= j < leaves[i].1.len() ==> item_value(
                #[trigger] leaves[i].1[j],
            ) is Some && !(written(leaves[i].1[j]) is Array),
    ensures
        with_leaves(members, leaves) == members + packed_lists(leaves),
    decreases leaves.len(),
{
    if leaves.len() == 0 {
        assert(members + packed_lists(leaves) =~= members);
    } else {
        let first = leaves.drop_last();
        let name = leaves.last().0;
        let items = leaves.last().1;
        let n = leaves.len() - 1;
        assert(leaves[n] == leaves.last());
        assert forall|i: int| 0 <= i < first.len() implies !has_key(members, (#[trigger] first[i]).0)
            && first[i].1.len() > 0 by {
            assert(first[i] == leaves[i]);
        }
        assert forall|i: int, j: int|
            0 <= i < first.len() && 0 <= j < first[i].1.len() implies item_value(
            #[trigger] first[i].1[j],
        ) is Some && !(written(first[i].1[j]) is Array) by {
            assert(first[i] == leaves[i]);
            assert(item_value(leaves[i].1[j]) is Some);
        }
        assert(keys_distinct(first)) by {
            assert forall|i: int, j: int| 0 <= i < j < first.len() implies first[i].0
                != first[j].0 by {
                assert(first[i] == leaves[i] && first[j] == leaves[j]);
            }
        }
        lemma_with_leaves_fresh(members, first);
        let before = members + packed_lists(first);
        assert forall|i: int| 0 <= i < packed_lists(first).len() implies (#[trigger] packed_lists(
            first,
        )[i]).0 != name by {
            assert(first[i] == leaves[i]);
            assert(leaves[i].0 != leaves[n].0);
        }
        lemma_no_key(packed_lists(first), name);
        lemma_lookup_concat(members, packed_lists(first), name);
        assert forall|j: int| 0 <= j < items.len() implies item_value(#[trigger] items[j]) is Some
            && !(written(items[j]) is Array) by {
            assert(items[j] == leaves[n].1[j]);
            assert(item_value(leaves[n].1[j]) is Some);
        }
        lemma_with_items_fresh(before, name, items);
        assert(before.push((name, packed(items))) =~= members + packed_lists(leaves));
    }
}

/// Members whose names are all taken by the entry itself stand for no list.
pub proof fn lemma_reserved_members(members: Seq<(Seq<char>, ValueModel)>, base: Seq<char>)
    requires
        forall|i: int| 0 <= i < members.len() ==> reserved((#[trigger] members[i]).0, base),
    ensures
        leaves_of_members(members, base) == Some(Seq::<(Seq<char>, Seq<EntryModel>)>::empty()),
    decreases members.len(),
{
    if members.len() > 0 {
        let first = members.drop_last();
        assert forall|i: int| 0 <= i < first.len() implies reserved((#[trigger] first[i]).0, base) by {
            assert(first[i] == members[i]);
        }
        lemma_reserved_members(first, base);
        assert(members.last() == members[members.len() - 1]);
    }
}

/// The items of an array of written children are read back as the children.
pub proof fn lemma_read_array(name: Seq<char>, items: Seq<EntryModel>, n: int)
    requires
        0 <= n <= items.len(),
        forall|j: int| 0 <= j < items.len() ==> #[trigger] reads_back(name, items[j]),
    ensures
        items_of_array(name, Seq::new(items.len(), |j: int| written(items[j])).take(n)) == Some(
            items.take(n),
        ),
    decreases n,
{
    let values = Seq::new(items.len(), |j: int| written(items[j]));
    if n == 0 {
        assert(values.take(0) =~= Seq::<ValueModel>::empty());
        assert(items.take(0) =~= Seq::<EntryModel>::empty());
    } else {
        lemma_read_array(name, items, n - 1);
        assert(values.take(n).drop_last() =~= values.take(n - 1));
        assert(values.take(n).last() == written(items[n - 1]));
        assert(reads_back(name, items[n - 1]));
        assert(items.take(n - 1).push(items[n - 1]) =~= items.take(n));
    }
}

/// A child is written as a string or as an object, and what it is written
/// as is read back, under the list `name`, as the child.
pub open spec fn reads_back(name: Seq<char>, c: EntryModel) -> bool {
    &&& item_value(c) is Some
    &&& match written(c) {
        ValueModel::String(s) => c == bare(name, Some(s)),
        ValueModel::Object(_) => entry_of(written(c)) == Some(c),
        _ => false,
    }
}

/// A list of written children is read back as the children.
pub proof fn lemma_read_children(name: Seq<char>, items: Seq<EntryModel>)
    requires
        items.len() > 0,
        forall|j: int| 0 <= j < items.len() ==> #[trigger] reads_back(name, items[j]),
    ensures
        children_of(name, packed(items)) == Some(items),
{
    if items.len() == 1 {
        assert(reads_back(name, items[0]));
        assert(seq![items[0]] =~= items);
    } else {
        lemma_read_array(name, items, items.len() as int);
        let values = Seq::new(items.len(), |j: int| written(items[j]));
        assert(values.take(items.len() as int) =~= values);
        assert(items.take(items.len() as int) =~= items);
    }
}

/// The members of an entry's own, followed by its packed lists, are read
/// back as the lists.
pub proof fn lemma_read_members(
    head: Seq<(Seq<char>, ValueModel)>,
    leaves: Seq<(Seq<char>, Seq<EntryModel>)>,
    base: Seq<char>,
    n: int,
)
    requires
        0 <= n <= leaves.len(),
        forall|i: int| 0 <= i < head.len() ==> reserved((#[trigger] head[i]).0, base),
        keys_distinct(leaves),
        forall|i: int|
            0 <= i < leaves.len() ==> !reserved((#[trigger] leaves[i]).0, base) && leaves[i].1.len()
                > 0,
        forall|i: int, j: int|
            0 <= i < leaves.len() && 0 <= j < leaves[i].1.len() ==> reads_back(
                leaves[i].0,
                #[trigger] leaves[i].1[j],
            ),
    ensures
        leaves_of_members(head + packed_lists(leaves).take(n), base) == Some(leaves.take(n)),
    decreases n,
{
    let lists = packed_lists(leaves);
    if n == 0 {
        assert(head + lists.take(0) =~= head);
        assert(leaves.take(0) =~= Seq::<(Seq<char>, Seq<EntryModel>)>::empty());
        lemma_reserved_members(head, base);
    } else {
        lemma_read_members(head, leaves, base, n - 1);
        let members = head + lists.take(n);
        let name = leaves[n - 1].0;
        let items = leaves[n - 1].1;
        assert(members.drop_last() =~= head + lists.take(n - 1));
        assert(members.last() == (name, packed(items)));
        assert forall|j: int| 0 <= j < items.len() implies #[trigger] reads_back(name, items[j]) by {
            assert(reads_back(leaves[n - 1].0, leaves[n - 1].1[j]));
        }
        lemma_read_children(name, items);
        let rest = leaves.take(n - 1);
        assert forall|i: int| 0 <= i < rest.len() implies (#[trigger] rest[i]).0 != name by {
            assert(rest[i] == leaves[i]);
        }
        lemma_no_key(rest, name);
        assert(rest.push((name, items)) =~= leaves.take(n));
    }
}

/// The members of an entry's own are where they are looked for.
pub proof fn lemma_head(e: EntryModel)
    requires
        e.base != leader_key(),
        e.base == base_key() ==> e.base_value == Some(base_key()),
    ensures
        forall|i: int|
            0 <= i < head_members(e).len() ==> reserved((#[trigger] head_members(e)[i]).0, e.base),
        lookup(head_members(e), base_key()) == Some(ValueModel::String(e.base)),
        text_member(head_members(e), e.base) == Some(e.base_value),
        text_member(head_members(e), leader_key()) == Some(e.leader_value),
{
    assert(base_key().len() == 1 && leader_key().len() == 2);
    let named = seq![(base_key(), ValueModel::String(e.base))];
    lemma_position_is(named, base_key(), 0);
    if e.base != base_key() {
        lemma_no_key(named, e.base);
    }
    lemma_no_key(named, leader_key());
    let valued = match e.base_value {
        Some(s) => put(named, e.base, ValueModel::String(s)),
        None => named,
    };
    if let Some(s) = e.base_value {
        lemma_put(named, e.base, ValueModel::String(s), base_key());
        lemma_put(named, e.base, ValueModel::String(s), e.base);
        lemma_put(named, e.base, ValueModel::String(s), leader_key());
        lemma_put_names(named, e.base, ValueModel::String(s));
    }
    if let Some(l) = e.leader_value {
        lemma_put(valued, leader_key(), ValueModel::String(l), base_key());
        lemma_put(valued, leader_key(), ValueModel::String(l), e.base);
        lemma_put(valued, leader_key(), ValueModel::String(l), leader_key());
        lemma_put_names(valued, leader_key(), ValueModel::String(l));
    }
}

/// A regular entry that is written as JSON is read back as itself.
pub proof fn lemma_round_trip(e: EntryModel)
    requires
        regular(e),
    ensures
        entry_of(value_of(e)) == Some(e),
    decreases e,
{
    let head = head_members(e);
    let leaves = e.leaves;
    assert forall|i: int, j: int|
        0 <= i < leaves.len() && 0 <= j < leaves[i].1.len() implies reads_back(
        leaves[i].0,
        #[trigger] leaves[i].1[j],
    ) by {
        let c = leaves[i].1[j];
        assert(regular_child(leaves[i].0, c));
        if c.leaves.len() > 0 {
            lemma_round_trip(c);
        }
    }
    lemma_head(e);
    assert forall|i: int| 0 <= i < leaves.len() implies !has_key(head, (#[trigger] leaves[i]).0) by {
        let name = leaves[i].0;
        assert forall|k: int| 0 <= k < head.len() implies (#[trigger] head[k]).0 != name by {
            assert(reserved(head[k].0, e.base));
        }
        lemma_no_key(head, name);
    }
    assert forall|i: int, j: int|
        0 <= i < leaves.len() && 0 <= j < leaves[i].1.len() implies item_value(
        #[trigger] leaves[i].1[j],
    ) is Some && !(written(leaves[i].1[j]) is Array) by {
        assert(reads_back(leaves[i].0, leaves[i].1[j]));
    }
    lemma_with_leaves_fresh(head, leaves);
    let lists = packed_lists(leaves);
    let members = head + lists;
    assert(value_of(e) == ValueModel::Object(members));
    lemma_read_members(head, leaves, e.base, leaves.len() as int);
    assert(lists.take(leaves.len() as int) =~= lists);
    assert(leaves.take(leaves.len() as int) =~= leaves);
    assert forall|k: int| 0 <= k < lists.len() implies !reserved((#[trigger] lists[k]).0, e.base) by {
        assert(lists[k].0 == leaves[k].0);
    }
    assert(reserved(base_key(), e.base) && reserved(e.base, e.base) && reserved(
        leader_key(),
        e.base,
    ));
    lemma_no_key(lists, base_key());
    lemma_no_key(lists, e.base);
    lemma_no_key(lists, leader_key());
    lemma_lookup_concat(head, lists, base_key());
    lemma_lookup_concat(head, lists, e.base);
    lemma_lookup_concat(head, lists, leader_key());
}

/// What was read from JSON and is regular is written so that it is read
/// back the same: writing and reading again changes nothing.
pub proof fn lemma_json_round_trip(v: ValueModel)
    requires
        entry_of(v) is Some,
        regular(entry_of(v)->0),
    ensures
        entry_of(value_of(entry_of(v)->0)) == entry_of(v),
{
    lemma_round_trip(entry_of(v)->0);
}

/// The children read from the items of an array are well formed.
proof fn lemma_array_well_formed(key: Seq<char>, items: Seq<ValueModel>)
    requires
        items_of_array(key, items) is Some,
    ensures
        forall|j: int|
            0 <= j < items_of_array(key, items)->0.len() ==> well_formed(
                #[trigger] items_of_array(key, items)->0[j],
            ),
    decreases items, 0nat,
{
    if items.len() > 0 {
        lemma_array_well_formed(key, items.drop_last());
        let rest = items_of_array(key, items.drop_last())->0;
        let all = items_of_array(key, items)->0;
        if items.last() is Object {
            lemma_entry_of_well_formed(items.last());
        }
        assert forall|j: int| 0 <= j < all.len() implies well_formed(#[trigger] all[j]) by {
            if j < rest.len() {
                assert(all[j] == rest[j]);
            }
        }
    }
}

/// The children read from a member are well formed.
proof fn lemma_children_well_formed(key: Seq<char>, v: ValueModel)
    requires
        children_of(key, v) is Some,
    ensures
        forall|j: int|
            0 <= j < children_of(key, v)->0.len() ==> well_formed(
                #[trigger] children_of(key, v)->0[j],
            ),
    decreases v, 1nat,
{
    match v {
        ValueModel::Array(items) => {
            lemma_array_well_formed(key, items);
        },
        ValueModel::Object(_) => {
            lemma_entry_of_well_formed(v);
        },
        _ => {},
    }
}

/// The lists read from the members of an object are well formed.
proof fn lemma_members_well_formed(members: Seq<(Seq<char>, ValueModel)>, base: Seq<char>)
    requires
        leaves_of_members(members, base) is Some,
    ensures
        lists_well_formed(leaves_of_members(members, base)->0),
    decreases members, 2nat,
{
    if members.len() > 0 {
        lemma_members_well_formed(members.drop_last(), base);
        let rest = leaves_of_members(members.drop_last(), base)->0;
        let key = members.last().0;
        if !reserved(key, base) {
            lemma_children_well_formed(key, members.last().1);
            let items = children_of(key, members.last().1)->0;
            let all = put(rest, key, items);
            lemma_put_distinct(rest, key, items);
            lemma_put_pairs(rest, key, items);
            assert forall|i: int, j: int|
                0 <= i < all.len() && 0 <= j < all[i].1.len() implies well_formed(
                #[trigger] all[i].1[j],
            ) by {
                if all[i] != (key, items) {
                    assert(all[i].1[j] == rest[i].1[j]);
                }
            }
        }
    }
}

/// An entry read from JSON is well formed: no node of it has two lists of
/// the same name, whatever the JSON value held.
pub proof fn lemma_entry_of_well_formed(v: ValueModel)
    requires
        entry_of(v) is Some,
    ensures
        well_formed(entry_of(v)->0),
    decreases v, 0nat,
{
    match v {
        ValueModel::Object(members) => {
            match lookup(members, base_key()) {
                Some(ValueModel::String(base)) => {
                    lemma_members_well_formed(members, base);
                },
                _ => {},
            }
        },
        _ => {},
    }
}

} // verus!
