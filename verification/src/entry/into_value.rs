//! Writing an entry as a JSON value.
use vstd::prelude::*;
use crate::assoc::{bind, find, lookup, put};
use crate::entry::try_from::{base_key, leader_key};
use crate::entry::{lemma_entry_leaves, Entry, EntryModel};
use crate::into_value::IntoValue;
use crate::value::{lemma_array, lemma_object, Value, ValueModel};

verus! {

/// What a member holds after one more value was put under its name: the
/// value alone where the name was free, otherwise an array that ends with
/// the value.
pub open spec fn joined(existing: Option<ValueModel>, v: ValueModel) -> ValueModel {
    match existing {
        None => v,
        Some(ValueModel::Array(items)) => ValueModel::Array(items.push(v)),
        Some(other) => ValueModel::Array(seq![other, v]),
    }
}

/// The first members of the object of an entry: `_` with the base, then the
/// base value under the name of the base, then the leader under `__`.
pub open spec fn head_members(e: EntryModel) -> Seq<(Seq<char>, ValueModel)> {
    let named = seq![(base_key(), ValueModel::String(e.base))];
    let valued = match e.base_value {
        Some(s) => put(named, e.base, ValueModel::String(s)),
        None => named,
    };
    match e.leader_value {
        Some(s) => put(valued, leader_key(), ValueModel::String(s)),
        None => valued,
    }
}

/// The JSON value that stands for an entry: an object with the members of
/// [`head_members`] and one member for each list of children.
///
/// A child without children of its own is written as the string of its
/// value, and left out where it has none; any other child is written as an
/// object. A list of one child is written as that child, a longer one as an
/// array.
pub open spec fn value_of(e: EntryModel) -> ValueModel
    decreases e, 0nat,
{
    ValueModel::Object(with_leaves(head_members(e), e.leaves))
}

/// What a child is written as, or nothing where it is left out.
pub open spec fn item_value(child: EntryModel) -> Option<ValueModel>
    decreases child, 1nat,
{
    if child.leaves.len() == 0 {
        match child.base_value {
            Some(s) => Some(ValueModel::String(s)),
            None => None,
        }
    } else {
        Some(value_of(child))
    }
}

/// The members after the children of `leaves` were written, list after list.
pub open spec fn with_leaves(
    members: Seq<(Seq<char>, ValueModel)>,
    leaves: Seq<(Seq<char>, Seq<EntryModel>)>,
) -> Seq<(Seq<char>, ValueModel)>
    decreases leaves, 3nat,
{
    if leaves.len() == 0 {
        members
    } else {
        with_items(with_leaves(members, leaves.drop_last()), leaves.last().0, leaves.last().1)
    }
}

/// The members after `items` were written under `name`, item after item.
pub open spec fn with_items(
    members: Seq<(Seq<char>, ValueModel)>,
    name: Seq<char>,
    items: Seq<EntryModel>,
) -> Seq<(Seq<char>, ValueModel)>
    decreases items, 2nat,
{
    if items.len() == 0 {
        members
    } else {
        let before = with_items(members, name, items.drop_last());
        match item_value(items.last()) {
            Some(v) => put(before, name, joined(lookup(before, name), v)),
            None => before,
        }
    }
}

/// Puts one more value under `name`: see [`joined`].
fn join(members: &mut Vec<(String, Value)>, name: &str, value: Value)
    ensures
        final(members).deep_view() == put(
            old(members).deep_view(),
            name@,
            joined(lookup(old(members).deep_view(), name@), value@),
        ),
{
    let packed = match find(members, name) {
        None => value,
        Some(p) => match &members[p].1 {
            Value::Array(items) => {
                let mut grown: Vec<Value> = Vec::new();
                let mut i: usize = 0;
                while i < items.len()
                    invariant
                        i <= items.len(),
                        grown.len() == i,
                        forall|k: int| 0 <= k < i ==> (#[trigger] grown@[k])@ == items@[k]@,
                    decreases items.len() - i,
                {
                    grown.push(items[i].clone());
                    i += 1;
                }
                grown.push(value);
                proof {
                    lemma_array(*items);
                    lemma_array(grown);
                    assert(grown.deep_view() =~= items.deep_view().push(value@));
                }
                Value::Array(grown)
            },
            other => {
                let mut pair: Vec<Value> = Vec::new();
                pair.push(other.clone());
                pair.push(value);
                proof {
                    lemma_array(pair);
                    assert(pair.deep_view() =~= seq![other@, value@]);
                }
                Value::Array(pair)
            },
        },
    };
    bind(members, name.to_owned(), packed);
}

/// Writes an entry as a JSON value: see [`value_of`].
pub fn to_value(entry: &Entry) -> (v: Value)
    ensures
        v@ == value_of(entry@),
    decreases entry,
{
    proof {
        reveal_strlit("_");
        reveal_strlit("__");
        assert("_"@ =~= base_key());
        assert("__"@ =~= leader_key());
        lemma_entry_leaves(*entry);
    }
    let mut members: Vec<(String, Value)> = Vec::new();
    members.push(("_".to_owned(), Value::String(entry.base.clone())));
    assert(members.deep_view() =~= seq![(base_key(), ValueModel::String(entry@.base))]);
    match &entry.base_value {
        Some(s) => bind(&mut members, entry.base.clone(), Value::String(s.clone())),
        None => {},
    }
    match &entry.leader_value {
        Some(s) => bind(&mut members, "__".to_owned(), Value::String(s.clone())),
        None => {},
    }
    let ghost head = members.deep_view();
    let ghost leaves = entry@.leaves;
    let mut i: usize = 0;
    assert(leaves.take(0) =~= Seq::<(Seq<char>, Seq<EntryModel>)>::empty());
    while i < entry.leaves.len()
        invariant
            leaves == entry@.leaves,
            leaves == entry.leaves.deep_view(),
            i <= entry.leaves.len(),
            members.deep_view() == with_leaves(head, leaves.take(i as int)),
        decreases entry.leaves.len() - i,
    {
        let name = &entry.leaves[i].0;
        let items = &entry.leaves[i].1;
        let ghost start = members.deep_view();
        let mut j: usize = 0;
        proof {
            assert(leaves.take(i + 1).drop_last() =~= leaves.take(i as int));
            assert(leaves.take(i + 1).last() == leaves[i as int]);
            assert(items.deep_view().take(0) =~= Seq::<EntryModel>::empty());
        }
        while j < items.len()
            invariant
                i < entry.leaves.len(),
                name == &entry.leaves@[i as int].0,
                items == &entry.leaves@[i as int].1,
                j <= items.len(),
                members.deep_view() == with_items(start, name@, items.deep_view().take(j as int)),
            decreases items.len() - j,
        {
            let child = &items[j];
            proof {
                assert(items.deep_view().take(j + 1).drop_last() =~= items.deep_view().take(
                    j as int,
                ));
                assert(items.deep_view().take(j + 1).last() == child@);
                lemma_entry_leaves(*child);
            }
            if child.leaves.len() == 0 {
                match &child.base_value {
                    Some(s) => {
                        let text = Value::String(s.clone());
                        assert(item_value(child@) == Some(text@));
                        join(&mut members, name.as_str(), text);
                    },
                    None => {
                        assert(item_value(child@) is None);
                    },
                }
            } else {
                let written = to_value(child);
                assert(item_value(child@) == Some(written@));
                join(&mut members, name.as_str(), written);
            }
            j += 1;
        }
        assert(items.deep_view().take(items.len() as int) =~= items.deep_view());
        i += 1;
    }
    proof {
        assert(leaves.take(entry.leaves.len() as int) =~= leaves);
        lemma_object(members);
    }
    Value::Object(members)
}

impl IntoValue for Entry {
    open spec fn as_value(&self) -> ValueModel {
        value_of(self@)
    }

    fn into_value(self) -> (v: Value) {
        to_value(&self)
    }
}

} // verus!
