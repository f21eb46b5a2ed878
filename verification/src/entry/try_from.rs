//! Reading an entry from a JSON value.
use vstd::prelude::*;
use crate::assoc::{bind, find, lookup, put};
use crate::entry::sow::bare;
use crate::entry::{lemma_entry_leaves, Entry, EntryModel};
use crate::error::Error;
use crate::text::same_text;
use crate::value::{lemma_object, Value, ValueModel};

verus! {

/// The member name under which an object names its base.
pub open spec fn base_key() -> Seq<char> {
    seq!['_']
}

/// The member name under which a query names the leaf it wants projected.
pub open spec fn leader_key() -> Seq<char> {
    seq!['_', '_']
}

/// The text of the member `key`: absent where the object has no such member,
/// and nothing at all where the member is not a string.
pub open spec fn text_member(members: Seq<(Seq<char>, ValueModel)>, key: Seq<char>) -> Option<
    Option<Seq<char>>,
> {
    match lookup(members, key) {
        None => Some(None),
        Some(ValueModel::String(s)) => Some(Some(s)),
        Some(_) => None,
    }
}

/// The entry that a JSON value stands for, or nothing where the value does
/// not have the shape of an entry.
///
/// The value is an object. Its member `_` is a string and names the base; the
/// member named like the base, where there is one, is a string and holds the
/// base value; the member `__`, where there is one, is a string and names the
/// leader. Every other member is a list of children: a string stands for one
/// child without children of its own, an object for one entry, and an array
/// for one child for each of its items, which are strings or objects.
pub open spec fn entry_of(v: ValueModel) -> Option<EntryModel>
    decreases v, 0nat,
{
    match v {
        ValueModel::Object(members) => match lookup(members, base_key()) {
            Some(ValueModel::String(base)) => match (
                text_member(members, base),
                text_member(members, leader_key()),
                leaves_of_members(members, base),
            ) {
                (Some(base_value), Some(leader_value), Some(leaves)) => Some(
                    EntryModel { base, base_value, leader_value, leaves },
                ),
                _ => None,
            },
            _ => None,
        },
        _ => None,
    }
}

/// Whether a member name is taken by the entry itself: `_`, `__`, or the
/// name of the base.
pub open spec fn reserved(key: Seq<char>, base: Seq<char>) -> bool {
    key == base_key() || key == base || key == leader_key()
}

/// The lists of children that the members of an object stand for, member
/// after member.
pub open spec fn leaves_of_members(
    members: Seq<(Seq<char>, ValueModel)>,
    base: Seq<char>,
) -> Option<Seq<(Seq<char>, Seq<EntryModel>)>>
    decreases members, 2nat,
{
    if members.len() == 0 {
        Some(Seq::empty())
    } else {
        match leaves_of_members(members.drop_last(), base) {
            None => None,
            Some(rest) => if reserved(members.last().0, base) {
                Some(rest)
            } else {
                match children_of(members.last().0, members.last().1) {
                    None => None,
                    Some(items) => Some(put(rest, members.last().0, items)),
                }
            },
        }
    }
}

/// The children that the member `key` stands for.
pub open spec fn children_of(key: Seq<char>, v: ValueModel) -> Option<Seq<EntryModel>>
    decreases v, 1nat,
{
    match v {
        ValueModel::String(s) => Some(seq![bare(key, Some(s))]),
        ValueModel::Array(items) => items_of_array(key, items),
        ValueModel::Object(_) => match entry_of(v) {
            Some(e) => Some(seq![e]),
            None => None,
        },
        _ => None,
    }
}

/// The children that the items of an array stand for, item after item.
pub open spec fn items_of_array(key: Seq<char>, items: Seq<ValueModel>) -> Option<Seq<EntryModel>>
    decreases items, 0nat,
{
    if items.len() == 0 {
        Some(Seq::empty())
    } else {
        match items_of_array(key, items.drop_last()) {
            None => None,
            Some(rest) => match items.last() {
                ValueModel::String(s) => Some(rest.push(bare(key, Some(s)))),
                ValueModel::Object(_) => match entry_of(items.last()) {
                    Some(e) => Some(rest.push(e)),
                    None => None,
                },
                _ => None,
            },
        }
    }
}

/// A child named `key` that holds `value` and has no children.
pub(crate) fn bare_entry(key: &str, value: &str) -> (r: Entry)
    ensures
        r@ == bare(key@, Some(value@)),
{
    let r = Entry {
        base: key.to_owned(),
        base_value: Some(value.to_owned()),
        leader_value: None,
        leaves: Vec::new(),
    };
    proof {
        lemma_entry_leaves(r);
        assert(r@.leaves =~= Seq::empty());
    }
    r
}

/// The text of the member `key`: see [`text_member`].
pub(crate) fn member_text(members: &Vec<(String, Value)>, key: &str) -> (r: Option<Option<String>>)
    ensures
        r.deep_view() == text_member(members.deep_view(), key@),
{
    match find(members, key) {
        None => Some(None),
        Some(p) => match &members[p].1 {
            Value::String(s) => Some(Some(s.clone())),
            _ => None,
        },
    }
}

/// A failure on the first items of an array is the failure of the array.
proof fn lemma_array_failure_stays(key: Seq<char>, items: Seq<ValueModel>, n: int)
    requires
        0 <= n <= items.len(),
        items_of_array(key, items.take(n)) is None,
    ensures
        items_of_array(key, items) is None,
    decreases items.len() - n,
{
    if n < items.len() {
        assert(items.take(n + 1).drop_last() =~= items.take(n));
        lemma_array_failure_stays(key, items, n + 1);
    } else {
        assert(items.take(n) =~= items);
    }
}

/// A failure on the first members of an object is the failure of the object.
proof fn lemma_members_failure_stays(
    members: Seq<(Seq<char>, ValueModel)>,
    base: Seq<char>,
    n: int,
)
    requires
        0 <= n <= members.len(),
        leaves_of_members(members.take(n), base) is None,
    ensures
        leaves_of_members(members, base) is None,
    decreases members.len() - n,
{
    if n < members.len() {
        assert(members.take(n + 1).drop_last() =~= members.take(n));
        lemma_members_failure_stays(members, base, n + 1);
    } else {
        assert(members.take(n) =~= members);
    }
}

/// The children that the member `key` stands for: see [`children_of`].
fn children(key: &str, value: &Value) -> (r: Option<Vec<Entry>>)
    ensures
        r.deep_view() == children_of(key@, value@),
    decreases value, 1nat,
{
    match value {
        Value::String(s) => {
            let mut out: Vec<Entry> = Vec::new();
            let child = bare_entry(key, s.as_str());
            out.push(child);
            assert(out.deep_view() =~= seq![bare(key@, Some(s@))]);
            Some(out)
        },
        Value::Array(items) => {
            let ghost all = value@->Array_0;
            let mut out: Vec<Entry> = Vec::new();
            let mut i: usize = 0;
            proof {
                crate::value::lemma_array(*items);
                assert(all.take(0) =~= Seq::<ValueModel>::empty());
                assert(out.deep_view() =~= Seq::<EntryModel>::empty());
            }
            while i < items.len()
                invariant
                    *value is Array,
                    *items == value->Array_0,
                    all == items.deep_view(),
                    value@ == ValueModel::Array(all),
                    i <= items.len(),
                    items_of_array(key@, all.take(i as int)) == Some(out.deep_view()),
                decreases items.len() - i,
            {
                proof {
                    assert(all.take(i + 1).drop_last() =~= all.take(i as int));
                    assert(all.take(i + 1).last() == items@[i as int]@);
                }
                let ghost before = out.deep_view();
                match &items[i] {
                    Value::String(s) => {
                        let child = bare_entry(key, s.as_str());
                        out.push(child);
                        assert(out.deep_view() =~= before.push(child@));
                    },
                    Value::Object(_) => match try_from(&items[i]) {
                        Ok(e) => {
                            out.push(e);
                            assert(out.deep_view() =~= before.push(e@));
                        },
                        Err(_) => {
                            proof {
                                lemma_array_failure_stays(key@, all, i + 1);
                            }
                            return None;
                        },
                    },
                    _ => {
                        proof {
                            lemma_array_failure_stays(key@, all, i + 1);
                        }
                        return None;
                    },
                }
                i += 1;
            }
            assert(all.take(items.len() as int) =~= all);
            Some(out)
        },
        Value::Object(_) => match try_from(value) {
            Ok(e) => {
                let mut out: Vec<Entry> = Vec::new();
                out.push(e);
                assert(out.deep_view() =~= seq![e@]);
                Some(out)
            },
            Err(_) => None,
        },
        _ => None,
    }
}

/// The entry that a JSON value stands for: see [`entry_of`]. A value of
/// another shape is refused as malformed.
pub fn try_from(value: &Value) -> (r: Result<Entry, Error>)
    ensures
        r matches Ok(e) ==> entry_of(value@) == Some(e@),
        r matches Err(err) ==> err == Error::MalformedQuery && entry_of(value@) is None,
    decreases value, 0nat,
{
    proof {
        reveal_strlit("_");
        reveal_strlit("__");
        assert("_"@ =~= base_key());
        assert("__"@ =~= leader_key());
    }
    let members = match value {
        Value::Object(members) => members,
        _ => {
            return Err(Error::MalformedQuery);
        },
    };
    let ghost all = members.deep_view();
    proof {
        lemma_object(*members);
    }
    let base = match member_text(members, "_") {
        Some(Some(base)) => base,
        _ => {
            return Err(Error::MalformedQuery);
        },
    };
    let base_value = match member_text(members, base.as_str()) {
        Some(v) => v,
        None => {
            return Err(Error::MalformedQuery);
        },
    };
    let leader_value = match member_text(members, "__") {
        Some(v) => v,
        None => {
            return Err(Error::MalformedQuery);
        },
    };
    let mut leaves: Vec<(String, Vec<Entry>)> = Vec::new();
    let mut i: usize = 0;
    proof {
        assert(all.take(0) =~= Seq::<(Seq<char>, ValueModel)>::empty());
        assert(leaves.deep_view() =~= Seq::<(Seq<char>, Seq<EntryModel>)>::empty());
    }
    while i < members.len()
        invariant
            *value is Object,
            *members == value->Object_0,
            all == members.deep_view(),
            value@ == ValueModel::Object(all),
            lookup(all, base_key()) == Some(ValueModel::String(base@)),
            "_"@ == base_key(),
            "__"@ == leader_key(),
            i <= members.len(),
            leaves_of_members(all.take(i as int), base@) == Some(leaves.deep_view()),
        decreases members.len() - i,
    {
        let key = &members[i].0;
        proof {
            assert(all.take(i + 1).drop_last() =~= all.take(i as int));
            assert(all.take(i + 1).last() == (key@, members@[i as int].1@));
        }
        let taken = same_text(key.as_str(), "_") || same_text(key.as_str(), base.as_str())
            || same_text(key.as_str(), "__");
        if !taken {
            match children(key.as_str(), &members[i].1) {
                Some(items) => bind(&mut leaves, key.clone(), items),
                None => {
                    proof {
                        lemma_members_failure_stays(all, base@, i + 1);
                    }
                    return Err(Error::MalformedQuery);
                },
            }
        }
        i += 1;
    }
    assert(all.take(members.len() as int) =~= all);
    let e = Entry { base, base_value, leader_value, leaves };
    proof {
        lemma_entry_leaves(e);
    }
    Ok(e)
}

impl Entry {
    /// The entry that a JSON value stands for: see [`entry_of`].
    pub fn try_from(value: &Value) -> (r: Result<Entry, Error>)
        ensures
            r matches Ok(e) ==> entry_of(value@) == Some(e@),
            r matches Err(err) ==> err == Error::MalformedQuery && entry_of(value@) is None,
    {
        try_from(value)
    }
}

} // verus!
