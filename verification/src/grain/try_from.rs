//! Reading a grain from a JSON value.
use vstd::prelude::*;
use crate::assoc::lookup;
use crate::entry::try_from::{base_key, member_text, text_member};
use crate::error::Error;
use crate::grain::{Grain, GrainModel};
use crate::lists::lemma_filter_grows;
use crate::text::same_text;
use crate::value::{lemma_object, Value, ValueModel};

verus! {

/// The members of an object that are neither `_` nor named like the base.
pub open spec fn others(members: Seq<(Seq<char>, ValueModel)>, base: Seq<char>) -> Seq<
    (Seq<char>, ValueModel),
> {
    members.filter(|m: (Seq<char>, ValueModel)| m.0 != base_key() && m.0 != base)
}

/// The grain that a JSON value stands for, or nothing where the value does
/// not have the shape of a grain.
///
/// The value is an object. Its member `_` is a string and names the base; the
/// member named like the base, where there is one, is a string and holds the
/// base value. It has at most one other member; that one is a string, names
/// the leaf and holds the leaf value. Without it the leaf has the empty name
/// and no value.
pub open spec fn grain_of(v: ValueModel) -> Option<GrainModel> {
    match v {
        ValueModel::Object(members) => match lookup(members, base_key()) {
            Some(ValueModel::String(base)) => match text_member(members, base) {
                None => None,
                Some(base_value) => {
                    let rest = others(members, base);
                    if rest.len() == 0 {
                        Some(
                            GrainModel {
                                base,
                                base_value,
                                leaf: Seq::empty(),
                                leaf_value: None,
                            },
                        )
                    } else if rest.len() == 1 {
                        match rest[0].1 {
                            ValueModel::String(s) => Some(
                                GrainModel { base, base_value, leaf: rest[0].0, leaf_value: Some(s) },
                            ),
                            _ => None,
                        }
                    } else {
                        None
                    }
                },
            },
            _ => None,
        },
        _ => None,
    }
}

/// The grain that a JSON value stands for: see [`grain_of`]. A value of
/// another shape is refused as malformed.
pub fn try_from(value: &Value) -> (r: Result<Grain, Error>)
    ensures
        r matches Ok(g) ==> grain_of(value@) == Some(g@),
        r matches Err(err) ==> err == Error::MalformedQuery && grain_of(value@) is None,
{
    proof {
        reveal_strlit("_");
        assert("_"@ =~= base_key());
    }
    let members = match value {
        Value::Object(members) => members,
        _ => {
            return Err(Error::MalformedQuery);
        },
    };
    let ghost all = members.deep_view();
    proof {
        lemma_object(*members);
    }
    let base = match member_text(members, "_") {
        Some(Some(base)) => base,
        _ => {
            return Err(Error::MalformedQuery);
        },
    };
    let base_value = match member_text(members, base.as_str()) {
        Some(v) => v,
        None => {
            return Err(Error::MalformedQuery);
        },
    };
    let ghost pred = |m: (Seq<char>, ValueModel)| m.0 != base_key() && m.0 != base@;
    let mut found: Option<usize> = None;
    let mut i: usize = 0;
    proof {
        reveal(Seq::filter);
        assert(all.take(0) =~= Seq::<(Seq<char>, ValueModel)>::empty());
    }
    while i < members.len()
        invariant
            all == members.deep_view(),
            value@ == ValueModel::Object(all),
            lookup(all, base_key()) == Some(ValueModel::String(base@)),
            text_member(all, base@) == Some(base_value.deep_view()),
            "_"@ == base_key(),
            pred == |m: (Seq<char>, ValueModel)| m.0 != base_key() && m.0 != base@,
            i <= members.len(),
            found is None ==> all.take(i as int).filter(pred).len() == 0,
            found matches Some(p) ==> p < i && all.take(i as int).filter(pred) == seq![all[p as int]],
        decreases members.len() - i,
    {
        let key = &members[i].0;
        proof {
            reveal(Seq::filter);
            assert(all.take(i + 1).drop_last() =~= all.take(i as int));
            assert(all.take(i + 1).last() == all[i as int]);
        }
        if !same_text(key.as_str(), "_") && !same_text(key.as_str(), base.as_str()) {
            if found.is_some() {
                proof {
                    lemma_filter_grows(all, pred, i + 1);
                }
                return Err(Error::MalformedQuery);
            }
            found = Some(i);
            assert(all.take(i + 1).filter(pred) =~= seq![all[i as int]]);
        }
        i += 1;
    }
    assert(all.take(members.len() as int) =~= all);
    match found {
        None => Ok(Grain { base, base_value, leaf: String::new(), leaf_value: None }),
        Some(p) => match &members[p].1 {
            Value::String(s) => Ok(
                Grain { base, base_value, leaf: members[p].0.clone(), leaf_value: Some(s.clone()) },
            ),
            _ => Err(Error::MalformedQuery),
        },
    }
}

impl Grain {
    /// The grain that a JSON value stands for: see [`grain_of`].
    pub fn try_from(value: &Value) -> (r: Result<Grain, Error>)
        ensures
            r matches Ok(g) ==> grain_of(value@) == Some(g@),
            r matches Err(err) ==> err == Error::MalformedQuery && grain_of(value@) is None,
    {
        try_from(value)
    }
}

} // verus!
