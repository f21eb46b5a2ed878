//! Writing a grain as a JSON value.
use vstd::prelude::*;
use crate::assoc::{bind, put};
use crate::entry::try_from::base_key;
use crate::grain::{Grain, GrainModel};
use crate::into_value::IntoValue;
use crate::value::{lemma_object, Value, ValueModel};

verus! {

/// The JSON value of an optional text: the string, or null.
pub open spec fn text_or_null(t: Option<Seq<char>>) -> ValueModel {
    match t {
        Some(s) => ValueModel::String(s),
        None => ValueModel::Null,
    }
}

/// The JSON value that stands for a grain: an object with the base under
/// `_`, the base value under the name of the base, and, where the grain has
/// a leaf value, that value under the name of the leaf. A base value that
/// is not known is written as null.
pub open spec fn value_of_grain(g: GrainModel) -> ValueModel {
    let named = seq![(base_key(), ValueModel::String(g.base))];
    let valued = put(named, g.base, text_or_null(g.base_value));
    match g.leaf_value {
        Some(s) => ValueModel::Object(put(valued, g.leaf, ValueModel::String(s))),
        None => ValueModel::Object(valued),
    }
}

/// Writes a grain as a JSON value: see [`value_of_grain`].
pub fn to_value(grain: &Grain) -> (v: Value)
    ensures
        v@ == value_of_grain(grain@),
{
    proof {
        reveal_strlit("_");
        assert("_"@ =~= base_key());
    }
    let mut members: Vec<(String, Value)> = Vec::new();
    members.push(("_".to_owned(), Value::String(grain.base.clone())));
    assert(members.deep_view() =~= seq![(base_key(), ValueModel::String(grain@.base))]);
    let base_value = match &grain.base_value {
        Some(s) => Value::String(s.clone()),
        None => Value::Null,
    };
    bind(&mut members, grain.base.clone(), base_value);
    match &grain.leaf_value {
        Some(s) => bind(&mut members, grain.leaf.clone(), Value::String(s.clone())),
        None => {},
    }
    proof {
        lemma_object(members);
    }
    Value::Object(members)
}

impl IntoValue for Grain {
    open spec fn as_value(&self) -> ValueModel {
        value_of_grain(self@)
    }

    fn into_value(self) -> (v: Value) {
        to_value(&self)
    }
}

} // verus!
