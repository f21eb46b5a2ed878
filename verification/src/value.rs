//! JSON values, as far as queries and results are written in them.
use vstd::prelude::*;

verus! {

/// A JSON value. A number is kept as the text it was written with; the
/// members of an object are kept in their order, and a name is looked up from
/// the front.
#[derive(Debug)]
pub enum Value {
    Null,
    Bool(bool),
    Number(String),
    String(String),
    Array(Vec<Value>),
    Object(Vec<(String, Value)>),
}

/// What a `Value` stands for.
pub ghost enum ValueModel {
    Null,
    Bool(bool),
    Number(Seq<char>),
    String(Seq<char>),
    Array(Seq<ValueModel>),
    Object(Seq<(Seq<char>, ValueModel)>),
}

/// The model of a value, member by member.
pub open spec fn value_model(v: Value) -> ValueModel
    decreases v,
{
    match v {
        Value::Null => ValueModel::Null,
        Value::Bool(b) => ValueModel::Bool(b),
        Value::Number(n) => ValueModel::Number(n@),
        Value::String(s) => ValueModel::String(s@),
        Value::Array(items) => ValueModel::Array(
            Seq::new(
                items@.len(),
                |i: int|
                    if 0 <= i < items@.len() {
                        value_model(items@[i])
                    } else {
                        arbitrary()
                    },
            ),
        ),
        Value::Object(members) => ValueModel::Object(
            Seq::new(
                members@.len(),
                |i: int|
                    if 0 <= i < members@.len() {
                        (members@[i].0@, value_model(members@[i].1))
                    } else {
                        arbitrary()
                    },
            ),
        ),
    }
}

impl View for Value {
    type V = ValueModel;

    open spec fn view(&self) -> ValueModel {
        value_model(*self)
    }
}

impl DeepView for Value {
    type V = ValueModel;

    open spec fn deep_view(&self) -> ValueModel {
        value_model(*self)
    }
}

/// The model of an array is made of the models of its items.
pub proof fn lemma_array(items: Vec<Value>)
    ensures
        Value::Array(items)@ == ValueModel::Array(items.deep_view()),
{
    assert(Value::Array(items)@->Array_0 =~= items.deep_view());
}

/// The model of an object is made of the models of its members.
pub proof fn lemma_object(members: Vec<(String, Value)>)
    ensures
        Value::Object(members)@ == ValueModel::Object(members.deep_view()),
{
    assert(Value::Object(members)@->Object_0 =~= members.deep_view());
}

impl Clone for Value {
    fn clone(&self) -> (r: Value)
        ensures
            r@ == self@,
        decreases self,
    {
        match self {
            Value::Null => Value::Null,
            Value::Bool(b) => Value::Bool(*b),
            Value::Number(n) => Value::Number(n.clone()),
            Value::String(s) => Value::String(s.clone()),
            Value::Array(items) => {
                let mut out: Vec<Value> = Vec::new();
                let mut i: usize = 0;
                while i < items.len()
                    invariant
                        *self is Array,
                        *items == self->Array_0,
                        i <= items.len(),
                        out.len() == i,
                        forall|k: int| 0 <= k < i ==> (#[trigger] out@[k])@ == items@[k]@,
                    decreases items.len() - i,
                {
                    out.push(items[i].clone());
                    i += 1;
                }
                proof {
                    assert(out.deep_view() =~= items.deep_view());
                    lemma_array(out);
                    lemma_array(*items);
                }
                Value::Array(out)
            },
            Value::Object(members) => {
                let mut out: Vec<(String, Value)> = Vec::new();
                let mut i: usize = 0;
                while i < members.len()
                    invariant
                        *self is Object,
                        *members == self->Object_0,
                        i <= members.len(),
                        out.len() == i,
                        forall|k: int|
                            0 <= k < i ==> (#[trigger] out@[k]).0@ == members@[k].0@ && out@[k].1@
                                == members@[k].1@,
                    decreases members.len() - i,
                {
                    out.push((members[i].0.clone(), members[i].1.clone()));
                    i += 1;
                }
                proof {
                    assert forall|k: int| 0 <= k < out.len() implies out.deep_view()[k]
                        == members.deep_view()[k] by {
                        assert(out@[k].0@ == members@[k].0@);
                    }
                    assert(out.deep_view() =~= members.deep_view());
                    lemma_object(out);
                    lemma_object(*members);
                }
                Value::Object(out)
            },
        }
    }
}

} // verus!
