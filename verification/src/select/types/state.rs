//! What is handed from one step of a plan to the next.
use vstd::prelude::*;
use crate::entry::into_value::{to_value, value_of};
use crate::entry::{Entry, EntryModel};
use crate::grain::into_value::text_or_null;
use crate::into_value::IntoValue;
use crate::text::{copy_opt_text, copy_texts};
use crate::value::{lemma_object, Value, ValueModel};

verus! {

/// The token that runs through a plan: the result as far as it is built, the
/// query as far as it is still to be met, the first column of the row last
/// read, whether the current group of rows has matched and whether any has,
/// the things seen so far by a step that collects them, and the value that
/// the last querying step settled on.
#[derive(Debug)]
pub struct State {
    pub entry: Option<Entry>,
    pub query: Option<Entry>,
    pub fst: Option<String>,
    pub is_match: bool,
    pub match_map: Option<Vec<String>>,
    pub has_match: bool,
    pub thing_querying: Option<String>,
}

/// What a `State` stands for.
pub ghost struct StateModel {
    pub entry: Option<EntryModel>,
    pub query: Option<EntryModel>,
    pub fst: Option<Seq<char>>,
    pub is_match: bool,
    pub match_map: Option<Seq<Seq<char>>>,
    pub has_match: bool,
    pub thing_querying: Option<Seq<char>>,
}

impl View for State {
    type V = StateModel;

    open spec fn view(&self) -> StateModel {
        StateModel {
            entry: self.entry.deep_view(),
            query: self.query.deep_view(),
            fst: self.fst.deep_view(),
            is_match: self.is_match,
            match_map: self.match_map.deep_view(),
            has_match: self.has_match,
            thing_querying: self.thing_querying.deep_view(),
        }
    }
}

impl DeepView for State {
    type V = StateModel;

    open spec fn deep_view(&self) -> StateModel {
        self@
    }
}

/// A copy of an optional entry.
pub fn copy_opt_entry(e: &Option<Entry>) -> (r: Option<Entry>)
    ensures
        r.deep_view() == e.deep_view(),
{
    match e {
        Some(e) => Some(e.clone()),
        None => None,
    }
}

/// A copy of an optional list of strings.
pub fn copy_opt_texts(v: &Option<Vec<String>>) -> (r: Option<Vec<String>>)
    ensures
        r.deep_view() == v.deep_view(),
{
    match v {
        Some(v) => Some(copy_texts(v)),
        None => None,
    }
}

impl Clone for State {
    fn clone(&self) -> (r: State)
        ensures
            r@ == self@,
    {
        State {
            entry: copy_opt_entry(&self.entry),
            query: copy_opt_entry(&self.query),
            fst: copy_opt_text(&self.fst),
            is_match: self.is_match,
            match_map: copy_opt_texts(&self.match_map),
            has_match: self.has_match,
            thing_querying: copy_opt_text(&self.thing_querying),
        }
    }
}

/// The JSON value of an optional entry: the entry's value, or null.
pub open spec fn entry_or_null(e: Option<EntryModel>) -> ValueModel {
    match e {
        Some(e) => value_of(e),
        None => ValueModel::Null,
    }
}

/// The JSON value of the things seen: an object that has `true` under each
/// thing, or null where none are kept.
pub open spec fn seen_or_null(seen: Option<Seq<Seq<char>>>) -> ValueModel {
    match seen {
        Some(things) => ValueModel::Object(
            Seq::new(things.len(), |i: int| (things[i], ValueModel::Bool(true))),
        ),
        None => ValueModel::Null,
    }
}

/// The JSON value that stands for a state: an object with one member for
/// each of its parts, null where a part is absent.
pub open spec fn value_of_state(s: StateModel) -> ValueModel {
    ValueModel::Object(
        seq![
            (seq!['f', 's', 't'], text_or_null(s.fst)),
            (seq!['i', 's', 'M', 'a', 't', 'c', 'h'], ValueModel::Bool(s.is_match)),
            (seq!['h', 'a', 's', 'M', 'a', 't', 'c', 'h'], ValueModel::Bool(s.has_match)),
            (seq!['m', 'a', 't', 'c', 'h', 'M', 'a', 'p'], seen_or_null(s.match_map)),
            (
                seq!['t', 'h', 'i', 'n', 'g', 'Q', 'u', 'e', 'r', 'y', 'i', 'n', 'g'],
                text_or_null(s.thing_querying),
            ),
            (seq!['e', 'n', 't', 'r', 'y'], entry_or_null(s.entry)),
            (seq!['q', 'u', 'e', 'r', 'y'], entry_or_null(s.query)),
        ],
    )
}

/// The JSON value of an optional text.
fn text_value(t: &Option<String>) -> (v: Value)
    ensures
        v@ == text_or_null(t.deep_view()),
{
    match t {
        Some(s) => Value::String(s.clone()),
        None => Value::Null,
    }
}

/// The JSON value of an optional entry.
fn entry_value(e: &Option<Entry>) -> (v: Value)
    ensures
        v@ == entry_or_null(e.deep_view()),
{
    match e {
        Some(e) => to_value(e),
        None => Value::Null,
    }
}

/// The JSON value of the things seen.
fn seen_value(seen: &Option<Vec<String>>) -> (v: Value)
    ensures
        v@ == seen_or_null(seen.deep_view()),
{
    match seen {
        None => Value::Null,
        Some(things) => {
            let mut members: Vec<(String, Value)> = Vec::new();
            let mut i: usize = 0;
            while i < things.len()
                invariant
                    i <= things.len(),
                    members.len() == i,
                    forall|k: int|
                        0 <= k < i ==> (#[trigger] members.deep_view()[k]) == (
                            things@[k]@,
                            ValueModel::Bool(true),
                        ),
                decreases things.len() - i,
            {
                let ghost before = members.deep_view();
                members.push((things[i].clone(), Value::Bool(true)));
                assert(members.deep_view() =~= before.push((things@[i as int]@, ValueModel::Bool(true))));
                i += 1;
            }
            proof {
                lemma_object(members);
                assert(members.deep_view() =~= Seq::new(
                    things.deep_view().len(),
                    |i: int| (things.deep_view()[i], ValueModel::Bool(true)),
                ));
            }
            Value::Object(members)
        },
    }
}

impl IntoValue for State {
    open spec fn as_value(&self) -> ValueModel {
        value_of_state(self@)
    }

    fn into_value(self) -> (v: Value) {
        proof {
            reveal_strlit("fst");
            reveal_strlit("isMatch");
            reveal_strlit("hasMatch");
            reveal_strlit("matchMap");
            reveal_strlit("thingQuerying");
            reveal_strlit("entry");
            reveal_strlit("query");
        }
        let mut members: Vec<(String, Value)> = Vec::new();
        members.push(("fst".to_owned(), text_value(&self.fst)));
        members.push(("isMatch".to_owned(), Value::Bool(self.is_match)));
        members.push(("hasMatch".to_owned(), Value::Bool(self.has_match)));
        members.push(("matchMap".to_owned(), seen_value(&self.match_map)));
        members.push(("thingQuerying".to_owned(), text_value(&self.thing_querying)));
        members.push(("entry".to_owned(), entry_value(&self.entry)));
        members.push(("query".to_owned(), entry_value(&self.query)));
        proof {
            lemma_object(members);
            assert("fst"@ =~= seq!['f', 's', 't']);
            assert("isMatch"@ =~= seq!['i', 's', 'M', 'a', 't', 'c', 'h']);
            assert("hasMatch"@ =~= seq!['h', 'a', 's', 'M', 'a', 't', 'c', 'h']);
            assert("matchMap"@ =~= seq!['m', 'a', 't', 'c', 'h', 'M', 'a', 'p']);
            assert("thingQuerying"@ =~= seq![
                't',
                'h',
                'i',
                'n',
                'g',
                'Q',
                'u',
                'e',
                'r',
                'y',
                'i',
                'n',
                'g',
            ]);
            assert("entry"@ =~= seq!['e', 'n', 't', 'r', 'y']);
            assert("query"@ =~= seq!['q', 'u', 'e', 'r', 'y']);
            assert(members.deep_view() =~= value_of_state(self@)->Object_0);
        }
        Value::Object(members)
    }
}

} // verus!
