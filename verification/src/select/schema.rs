//! Reading the file that holds the schema.
use vstd::prelude::*;
use crate::entry::sow::{append_child, with_added};
use crate::entry::{lemma_entry_leaves, Entry, EntryModel};
use crate::line::{Line, LineModel};
use crate::select::types::state::{State, StateModel};

verus! {

/// The record of the schema after the rows were read: each row adds, to the
/// list named after its first column, a child that holds its second column.
/// The rows are taken as they stand: a row that stands twice in the file
/// gives two children.
pub open spec fn schema_entry(entry: EntryModel, lines: Seq<LineModel>) -> EntryModel
    decreases lines.len(),
{
    if lines.len() == 0 {
        entry
    } else {
        let before = schema_entry(entry, lines.drop_last());
        EntryModel {
            base: before.base,
            base_value: before.base_value,
            leader_value: before.leader_value,
            leaves: with_added(before.leaves, lines.last().key, Some(lines.last().value)),
        }
    }
}

/// What the step that reads the schema hands on: the record of the schema
/// and nothing else.
pub open spec fn schema_state(entry: EntryModel, lines: Seq<LineModel>) -> StateModel {
    StateModel {
        entry: Some(schema_entry(entry, lines)),
        query: None,
        fst: None,
        is_match: false,
        match_map: None,
        has_match: false,
        thing_querying: None,
    }
}

/// Reads the rows of the schema file into a copy of `entry`: see
/// [`schema_state`].
pub fn select_schema_line_stream(input: &Vec<Line>, entry: &Entry) -> (r: State)
    ensures
        r@ == schema_state(entry@, input.deep_view()),
{
    let ghost lines = input.deep_view();
    let mut record = entry.clone();
    let mut i: usize = 0;
    assert(lines.take(0) =~= Seq::<LineModel>::empty());
    while i < input.len()
        invariant
            lines == input.deep_view(),
            i <= input.len(),
            record@ == schema_entry(entry@, lines.take(i as int)),
        decreases input.len() - i,
    {
        proof {
            assert(lines.take(i + 1).drop_last() =~= lines.take(i as int));
            assert(lines.take(i + 1).last() == input@[i as int]@);
            lemma_entry_leaves(record);
        }
        let leaf = Some(input[i].value.clone());
        append_child(&mut record.leaves, input[i].key.as_str(), &leaf);
        proof {
            lemma_entry_leaves(record);
        }
        i += 1;
    }
    assert(lines.take(input.len() as int) =~= lines);
    State {
        entry: Some(record),
        query: None,
        fst: None,
        is_match: false,
        match_map: None,
        has_match: false,
        thing_querying: None,
    }
}

} // verus!
