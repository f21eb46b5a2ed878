//! What a step that adds values hands on.
use vstd::prelude::*;
use crate::delete::sorted_by_key;
use crate::entry::mow::mown;
use crate::grain::GrainModel;
use crate::line::LineModel;
use crate::select::line::{
    ends_group,
    grain_matches,
    initial_state,
    line_applied,
    line_stream,
    scanned,
    thing_of,
    trait_of,
};
use crate::select::types::state::StateModel;
use crate::select::types::tablet::TabletModel;
use crate::text::lemma_text_lt_total;

verus! {

/// Whether the row's trait meets one of the grains.
pub open spec fn some_grain_met(tablet: TabletModel, grains: Seq<GrainModel>, trait_: Seq<char>) -> bool {
    exists|k: int|
        0 <= k < grains.len() && grain_matches(tablet, #[trigger] grains[k], trait_) == Some(true)
}

/// A step that adds values to a result.
pub open spec fn adds_values(tablet: TabletModel) -> bool {
    &&& tablet.passthrough
    &&& !tablet.accumulating
    &&& !tablet.querying
}

/// What a row does to the marks of a state that keeps no things seen, in a
/// step that does not narrow: the group has matched if it had or if the row
/// meets a grain, and so has the file.
pub proof fn lemma_marks_after_row(
    initial: StateModel,
    state: StateModel,
    tablet: TabletModel,
    grains: Seq<GrainModel>,
    trait_: Seq<char>,
    thing: Seq<char>,
)
    requires
        !tablet.querying,
        state.match_map is None,
        state.is_match ==> state.has_match,
        line_applied(initial, state, tablet, grains, trait_, thing) is Ok,
    ensures
        line_applied(initial, state, tablet, grains, trait_, thing)->Ok_0.match_map is None,
        line_applied(initial, state, tablet, grains, trait_, thing)->Ok_0.fst == state.fst,
        line_applied(initial, state, tablet, grains, trait_, thing)->Ok_0.is_match == (
        state.is_match || some_grain_met(tablet, grains, trait_)),
        line_applied(initial, state, tablet, grains, trait_, thing)->Ok_0.has_match == (
        state.has_match || some_grain_met(tablet, grains, trait_)),
    decreases grains.len(),
{
    if grains.len() > 0 {
        let first = grains.drop_last();
        lemma_marks_after_row(initial, state, tablet, first, trait_, thing);
        let n = grains.len() - 1;
        assert(grains.last() == grains[n]);
        if some_grain_met(tablet, first, trait_) {
            let k = choose|k: int|
                0 <= k < first.len() && grain_matches(tablet, #[trigger] first[k], trait_) == Some(
                    true,
                );
            assert(grains[k] == first[k]);
        }
        if some_grain_met(tablet, grains, trait_) {
            let k = choose|k: int|
                0 <= k < grains.len() && grain_matches(tablet, #[trigger] grains[k], trait_)
                    == Some(true);
            if k < n {
                assert(first[k] == grains[k]);
            }
        }
    }
}

/// How far a step that is not eager has come: nothing is handed on, and
/// the file has matched where the group has.
pub open spec fn waiting(state: StateModel, out: Seq<StateModel>) -> bool {
    &&& state.match_map is None
    &&& state.has_match == state.is_match
    &&& out.len() == 0
}

/// A step that is not eager hands nothing on while it reads.
proof fn lemma_waiting(
    initial: StateModel,
    tablet: TabletModel,
    grains: Seq<GrainModel>,
    lines: Seq<LineModel>,
)
    requires
        !tablet.eager,
        !tablet.querying,
        waiting(initial, Seq::empty()),
        scanned(initial, tablet, grains, lines) is Ok,
    ensures
        waiting(
            scanned(initial, tablet, grains, lines)->Ok_0.0,
            scanned(initial, tablet, grains, lines)->Ok_0.1,
        ),
    decreases lines.len(),
{
    if lines.len() > 0 {
        lemma_waiting(initial, tablet, grains, lines.drop_last());
        let state = scanned(initial, tablet, grains, lines.drop_last())->Ok_0.0;
        let line = lines.last();
        let resumed = StateModel {
            entry: state.entry,
            query: state.query,
            fst: Some(line.key),
            is_match: state.is_match,
            match_map: state.match_map,
            has_match: state.has_match,
            thing_querying: state.thing_querying,
        };
        lemma_marks_after_row(
            initial,
            resumed,
            tablet,
            grains,
            trait_of(tablet, line),
            thing_of(tablet, line),
        );
    }
}

/// Only rows whose first column is `value` meet a grain.
pub open spec fn met_only_at(
    tablet: TabletModel,
    grains: Seq<GrainModel>,
    lines: Seq<LineModel>,
    value: Seq<char>,
) -> bool {
    forall|i: int|
        0 <= i < lines.len() && some_grain_met(tablet, grains, trait_of(tablet, #[trigger] lines[i]))
            ==> lines[i].key == value
}

/// How far an eager step has come on a file in order, where only rows of
/// the first column `value` meet a grain: it has not reached those rows, or
/// it is among them and the group has matched, or it has left them and
/// handed the group on.
pub open spec fn passing(
    state: StateModel,
    out: Seq<StateModel>,
    lines: Seq<LineModel>,
    value: Seq<char>,
) -> bool {
    &&& state.match_map is None
    &&& state.fst == if lines.len() == 0 {
        None
    } else {
        Some(lines.last().key)
    }
    &&& if state.is_match {
        state.has_match && out.len() == 0 && state.fst == Some(value)
    } else if state.has_match {
        &&& out.len() == 1
        &&& state.fst != Some(value)
        &&& exists|q: int| 0 <= q < lines.len() && (#[trigger] lines[q]).key == value
    } else {
        out.len() == 0
    }
}

/// An eager step on a file in order, where only rows of one first column
/// meet a grain, hands on at most the one group of those rows.
proof fn lemma_passing(
    initial: StateModel,
    tablet: TabletModel,
    grains: Seq<GrainModel>,
    lines: Seq<LineModel>,
    value: Seq<char>,
    n: int,
)
    requires
        tablet.eager,
        !tablet.querying,
        initial.match_map is None,
        initial.fst is None,
        !initial.is_match,
        !initial.has_match,
        sorted_by_key(lines),
        met_only_at(tablet, grains, lines, value),
        0 <= n <= lines.len(),
        scanned(initial, tablet, grains, lines.take(n)) is Ok,
    ensures
        passing(
            scanned(initial, tablet, grains, lines.take(n))->Ok_0.0,
            scanned(initial, tablet, grains, lines.take(n))->Ok_0.1,
            lines.take(n),
            value,
        ),
    decreases n,
{
    if n == 0 {
        assert(lines.take(0) =~= Seq::<LineModel>::empty());
    } else {
        let sofar = lines.take(n - 1);
        let line = lines[n - 1];
        assert(lines.take(n).drop_last() =~= sofar);
        assert(lines.take(n).last() == line);
        lemma_passing(initial, tablet, grains, lines, value, n - 1);
        let state = scanned(initial, tablet, grains, sofar)->Ok_0.0;
        let push = ends_group(state, tablet, line);
        let resumed = StateModel {
            entry: if push {
                initial.entry
            } else {
                state.entry
            },
            query: if push {
                initial.query
            } else {
                state.query
            },
            fst: Some(line.key),
            is_match: if push {
                false
            } else {
                state.is_match
            },
            match_map: state.match_map,
            has_match: state.has_match,
            thing_querying: state.thing_querying,
        };
        lemma_marks_after_row(
            initial,
            resumed,
            tablet,
            grains,
            trait_of(tablet, line),
            thing_of(tablet, line),
        );
        let met = some_grain_met(tablet, grains, trait_of(tablet, line));
        if met {
            assert(line.key == value);
        }
        if !state.is_match && state.has_match {
            let q = choose|q: int| 0 <= q < sofar.len() && (#[trigger] sofar[q]).key == value;
            assert(lines.take(n)[q] == sofar[q]);
            if line.key == value {
                let last = sofar.last();
                assert(last == lines[n - 2]);
                assert(sofar[q] == lines[q]);
                assert(!crate::text::text_lt(lines[n - 2].key, lines[q].key));
                assert(!crate::text::text_lt(lines[n - 1].key, lines[n - 2].key));
                lemma_text_lt_total(last.key, value);
            }
        }
        if state.is_match && line.key != value {
            assert(sofar.len() > 0);
            assert(sofar.last() == lines[n - 2]);
            assert(lines.take(n)[n - 2] == lines[n - 2]);
        }
    }
}

/// Each result is handed on once, with its values added.
///
/// A step that adds values, handed a result, hands on exactly one state
/// where it does not fail: the result with what the file holds for it, or
/// the result as it came where the file holds nothing for it. For an eager
/// step this holds of a file whose rows stand in the order of their first
/// column, where only rows of one first column meet the query.
pub proof fn lemma_each_result_once(
    state: StateModel,
    tablet: TabletModel,
    lines: Seq<LineModel>,
    value: Seq<char>,
)
    requires
        adds_values(tablet),
        state.match_map is None,
        line_stream(state, tablet, lines) is Ok,
        tablet.eager ==> sorted_by_key(lines) && met_only_at(
            tablet,
            mown(initial_state(state, tablet).query->0, tablet.trait_, tablet.thing),
            lines,
            value,
        ),
    ensures
        line_stream(state, tablet, lines)->Ok_0.len() == 1,
{
    let initial = initial_state(state, tablet);
    let grains = mown(initial.query->0, tablet.trait_, tablet.thing);
    if tablet.eager {
        assert(lines.take(lines.len() as int) =~= lines);
        lemma_passing(initial, tablet, grains, lines, value, lines.len() as int);
    } else {
        lemma_waiting(initial, tablet, grains, lines);
    }
}

} // verus!
