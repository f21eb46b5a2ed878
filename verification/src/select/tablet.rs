//! Running one step of a plan over the states that reach it.
use vstd::prelude::*;
use crate::error::Error;
use crate::line::{Line, LineModel};
use crate::select::line::{line_stream, select_line_stream};
use crate::select::schema::{schema_state, select_schema_line_stream};
use crate::select::strategy::schema_file;
use crate::select::types::state::{copy_opt_entry, State, StateModel};
use crate::select::types::tablet::{Tablet, TabletModel};
use crate::text::same_text;

verus! {

/// A state as a collecting step passes it on when it is a result already:
/// the entry and the query, and nothing else.
pub open spec fn forwarded(state: StateModel) -> StateModel {
    StateModel {
        entry: state.entry,
        query: state.query,
        fst: None,
        is_match: false,
        match_map: None,
        has_match: false,
        thing_querying: None,
    }
}

/// What one step makes of one state and the rows of its file.
///
/// - The step that reads the schema builds the record of the schema from the
///   state's query.
/// - A step that only adds values drops a state that carries the things seen:
///   it closes a list and is no result.
/// - A collecting step passes on a state that carries no things seen: it is a
///   result already.
/// - Every other state is scanned for.
pub open spec fn tablet_applied(
    state: StateModel,
    tablet: TabletModel,
    lines: Seq<LineModel>,
) -> Result<Seq<StateModel>, Error> {
    if tablet.filename == schema_file() {
        match state.query {
            None => Err(Error::BrokenPlan),
            Some(q) => Ok(seq![schema_state(q, lines)]),
        }
    } else if tablet.passthrough && state.match_map is Some {
        Ok(Seq::empty())
    } else if tablet.accumulating && state.match_map is None {
        Ok(seq![forwarded(state)])
    } else {
        line_stream(state, tablet, lines)
    }
}

/// What one step makes of the states that reach it, state after state. The
/// first failure ends it.
pub open spec fn tablet_stream(
    states: Seq<StateModel>,
    tablet: TabletModel,
    lines: Seq<LineModel>,
) -> Result<Seq<StateModel>, Error>
    decreases states.len(),
{
    if states.len() == 0 {
        Ok(Seq::empty())
    } else {
        match tablet_stream(states.drop_last(), tablet, lines) {
            Err(e) => Err(e),
            Ok(out) => match tablet_applied(states.last(), tablet, lines) {
                Err(e) => Err(e),
                Ok(more) => Ok(out + more),
            },
        }
    }
}

/// A failure on the first states is the failure of the step.
pub proof fn lemma_stream_failure_stays(
    states: Seq<StateModel>,
    tablet: TabletModel,
    lines: Seq<LineModel>,
    n: int,
)
    requires
        0 <= n <= states.len(),
        tablet_stream(states.take(n), tablet, lines) is Err,
    ensures
        tablet_stream(states, tablet, lines) is Err,
        tablet_stream(states, tablet, lines)->Err_0 == tablet_stream(
            states.take(n),
            tablet,
            lines,
        )->Err_0,
    decreases states.len() - n,
{
    if n < states.len() {
        assert(states.take(n + 1).drop_last() =~= states.take(n));
        lemma_stream_failure_stays(states, tablet, lines, n + 1);
    } else {
        assert(states.take(n) =~= states);
    }
}

/// Runs one step over the states that reach it, with the rows of its file:
/// see [`tablet_stream`].
pub fn select_tablet(lines: &Vec<Line>, tablet: &Tablet, input: &Vec<State>) -> (r: Result<
    Vec<State>,
    Error,
>)
    ensures
        r matches Ok(out) ==> tablet_stream(input.deep_view(), tablet@, lines.deep_view()) == Ok::<
            Seq<StateModel>,
            Error,
        >(out.deep_view()),
        r matches Err(e) ==> tablet_stream(input.deep_view(), tablet@, lines.deep_view()) == Err::<
            Seq<StateModel>,
            Error,
        >(e),
{
    proof {
        reveal_strlit("_-_.csv");
        assert("_-_.csv"@ =~= schema_file());
    }
    let is_schema = same_text(tablet.filename.as_str(), "_-_.csv");
    let ghost states = input.deep_view();
    let mut out: Vec<State> = Vec::new();
    let mut i: usize = 0;
    proof {
        assert(states.take(0) =~= Seq::<StateModel>::empty());
        assert(out.deep_view() =~= Seq::<StateModel>::empty());
    }
    while i < input.len()
        invariant
            states == input.deep_view(),
            is_schema == (tablet@.filename == schema_file()),
            i <= input.len(),
            tablet_stream(states.take(i as int), tablet@, lines.deep_view()) == Ok::<
                Seq<StateModel>,
                Error,
            >(out.deep_view()),
        decreases input.len() - i,
    {
        let state = &input[i];
        let ghost before = out.deep_view();
        proof {
            assert(states.take(i + 1).drop_last() =~= states.take(i as int));
            assert(states.take(i + 1).last() == state@);
        }
        if is_schema {
            match &state.query {
                None => {
                    proof {
                        lemma_stream_failure_stays(states, tablet@, lines.deep_view(), i + 1);
                    }
                    return Err(Error::BrokenPlan);
                },
                Some(q) => {
                    let made = select_schema_line_stream(lines, q);
                    out.push(made);
                    assert(out.deep_view() =~= before + seq![made@]);
                },
            }
        } else if tablet.passthrough && state.match_map.is_some() {
            assert(out.deep_view() =~= before + Seq::<StateModel>::empty());
        } else if tablet.accumulating && state.match_map.is_none() {
            let passed = State {
                entry: copy_opt_entry(&state.entry),
                query: copy_opt_entry(&state.query),
                fst: None,
                is_match: false,
                match_map: None,
                has_match: false,
                thing_querying: None,
            };
            out.push(passed);
            assert(out.deep_view() =~= before + seq![passed@]);
        } else {
            match select_line_stream(lines, state, tablet) {
                Ok(more) => {
                    let ghost added = more.deep_view();
                    let mut rest = more;
                    out.append(&mut rest);
                    assert(out.deep_view() =~= before + added);
                },
                Err(e) => {
                    proof {
                        lemma_stream_failure_stays(states, tablet@, lines.deep_view(), i + 1);
                    }
                    return Err(e);
                },
            }
        }
        i += 1;
    }
    assert(states.take(input.len() as int) =~= states);
    Ok(out)
}

} // verus!
