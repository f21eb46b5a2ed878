//! What holds of the run of a plan whatever the files hold.
use vstd::prelude::*;
use crate::dataset::{lines_of, DatasetModel};
use crate::entry::mow::mown;
use crate::entry::EntryModel;
use crate::error::Error;
use crate::grain::GrainModel;
use crate::line::LineModel;
use crate::select::line::{
    ends_group,
    finished,
    grain_applied,
    grain_matches,
    initial_state,
    line_applied,
    line_stream,
    scanned,
    thing_of,
    trait_of,
};
use crate::select::strategy::{
    edge_tablet,
    edge_tablets,
    query_plan,
    schema_file,
    schema_plan,
    select_plan,
};
use crate::select::tablet::{tablet_applied, tablet_stream};
use crate::select::types::state::StateModel;
use crate::select::types::tablet::TabletModel;
use crate::select::{first_state, plan_run, records_of, schema_query, selected, selected_schema};

verus! {

/// No row of the file meets any grain of the query: each grain's value is a
/// pattern, where one is asked for, and the row's trait is no match for it.
pub open spec fn no_row_meets(
    tablet: TabletModel,
    grains: Seq<GrainModel>,
    lines: Seq<LineModel>,
) -> bool {
    forall|i: int, k: int|
        0 <= i < lines.len() && 0 <= k < grains.len() ==> grain_matches(
            tablet,
            #[trigger] grains[k],
            trait_of(tablet, #[trigger] lines[i]),
        ) == Some(false)
}

/// A state in which no group has matched, and which holds the entry and the
/// query that `start` holds.
pub open spec fn unmatched(state: StateModel, start: StateModel) -> bool {
    &&& !state.is_match
    &&& !state.has_match
    &&& state.entry == start.entry
    &&& state.query == start.query
}

/// A row that meets no grain leaves an unmatched state unmatched.
pub proof fn lemma_row_without_match(
    initial: StateModel,
    state: StateModel,
    tablet: TabletModel,
    grains: Seq<GrainModel>,
    trait_: Seq<char>,
    thing: Seq<char>,
)
    requires
        unmatched(state, initial),
        forall|k: int|
            0 <= k < grains.len() ==> grain_matches(tablet, #[trigger] grains[k], trait_) == Some(
                false,
            ),
    ensures
        line_applied(initial, state, tablet, grains, trait_, thing) is Ok,
        unmatched(line_applied(initial, state, tablet, grains, trait_, thing)->Ok_0, initial),
    decreases grains.len(),
{
    if grains.len() > 0 {
        let first = grains.drop_last();
        assert forall|k: int| 0 <= k < first.len() implies grain_matches(
            tablet,
            #[trigger] first[k],
            trait_,
        ) == Some(false) by {
            assert(first[k] == grains[k]);
        }
        lemma_row_without_match(initial, state, tablet, first, trait_, thing);
        assert(grains.last() == grains[grains.len() - 1]);
    }
}

/// A file without a row that meets a grain is read to its end without a
/// match and without handing anything on.
pub proof fn lemma_scan_without_match(
    initial: StateModel,
    tablet: TabletModel,
    grains: Seq<GrainModel>,
    lines: Seq<LineModel>,
)
    requires
        unmatched(initial, initial),
        no_row_meets(tablet, grains, lines),
    ensures
        scanned(initial, tablet, grains, lines) is Ok,
        unmatched(scanned(initial, tablet, grains, lines)->Ok_0.0, initial),
        scanned(initial, tablet, grains, lines)->Ok_0.1 == Seq::<StateModel>::empty(),
    decreases lines.len(),
{
    if lines.len() > 0 {
        let first = lines.drop_last();
        assert forall|i: int, k: int|
            0 <= i < first.len() && 0 <= k < grains.len() implies grain_matches(
            tablet,
            #[trigger] grains[k],
            trait_of(tablet, #[trigger] first[i]),
        ) == Some(false) by {
            assert(first[i] == lines[i]);
        }
        lemma_scan_without_match(initial, tablet, grains, first);
        let state = scanned(initial, tablet, grains, first)->Ok_0.0;
        let line = lines.last();
        assert(line == lines[lines.len() - 1]);
        assert(!ends_group(state, tablet, line));
        let resumed = StateModel {
            entry: state.entry,
            query: state.query,
            fst: Some(line.key),
            is_match: state.is_match,
            match_map: state.match_map,
            has_match: state.has_match,
            thing_querying: state.thing_querying,
        };
        lemma_row_without_match(
            initial,
            resumed,
            tablet,
            grains,
            trait_of(tablet, line),
            thing_of(tablet, line),
        );
    }
}

/// A step that narrows the candidates hands nothing on where no row of its
/// file meets the query.
pub proof fn lemma_step_without_match(state: StateModel, tablet: TabletModel, lines: Seq<LineModel>)
    requires
        !tablet.accumulating,
        !tablet.passthrough,
        initial_state(state, tablet).query is Some,
        no_row_meets(
            tablet,
            mown(initial_state(state, tablet).query->0, tablet.trait_, tablet.thing),
            lines,
        ),
    ensures
        line_stream(state, tablet, lines) == Ok::<Seq<StateModel>, Error>(Seq::empty()),
{
    let initial = initial_state(state, tablet);
    let grains = mown(initial.query->0, tablet.trait_, tablet.thing);
    lemma_scan_without_match(initial, tablet, grains, lines);
    let last = scanned(initial, tablet, grains, lines)->Ok_0.0;
    assert(finished(initial, last, tablet) =~= Seq::<StateModel>::empty());
    assert(Seq::<StateModel>::empty() + Seq::<StateModel>::empty() =~= Seq::<StateModel>::empty());
}

/// Where nothing reaches a plan, nothing comes out of it, and no step fails.
pub proof fn lemma_run_of_nothing(d: DatasetModel, plan: Seq<TabletModel>)
    ensures
        plan_run(d, plan, Seq::empty()) == Ok::<Seq<StateModel>, Error>(Seq::empty()),
    decreases plan.len(),
{
    if plan.len() > 0 {
        lemma_run_of_nothing(d, plan.drop_last());
    }
}

/// A plan runs its first step, and then the rest of the plan on what that
/// step hands on.
pub proof fn lemma_run_from_the_front(
    d: DatasetModel,
    plan: Seq<TabletModel>,
    states: Seq<StateModel>,
)
    requires
        plan.len() > 0,
    ensures
        plan_run(d, plan, states) == match tablet_stream(
            states,
            plan[0],
            lines_of(d, plan[0].filename),
        ) {
            Err(e) => Err(e),
            Ok(handed) => plan_run(d, plan.drop_first(), handed),
        },
    decreases plan.len(),
{
    if plan.len() == 1 {
        assert(plan.drop_last() =~= Seq::<TabletModel>::empty());
        assert(plan.drop_first() =~= Seq::<TabletModel>::empty());
        assert(plan.last() == plan[0]);
    } else {
        let first = plan.drop_last();
        lemma_run_from_the_front(d, first, states);
        assert(first[0] == plan[0]);
        assert(first.drop_first() =~= plan.drop_first().drop_last());
        assert(plan.drop_first().last() == plan.last());
    }
}

/// A query whose first step matches no row has an empty answer, and no
/// failure.
///
/// The first step of the plan is one that narrows the candidates and does
/// not read the schema file, and no row of its file meets the query. Then
/// the plan hands nothing on, and the answer is empty.
pub proof fn lemma_no_match_no_answer(d: DatasetModel, plan: Seq<TabletModel>, query: EntryModel)
    requires
        plan.len() > 0,
        plan[0].filename != schema_file(),
        plan[0].querying,
        !plan[0].accumulating,
        !plan[0].passthrough,
        no_row_meets(
            plan[0],
            mown(query, plan[0].trait_, plan[0].thing),
            lines_of(d, plan[0].filename),
        ),
    ensures
        plan_run(d, plan, seq![first_state(query)]) == Ok::<Seq<StateModel>, Error>(Seq::empty()),
        records_of(Seq::empty(), query) == Ok::<Seq<EntryModel>, Error>(Seq::empty()),
{
    let start = first_state(query);
    let states = seq![start];
    let lines = lines_of(d, plan[0].filename);
    lemma_step_without_match(start, plan[0], lines);
    assert(tablet_applied(start, plan[0], lines) == Ok::<Seq<StateModel>, Error>(Seq::empty()));
    assert(states.drop_last() =~= Seq::<StateModel>::empty());
    assert(states.last() == start);
    assert(Seq::<StateModel>::empty() + Seq::<StateModel>::empty() =~= Seq::<StateModel>::empty());
    assert(tablet_stream(states.drop_last(), plan[0], lines) == Ok::<Seq<StateModel>, Error>(
        Seq::empty(),
    ));
    assert(tablet_stream(states, plan[0], lines) == Ok::<Seq<StateModel>, Error>(Seq::empty()));
    lemma_run_from_the_front(d, plan, states);
    lemma_run_of_nothing(d, plan.drop_first());
}

/// Every step of the steps for edges is the step of one edge.
pub proof fn lemma_edge_tablets(
    s: crate::schema::SchemaModel,
    branches: Seq<Seq<char>>,
    querying: bool,
    base: Seq<char>,
    k: int,
)
    requires
        0 <= k < edge_tablets(s, branches, querying, base).len(),
    ensures
        exists|trunk: Seq<char>, branch: Seq<char>|
            edge_tablets(s, branches, querying, base)[k] == #[trigger] edge_tablet(
                querying,
                trunk,
                branch,
                base,
            ),
    decreases branches.len(),
{
    if branches.len() > 0 {
        let first = edge_tablets(s, branches.drop_last(), querying, base);
        if k < first.len() {
            lemma_edge_tablets(s, branches.drop_last(), querying, base, k);
        } else {
            let branch = branches.last();
            let trunks = crate::schema::trunks_of(s, branch);
            assert(edge_tablets(s, branches, querying, base)[k] == edge_tablet(
                querying,
                trunks[k - first.len()],
                branch,
                base,
            ));
        }
    }
}

/// A query with a filter whose first step matches no row has an empty
/// answer: the plan starts with a step that narrows the candidates, and
/// where no row of that step's file meets the query, nothing is handed on.
pub proof fn lemma_filter_without_match(d: DatasetModel, s: crate::schema::SchemaModel, query: EntryModel)
    requires
        query_plan(s, query).len() > 0,
        query_plan(s, query)[0].filename != schema_file(),
        no_row_meets(
            query_plan(s, query)[0],
            mown(query, query_plan(s, query)[0].trait_, query_plan(s, query)[0].thing),
            lines_of(d, query_plan(s, query)[0].filename),
        ),
    ensures
        plan_run(d, select_plan(s, query), seq![first_state(query)]) == Ok::<
            Seq<StateModel>,
            Error,
        >(Seq::empty()),
{
    let narrowing = query_plan(s, query);
    let plan = select_plan(s, query);
    assert(plan[0] == narrowing[0]);
    lemma_edge_tablets(
        s,
        crate::schema::sort_nesting_ascending::sorted_up(
            s,
            crate::select::strategy::gathered(query),
        ),
        true,
        query.base,
        0,
    );
    lemma_no_match_no_answer(d, plan, query);
}

/// A thing that was seen before leaves the entry, the query and the things
/// seen as they are, whatever the row holds.
pub proof fn lemma_seen_thing_adds_nothing(
    initial: StateModel,
    state: StateModel,
    tablet: TabletModel,
    trait_: Seq<char>,
    thing: Seq<char>,
    meets: bool,
)
    requires
        state.match_map is Some,
        state.match_map->0.contains(thing),
    ensures
        grain_applied(initial, state, tablet, trait_, thing, meets) is Ok,
        grain_applied(initial, state, tablet, trait_, thing, meets)->Ok_0.entry == state.entry,
        grain_applied(initial, state, tablet, trait_, thing, meets)->Ok_0.query == state.query,
        grain_applied(initial, state, tablet, trait_, thing, meets)->Ok_0.match_map
            == state.match_map,
{
}

/// The things seen are kept without repeats, and a collecting step has
/// seen the thing of every row it was held against.
pub proof fn lemma_things_seen_once(
    initial: StateModel,
    state: StateModel,
    tablet: TabletModel,
    trait_: Seq<char>,
    thing: Seq<char>,
    meets: bool,
)
    requires
        state.match_map is Some,
        state.match_map->0.no_duplicates(),
        grain_applied(initial, state, tablet, trait_, thing, meets) is Ok,
    ensures
        grain_applied(initial, state, tablet, trait_, thing, meets)->Ok_0.match_map is Some,
        grain_applied(initial, state, tablet, trait_, thing, meets)->Ok_0.match_map->0.no_duplicates(),
        tablet.accumulating ==> grain_applied(
            initial,
            state,
            tablet,
            trait_,
            thing,
            meets,
        )->Ok_0.match_map->0.contains(thing),
{
    let seen = state.match_map->0;
    let after = grain_applied(initial, state, tablet, trait_, thing, meets)->Ok_0.match_map->0;
    if tablet.accumulating && !seen.contains(thing) {
        assert(after == seen.push(thing));
        assert(after[seen.len() as int] == thing);
        assert forall|i: int, j: int| 0 <= i < j < after.len() implies after[i] != after[j] by {
            if j == seen.len() {
                assert(seen[i] == after[i]);
                assert(seen.contains(after[i]));
            }
        }
    }
}

/// The things that a state has seen, if it keeps any, are kept without
/// repeats.
pub open spec fn sees_once(state: StateModel) -> bool {
    state.match_map is Some ==> state.match_map->0.no_duplicates()
}

/// A state without things seen stays without them.
proof fn lemma_unseen_stays(
    initial: StateModel,
    state: StateModel,
    tablet: TabletModel,
    trait_: Seq<char>,
    thing: Seq<char>,
    meets: bool,
)
    requires
        state.match_map is None,
        grain_applied(initial, state, tablet, trait_, thing, meets) is Ok,
    ensures
        grain_applied(initial, state, tablet, trait_, thing, meets)->Ok_0.match_map is None,
{
}

/// A row leaves the things seen without repeats.
pub proof fn lemma_line_sees_once(
    initial: StateModel,
    state: StateModel,
    tablet: TabletModel,
    grains: Seq<GrainModel>,
    trait_: Seq<char>,
    thing: Seq<char>,
)
    requires
        sees_once(state),
        line_applied(initial, state, tablet, grains, trait_, thing) is Ok,
    ensures
        sees_once(line_applied(initial, state, tablet, grains, trait_, thing)->Ok_0),
    decreases grains.len(),
{
    if grains.len() > 0 {
        let first = line_applied(initial, state, tablet, grains.drop_last(), trait_, thing);
        lemma_line_sees_once(initial, state, tablet, grains.drop_last(), trait_, thing);
        let before = first->Ok_0;
        let meets = grain_matches(tablet, grains.last(), trait_)->0;
        if before.match_map is Some {
            lemma_things_seen_once(initial, before, tablet, trait_, thing, meets);
        } else {
            lemma_unseen_stays(initial, before, tablet, trait_, thing, meets);
        }
    }
}

/// A file leaves the things seen without repeats, in the state it ends with
/// and in every state it hands on.
pub proof fn lemma_scan_sees_once(
    initial: StateModel,
    tablet: TabletModel,
    grains: Seq<GrainModel>,
    lines: Seq<LineModel>,
)
    requires
        sees_once(initial),
        scanned(initial, tablet, grains, lines) is Ok,
    ensures
        sees_once(scanned(initial, tablet, grains, lines)->Ok_0.0),
        forall|k: int|
            0 <= k < scanned(initial, tablet, grains, lines)->Ok_0.1.len() ==> sees_once(
                #[trigger] scanned(initial, tablet, grains, lines)->Ok_0.1[k],
            ),
    decreases lines.len(),
{
    if lines.len() > 0 {
        lemma_scan_sees_once(initial, tablet, grains, lines.drop_last());
        let state = scanned(initial, tablet, grains, lines.drop_last())->Ok_0.0;
        let out = scanned(initial, tablet, grains, lines.drop_last())->Ok_0.1;
        let line = lines.last();
        let push = ends_group(state, tablet, line);
        let resumed = StateModel {
            entry: if push {
                initial.entry
            } else {
                state.entry
            },
            query: if push {
                initial.query
            } else {
                state.query
            },
            fst: Some(line.key),
            is_match: if push {
                false
            } else {
                state.is_match
            },
            match_map: state.match_map,
            has_match: state.has_match,
            thing_querying: state.thing_querying,
        };
        lemma_line_sees_once(
            initial,
            resumed,
            tablet,
            grains,
            trait_of(tablet, line),
            thing_of(tablet, line),
        );
        let all = scanned(initial, tablet, grains, lines)->Ok_0.1;
        assert forall|k: int| 0 <= k < all.len() implies sees_once(#[trigger] all[k]) by {
            if k < out.len() {
                assert(all[k] == out[k]);
            }
        }
    }
}

/// Whatever a step hands on for a state that has seen no thing twice has
/// seen no thing twice.
pub proof fn lemma_step_sees_once(state: StateModel, tablet: TabletModel, lines: Seq<LineModel>)
    requires
        sees_once(state),
        line_stream(state, tablet, lines) is Ok,
    ensures
        forall|k: int|
            0 <= k < line_stream(state, tablet, lines)->Ok_0.len() ==> sees_once(
                #[trigger] line_stream(state, tablet, lines)->Ok_0[k],
            ),
{
    let initial = initial_state(state, tablet);
    let grains = mown(initial.query->0, tablet.trait_, tablet.thing);
    lemma_scan_sees_once(initial, tablet, grains, lines);
    let last = scanned(initial, tablet, grains, lines)->Ok_0.0;
    let out = scanned(initial, tablet, grains, lines)->Ok_0.1;
    let end = finished(initial, last, tablet);
    let all = line_stream(state, tablet, lines)->Ok_0;
    assert forall|k: int| 0 <= k < all.len() implies sees_once(#[trigger] all[k]) by {
        if k < out.len() {
            assert(all[k] == out[k]);
        } else {
            assert(all[k] == end[k - out.len()]);
        }
    }
}

/// Two datasets hold the same rows in every file that the plan names.
pub open spec fn same_files(a: DatasetModel, b: DatasetModel, plan: Seq<TabletModel>) -> bool {
    forall|k: int|
        0 <= k < plan.len() ==> lines_of(a, (#[trigger] plan[k]).filename) == lines_of(
            b,
            plan[k].filename,
        )
}

/// A plan reads the files that its steps name and no others: on two
/// datasets that hold the same rows in those files it hands on the same.
pub proof fn lemma_run_reads_its_files(
    a: DatasetModel,
    b: DatasetModel,
    plan: Seq<TabletModel>,
    states: Seq<StateModel>,
)
    requires
        same_files(a, b, plan),
    ensures
        plan_run(a, plan, states) == plan_run(b, plan, states),
    decreases plan.len(),
{
    if plan.len() > 0 {
        let first = plan.drop_last();
        assert forall|k: int| 0 <= k < first.len() implies lines_of(a, (#[trigger] first[k]).filename)
            == lines_of(b, first[k].filename) by {
            assert(first[k] == plan[k]);
        }
        lemma_run_reads_its_files(a, b, first, states);
        assert(plan.last() == plan[plan.len() - 1]);
    }
}

/// An answer rests on the schema file and on the files of the plan of the
/// query, and on nothing else that the dataset holds.
///
/// Two datasets that hold the same rows in the schema file have the same
/// schema; where they also hold the same rows in every file that the plan
/// of the query names, they give the same answer, or fail alike.
pub proof fn lemma_answer_reads_its_files(a: DatasetModel, b: DatasetModel, query: EntryModel)
    requires
        lines_of(a, schema_file()) == lines_of(b, schema_file()),
        selected_schema(a) matches Ok(s) ==> same_files(a, b, select_plan(s, query)),
    ensures
        selected_schema(a) == selected_schema(b),
        selected(a, query) == selected(b, query),
{
    assert(same_files(a, b, schema_plan())) by {
        assert(schema_plan()[0].filename == schema_file());
    }
    lemma_run_reads_its_files(a, b, schema_plan(), seq![first_state(schema_query())]);
    lemma_run_reads_its_files(a, b, schema_plan(), seq![first_state(query)]);
    if let Ok(s) = selected_schema(a) {
        lemma_run_reads_its_files(a, b, select_plan(s, query), seq![first_state(query)]);
    }
}

} // verus!
