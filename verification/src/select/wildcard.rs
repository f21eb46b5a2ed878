//! The answer to a query without a filter: each value once.
use vstd::prelude::*;
use crate::dataset::{lines_of, DatasetModel};
use crate::delete::sorted_by_key;
use crate::entry::laws::lemma_sown_extends;
use crate::entry::mow::mown;
use crate::grain::GrainModel;
use crate::entry::sow::sown;
use crate::entry::try_from::base_key;
use crate::entry::EntryModel;
use crate::error::Error;
use crate::line::LineModel;
use crate::order::{
    lemma_unique_no_duplicates,
    lemma_unique_of_distinct,
    unique,
};
use crate::select::collect::{
    closing,
    first_columns,
    found,
    founds,
    lemma_each_new_value_once,
    lists_by_leaf,
    new_in,
    own_grain,
    seen_after,
};
use crate::select::line::{
    ends_group,
    finished,
    grain_matches,
    initial_state,
    line_applied,
    line_stream,
    row_grain,
    scanned,
    thing_of,
    trait_of,
};
use crate::schema::{leaves_of, trunks_of, SchemaModel};
use crate::select::laws::{lemma_edge_tablets, lemma_run_from_the_front};
use crate::select::strategy::{
    edge_file,
    option_leaf_tablet,
    options_plan,
    query_plan,
    schema_file,
    select_plan,
    values_plan,
};
use crate::select::tablet::{forwarded, tablet_applied, tablet_stream};
use crate::select::types::state::StateModel;
use crate::select::types::tablet::TabletModel;
use crate::select::values::{adds_values, lemma_each_result_once, some_grain_met};
use crate::select::{first_state, known, plan_run, record_of, records_of, selected, selected_schema};

verus! {

/// Only the file of the edge from `_` to `_` has the name of the schema file.
pub proof fn lemma_edge_file_is_schema_file(trunk: Seq<char>, branch: Seq<char>)
    requires
        edge_file(trunk, branch) == schema_file(),
    ensures
        trunk == base_key(),
        branch == base_key(),
{
    let name = edge_file(trunk, branch);
    let wanted = schema_file();
    assert(name.len() == trunk.len() + branch.len() + 5);
    assert(wanted.len() == 7);
    assert(name[trunk.len() as int] == '-');
    if trunk.len() == 0 {
        assert(wanted[0] == '_');
    } else if trunk.len() == 1 {
        assert(name[0] == trunk[0]);
        assert(name[2] == branch[0]);
        assert(wanted[0] == '_' && wanted[2] == '_');
        assert(trunk =~= base_key());
        assert(branch =~= base_key());
    } else {
        assert(wanted[2] == '_');
    }
}

/// The steps that list the values of `base` by its leaves.
pub open spec fn leaf_steps(base: Seq<char>, leaves: Seq<Seq<char>>) -> Seq<TabletModel> {
    Seq::new(leaves.len(), |k: int| option_leaf_tablet(base, leaves[k]))
}

/// The first columns of the files of the leaves of `base`, file after file.
pub open spec fn leaf_keys(d: DatasetModel, base: Seq<char>, leaves: Seq<Seq<char>>) -> Seq<Seq<char>>
    decreases leaves.len(),
{
    if leaves.len() == 0 {
        Seq::empty()
    } else {
        leaf_keys(d, base, leaves.drop_last()) + first_columns(
            lines_of(d, edge_file(base, leaves.last())),
        )
    }
}

/// Every row of every file of a leaf of the base meets the query's own
/// grain.
pub open spec fn every_row_meets(d: DatasetModel, query: EntryModel, leaves: Seq<Seq<char>>) -> bool {
    forall|k: int, i: int|
        0 <= k < leaves.len() && 0 <= i < lines_of(d, edge_file(query.base, leaves[k])).len()
            ==> grain_matches(
            option_leaf_tablet(query.base, #[trigger] leaves[k]),
            own_grain(query),
            (#[trigger] lines_of(d, edge_file(query.base, leaves[k]))[i]).key,
        ) == Some(true)
}

/// A query that holds no value of its own is met by every row: its pattern
/// is empty, and the empty pattern is found in every text.
pub proof fn lemma_open_query_meets(d: DatasetModel, query: EntryModel, leaves: Seq<Seq<char>>)
    requires
        query.base_value is None,
    ensures
        every_row_meets(d, query, leaves),
{
}

/// A step that lists values passes results on as they are.
pub proof fn lemma_results_pass(
    base: Seq<char>,
    query: Option<EntryModel>,
    values: Seq<Seq<char>>,
    tablet: TabletModel,
    lines: Seq<LineModel>,
)
    requires
        tablet.accumulating,
        !tablet.passthrough,
        tablet.filename != schema_file(),
    ensures
        tablet_stream(founds(base, query, values), tablet, lines) == Ok::<Seq<StateModel>, Error>(
            founds(base, query, values),
        ),
    decreases values.len(),
{
    let states = founds(base, query, values);
    if values.len() > 0 {
        lemma_results_pass(base, query, values.drop_last(), tablet, lines);
        assert(states.drop_last() =~= founds(base, query, values.drop_last()));
        assert(states.last() == found(base, query, values.last()));
        assert(forwarded(states.last()) == states.last());
        assert(states.drop_last() + seq![states.last()] =~= states);
    } else {
        assert(states =~= Seq::<StateModel>::empty());
    }
}

/// What was seen, and then seen again without repeats, is what was seen.
pub proof fn lemma_unique_absorbs<A>(a: Seq<A>, b: Seq<A>)
    ensures
        unique(unique(a) + b) == unique(a + b),
    decreases b.len(),
{
    if b.len() == 0 {
        assert(unique(a) + b =~= unique(a));
        assert(a + b =~= a);
        lemma_unique_no_duplicates(a);
        lemma_unique_of_distinct(unique(a));
    } else {
        let x = b.last();
        lemma_unique_absorbs(a, b.drop_last());
        assert((unique(a) + b).drop_last() =~= unique(a) + b.drop_last());
        assert((a + b).drop_last() =~= a + b.drop_last());
        assert((unique(a) + b).last() == x);
        assert((a + b).last() == x);
    }
}

/// The values seen after more rows start with the values seen before.
pub proof fn lemma_seen_after_starts(before: Seq<Seq<char>>, keys: Seq<Seq<char>>)
    requires
        before.no_duplicates(),
    ensures
        seen_after(before, keys).len() >= before.len(),
        seen_after(before, keys) == before + new_in(before, keys),
    decreases keys.len(),
{
    if keys.len() == 0 {
        assert(before + keys =~= before);
        lemma_unique_of_distinct(before);
        assert(before.skip(before.len() as int) =~= Seq::<Seq<char>>::empty());
        assert(before + Seq::<Seq<char>>::empty() =~= before);
    } else {
        lemma_seen_after_starts(before, keys.drop_last());
        assert((before + keys).drop_last() =~= before + keys.drop_last());
        assert((before + keys).last() == keys.last());
        let earlier = seen_after(before, keys.drop_last());
        let now = seen_after(before, keys);
        assert(now == earlier || now == earlier.push(keys.last()));
        assert(now =~= before + now.skip(before.len() as int));
    }
}

/// The steps that list the values of a base by its leaves, run one after
/// the other from the first state of a query rooted at that base, hand on
/// one state for each value in the first columns of the files of the
/// leaves, and then the state that closes the list.
pub proof fn lemma_leaf_steps(
    d: DatasetModel,
    query: EntryModel,
    leaves: Seq<Seq<char>>,
)
    requires
        query.base != base_key(),
        leaves.len() > 0,
        every_row_meets(d, query, leaves),
    ensures
        plan_run(d, leaf_steps(query.base, leaves), seq![first_state(query)]) == Ok::<
            Seq<StateModel>,
            Error,
        >(
            founds(query.base, Some(query), unique(leaf_keys(d, query.base, leaves))).push(
                closing(query.base, Some(query), unique(leaf_keys(d, query.base, leaves))),
            ),
        ),
        unique(leaf_keys(d, query.base, leaves)).no_duplicates(),
    decreases leaves.len(),
{
    let base = query.base;
    let plan = leaf_steps(base, leaves);
    let q = Some(query);
    let n = leaves.len() - 1;
    let tablet = option_leaf_tablet(base, leaves[n]);
    let lines = lines_of(d, edge_file(base, leaves[n]));
    let keys = first_columns(lines);
    assert(plan.last() == tablet);
    assert(plan.drop_last() =~= leaf_steps(base, leaves.drop_last()));
    assert(leaves.last() == leaves[n]);
    assert(lists_by_leaf(tablet));
    if edge_file(base, leaves[n]) == schema_file() {
        lemma_edge_file_is_schema_file(base, leaves[n]);
    }
    assert forall|i: int| 0 <= i < lines.len() implies grain_matches(
        tablet,
        own_grain(query),
        (#[trigger] lines[i]).key,
    ) == Some(true) by {
        assert(leaves[n] == leaves[n]);
    }
    lemma_unique_no_duplicates(leaf_keys(d, base, leaves));
    if n == 0 {
        let start = first_state(query);
        let states = seq![start];
        assert(leaves.drop_last() =~= Seq::<Seq<char>>::empty());
        assert(plan.drop_last() =~= Seq::<TabletModel>::empty());
        assert(leaf_keys(d, base, leaves.drop_last()) =~= Seq::<Seq<char>>::empty());
        assert(leaf_keys(d, base, leaves) =~= keys);
        assert(plan_run(d, plan.drop_last(), states) == Ok::<Seq<StateModel>, Error>(states));
        lemma_each_new_value_once(start, tablet, lines);
        let none = Seq::<Seq<char>>::empty();
        assert(none + keys =~= keys);
        assert(unique(keys).skip(0) =~= unique(keys));
        assert(states.drop_last() =~= Seq::<StateModel>::empty());
        assert(states.last() == start);
        assert(tablet_stream(states.drop_last(), tablet, lines) == Ok::<Seq<StateModel>, Error>(
            Seq::empty(),
        ));
        assert(tablet_applied(start, tablet, lines) == line_stream(start, tablet, lines));
        assert(Seq::<StateModel>::empty() + line_stream(start, tablet, lines)->Ok_0
            =~= line_stream(start, tablet, lines)->Ok_0);
    } else {
        let first = leaves.drop_last();
        assert forall|k: int, i: int|
            0 <= k < first.len() && 0 <= i < lines_of(d, edge_file(base, first[k])).len() implies grain_matches(
            option_leaf_tablet(base, #[trigger] first[k]),
            own_grain(query),
            (#[trigger] lines_of(d, edge_file(base, first[k]))[i]).key,
        ) == Some(true) by {
            assert(first[k] == leaves[k]);
        }
        lemma_leaf_steps(d, query, first);
        let before = unique(leaf_keys(d, base, first));
        let ended = closing(base, q, before);
        let handed = founds(base, q, before).push(ended);
        lemma_results_pass(base, q, before, tablet, lines);
        lemma_each_new_value_once(ended, tablet, lines);
        assert(handed.drop_last() =~= founds(base, q, before));
        assert(handed.last() == ended);
        assert(tablet_applied(ended, tablet, lines) == line_stream(ended, tablet, lines));
        lemma_seen_after_starts(before, keys);
        lemma_unique_absorbs(leaf_keys(d, base, first), keys);
        let after = seen_after(before, keys);
        assert(after == unique(leaf_keys(d, base, leaves)));
        assert(founds(base, q, before) + founds(base, q, new_in(before, keys)).push(
            closing(base, q, after),
        ) =~= founds(base, q, after).push(closing(base, q, after)));
    }
}

/// The state holds a result for the value `value` of the node `base`: an
/// entry of that base with that value, and no things seen.
pub open spec fn result_of(state: StateModel, base: Seq<char>, value: Seq<char>) -> bool {
    &&& state.match_map is None
    &&& state.entry is Some
    &&& state.entry->0.base == base
    &&& state.entry->0.base_value == Some(value)
}

/// The states hold one result for each of `values`, in order.
pub open spec fn results_of(states: Seq<StateModel>, base: Seq<char>, values: Seq<Seq<char>>) -> bool {
    &&& states.len() == values.len()
    &&& forall|i: int| 0 <= i < states.len() ==> result_of(#[trigger] states[i], base, values[i])
}

/// A row leaves a result the result of its value.
proof fn lemma_row_keeps_result(
    initial: StateModel,
    state: StateModel,
    tablet: TabletModel,
    grains: Seq<GrainModel>,
    trait_: Seq<char>,
    thing: Seq<char>,
    base: Seq<char>,
    value: Seq<char>,
)
    requires
        !tablet.querying,
        !tablet.accumulating,
        result_of(state, base, value),
        line_applied(initial, state, tablet, grains, trait_, thing) is Ok,
    ensures
        result_of(line_applied(initial, state, tablet, grains, trait_, thing)->Ok_0, base, value),
    decreases grains.len(),
{
    if grains.len() > 0 {
        lemma_row_keeps_result(
            initial,
            state,
            tablet,
            grains.drop_last(),
            trait_,
            thing,
            base,
            value,
        );
        let before = line_applied(initial, state, tablet, grains.drop_last(), trait_, thing)->Ok_0;
        let grain = row_grain(tablet, trait_, thing);
        if sown(before.entry->0, grain, tablet.trait_, tablet.thing) is Some {
            lemma_sown_extends(before.entry->0, grain, tablet.trait_, tablet.thing);
        }
    }
}

/// A file leaves a result the result of its value, in the state it ends
/// with and in every state it hands on.
proof fn lemma_scan_keeps_result(
    initial: StateModel,
    tablet: TabletModel,
    grains: Seq<GrainModel>,
    lines: Seq<LineModel>,
    base: Seq<char>,
    value: Seq<char>,
)
    requires
        !tablet.querying,
        !tablet.accumulating,
        result_of(initial, base, value),
        scanned(initial, tablet, grains, lines) is Ok,
    ensures
        result_of(scanned(initial, tablet, grains, lines)->Ok_0.0, base, value),
        forall|k: int|
            0 <= k < scanned(initial, tablet, grains, lines)->Ok_0.1.len() ==> result_of(
                #[trigger] scanned(initial, tablet, grains, lines)->Ok_0.1[k],
                base,
                value,
            ),
    decreases lines.len(),
{
    if lines.len() > 0 {
        lemma_scan_keeps_result(initial, tablet, grains, lines.drop_last(), base, value);
        let state = scanned(initial, tablet, grains, lines.drop_last())->Ok_0.0;
        let out = scanned(initial, tablet, grains, lines.drop_last())->Ok_0.1;
        let line = lines.last();
        let push = ends_group(state, tablet, line);
        let resumed = StateModel {
            entry: if push {
                initial.entry
            } else {
                state.entry
            },
            query: if push {
                initial.query
            } else {
                state.query
            },
            fst: Some(line.key),
            is_match: if push {
                false
            } else {
                state.is_match
            },
            match_map: state.match_map,
            has_match: state.has_match,
            thing_querying: state.thing_querying,
        };
        lemma_row_keeps_result(
            initial,
            resumed,
            tablet,
            grains,
            trait_of(tablet, line),
            thing_of(tablet, line),
            base,
            value,
        );
        let all = scanned(initial, tablet, grains, lines)->Ok_0.1;
        assert forall|k: int| 0 <= k < all.len() implies result_of(#[trigger] all[k], base, value) by {
            if k < out.len() {
                assert(all[k] == out[k]);
            }
        }
    }
}

/// The facts that a node gives as the trait all hold the node's own value.
pub proof fn lemma_trait_grains(e: EntryModel, trait_: Seq<char>, thing: Seq<char>, k: int)
    requires
        e.base == trait_,
        0 <= k < mown(e, trait_, thing).len(),
    ensures
        mown(e, trait_, thing)[k].base_value == e.base_value,
{
}

/// A step that adds the values of the leaves of the base itself.
pub open spec fn adds_to_base(tablet: TabletModel, base: Seq<char>) -> bool {
    &&& adds_values(tablet)
    &&& !tablet.trait_is_regex
    &&& tablet.trait_is_first
    &&& tablet.filename != schema_file()
    &&& (tablet.eager ==> tablet.trait_ == base)
}

/// A step that adds values hands each result on once, as a result of the
/// same value.
pub proof fn lemma_result_stays(
    state: StateModel,
    tablet: TabletModel,
    lines: Seq<LineModel>,
    base: Seq<char>,
    value: Seq<char>,
)
    requires
        adds_to_base(tablet, base),
        result_of(state, base, value),
        tablet.eager ==> sorted_by_key(lines),
        line_stream(state, tablet, lines) is Ok,
    ensures
        line_stream(state, tablet, lines)->Ok_0.len() == 1,
        result_of(line_stream(state, tablet, lines)->Ok_0[0], base, value),
{
    let initial = initial_state(state, tablet);
    let e = state.entry->0;
    let grains = mown(e, tablet.trait_, tablet.thing);
    assert(initial.query == Some(e));
    if tablet.eager {
        assert forall|i: int|
            0 <= i < lines.len() && some_grain_met(
                tablet,
                grains,
                trait_of(tablet, #[trigger] lines[i]),
            ) implies lines[i].key == value by {
            let k = choose|k: int|
                0 <= k < grains.len() && grain_matches(
                    tablet,
                    #[trigger] grains[k],
                    trait_of(tablet, lines[i]),
                ) == Some(true);
            lemma_trait_grains(e, tablet.trait_, tablet.thing, k);
        }
    }
    lemma_each_result_once(state, tablet, lines, value);
    lemma_scan_keeps_result(initial, tablet, grains, lines, base, value);
    let last = scanned(initial, tablet, grains, lines)->Ok_0.0;
    let out = scanned(initial, tablet, grains, lines)->Ok_0.1;
    let end = finished(initial, last, tablet);
    let all = line_stream(state, tablet, lines)->Ok_0;
    if out.len() > 0 {
        assert(all[0] == out[0]);
    } else {
        assert(all[0] == end[0]);
    }
}

/// A step that adds values hands the results on, one for one.
pub proof fn lemma_results_stay(
    states: Seq<StateModel>,
    tablet: TabletModel,
    lines: Seq<LineModel>,
    base: Seq<char>,
    values: Seq<Seq<char>>,
)
    requires
        adds_to_base(tablet, base),
        results_of(states, base, values),
        tablet.eager ==> sorted_by_key(lines),
        tablet_stream(states, tablet, lines) is Ok,
    ensures
        results_of(tablet_stream(states, tablet, lines)->Ok_0, base, values),
    decreases states.len(),
{
    if states.len() > 0 {
        let first = states.drop_last();
        let n = states.len() - 1;
        assert forall|i: int| 0 <= i < first.len() implies result_of(
            #[trigger] first[i],
            base,
            values.drop_last()[i],
        ) by {
            assert(first[i] == states[i]);
        }
        lemma_results_stay(first, tablet, lines, base, values.drop_last());
        let state = states.last();
        assert(state == states[n]);
        assert(tablet_applied(state, tablet, lines) == line_stream(state, tablet, lines));
        lemma_result_stays(state, tablet, lines, base, values[n]);
        let before = tablet_stream(first, tablet, lines)->Ok_0;
        let more = line_stream(state, tablet, lines)->Ok_0;
        let all = tablet_stream(states, tablet, lines)->Ok_0;
        assert(all == before + more);
        assert forall|i: int| 0 <= i < all.len() implies result_of(#[trigger] all[i], base, values[i]) by {
            if i < before.len() {
                assert(all[i] == before[i]);
                assert(values.drop_last()[i] == values[i]);
            } else {
                assert(all[i] == more[0]);
            }
        }
    }
}

/// The steps of a plan all add values to results of the node `base`, and
/// the files of the eager ones among them stand in the order of their
/// first column.
pub open spec fn value_steps(d: DatasetModel, plan: Seq<TabletModel>, base: Seq<char>) -> bool {
    forall|k: int|
        0 <= k < plan.len() ==> adds_to_base(#[trigger] plan[k], base) && (plan[k].eager
            ==> sorted_by_key(lines_of(d, plan[k].filename)))
}

/// Steps that add values hand the results on, one for one, to the end of
/// the plan.
pub proof fn lemma_value_steps(
    d: DatasetModel,
    plan: Seq<TabletModel>,
    states: Seq<StateModel>,
    base: Seq<char>,
    values: Seq<Seq<char>>,
)
    requires
        value_steps(d, plan, base),
        results_of(states, base, values),
        plan_run(d, plan, states) is Ok,
    ensures
        results_of(plan_run(d, plan, states)->Ok_0, base, values),
    decreases plan.len(),
{
    if plan.len() > 0 {
        let first = plan.drop_last();
        assert forall|k: int| 0 <= k < first.len() implies adds_to_base(#[trigger] first[k], base)
            && (first[k].eager ==> sorted_by_key(lines_of(d, first[k].filename))) by {
            assert(first[k] == plan[k]);
        }
        lemma_value_steps(d, first, states, base, values);
        let tablet = plan.last();
        assert(tablet == plan[plan.len() - 1]);
        lemma_results_stay(
            plan_run(d, first, states)->Ok_0,
            tablet,
            lines_of(d, tablet.filename),
            base,
            values,
        );
    }
}

/// A step that adds values drops the state that closes a list.
pub proof fn lemma_closing_dropped(
    states: Seq<StateModel>,
    ended: StateModel,
    tablet: TabletModel,
    lines: Seq<LineModel>,
)
    requires
        tablet.passthrough,
        tablet.filename != schema_file(),
        ended.match_map is Some,
    ensures
        tablet_stream(states.push(ended), tablet, lines) == tablet_stream(states, tablet, lines),
{
    let all = states.push(ended);
    assert(all.drop_last() =~= states);
    assert(all.last() == ended);
    if let Ok(out) = tablet_stream(states, tablet, lines) {
        assert(out + Seq::<StateModel>::empty() =~= out);
    }
}

/// A plan made of two runs the first and then the second on what the first
/// hands on.
pub proof fn lemma_run_in_two(
    d: DatasetModel,
    first: Seq<TabletModel>,
    second: Seq<TabletModel>,
    states: Seq<StateModel>,
)
    ensures
        plan_run(d, first + second, states) == match plan_run(d, first, states) {
            Err(e) => Err(e),
            Ok(handed) => plan_run(d, second, handed),
        },
    decreases second.len(),
{
    if second.len() == 0 {
        assert(first + second =~= first);
    } else {
        lemma_run_in_two(d, first, second.drop_last(), states);
        assert((first + second).drop_last() =~= first + second.drop_last());
        assert((first + second).last() == second.last());
    }
}

/// The entries answer a query for the node `base` with one entry for each
/// of `values`, in order.
pub open spec fn answers(entries: Seq<EntryModel>, base: Seq<char>, values: Seq<Seq<char>>) -> bool {
    &&& entries.len() == values.len()
    &&& forall|i: int|
        0 <= i < entries.len() ==> (#[trigger] entries[i]).base == base && entries[i].base_value
            == Some(values[i])
}

/// Results give one entry each to the answer of a query that asks for whole
/// entries.
pub proof fn lemma_results_answer(
    states: Seq<StateModel>,
    query: EntryModel,
    values: Seq<Seq<char>>,
)
    requires
        query.leader_value is None,
        results_of(states, query.base, values),
    ensures
        records_of(states, query) is Ok,
        answers(records_of(states, query)->Ok_0, query.base, values),
    decreases states.len(),
{
    if states.len() > 0 {
        let first = states.drop_last();
        let n = states.len() - 1;
        assert forall|i: int| 0 <= i < first.len() implies result_of(
            #[trigger] first[i],
            query.base,
            values.drop_last()[i],
        ) by {
            assert(first[i] == states[i]);
        }
        lemma_results_answer(first, query, values.drop_last());
        assert(states.last() == states[n]);
        assert(result_of(states[n], query.base, values[n]));
        let before = records_of(first, query)->Ok_0;
        let all = records_of(states, query)->Ok_0;
        assert forall|i: int| 0 <= i < all.len() implies (#[trigger] all[i]).base == query.base
            && all[i].base_value == Some(values[i]) by {
            if i < before.len() {
                assert(all[i] == before[i]);
                assert(values.drop_last()[i] == values[i]);
            }
        }
    }
}

/// A query without a filter is answered with each value once.
///
/// The query is rooted at a node without trunks, asks for whole entries and
/// names no attribute, so that its plan lists the values of the node by
/// its leaves and then adds the values below. Every row of the files of
/// the leaves meets the query's own value, no step reads the schema file,
/// and the files of the eager steps that add values stand in the order of
/// their first column. Then, where the plan does not fail, the answer holds
/// exactly one entry for each value that stands in a first column of the
/// files of the leaves, in the order in which the values first stand there:
/// however many rows and files hold a value, it is answered once.
pub proof fn lemma_each_value_answered_once(d: DatasetModel, s: SchemaModel, query: EntryModel)
    requires
        query.base != base_key(),
        query.leader_value is None,
        query_plan(s, query).len() == 0,
        trunks_of(s, query.base).len() == 0,
        leaves_of(s, query.base).len() > 0,
        every_row_meets(d, query, leaves_of(s, query.base)),
        forall|k: int|
            0 <= k < values_plan(s, query).len() ==> (#[trigger] values_plan(s, query)[k]).filename
                != schema_file() && (values_plan(s, query)[k].eager ==> sorted_by_key(
                lines_of(d, values_plan(s, query)[k].filename),
            )),
        plan_run(d, select_plan(s, query), seq![first_state(query)]) is Ok,
    ensures
        records_of(plan_run(d, select_plan(s, query), seq![first_state(query)])->Ok_0, query) is Ok,
        answers(
            records_of(
                plan_run(d, select_plan(s, query), seq![first_state(query)])->Ok_0,
                query,
            )->Ok_0,
            query.base,
            unique(leaf_keys(d, query.base, leaves_of(s, query.base))),
        ),
        unique(leaf_keys(d, query.base, leaves_of(s, query.base))).no_duplicates(),
{
    let base = query.base;
    let leaves = leaves_of(s, base);
    let listing = leaf_steps(base, leaves);
    let adding = values_plan(s, query);
    let start = seq![first_state(query)];
    let values = unique(leaf_keys(d, base, leaves));
    let q = Some(query);
    assert(options_plan(s, base) =~= listing);
    assert(select_plan(s, query) == listing + adding);
    lemma_leaf_steps(d, query, leaves);
    lemma_run_in_two(d, listing, adding, start);
    let results = founds(base, q, values);
    let ended = closing(base, q, values);
    let handed = results.push(ended);
    assert(results_of(results, base, values));
    assert forall|k: int| 0 <= k < adding.len() implies adds_to_base(#[trigger] adding[k], base)
        && (adding[k].eager ==> sorted_by_key(lines_of(d, adding[k].filename))) by {
        lemma_edge_tablets(
            s,
            crate::schema::sort_nesting_descending::sorted_down(
                s,
                crate::select::strategy::others(
                    crate::schema::find_crown::crown(s, base),
                    base,
                ),
            ),
            false,
            base,
            k,
        );
    }
    if adding.len() == 0 {
        assert(handed.drop_last() =~= results);
        assert(handed.last() == ended);
        lemma_results_answer(results, query, values);
        assert(record_of(ended, query) == Ok::<Option<EntryModel>, Error>(None));
    } else {
        let lines = lines_of(d, adding[0].filename);
        lemma_run_from_the_front(d, adding, handed);
        lemma_run_from_the_front(d, adding, results);
        lemma_closing_dropped(results, ended, adding[0], lines);
        lemma_value_steps(d, adding, results, base, values);
        lemma_results_answer(plan_run(d, adding, results)->Ok_0, query, values);
    }
}

/// The answer of a dataset to a query without a filter holds each value
/// once.
///
/// This is [`lemma_each_value_answered_once`], said of the answer itself
/// and of a query that holds no value, which every row meets: the dataset
/// has the schema `s`, which has the base of the query. Then,
/// where the plan does not fail, the query is answered, with exactly one
/// entry of its base for each value that stands in a first column of the
/// files of the leaves of the base; the entries come in the order in which
/// the values first stand there, and no two of them hold the same value.
pub proof fn lemma_wildcard_answer(d: DatasetModel, s: SchemaModel, query: EntryModel)
    requires
        selected_schema(d) == Ok::<SchemaModel, Error>(s),
        known(s, query),
        query.base != base_key(),
        query.leader_value is None,
        query_plan(s, query).len() == 0,
        trunks_of(s, query.base).len() == 0,
        leaves_of(s, query.base).len() > 0,
        query.base_value is None,
        forall|k: int|
            0 <= k < values_plan(s, query).len() ==> (#[trigger] values_plan(s, query)[k]).filename
                != schema_file() && (values_plan(s, query)[k].eager ==> sorted_by_key(
                lines_of(d, values_plan(s, query)[k].filename),
            )),
        plan_run(d, select_plan(s, query), seq![first_state(query)]) is Ok,
    ensures
        selected(d, query) is Ok,
        answers(
            selected(d, query)->Ok_0,
            query.base,
            unique(leaf_keys(d, query.base, leaves_of(s, query.base))),
        ),
        selected(d, query)->Ok_0.len() == unique(
            leaf_keys(d, query.base, leaves_of(s, query.base)),
        ).len(),
        forall|i: int, j: int|
            0 <= i < j < selected(d, query)->Ok_0.len() ==> (#[trigger] selected(
                d,
                query,
            )->Ok_0[i]).base_value != (#[trigger] selected(d, query)->Ok_0[j]).base_value,
{
    lemma_open_query_meets(d, query, leaves_of(s, query.base));
    lemma_each_value_answered_once(d, s, query);
    assert(base_key() =~= crate::schema::try_from::schema_base());
    let values = unique(leaf_keys(d, query.base, leaves_of(s, query.base)));
    let out = selected(d, query)->Ok_0;
    assert forall|i: int, j: int| 0 <= i < j < out.len() implies (#[trigger] out[i]).base_value != (
    #[trigger] out[j]).base_value by {
        assert(values[i] != values[j]);
    }
}

} // verus!
