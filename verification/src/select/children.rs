//! What a result holds after the values of a leaf were added to it.
use vstd::prelude::*;
use crate::assoc::{has_key, lemma_position, lemma_put, lemma_put_pairs, lookup};
use crate::delete::sorted_by_key;
use crate::entry::laws::lemma_with_child;
use crate::entry::mow::mown;
use crate::entry::sow::{bare, has_child, holds_value, with_child};
use crate::entry::EntryModel;
use crate::grain::GrainModel;
use crate::line::LineModel;
use crate::order::{lemma_unique_holds, unique};
use crate::select::line::{
    ends_group,
    finished,
    grain_matches,
    initial_state,
    line_applied,
    line_stream,
    scanned,
};
use crate::dataset::{lines_of, DatasetModel};
use crate::entry::try_from::base_key;
use crate::select::plan_run;
use crate::select::strategy::{edge_file, schema_file, value_tablet};
use crate::select::tablet::{tablet_applied, tablet_stream};
use crate::select::wildcard::lemma_edge_file_is_schema_file;
use crate::select::types::state::StateModel;
use crate::select::types::tablet::TabletModel;
use crate::select::values::{adds_values, lemma_marks_after_row, some_grain_met};
use crate::text::lemma_text_lt_total;

verus! {

/// A step that adds, to results of the node `base`, the `name` values that
/// the file of that edge holds for them: the node stands in the first column
/// and the value in the second, and the step hands a result on as soon as its
/// rows have ended.
pub open spec fn fills(tablet: TabletModel, base: Seq<char>, name: Seq<char>) -> bool {
    &&& adds_values(tablet)
    &&& tablet.eager
    &&& !tablet.trait_is_regex
    &&& tablet.trait_is_first
    &&& !tablet.thing_is_first
    &&& tablet.filename != schema_file()
    &&& tablet.trait_ == base
    &&& tablet.thing == name
    &&& name != base
}

/// The second columns of the rows whose first column is `key`, in the order
/// of the rows.
pub open spec fn values_at(lines: Seq<LineModel>, key: Seq<char>) -> Seq<Seq<char>>
    decreases lines.len(),
{
    if lines.len() == 0 {
        Seq::empty()
    } else {
        let rest = values_at(lines.drop_last(), key);
        if lines.last().key == key {
            rest.push(lines.last().value)
        } else {
            rest
        }
    }
}

/// The node `e` with the fact that a `name` child holds `value`.
pub open spec fn one_more(e: EntryModel, name: Seq<char>, value: Seq<char>) -> EntryModel {
    EntryModel {
        base: e.base,
        base_value: e.base_value,
        leader_value: None,
        leaves: with_child(e.leaves, name, Some(value)),
    }
}

/// The node `e` with the facts that `name` children hold `values`, written
/// one after the other.
pub open spec fn with_values(e: EntryModel, name: Seq<char>, values: Seq<Seq<char>>) -> EntryModel
    decreases values.len(),
{
    if values.len() == 0 {
        e
    } else {
        one_more(with_values(e, name, values.drop_last()), name, values.last())
    }
}

/// Adding values leaves a node its base and its value.
pub proof fn lemma_with_values_head(e: EntryModel, name: Seq<char>, values: Seq<Seq<char>>)
    ensures
        with_values(e, name, values).base == e.base,
        with_values(e, name, values).base_value == e.base_value,
        e.leader_value is None ==> with_values(e, name, values).leader_value is None,
    decreases values.len(),
{
    if values.len() > 0 {
        lemma_with_values_head(e, name, values.drop_last());
    }
}

/// A row of the file of a leaf adds its value to the result whose value
/// stands in its first column, and leaves any other result as it is.
proof fn lemma_row_adds(
    initial: StateModel,
    state: StateModel,
    tablet: TabletModel,
    grains: Seq<GrainModel>,
    key: Seq<char>,
    value: Seq<char>,
    base: Seq<char>,
    name: Seq<char>,
    v: Seq<char>,
)
    requires
        fills(tablet, base, name),
        state.match_map is None,
        state.entry is Some,
        state.entry->0.base == base,
        forall|k: int| 0 <= k < grains.len() ==> (#[trigger] grains[k]).base_value == Some(v),
    ensures
        line_applied(initial, state, tablet, grains, key, value) is Ok,
        line_applied(initial, state, tablet, grains, key, value)->Ok_0.entry == Some(
            if key == v && grains.len() > 0 {
                one_more(state.entry->0, name, value)
            } else {
                state.entry->0
            },
        ),
        line_applied(initial, state, tablet, grains, key, value)->Ok_0.match_map is None,
        some_grain_met(tablet, grains, key) == (key == v && grains.len() > 0),
    decreases grains.len(),
{
    if grains.len() > 0 {
        let first = grains.drop_last();
        let n = grains.len() - 1;
        assert forall|k: int| 0 <= k < first.len() implies (#[trigger] first[k]).base_value == Some(
            v,
        ) by {
            assert(first[k] == grains[k]);
        }
        lemma_row_adds(initial, state, tablet, first, key, value, base, name, v);
        assert(grains.last() == grains[n]);
        assert(grain_matches(tablet, grains[n], key) == Some(v == key));
        let cur = state.entry->0;
        lemma_with_child(cur.leaves, name, Some(value), name);
        if key == v {
            assert(grain_matches(tablet, grains[n], key) == Some(true));
        } else {
            if some_grain_met(tablet, grains, key) {
                let k = choose|k: int|
                    0 <= k < grains.len() && grain_matches(tablet, #[trigger] grains[k], key)
                        == Some(true);
                assert(grains[k].base_value == Some(v));
            }
        }
    }
}

/// How far a step that fills in a leaf has come on a file in order, for the
/// result `e` of the value `v`: it has not reached the rows of `v` and holds
/// `e`; or it is among them and holds `e` with the values of the rows so far;
/// or it has left them, has handed on `e` with the values of the rows, and
/// holds `e` again.
pub open spec fn filling(
    state: StateModel,
    out: Seq<StateModel>,
    lines: Seq<LineModel>,
    e: EntryModel,
    name: Seq<char>,
    v: Seq<char>,
) -> bool {
    let grown = with_values(e, name, values_at(lines, v));
    &&& state.match_map is None
    &&& state.fst == if lines.len() == 0 {
        None
    } else {
        Some(lines.last().key)
    }
    &&& if state.is_match {
        &&& state.has_match
        &&& out.len() == 0
        &&& state.fst == Some(v)
        &&& state.entry == Some(grown)
    } else if state.has_match {
        &&& out.len() == 1
        &&& state.fst != Some(v)
        &&& exists|q: int| 0 <= q < lines.len() && (#[trigger] lines[q]).key == v
        &&& state.entry == Some(e)
        &&& out[0].entry == Some(grown)
        &&& out[0].match_map is None
    } else {
        &&& out.len() == 0
        &&& state.entry == Some(e)
        &&& values_at(lines, v).len() == 0
    }
}

/// A step that fills in a leaf, on a file in order, never fails, and is at
/// each row where [`filling`] says.
proof fn lemma_filling(
    initial: StateModel,
    tablet: TabletModel,
    grains: Seq<GrainModel>,
    lines: Seq<LineModel>,
    base: Seq<char>,
    name: Seq<char>,
    v: Seq<char>,
    n: int,
)
    requires
        fills(tablet, base, name),
        initial.match_map is None,
        initial.fst is None,
        !initial.is_match,
        !initial.has_match,
        initial.entry is Some,
        initial.entry->0.base == base,
        grains.len() > 0,
        forall|k: int| 0 <= k < grains.len() ==> (#[trigger] grains[k]).base_value == Some(v),
        sorted_by_key(lines),
        0 <= n <= lines.len(),
    ensures
        scanned(initial, tablet, grains, lines.take(n)) is Ok,
        filling(
            scanned(initial, tablet, grains, lines.take(n))->Ok_0.0,
            scanned(initial, tablet, grains, lines.take(n))->Ok_0.1,
            lines.take(n),
            initial.entry->0,
            name,
            v,
        ),
    decreases n,
{
    let e = initial.entry->0;
    if n == 0 {
        assert(lines.take(0) =~= Seq::<LineModel>::empty());
    } else {
        let sofar = lines.take(n - 1);
        let line = lines[n - 1];
        assert(lines.take(n).drop_last() =~= sofar);
        assert(lines.take(n).last() == line);
        lemma_filling(initial, tablet, grains, lines, base, name, v, n - 1);
        let state = scanned(initial, tablet, grains, sofar)->Ok_0.0;
        let out = scanned(initial, tablet, grains, sofar)->Ok_0.1;
        let push = ends_group(state, tablet, line);
        let resumed = StateModel {
            entry: if push {
                initial.entry
            } else {
                state.entry
            },
            query: if push {
                initial.query
            } else {
                state.query
            },
            fst: Some(line.key),
            is_match: if push {
                false
            } else {
                state.is_match
            },
            match_map: state.match_map,
            has_match: state.has_match,
            thing_querying: state.thing_querying,
        };
        let before = values_at(sofar, v);
        let now = values_at(lines.take(n), v);
        lemma_with_values_head(e, name, before);
        lemma_row_adds(initial, resumed, tablet, grains, line.key, line.value, base, name, v);
        lemma_marks_after_row(initial, resumed, tablet, grains, line.key, line.value);
        if line.key == v {
            assert(now.drop_last() =~= before);
            assert(now.last() == line.value);
        }
        if !state.is_match && state.has_match {
            let q = choose|q: int| 0 <= q < sofar.len() && (#[trigger] sofar[q]).key == v;
            assert(lines.take(n)[q] == sofar[q]);
            if line.key == v {
                let last = sofar.last();
                assert(last == lines[n - 2]);
                assert(sofar[q] == lines[q]);
                assert(!crate::text::text_lt(lines[n - 2].key, lines[q].key));
                assert(!crate::text::text_lt(lines[n - 1].key, lines[n - 2].key));
                lemma_text_lt_total(last.key, v);
            }
        }
        if state.is_match && line.key != v {
            assert(sofar.len() > 0);
            assert(sofar.last() == lines[n - 2]);
            assert(lines.take(n)[n - 2] == lines[n - 2]);
        }
    }
}

/// No list is empty.
pub open spec fn lists_full(leaves: Seq<(Seq<char>, Seq<EntryModel>)>) -> bool {
    forall|i: int| 0 <= i < leaves.len() ==> (#[trigger] leaves[i]).1.len() > 0
}

/// Writing a fact leaves no list empty.
pub proof fn lemma_with_child_full(
    leaves: Seq<(Seq<char>, Seq<EntryModel>)>,
    name: Seq<char>,
    value: Option<Seq<char>>,
)
    requires
        lists_full(leaves),
    ensures
        lists_full(with_child(leaves, name, value)),
{
    let children = match lookup(leaves, name) {
        Some(old) => old.push(bare(name, value)),
        None => seq![bare(name, value)],
    };
    lemma_put_pairs(leaves, name, children);
}

/// Adding values leaves no list empty.
pub proof fn lemma_with_values_full(e: EntryModel, name: Seq<char>, values: Seq<Seq<char>>)
    requires
        lists_full(e.leaves),
    ensures
        lists_full(with_values(e, name, values).leaves),
    decreases values.len(),
{
    if values.len() > 0 {
        lemma_with_values_full(e, name, values.drop_last());
        lemma_with_child_full(
            with_values(e, name, values.drop_last()).leaves,
            name,
            Some(values.last()),
        );
    }
}

/// A step that fills in a leaf hands each result on once, with the values
/// that the file holds for it.
///
/// The step never fails. Handed the result `e` of the value `v`, it hands on
/// one state: `e` with a `name` child for each row of the file whose first
/// column is `v`, written in the order of the rows. The file stands in the
/// order of its first column.
pub proof fn lemma_step_fills(
    state: StateModel,
    tablet: TabletModel,
    lines: Seq<LineModel>,
    base: Seq<char>,
    name: Seq<char>,
    v: Seq<char>,
)
    requires
        fills(tablet, base, name),
        state.match_map is None,
        state.entry is Some,
        state.entry->0.base == base,
        state.entry->0.base_value == Some(v),
        lists_full(state.entry->0.leaves),
        sorted_by_key(lines),
    ensures
        line_stream(state, tablet, lines) is Ok,
        line_stream(state, tablet, lines)->Ok_0.len() == 1,
        line_stream(state, tablet, lines)->Ok_0[0].match_map is None,
        line_stream(state, tablet, lines)->Ok_0[0].entry == Some(
            with_values(state.entry->0, name, values_at(lines, v)),
        ),
{
    let initial = initial_state(state, tablet);
    let e = state.entry->0;
    let grains = mown(e, base, name);
    assert(initial.query == Some(e));
    assert(initial.entry == Some(e));
    lemma_position(e.leaves, name);
    assert(grains.len() > 0);
    assert forall|k: int| 0 <= k < grains.len() implies (#[trigger] grains[k]).base_value == Some(
        v,
    ) by {}
    assert(lines.take(lines.len() as int) =~= lines);
    lemma_filling(initial, tablet, grains, lines, base, name, v, lines.len() as int);
    let last = scanned(initial, tablet, grains, lines)->Ok_0.0;
    let out = scanned(initial, tablet, grains, lines)->Ok_0.1;
    let end = finished(initial, last, tablet);
    let all = line_stream(state, tablet, lines)->Ok_0;
    assert(all == out + end);
    if out.len() > 0 {
        assert(all[0] == out[0]);
    } else {
        assert(all[0] == end[0]);
    }
}

/// The steps that fill in the leaves `names` of the node `base`, one after
/// the other.
pub open spec fn fill_steps(base: Seq<char>, names: Seq<Seq<char>>) -> Seq<TabletModel> {
    Seq::new(names.len(), |j: int| value_tablet(base, names[j], base))
}

/// The result for the value `v` of the node `base` after the leaves `names`
/// were filled in from the dataset: the bare node, with the values that the
/// file of each leaf holds for `v`, leaf after leaf.
pub open spec fn filled(d: DatasetModel, base: Seq<char>, names: Seq<Seq<char>>, v: Seq<char>) -> EntryModel
    decreases names.len(),
{
    if names.len() == 0 {
        bare(base, Some(v))
    } else {
        with_values(
            filled(d, base, names.drop_last(), v),
            names.last(),
            values_at(lines_of(d, edge_file(base, names.last())), v),
        )
    }
}

/// The states hold, in order, the results for `values` with the leaves
/// `names` filled in.
pub open spec fn all_filled(
    states: Seq<StateModel>,
    d: DatasetModel,
    base: Seq<char>,
    names: Seq<Seq<char>>,
    values: Seq<Seq<char>>,
) -> bool {
    &&& states.len() == values.len()
    &&& forall|i: int|
        0 <= i < states.len() ==> (#[trigger] states[i]).match_map is None && states[i].entry
            == Some(filled(d, base, names, values[i]))
}

/// A filled result is a node of the base with the value, without a leader,
/// and none of its lists is empty.
pub proof fn lemma_filled_head(d: DatasetModel, base: Seq<char>, names: Seq<Seq<char>>, v: Seq<char>)
    ensures
        filled(d, base, names, v).base == base,
        filled(d, base, names, v).base_value == Some(v),
        filled(d, base, names, v).leader_value is None,
        lists_full(filled(d, base, names, v).leaves),
    decreases names.len(),
{
    if names.len() > 0 {
        let before = filled(d, base, names.drop_last(), v);
        let values = values_at(lines_of(d, edge_file(base, names.last())), v);
        lemma_filled_head(d, base, names.drop_last(), v);
        lemma_with_values_head(before, names.last(), values);
        lemma_with_values_full(before, names.last(), values);
    }
}

/// One step that fills in a leaf takes the results with the leaves `names`
/// filled in to the results with that leaf filled in too.
proof fn lemma_fill_stream(
    states: Seq<StateModel>,
    d: DatasetModel,
    base: Seq<char>,
    names: Seq<Seq<char>>,
    name: Seq<char>,
    values: Seq<Seq<char>>,
)
    requires
        base != base_key(),
        name != base,
        all_filled(states, d, base, names, values),
        sorted_by_key(lines_of(d, edge_file(base, name))),
    ensures
        tablet_stream(
            states,
            value_tablet(base, name, base),
            lines_of(d, edge_file(base, name)),
        ) is Ok,
        all_filled(
            tablet_stream(
                states,
                value_tablet(base, name, base),
                lines_of(d, edge_file(base, name)),
            )->Ok_0,
            d,
            base,
            names.push(name),
            values,
        ),
    decreases states.len(),
{
    let tablet = value_tablet(base, name, base);
    let lines = lines_of(d, edge_file(base, name));
    if edge_file(base, name) == schema_file() {
        lemma_edge_file_is_schema_file(base, name);
    }
    assert(fills(tablet, base, name));
    if states.len() > 0 {
        let first = states.drop_last();
        let n = states.len() - 1;
        assert forall|i: int| 0 <= i < first.len() implies (#[trigger] first[i]).match_map is None
            && first[i].entry == Some(filled(d, base, names, values.drop_last()[i])) by {
            assert(first[i] == states[i]);
        }
        lemma_fill_stream(first, d, base, names, name, values.drop_last());
        let state = states.last();
        assert(state == states[n]);
        assert(tablet_applied(state, tablet, lines) == line_stream(state, tablet, lines));
        lemma_filled_head(d, base, names, values[n]);
        lemma_step_fills(state, tablet, lines, base, name, values[n]);
        let before = tablet_stream(first, tablet, lines)->Ok_0;
        let more = line_stream(state, tablet, lines)->Ok_0;
        let all = tablet_stream(states, tablet, lines)->Ok_0;
        assert(all == before + more);
        assert(names.push(name).drop_last() =~= names);
        assert(names.push(name).last() == name);
        assert forall|i: int| 0 <= i < all.len() implies (#[trigger] all[i]).match_map is None
            && all[i].entry == Some(filled(d, base, names.push(name), values[i])) by {
            if i < before.len() {
                assert(all[i] == before[i]);
                assert(values.drop_last()[i] == values[i]);
            } else {
                assert(all[i] == more[0]);
            }
        }
    }
}

/// The steps that fill in the leaves of a node never fail, and take the
/// bare results to the results with all those leaves filled in.
///
/// The node is not the schema's own, none of the leaves is the node itself,
/// and the file of each leaf stands in the order of its first column.
pub proof fn lemma_fill_steps(
    d: DatasetModel,
    base: Seq<char>,
    names: Seq<Seq<char>>,
    states: Seq<StateModel>,
    values: Seq<Seq<char>>,
)
    requires
        base != base_key(),
        !names.contains(base),
        forall|j: int|
            0 <= j < names.len() ==> sorted_by_key(
                lines_of(d, edge_file(base, #[trigger] names[j])),
            ),
        all_filled(states, d, base, Seq::empty(), values),
    ensures
        plan_run(d, fill_steps(base, names), states) is Ok,
        all_filled(plan_run(d, fill_steps(base, names), states)->Ok_0, d, base, names, values),
    decreases names.len(),
{
    let plan = fill_steps(base, names);
    if names.len() == 0 {
        assert(names =~= Seq::<Seq<char>>::empty());
    } else {
        let first = names.drop_last();
        let n = names.len() - 1;
        assert forall|j: int| 0 <= j < first.len() implies sorted_by_key(
            lines_of(d, edge_file(base, #[trigger] first[j])),
        ) by {
            assert(first[j] == names[j]);
        }
        if first.contains(base) {
            let k = choose|k: int| 0 <= k < first.len() && first[k] == base;
            assert(names[k] == base);
        }
        lemma_fill_steps(d, base, first, states, values);
        assert(plan.drop_last() =~= fill_steps(base, first));
        assert(plan.last() == value_tablet(base, names[n], base));
        assert(names.last() == names[n]);
        assert(names[n] != base);
        lemma_fill_stream(
            plan_run(d, fill_steps(base, first), states)->Ok_0,
            d,
            base,
            first,
            names[n],
            values,
        );
        assert(first.push(names[n]) =~= names);
    }
}

/// A bare child named `name` for each of `values`, in order.
pub open spec fn bare_items(name: Seq<char>, values: Seq<Seq<char>>) -> Seq<EntryModel> {
    Seq::new(values.len(), |i: int| bare(name, Some(values[i])))
}

/// The `name` children of a node: those of its list of that name, none
/// where it has no such list.
pub open spec fn children_named(e: EntryModel, name: Seq<char>) -> Seq<EntryModel> {
    match lookup(e.leaves, name) {
        Some(items) => items,
        None => Seq::empty(),
    }
}

/// Adding values under one name changes no list of another name.
pub proof fn lemma_with_values_others(
    e: EntryModel,
    name: Seq<char>,
    values: Seq<Seq<char>>,
    other: Seq<char>,
)
    requires
        other != name,
    ensures
        lookup(with_values(e, name, values).leaves, other) == lookup(e.leaves, other),
        has_key(with_values(e, name, values).leaves, other) == has_key(e.leaves, other),
    decreases values.len(),
{
    if values.len() > 0 {
        lemma_with_values_others(e, name, values.drop_last(), other);
        lemma_with_child(
            with_values(e, name, values.drop_last()).leaves,
            name,
            Some(values.last()),
            other,
        );
    }
}

/// Bare children hold a value exactly where it is one of theirs.
proof fn lemma_bare_items_hold(name: Seq<char>, values: Seq<Seq<char>>, x: Seq<char>)
    ensures
        holds_value(bare_items(name, values), Some(x)) == values.contains(x),
{
    let items = bare_items(name, values);
    if holds_value(items, Some(x)) {
        let k = choose|k: int| 0 <= k < items.len() && (#[trigger] items[k]).base_value == Some(x);
        assert(values[k] == x);
    }
    if values.contains(x) {
        let k = choose|k: int| 0 <= k < values.len() && values[k] == x;
        assert(items[k].base_value == Some(x));
    }
}

/// Values added to a node that has no list of the name give one bare child
/// for each value, in the order in which the values first stand: a value
/// that stands twice gives one child.
pub proof fn lemma_with_values_children(e: EntryModel, name: Seq<char>, values: Seq<Seq<char>>)
    requires
        !has_key(e.leaves, name),
    ensures
        children_named(with_values(e, name, values), name) == bare_items(name, unique(values)),
        has_key(with_values(e, name, values).leaves, name) == (values.len() > 0),
    decreases values.len(),
{
    if values.len() == 0 {
        assert(bare_items(name, unique(values)) =~= Seq::<EntryModel>::empty());
    } else {
        let first = values.drop_last();
        let x = values.last();
        let before = with_values(e, name, first).leaves;
        lemma_with_values_children(e, name, first);
        lemma_bare_items_hold(name, unique(first), x);
        lemma_unique_holds(first, x);
        let after = with_child(before, name, Some(x));
        if first.len() == 0 {
            assert(!has_child(before, name, Some(x)));
            assert(unique(first) =~= Seq::<Seq<char>>::empty());
            lemma_put(before, name, seq![bare(name, Some(x))], name);
            assert(unique(values) =~= seq![x]);
            assert(lookup(after, name)->0 =~= bare_items(name, unique(values)));
        } else if unique(first).contains(x) {
            assert(has_child(before, name, Some(x)));
        } else {
            assert(!has_child(before, name, Some(x)));
            let old = lookup(before, name)->0;
            assert(old == bare_items(name, unique(first)));
            lemma_put(before, name, old.push(bare(name, Some(x))), name);
            assert(unique(values) == unique(first).push(x));
            assert(lookup(after, name)->0 =~= bare_items(name, unique(values)));
        }
    }
}

/// A filled result has a list only for the leaves that were filled in.
pub proof fn lemma_filled_lists(
    d: DatasetModel,
    base: Seq<char>,
    names: Seq<Seq<char>>,
    v: Seq<char>,
    other: Seq<char>,
)
    requires
        !names.contains(other),
    ensures
        !has_key(filled(d, base, names, v).leaves, other),
    decreases names.len(),
{
    if names.len() == 0 {
        lemma_position(filled(d, base, names, v).leaves, other);
    } else {
        let first = names.drop_last();
        if first.contains(other) {
            let k = choose|k: int| 0 <= k < first.len() && first[k] == other;
            assert(names[k] == other);
        }
        assert(names[names.len() - 1] != other);
        lemma_filled_lists(d, base, first, v, other);
        lemma_with_values_others(
            filled(d, base, first, v),
            names.last(),
            values_at(lines_of(d, edge_file(base, names.last())), v),
            other,
        );
    }
}

/// What a filled result holds under each leaf: one bare child for each
/// value that the file of the leaf holds for the result's value, in the
/// order in which the values first stand in the rows, and nothing else.
///
/// No leaf is named twice.
pub proof fn lemma_filled_children(
    d: DatasetModel,
    base: Seq<char>,
    names: Seq<Seq<char>>,
    v: Seq<char>,
    j: int,
)
    requires
        names.no_duplicates(),
        0 <= j < names.len(),
    ensures
        children_named(filled(d, base, names, v), names[j]) == bare_items(
            names[j],
            unique(values_at(lines_of(d, edge_file(base, names[j])), v)),
        ),
    decreases names.len(),
{
    let first = names.drop_last();
    let n = names.len() - 1;
    let before = filled(d, base, first, v);
    let values = values_at(lines_of(d, edge_file(base, names.last())), v);
    assert(names.last() == names[n]);
    if j == n {
        if first.contains(names[n]) {
            let k = choose|k: int| 0 <= k < first.len() && first[k] == names[n];
            assert(names[k] == names[n]);
        }
        lemma_filled_lists(d, base, first, v, names[n]);
        lemma_with_values_children(before, names[n], values);
    } else {
        assert(first[j] == names[j]);
        lemma_filled_children(d, base, first, v, j);
        lemma_with_values_others(before, names[n], values, names[j]);
    }
}

} // verus!
