//! What a step that lists the values of a node hands on.
use vstd::prelude::*;
use crate::entry::mow::mown;
use crate::entry::sow::{bare, sown};
use crate::entry::EntryModel;
use crate::error::Error;
use crate::grain::GrainModel;
use crate::line::LineModel;
use crate::order::{
    lemma_unique_holds,
    lemma_unique_no_duplicates,
    lemma_unique_of_distinct,
    unique,
};
use crate::select::line::{
    ends_group,
    finished,
    grain_applied,
    grain_matches,
    handed_on,
    initial_state,
    line_applied,
    line_stream,
    row_grain,
    scanned,
};
use crate::select::types::state::StateModel;
use crate::select::types::tablet::TabletModel;

verus! {

/// The first column of each row.
pub open spec fn first_columns(lines: Seq<LineModel>) -> Seq<Seq<char>> {
    Seq::new(lines.len(), |i: int| lines[i].key)
}

/// The state that is handed on for the value `value` of the node `base`.
pub open spec fn found(base: Seq<char>, query: Option<EntryModel>, value: Seq<char>) -> StateModel {
    StateModel {
        entry: Some(bare(base, Some(value))),
        query,
        fst: None,
        is_match: false,
        match_map: None,
        has_match: false,
        thing_querying: None,
    }
}

/// One state for each of `values`, in order.
pub open spec fn founds(base: Seq<char>, query: Option<EntryModel>, values: Seq<Seq<char>>) -> Seq<
    StateModel,
> {
    Seq::new(values.len(), |i: int| found(base, query, values[i]))
}

/// The state that closes the list: the fresh node, the query, and the
/// values that were seen.
pub open spec fn closing(base: Seq<char>, query: Option<EntryModel>, seen: Seq<Seq<char>>) -> StateModel {
    StateModel {
        entry: Some(bare(base, None)),
        query,
        fst: None,
        is_match: false,
        match_map: Some(seen),
        has_match: false,
        thing_querying: None,
    }
}

/// A step that lists the values of its base from the first column of a file
/// of one of its leaves.
pub open spec fn lists_by_leaf(tablet: TabletModel) -> bool {
    &&& tablet.accumulating
    &&& tablet.eager
    &&& !tablet.querying
    &&& tablet.thing_is_first
    &&& tablet.trait_is_first
    &&& tablet.thing == tablet.base
    &&& tablet.trait_ == tablet.base
}

/// The one grain that a query rooted at `base` gives such a step.
pub open spec fn own_grain(query: EntryModel) -> GrainModel {
    GrainModel {
        base: query.base,
        base_value: query.base_value,
        leaf: query.base,
        leaf_value: query.base_value,
    }
}

/// The values that a step has seen after the rows with the first columns
/// `keys`, when it had seen `before` at the start.
pub open spec fn seen_after(before: Seq<Seq<char>>, keys: Seq<Seq<char>>) -> Seq<Seq<char>> {
    unique(before + keys)
}

/// The values that a step has seen for the first time in the rows with the
/// first columns `keys`, when it had seen `before` at the start.
pub open spec fn new_in(before: Seq<Seq<char>>, keys: Seq<Seq<char>>) -> Seq<Seq<char>> {
    seen_after(before, keys).skip(before.len() as int)
}

/// How far such a step has come after some rows with the first columns
/// `keys`: it has seen each value once; while the group of the last row is
/// one that matched, its value is the last one seen and the entry holds it,
/// and the states of the new values before it are handed on; otherwise the
/// entry is fresh and the states of all new values are handed on.
pub open spec fn listed(
    state: StateModel,
    out: Seq<StateModel>,
    before: Seq<Seq<char>>,
    keys: Seq<Seq<char>>,
    base: Seq<char>,
    query: Option<EntryModel>,
) -> bool {
    let seen = seen_after(before, keys);
    &&& state.match_map == Some(seen)
    &&& state.query == query
    &&& state.thing_querying is None
    &&& seen.len() >= before.len()
    &&& state.fst == if keys.len() == 0 {
        None
    } else {
        Some(keys.last())
    }
    &&& if state.is_match {
        &&& keys.len() > 0
        &&& seen.len() > before.len()
        &&& seen.last() == keys.last()
        &&& state.entry == Some(bare(base, Some(keys.last())))
        &&& out == founds(base, query, seen.drop_last().skip(before.len() as int))
    } else {
        &&& state.entry == Some(bare(base, None))
        &&& out == founds(base, query, seen.skip(before.len() as int))
    }
}

/// Such a step, on a file each row of which meets the query, has seen each
/// value once after every row.
pub proof fn lemma_listed(
    initial: StateModel,
    tablet: TabletModel,
    grain: GrainModel,
    before: Seq<Seq<char>>,
    lines: Seq<LineModel>,
    n: int,
)
    requires
        lists_by_leaf(tablet),
        before.no_duplicates(),
        initial == closing(tablet.base, initial.query, before),
        forall|i: int|
            0 <= i < lines.len() ==> grain_matches(tablet, grain, (#[trigger] lines[i]).key) == Some(
                true,
            ),
        0 <= n <= lines.len(),
    ensures
        scanned(initial, tablet, seq![grain], lines.take(n)) is Ok,
        listed(
            scanned(initial, tablet, seq![grain], lines.take(n))->Ok_0.0,
            scanned(initial, tablet, seq![grain], lines.take(n))->Ok_0.1,
            before,
            first_columns(lines).take(n),
            tablet.base,
            initial.query,
        ),
    decreases n,
{
    let base = tablet.base;
    let query = initial.query;
    let grains = seq![grain];
    let keys = first_columns(lines);
    let n0 = before.len() as int;
    if n == 0 {
        assert(lines.take(0) =~= Seq::<LineModel>::empty());
        assert(keys.take(0) =~= Seq::<Seq<char>>::empty());
        assert(before + keys.take(0) =~= before);
        lemma_unique_of_distinct(before);
        assert(before.skip(n0) =~= Seq::<Seq<char>>::empty());
        assert(founds(base, query, Seq::empty()) =~= Seq::<StateModel>::empty());
    } else {
        lemma_listed(initial, tablet, grain, before, lines, n - 1);
        let sofar = before + keys.take(n - 1);
        let now = before + keys.take(n);
        let line = lines[n - 1];
        let key = line.key;
        assert(lines.take(n).drop_last() =~= lines.take(n - 1));
        assert(lines.take(n).last() == line);
        assert(now.drop_last() =~= sofar);
        assert(now.last() == key);
        assert(keys.take(n).last() == key);
        let state = scanned(initial, tablet, grains, lines.take(n - 1))->Ok_0.0;
        let seen = unique(sofar);
        lemma_unique_holds(sofar, key);
        let push = ends_group(state, tablet, line);
        let resumed = StateModel {
            entry: if push {
                initial.entry
            } else {
                state.entry
            },
            query: if push {
                initial.query
            } else {
                state.query
            },
            fst: Some(key),
            is_match: if push {
                false
            } else {
                state.is_match
            },
            match_map: state.match_map,
            has_match: state.has_match,
            thing_querying: state.thing_querying,
        };
        assert(grains.drop_last() =~= Seq::<GrainModel>::empty());
        assert(grains.last() == grain);
        assert(line_applied(initial, resumed, tablet, grains.drop_last(), key, key) == Ok::<
            StateModel,
            Error,
        >(resumed));
        assert(line_applied(initial, resumed, tablet, grains, key, key) == grain_applied(
            initial,
            resumed,
            tablet,
            key,
            key,
            true,
        ));
        if state.is_match {
            assert(founds(base, query, seen.drop_last().skip(n0)).push(handed_on(state))
                =~= founds(base, query, seen.skip(n0)));
        }
        if state.fst == Some(key) {
            assert(keys.take(n - 1).last() == key);
            assert(sofar[sofar.len() - 1] == key);
            assert(seen.contains(key));
        } else if !seen.contains(key) {
            let fresh = bare(base, None);
            let grown = seen.push(key);
            assert(sown(fresh, row_grain(tablet, key, key), base, base) == Some(
                bare(base, Some(key)),
            ));
            assert(grown.drop_last() =~= seen);
        }
    }
}

/// Each new value is listed once.
///
/// A step that lists the values of its base by a leaf is handed a state
/// that holds no result, or a fresh node, and the values seen so far, for a
/// query rooted at that base. On a file each row of which meets the query it
/// hands on one state for each value of the first column that was not seen
/// before, in the order in which the values first stand there and however
/// often and wherever they stand there again; then the state that closes
/// the list, with all values seen.
pub proof fn lemma_each_new_value_once(
    state: StateModel,
    tablet: TabletModel,
    lines: Seq<LineModel>,
)
    requires
        lists_by_leaf(tablet),
        state.entry is None || state.entry == Some(bare(tablet.base, None)),
        state.thing_querying is None,
        state.query is Some,
        state.query->0.base == tablet.base,
        state.match_map is Some,
        state.match_map->0.no_duplicates(),
        forall|i: int|
            0 <= i < lines.len() ==> grain_matches(
                tablet,
                own_grain(state.query->0),
                (#[trigger] lines[i]).key,
            ) == Some(true),
    ensures
        line_stream(state, tablet, lines) == Ok::<Seq<StateModel>, Error>(
            founds(
                tablet.base,
                state.query,
                new_in(state.match_map->0, first_columns(lines)),
            ).push(
                closing(
                    tablet.base,
                    state.query,
                    seen_after(state.match_map->0, first_columns(lines)),
                ),
            ),
        ),
        seen_after(state.match_map->0, first_columns(lines)).no_duplicates(),
{
    let base = tablet.base;
    let before = state.match_map->0;
    let initial = initial_state(state, tablet);
    let grain = own_grain(state.query->0);
    let keys = first_columns(lines);
    assert(initial == closing(base, state.query, before));
    assert(mown(state.query->0, base, base) =~= seq![grain]);
    lemma_listed(initial, tablet, grain, before, lines, lines.len() as int);
    assert(lines.take(lines.len() as int) =~= lines);
    assert(keys.take(lines.len() as int) =~= keys);
    let last = scanned(initial, tablet, seq![grain], lines)->Ok_0.0;
    let out = scanned(initial, tablet, seq![grain], lines)->Ok_0.1;
    let seen = seen_after(before, keys);
    let n0 = before.len() as int;
    if last.is_match {
        assert(founds(base, state.query, seen.drop_last().skip(n0)).push(handed_on(last))
            =~= founds(base, state.query, seen.skip(n0)));
    }
    assert(out + finished(initial, last, tablet) =~= founds(base, state.query, seen.skip(n0)).push(
        closing(base, state.query, seen),
    ));
    lemma_unique_no_duplicates(before + keys);
}

/// Each value is listed once.
///
/// A step that lists the values of its base by a leaf, handed the first
/// state of a query rooted at that base, on a file each row of which meets
/// the query, hands on one state for each value that stands in the first
/// column, in the order in which the values first stand there and however
/// often and wherever they stand there again; then the state that closes
/// the list.
pub proof fn lemma_each_value_once(state: StateModel, tablet: TabletModel, lines: Seq<LineModel>)
    requires
        lists_by_leaf(tablet),
        state.entry is None,
        state.thing_querying is None,
        state.query is Some,
        state.query->0.base == tablet.base,
        state.match_map == Some(Seq::<Seq<char>>::empty()),
        forall|i: int|
            0 <= i < lines.len() ==> grain_matches(
                tablet,
                own_grain(state.query->0),
                (#[trigger] lines[i]).key,
            ) == Some(true),
    ensures
        line_stream(state, tablet, lines) == Ok::<Seq<StateModel>, Error>(
            founds(tablet.base, state.query, unique(first_columns(lines))).push(
                closing(tablet.base, state.query, unique(first_columns(lines))),
            ),
        ),
        unique(first_columns(lines)).no_duplicates(),
{
    let keys = first_columns(lines);
    let none = Seq::<Seq<char>>::empty();
    lemma_each_new_value_once(state, tablet, lines);
    assert(none + keys =~= keys);
    assert(unique(keys).skip(0) =~= unique(keys));
}

} // verus!
