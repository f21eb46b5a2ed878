//! Scanning one edge file for one step of a plan.
use vstd::prelude::*;
use crate::entry::mow::{mow, mown};
use crate::entry::sow::{bare, sow, sown};
use crate::entry::{lemma_entry_leaves, Entry, EntryModel};
use crate::error::Error;
use crate::grain::{Grain, GrainModel};
use crate::line::{Line, LineModel};
use crate::pattern::{matched, regex_is_match};
use crate::select::types::state::{copy_opt_entry, copy_opt_texts, State, StateModel};
use crate::select::types::tablet::{Tablet, TabletModel};
use crate::text::{contains_text, copy_opt_text, same_opt_text, same_text};

verus! {

/// The entry that a querying step starts from when it is handed the result
/// `e` of the step before: a fresh `base` node into which `e` was written.
/// Where `e` is a `base` itself the node takes its value; otherwise the node
/// gets `e`, without its children, as its one child.
pub open spec fn carried_over(base: Seq<char>, e: EntryModel) -> EntryModel {
    if e.base == base {
        bare(base, e.base_value)
    } else {
        EntryModel {
            base,
            base_value: None,
            leader_value: None,
            leaves: seq![(e.base, seq![bare(e.base, e.base_value)])],
        }
    }
}

/// The entry that a step starts from.
///
/// Without a result from the step before it is a fresh node of the step's
/// base. A querying step starts from a fresh node too where the query is
/// rooted at its own base, and otherwise from the earlier result carried
/// over; any other step goes on with the earlier result.
pub open spec fn initial_entry(state: StateModel, tablet: TabletModel) -> EntryModel {
    match state.entry {
        None => bare(tablet.base, None),
        Some(e) => if tablet.querying {
            if state.query is Some && state.query->0.base == tablet.base {
                bare(tablet.base, None)
            } else {
                carried_over(tablet.base, e)
            }
        } else {
            e
        },
    }
}

/// Whether a step takes its starting entry as its query: a step that only
/// adds values does, and so does one that collects by the second column.
pub open spec fn swaps(tablet: TabletModel) -> bool {
    (!tablet.accumulating && !tablet.querying) || (tablet.accumulating && !tablet.thing_is_first)
}

/// The state that a step starts from. The value that the last querying step
/// settled on is kept only where the entry keeps its base.
pub open spec fn initial_state(state: StateModel, tablet: TabletModel) -> StateModel {
    let entry = initial_entry(state, tablet);
    StateModel {
        entry: Some(entry),
        query: if swaps(tablet) {
            Some(entry)
        } else {
            state.query
        },
        fst: None,
        is_match: false,
        match_map: state.match_map,
        has_match: false,
        thing_querying: if state.entry is Some && state.entry->0.base == entry.base {
            state.thing_querying
        } else {
            None
        },
    }
}

/// The fact that a row states for a step.
pub open spec fn row_grain(tablet: TabletModel, trait_: Seq<char>, thing: Seq<char>) -> GrainModel {
    GrainModel {
        base: tablet.trait_,
        base_value: Some(trait_),
        leaf: tablet.thing,
        leaf_value: Some(thing),
    }
}

/// The value of a grain of the query that a row's trait is held against: the
/// base value where the trait stands in the first column, the leaf value
/// otherwise; the empty text where the grain has no such value.
pub open spec fn pattern_of(tablet: TabletModel, grain: GrainModel) -> Seq<char> {
    let value = if tablet.trait_is_first {
        grain.base_value
    } else {
        grain.leaf_value
    };
    match value {
        Some(v) => v,
        None => Seq::empty(),
    }
}

/// Whether a row's trait meets a grain of the query: as a regular expression
/// where the step asks for one, by equality otherwise. Nothing where the
/// grain's value is no regular expression.
pub open spec fn grain_matches(tablet: TabletModel, grain: GrainModel, trait_: Seq<char>) -> Option<
    bool,
> {
    if tablet.trait_is_regex {
        matched(pattern_of(tablet, grain), trait_)
    } else {
        Some(pattern_of(tablet, grain) == trait_)
    }
}

/// The state after a row was held against one grain of the query, given
/// whether the row's trait meets the grain.
///
/// A querying step that starts with a settled value takes only rows with that
/// thing. A thing that was seen before does not count again, and a collecting
/// step notes each thing it sees. A row that counts marks the group as
/// matched and is written into the entry; a querying step settles on its
/// thing, and writes the row into the query too unless the thing is the one
/// it started with.
pub open spec fn grain_applied(
    initial: StateModel,
    state: StateModel,
    tablet: TabletModel,
    trait_: Seq<char>,
    thing: Seq<char>,
    meets: bool,
) -> Result<StateModel, Error> {
    let pinned = tablet.querying && initial.thing_querying is Some;
    let hit = meets && (pinned ==> initial.thing_querying == Some(thing));
    let is_new = match state.match_map {
        None => true,
        Some(seen) => !seen.contains(thing),
    };
    let match_map = match state.match_map {
        Some(seen) => if tablet.accumulating && is_new {
            Some(seen.push(thing))
        } else {
            Some(seen)
        },
        None => None,
    };
    let is_match = state.is_match || (hit && is_new);
    let marked = StateModel {
        entry: state.entry,
        query: state.query,
        fst: state.fst,
        is_match,
        match_map,
        has_match: state.has_match || is_match,
        thing_querying: if tablet.querying && is_match {
            Some(thing)
        } else {
            state.thing_querying
        },
    };
    if hit && is_new {
        let grain = row_grain(tablet, trait_, thing);
        match state.entry {
            None => Err(Error::BrokenPlan),
            Some(e) => match sown(e, grain, tablet.trait_, tablet.thing) {
                None => Err(Error::ConflictingValue),
                Some(entry) => if tablet.querying && initial.thing_querying != Some(thing) {
                    match state.query {
                        None => Err(Error::BrokenPlan),
                        Some(q) => match sown(q, grain, tablet.trait_, tablet.thing) {
                            None => Err(Error::ConflictingValue),
                            Some(query) => Ok(
                                StateModel {
                                    entry: Some(entry),
                                    query: Some(query),
                                    fst: marked.fst,
                                    is_match: marked.is_match,
                                    match_map: marked.match_map,
                                    has_match: marked.has_match,
                                    thing_querying: marked.thing_querying,
                                },
                            ),
                        },
                    }
                } else {
                    Ok(
                        StateModel {
                            entry: Some(entry),
                            query: marked.query,
                            fst: marked.fst,
                            is_match: marked.is_match,
                            match_map: marked.match_map,
                            has_match: marked.has_match,
                            thing_querying: marked.thing_querying,
                        },
                    )
                },
            },
        }
    } else {
        Ok(marked)
    }
}

/// The state after a row was held against each grain of the query in turn.
/// The first grain whose value is no regular expression, or whose writing is
/// refused, ends it with that error.
pub open spec fn line_applied(
    initial: StateModel,
    state: StateModel,
    tablet: TabletModel,
    grains: Seq<GrainModel>,
    trait_: Seq<char>,
    thing: Seq<char>,
) -> Result<StateModel, Error>
    decreases grains.len(),
{
    if grains.len() == 0 {
        Ok(state)
    } else {
        match line_applied(initial, state, tablet, grains.drop_last(), trait_, thing) {
            Err(e) => Err(e),
            Ok(before) => match grain_matches(tablet, grains.last(), trait_) {
                None => Err(Error::RegexCompileError),
                Some(meets) => grain_applied(initial, before, tablet, trait_, thing, meets),
            },
        }
    }
}

/// What a step hands on when a group of rows has ended or the file has: the
/// entry and the query as they stand and the settled value, without the
/// things seen.
pub open spec fn handed_on(state: StateModel) -> StateModel {
    StateModel {
        entry: state.entry,
        query: state.query,
        fst: None,
        is_match: false,
        match_map: None,
        has_match: false,
        thing_querying: state.thing_querying,
    }
}

/// A row's trait: the first column or the second, as the step says.
pub open spec fn trait_of(tablet: TabletModel, line: LineModel) -> Seq<char> {
    if tablet.trait_is_first {
        line.key
    } else {
        line.value
    }
}

/// A row's thing: the first column or the second, as the step says.
pub open spec fn thing_of(tablet: TabletModel, line: LineModel) -> Seq<char> {
    if tablet.thing_is_first {
        line.key
    } else {
        line.value
    }
}

/// Whether a row ends a group that is to be handed on: the step is eager, the
/// row's first column differs from the one before, and the group matched.
pub open spec fn ends_group(state: StateModel, tablet: TabletModel, line: LineModel) -> bool {
    tablet.eager && state.fst != Some(line.key) && state.is_match
}

/// One row read: the state after it and what is handed on before it.
///
/// Where the row ends a matched group of an eager step, the group's state is
/// handed on and the step starts over from its initial entry and query. Then
/// the row is held against the query.
pub open spec fn stepped(
    initial: StateModel,
    state: StateModel,
    tablet: TabletModel,
    grains: Seq<GrainModel>,
    line: LineModel,
) -> Result<(StateModel, Option<StateModel>), Error> {
    let push = ends_group(state, tablet, line);
    let resumed = StateModel {
        entry: if push {
            initial.entry
        } else {
            state.entry
        },
        query: if push {
            initial.query
        } else {
            state.query
        },
        fst: Some(line.key),
        is_match: if push {
            false
        } else {
            state.is_match
        },
        match_map: state.match_map,
        has_match: state.has_match,
        thing_querying: state.thing_querying,
    };
    match line_applied(
        initial,
        resumed,
        tablet,
        grains,
        trait_of(tablet, line),
        thing_of(tablet, line),
    ) {
        Err(e) => Err(e),
        Ok(next) => Ok(
            (
                next,
                if push {
                    Some(handed_on(state))
                } else {
                    None
                },
            ),
        ),
    }
}

/// What a step hands on at the end of its file.
///
/// A last group that matched is handed on. After it a collecting step hands
/// on its initial entry with the things it has seen, which tells the next
/// step that the list is complete; a step that only adds values and found
/// none hands on the entry as it got it.
pub open spec fn finished(initial: StateModel, state: StateModel, tablet: TabletModel) -> Seq<
    StateModel,
> {
    let done = if state.is_match {
        seq![handed_on(state)]
    } else {
        Seq::empty()
    };
    let closing = StateModel {
        entry: if tablet.accumulating {
            initial.entry
        } else {
            state.entry
        },
        query: state.query,
        fst: None,
        is_match: false,
        match_map: if tablet.accumulating {
            state.match_map
        } else {
            None
        },
        has_match: false,
        thing_querying: None,
    };
    if tablet.accumulating || (tablet.passthrough && !state.has_match) {
        done.push(closing)
    } else {
        done
    }
}

/// The rows of a file read in order: the state after the last one, and what
/// was handed on along the way.
pub open spec fn scanned(
    initial: StateModel,
    tablet: TabletModel,
    grains: Seq<GrainModel>,
    lines: Seq<LineModel>,
) -> Result<(StateModel, Seq<StateModel>), Error>
    decreases lines.len(),
{
    if lines.len() == 0 {
        Ok((initial, Seq::empty()))
    } else {
        match scanned(initial, tablet, grains, lines.drop_last()) {
            Err(e) => Err(e),
            Ok((state, out)) => match stepped(initial, state, tablet, grains, lines.last()) {
                Err(e) => Err(e),
                Ok((next, emitted)) => Ok(
                    (
                        next,
                        match emitted {
                            Some(s) => out.push(s),
                            None => out,
                        },
                    ),
                ),
            },
        }
    }
}

/// Everything that one step hands on for one state and one file: what the
/// rows gave, then what the end of the file gives. A state without a query
/// cannot be scanned for.
pub open spec fn line_stream(state: StateModel, tablet: TabletModel, lines: Seq<LineModel>) -> Result<
    Seq<StateModel>,
    Error,
> {
    let initial = initial_state(state, tablet);
    match initial.query {
        None => Err(Error::BrokenPlan),
        Some(q) => match scanned(initial, tablet, mown(q, tablet.trait_, tablet.thing), lines) {
            Err(e) => Err(e),
            Ok((last, out)) => Ok(out + finished(initial, last, tablet)),
        },
    }
}

/// A fresh node named `base`, without value and without children.
fn empty_entry(base: &str) -> (r: Entry)
    ensures
        r@ == bare(base@, None),
{
    let r = Entry { base: base.to_owned(), base_value: None, leader_value: None, leaves: Vec::new() };
    proof {
        lemma_entry_leaves(r);
        assert(r@.leaves =~= Seq::empty());
    }
    r
}

/// Writing an earlier result into a fresh node never fails.
proof fn lemma_carried_over(base: Seq<char>, e: EntryModel)
    ensures
        sown(
            bare(base, None),
            GrainModel { base, base_value: None, leaf: e.base, leaf_value: e.base_value },
            base,
            e.base,
        ) == Some(carried_over(base, e)),
{
    let fresh = bare(base, None);
    if e.base != base {
        crate::assoc::lemma_position_is(fresh.leaves, e.base, 0);
        assert(fresh.leaves.push((e.base, seq![bare(e.base, e.base_value)])) =~= seq![
            (e.base, seq![bare(e.base, e.base_value)]),
        ]);
    }
}

/// The state that a step starts from: see [`initial_state`].
pub fn make_state_initial(state: &State, tablet: &Tablet) -> (r: State)
    ensures
        r@ == initial_state(state@, tablet@),
{
    let entry = match &state.entry {
        None => empty_entry(tablet.base.as_str()),
        Some(e) => {
            if tablet.querying {
                let same_base = match &state.query {
                    None => false,
                    Some(q) => same_text(q.base.as_str(), tablet.base.as_str()),
                };
                if same_base {
                    empty_entry(tablet.base.as_str())
                } else {
                    let grain = Grain {
                        base: tablet.base.clone(),
                        base_value: None,
                        leaf: e.base.clone(),
                        leaf_value: copy_opt_text(&e.base_value),
                    };
                    let fresh = empty_entry(tablet.base.as_str());
                    proof {
                        lemma_carried_over(tablet@.base, e@);
                    }
                    match sow(&fresh, &grain, tablet.base.as_str(), e.base.as_str()) {
                        Ok(carried) => carried,
                        Err(_) => vstd::pervasive::unreached(),
                    }
                }
            } else {
                e.clone()
            }
        },
    };
    let base_kept = match &state.entry {
        None => false,
        Some(e) => same_text(e.base.as_str(), entry.base.as_str()),
    };
    let thing_querying = if base_kept {
        copy_opt_text(&state.thing_querying)
    } else {
        None
    };
    let value_step = !tablet.accumulating && !tablet.querying;
    let by_trunk = tablet.accumulating && !tablet.thing_is_first;
    let query = if value_step || by_trunk {
        Some(entry.clone())
    } else {
        copy_opt_entry(&state.query)
    };
    State {
        entry: Some(entry),
        query,
        fst: None,
        is_match: false,
        match_map: copy_opt_texts(&state.match_map),
        has_match: false,
        thing_querying,
    }
}

/// Holds a row against one grain of the query, given whether the row's trait
/// meets the grain: see [`grain_applied`].
pub fn apply_grain(
    state_initial: &State,
    state: State,
    tablet: &Tablet,
    trait_: &str,
    thing: &str,
    meets: bool,
) -> (r: Result<State, Error>)
    ensures
        r matches Ok(next) ==> grain_applied(
            state_initial@,
            state@,
            tablet@,
            trait_@,
            thing@,
            meets,
        ) == Ok::<StateModel, Error>(next@),
        r matches Err(e) ==> grain_applied(state_initial@, state@, tablet@, trait_@, thing@, meets)
            == Err::<StateModel, Error>(e),
{
    let mut state = state;
    let named = Some(thing.to_owned());
    let pinned = tablet.querying && state_initial.thing_querying.is_some();
    let settled = same_opt_text(&state_initial.thing_querying, &named);
    let hit = meets && (!pinned || settled);
    let is_new = match &state.match_map {
        None => true,
        Some(seen) => !contains_text(seen, thing),
    };
    if tablet.accumulating && is_new {
        match &mut state.match_map {
            Some(seen) => {
                let ghost before = seen.deep_view();
                seen.push(thing.to_owned());
                assert(seen.deep_view() =~= before.push(thing@));
            },
            None => {},
        }
    }
    state.is_match = state.is_match || (hit && is_new);
    if tablet.querying && state.is_match {
        state.thing_querying = Some(thing.to_owned());
    }
    state.has_match = state.has_match || state.is_match;
    if hit && is_new {
        let grain = Grain {
            base: tablet.trait_.clone(),
            base_value: Some(trait_.to_owned()),
            leaf: tablet.thing.clone(),
            leaf_value: named,
        };
        let entry = match &state.entry {
            None => {
                return Err(Error::BrokenPlan);
            },
            Some(e) => match sow(e, &grain, tablet.trait_.as_str(), tablet.thing.as_str()) {
                Ok(entry) => entry,
                Err(e) => {
                    return Err(e);
                },
            },
        };
        if tablet.querying && !settled {
            let query = match &state.query {
                None => {
                    return Err(Error::BrokenPlan);
                },
                Some(q) => match sow(q, &grain, tablet.trait_.as_str(), tablet.thing.as_str()) {
                    Ok(query) => query,
                    Err(e) => {
                        return Err(e);
                    },
                },
            };
            state.query = Some(query);
        }
        state.entry = Some(entry);
    }
    Ok(state)
}

/// The value of `grain` that a row's trait is held against: see [`pattern_of`].
fn pattern(tablet: &Tablet, grain: &Grain) -> (r: String)
    ensures
        r@ == pattern_of(tablet@, grain@),
{
    let value = if tablet.trait_is_first {
        &grain.base_value
    } else {
        &grain.leaf_value
    };
    match value {
        Some(v) => v.clone(),
        None => String::new(),
    }
}

/// Holds a row against each grain of the query in turn: see [`line_applied`].
pub fn make_state_line(
    state_initial: &State,
    state: State,
    tablet: &Tablet,
    grains: &Vec<Grain>,
    trait_: &str,
    thing: &str,
) -> (r: Result<State, Error>)
    ensures
        r matches Ok(next) ==> line_applied(
            state_initial@,
            state@,
            tablet@,
            grains.deep_view(),
            trait_@,
            thing@,
        ) == Ok::<StateModel, Error>(next@),
        r matches Err(e) ==> line_applied(
            state_initial@,
            state@,
            tablet@,
            grains.deep_view(),
            trait_@,
            thing@,
        ) == Err::<StateModel, Error>(e),
{
    let ghost start = state@;
    let ghost all = grains.deep_view();
    let mut current = state;
    let mut i: usize = 0;
    assert(all.take(0) =~= Seq::<GrainModel>::empty());
    while i < grains.len()
        invariant
            all == grains.deep_view(),
            start == state@,
            i <= grains.len(),
            line_applied(state_initial@, start, tablet@, all.take(i as int), trait_@, thing@)
                == Ok::<StateModel, Error>(current@),
        decreases grains.len() - i,
    {
        proof {
            assert(all.take(i + 1).drop_last() =~= all.take(i as int));
            assert(all.take(i + 1).last() == grains@[i as int]@);
        }
        let text = pattern(tablet, &grains[i]);
        let meets = if tablet.trait_is_regex {
            match regex_is_match(text.as_str(), trait_) {
                Some(found) => found,
                None => {
                    proof {
                        lemma_failure_stays(
                            state_initial@,
                            start,
                            tablet@,
                            all,
                            trait_@,
                            thing@,
                            i + 1,
                        );
                    }
                    return Err(Error::RegexCompileError);
                },
            }
        } else {
            same_text(text.as_str(), trait_)
        };
        match apply_grain(state_initial, current, tablet, trait_, thing, meets) {
            Ok(next) => {
                current = next;
            },
            Err(e) => {
                proof {
                    lemma_failure_stays(
                        state_initial@,
                        start,
                        tablet@,
                        all,
                        trait_@,
                        thing@,
                        i + 1,
                    );
                }
                return Err(e);
            },
        }
        i += 1;
    }
    assert(all.take(grains.len() as int) =~= all);
    Ok(current)
}

/// A failure on the first grains of a row is the failure of the row.
proof fn lemma_failure_stays(
    initial: StateModel,
    state: StateModel,
    tablet: TabletModel,
    grains: Seq<GrainModel>,
    trait_: Seq<char>,
    thing: Seq<char>,
    n: int,
)
    requires
        0 <= n <= grains.len(),
        line_applied(initial, state, tablet, grains.take(n), trait_, thing) is Err,
    ensures
        line_applied(initial, state, tablet, grains, trait_, thing) == line_applied(
            initial,
            state,
            tablet,
            grains.take(n),
            trait_,
            thing,
        ),
    decreases grains.len() - n,
{
    if n < grains.len() {
        assert(grains.take(n + 1).drop_last() =~= grains.take(n));
        lemma_failure_stays(initial, state, tablet, grains, trait_, thing, n + 1);
    } else {
        assert(grains.take(n) =~= grains);
    }
}

/// What a step hands on from `state`: see [`handed_on`].
fn hand_on(state: &State) -> (r: State)
    ensures
        r@ == handed_on(state@),
{
    State {
        entry: copy_opt_entry(&state.entry),
        query: copy_opt_entry(&state.query),
        fst: None,
        is_match: false,
        match_map: None,
        has_match: false,
        thing_querying: copy_opt_text(&state.thing_querying),
    }
}

/// Reads one row: hands on the group that the row ends, if it ends one, and
/// holds the row against the query. See [`stepped`].
pub fn step(
    state_initial: &State,
    state: State,
    tablet: &Tablet,
    grains: &Vec<Grain>,
    line: &Line,
) -> (r: Result<(State, Option<State>), Error>)
    ensures
        r matches Ok(next) ==> stepped(state_initial@, state@, tablet@, grains.deep_view(), line@)
            == Ok::<(StateModel, Option<StateModel>), Error>((next.0@, next.1.deep_view())),
        r matches Err(e) ==> stepped(state_initial@, state@, tablet@, grains.deep_view(), line@)
            == Err::<(StateModel, Option<StateModel>), Error>(e),
{
    let mut state = state;
    let fst_is_new = match &state.fst {
        None => true,
        Some(f) => !same_text(f.as_str(), line.key.as_str()),
    };
    let push = tablet.eager && fst_is_new && state.is_match;
    let emitted = if push {
        Some(hand_on(&state))
    } else {
        None
    };
    if push {
        state.entry = copy_opt_entry(&state_initial.entry);
        state.query = copy_opt_entry(&state_initial.query);
        state.is_match = false;
    }
    state.fst = Some(line.key.clone());
    let trait_ = if tablet.trait_is_first {
        line.key.as_str()
    } else {
        line.value.as_str()
    };
    let thing = if tablet.thing_is_first {
        line.key.as_str()
    } else {
        line.value.as_str()
    };
    match make_state_line(state_initial, state, tablet, grains, trait_, thing) {
        Ok(next) => Ok((next, emitted)),
        Err(e) => Err(e),
    }
}

/// What a step hands on at the end of its file: see [`finished`].
pub fn finish(state_initial: &State, state: &State, tablet: &Tablet) -> (r: Vec<State>)
    ensures
        r.deep_view() == finished(state_initial@, state@, tablet@),
{
    let mut out: Vec<State> = Vec::new();
    assert(out.deep_view() =~= Seq::<StateModel>::empty());
    if state.is_match {
        out.push(hand_on(state));
        assert(out.deep_view() =~= seq![handed_on(state@)]);
    }
    let ghost done = out.deep_view();
    if tablet.accumulating {
        let closing = State {
            entry: copy_opt_entry(&state_initial.entry),
            query: copy_opt_entry(&state.query),
            fst: None,
            is_match: false,
            match_map: copy_opt_texts(&state.match_map),
            has_match: false,
            thing_querying: None,
        };
        out.push(closing);
        assert(out.deep_view() =~= done.push(closing@));
    } else if tablet.passthrough && !state.has_match {
        let closing = State {
            entry: copy_opt_entry(&state.entry),
            query: copy_opt_entry(&state.query),
            fst: None,
            is_match: false,
            match_map: None,
            has_match: false,
            thing_querying: None,
        };
        out.push(closing);
        assert(out.deep_view() =~= done.push(closing@));
    }
    out
}

/// A failure on the first rows of a file is the failure of the file.
proof fn lemma_scan_failure_stays(
    initial: StateModel,
    tablet: TabletModel,
    grains: Seq<GrainModel>,
    lines: Seq<LineModel>,
    n: int,
)
    requires
        0 <= n <= lines.len(),
        scanned(initial, tablet, grains, lines.take(n)) is Err,
    ensures
        scanned(initial, tablet, grains, lines) is Err,
        scanned(initial, tablet, grains, lines)->Err_0 == scanned(
            initial,
            tablet,
            grains,
            lines.take(n),
        )->Err_0,
    decreases lines.len() - n,
{
    if n < lines.len() {
        assert(lines.take(n + 1).drop_last() =~= lines.take(n));
        lemma_scan_failure_stays(initial, tablet, grains, lines, n + 1);
    } else {
        assert(lines.take(n) =~= lines);
    }
}

/// Everything that one step hands on for one state and the rows of one file:
/// see [`line_stream`].
pub fn select_line_stream(input: &Vec<Line>, state: &State, tablet: &Tablet) -> (r: Result<
    Vec<State>,
    Error,
>)
    ensures
        r matches Ok(out) ==> line_stream(state@, tablet@, input.deep_view()) == Ok::<
            Seq<StateModel>,
            Error,
        >(out.deep_view()),
        r matches Err(e) ==> line_stream(state@, tablet@, input.deep_view()) == Err::<
            Seq<StateModel>,
            Error,
        >(e),
{
    let state_initial = make_state_initial(state, tablet);
    let grains = match &state_initial.query {
        None => {
            return Err(Error::BrokenPlan);
        },
        Some(q) => mow(q, tablet.trait_.as_str(), tablet.thing.as_str()),
    };
    let mut current = state_initial.clone();
    let mut out: Vec<State> = Vec::new();
    let ghost lines = input.deep_view();
    let mut i: usize = 0;
    proof {
        assert(lines.take(0) =~= Seq::<LineModel>::empty());
        assert(out.deep_view() =~= Seq::<StateModel>::empty());
    }
    while i < input.len()
        invariant
            lines == input.deep_view(),
            state_initial@ == initial_state(state@, tablet@),
            state_initial@.query is Some,
            grains.deep_view() == mown(state_initial@.query->0, tablet@.trait_, tablet@.thing),
            i <= input.len(),
            scanned(state_initial@, tablet@, grains.deep_view(), lines.take(i as int)) == Ok::<
                (StateModel, Seq<StateModel>),
                Error,
            >((current@, out.deep_view())),
        decreases input.len() - i,
    {
        proof {
            assert(lines.take(i + 1).drop_last() =~= lines.take(i as int));
            assert(lines.take(i + 1).last() == input@[i as int]@);
        }
        let ghost before = out.deep_view();
        match step(&state_initial, current, tablet, &grains, &input[i]) {
            Ok((next, emitted)) => {
                current = next;
                match emitted {
                    Some(handed) => {
                        out.push(handed);
                        assert(out.deep_view() =~= before.push(handed@));
                    },
                    None => {},
                }
            },
            Err(e) => {
                proof {
                    lemma_scan_failure_stays(
                        state_initial@,
                        tablet@,
                        grains.deep_view(),
                        lines,
                        i + 1,
                    );
                }
                return Err(e);
            },
        }
        i += 1;
    }
    assert(lines.take(input.len() as int) =~= lines);
    let ghost during = out.deep_view();
    let mut closing = finish(&state_initial, &current, tablet);
    let ghost after = closing.deep_view();
    out.append(&mut closing);
    assert(out.deep_view() =~= during + after);
    Ok(out)
}

} // verus!
