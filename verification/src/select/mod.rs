//! Answering queries: the plan of a query run over the files of a dataset.
use vstd::prelude::*;
use crate::assoc::{find, has_key, keys_distinct, lookup};
use crate::dataset::{lines_of, Dataset, DatasetModel};
use crate::entry::sow::bare;
use crate::entry::{lemma_entry_leaves, Entry, EntryModel};
use crate::error::Error;
use crate::line::Line;
use crate::schema::is_connected::mutual;
use crate::schema::try_from::{inferred, schema_base};
use crate::schema::{Schema, SchemaModel};
use crate::select::strategy::{
    gather_keys,
    gathered,
    plan_select,
    plan_select_schema,
    schema_plan,
    select_plan,
};
use crate::select::tablet::{select_tablet, tablet_stream};
use crate::select::types::state::{State, StateModel};
use crate::select::types::tablet::{Tablet, TabletModel};
use crate::text::same_text;

pub mod children;
pub mod collect;
pub mod filled;
pub mod laws;
pub mod line;
pub mod schema;
pub mod strategy;
pub mod tablet;
pub mod types;
pub mod values;
pub mod wildcard;

verus! {

/// The state that a query starts with: the query, no result yet, and an
/// empty list of things seen.
pub open spec fn first_state(query: EntryModel) -> StateModel {
    StateModel {
        entry: None,
        query: Some(query),
        fst: None,
        is_match: false,
        match_map: Some(Seq::empty()),
        has_match: false,
        thing_querying: None,
    }
}

/// What a plan makes of `states`: each step in turn is run, with the rows of
/// its file, over what the step before handed on. The first failure ends it.
pub open spec fn plan_run(
    d: DatasetModel,
    plan: Seq<TabletModel>,
    states: Seq<StateModel>,
) -> Result<Seq<StateModel>, Error>
    decreases plan.len(),
{
    if plan.len() == 0 {
        Ok(states)
    } else {
        match plan_run(d, plan.drop_last(), states) {
            Err(e) => Err(e),
            Ok(before) => tablet_stream(before, plan.last(), lines_of(d, plan.last().filename)),
        }
    }
}

/// The entries that `states` hold, in order.
pub open spec fn entries_of(states: Seq<StateModel>) -> Seq<EntryModel>
    decreases states.len(),
{
    if states.len() == 0 {
        Seq::empty()
    } else {
        let rest = entries_of(states.drop_last());
        match states.last().entry {
            Some(e) => rest.push(e),
            None => rest,
        }
    }
}

/// The answer to a query for the schema: the record of the schema.
pub open spec fn selected_schema_entries(d: DatasetModel, query: EntryModel) -> Result<
    Seq<EntryModel>,
    Error,
> {
    match plan_run(d, schema_plan(), seq![first_state(query)]) {
        Err(e) => Err(e),
        Ok(states) => Ok(entries_of(states)),
    }
}

/// The query that asks for the schema.
pub open spec fn schema_query() -> EntryModel {
    bare(schema_base(), Some(schema_base()))
}

/// The schema of a dataset: what the record of its schema file describes.
pub open spec fn selected_schema(d: DatasetModel) -> Result<SchemaModel, Error> {
    match selected_schema_entries(d, schema_query()) {
        Err(e) => Err(e),
        Ok(entries) => if entries.len() == 0 {
            Err(Error::BrokenPlan)
        } else if entries[0].base != schema_base() {
            Err(Error::MalformedQuery)
        } else {
            Ok(inferred(entries[0]))
        },
    }
}

/// Whether the schema has the base of the query and every attribute that the
/// query names.
pub open spec fn known(s: SchemaModel, query: EntryModel) -> bool {
    &&& has_key(s, query.base)
    &&& forall|k: int| 0 <= k < gathered(query).len() ==> has_key(s, #[trigger] gathered(query)[k])
}

/// What one final state gives to the answer of `query`.
///
/// A state that still carries the things seen closes a list and gives
/// nothing. Otherwise it gives its entry, under the base of the query; where
/// the query asks for one leaf only, it gives the first item of that leaf in
/// the state's query, if there is one. A state without an entry is a fault of
/// the plan.
pub open spec fn record_of(state: StateModel, query: EntryModel) -> Result<Option<EntryModel>, Error> {
    match state.entry {
        None => Err(Error::BrokenPlan),
        Some(e) => if state.match_map is Some {
            Ok(None)
        } else {
            match query.leader_value {
                None => Ok(
                    Some(
                        EntryModel {
                            base: query.base,
                            base_value: e.base_value,
                            leader_value: e.leader_value,
                            leaves: e.leaves,
                        },
                    ),
                ),
                Some(leader) => match state.query {
                    None => Ok(None),
                    Some(q) => match lookup(q.leaves, leader) {
                        None => Ok(None),
                        Some(items) => if items.len() > 0 {
                            Ok(Some(items[0]))
                        } else {
                            Ok(None)
                        },
                    },
                },
            }
        },
    }
}

/// What the final states give to the answer of `query`, state after state.
pub open spec fn records_of(states: Seq<StateModel>, query: EntryModel) -> Result<
    Seq<EntryModel>,
    Error,
>
    decreases states.len(),
{
    if states.len() == 0 {
        Ok(Seq::empty())
    } else {
        match records_of(states.drop_last(), query) {
            Err(e) => Err(e),
            Ok(out) => match record_of(states.last(), query) {
                Err(e) => Err(e),
                Ok(Some(entry)) => Ok(out.push(entry)),
                Ok(None) => Ok(out),
            },
        }
    }
}

/// The answer to one query.
///
/// A query for the schema gives the record of the schema. Any other query is
/// held against the schema of the dataset, and refused where it names a base
/// or an attribute that the schema does not have; then its plan is run from
/// its first state, and the final states give the answer.
pub open spec fn selected(d: DatasetModel, query: EntryModel) -> Result<Seq<EntryModel>, Error> {
    if query.base == schema_base() {
        selected_schema_entries(d, query)
    } else {
        match selected_schema(d) {
            Err(e) => Err(e),
            Ok(s) => if !known(s, query) {
                Err(Error::UnknownSchemaNode)
            } else {
                match plan_run(d, select_plan(s, query), seq![first_state(query)]) {
                    Err(e) => Err(e),
                    Ok(states) => records_of(states, query),
                }
            },
        }
    }
}

/// The answers to the queries, query after query. The first failure ends it.
pub open spec fn selected_records(d: DatasetModel, queries: Seq<EntryModel>) -> Result<
    Seq<EntryModel>,
    Error,
>
    decreases queries.len(),
{
    if queries.len() == 0 {
        Ok(Seq::empty())
    } else {
        match selected_records(d, queries.drop_last()) {
            Err(e) => Err(e),
            Ok(out) => match selected(d, queries.last()) {
                Err(e) => Err(e),
                Ok(more) => Ok(out + more),
            },
        }
    }
}

/// A failure on the first steps of a plan is the failure of the plan.
pub proof fn lemma_run_failure_stays(
    d: DatasetModel,
    plan: Seq<TabletModel>,
    states: Seq<StateModel>,
    n: int,
)
    requires
        0 <= n <= plan.len(),
        plan_run(d, plan.take(n), states) is Err,
    ensures
        plan_run(d, plan, states) is Err,
        plan_run(d, plan, states)->Err_0 == plan_run(d, plan.take(n), states)->Err_0,
    decreases plan.len() - n,
{
    if n < plan.len() {
        assert(plan.take(n + 1).drop_last() =~= plan.take(n));
        lemma_run_failure_stays(d, plan, states, n + 1);
    } else {
        assert(plan.take(n) =~= plan);
    }
}

/// The state that a query starts with: see [`first_state`].
fn start(query: &Entry) -> (r: Vec<State>)
    ensures
        r.deep_view() == seq![first_state(query@)],
{
    let seen: Vec<String> = Vec::new();
    assert(seen.deep_view() =~= Seq::<Seq<char>>::empty());
    let state = State {
        entry: None,
        query: Some(query.clone()),
        fst: None,
        is_match: false,
        match_map: Some(seen),
        has_match: false,
        thing_querying: None,
    };
    let mut out: Vec<State> = Vec::new();
    out.push(state);
    assert(out.deep_view() =~= seq![first_state(query@)]);
    out
}

/// Runs a plan over the files of a dataset: see [`plan_run`].
pub fn run_plan(dataset: &Dataset, plan: &Vec<Tablet>, states: Vec<State>) -> (r: Result<
    Vec<State>,
    Error,
>)
    ensures
        r matches Ok(out) ==> plan_run(dataset@, plan.deep_view(), states.deep_view()) == Ok::<
            Seq<StateModel>,
            Error,
        >(out.deep_view()),
        r matches Err(e) ==> plan_run(dataset@, plan.deep_view(), states.deep_view()) == Err::<
            Seq<StateModel>,
            Error,
        >(e),
{
    let ghost d = dataset@;
    let ghost steps = plan.deep_view();
    let ghost given = states.deep_view();
    let no_lines: Vec<Line> = Vec::new();
    assert(no_lines.deep_view() =~= Seq::empty());
    let mut current = states;
    let mut i: usize = 0;
    assert(steps.take(0) =~= Seq::<TabletModel>::empty());
    while i < plan.len()
        invariant
            d == dataset@,
            steps == plan.deep_view(),
            given == states.deep_view(),
            no_lines.deep_view() == Seq::<crate::line::LineModel>::empty(),
            i <= plan.len(),
            plan_run(d, steps.take(i as int), given) == Ok::<Seq<StateModel>, Error>(
                current.deep_view(),
            ),
        decreases plan.len() - i,
    {
        let tablet = &plan[i];
        proof {
            assert(steps.take(i + 1).drop_last() =~= steps.take(i as int));
            assert(steps.take(i + 1).last() == tablet@);
        }
        let lines = match find(&dataset.files, tablet.filename.as_str()) {
            Some(p) => &dataset.files[p].1,
            None => &no_lines,
        };
        assert(lines.deep_view() == lines_of(d, tablet@.filename));
        match select_tablet(lines, tablet, &current) {
            Ok(next) => {
                current = next;
            },
            Err(e) => {
                proof {
                    lemma_run_failure_stays(d, steps, given, i + 1);
                }
                return Err(e);
            },
        }
        i += 1;
    }
    assert(steps.take(plan.len() as int) =~= steps);
    Ok(current)
}

/// The entries that `states` hold: see [`entries_of`].
fn collect_entries(states: &Vec<State>) -> (r: Vec<Entry>)
    ensures
        r.deep_view() == entries_of(states.deep_view()),
{
    let ghost all = states.deep_view();
    let mut out: Vec<Entry> = Vec::new();
    let mut i: usize = 0;
    proof {
        assert(all.take(0) =~= Seq::<StateModel>::empty());
        assert(out.deep_view() =~= Seq::<EntryModel>::empty());
    }
    while i < states.len()
        invariant
            all == states.deep_view(),
            i <= states.len(),
            out.deep_view() == entries_of(all.take(i as int)),
        decreases states.len() - i,
    {
        proof {
            assert(all.take(i + 1).drop_last() =~= all.take(i as int));
            assert(all.take(i + 1).last() == states@[i as int]@);
        }
        match &states[i].entry {
            Some(e) => {
                let ghost before = out.deep_view();
                out.push(e.clone());
                assert(out.deep_view() =~= before.push(e@));
            },
            None => {},
        }
        i += 1;
    }
    assert(all.take(states.len() as int) =~= all);
    out
}

/// The answer to a query for the schema: see [`selected_schema_entries`].
pub fn select_schema_stream(dataset: &Dataset, query: &Entry) -> (r: Result<Vec<Entry>, Error>)
    ensures
        r matches Ok(out) ==> selected_schema_entries(dataset@, query@) == Ok::<
            Seq<EntryModel>,
            Error,
        >(out.deep_view()),
        r matches Err(e) ==> selected_schema_entries(dataset@, query@) == Err::<
            Seq<EntryModel>,
            Error,
        >(e),
{
    let plan = plan_select_schema(query);
    match run_plan(dataset, &plan, start(query)) {
        Ok(states) => Ok(collect_entries(&states)),
        Err(e) => Err(e),
    }
}

/// The schema of a dataset: see [`selected_schema`]. In it no name stands
/// twice, and a node lists another as its trunk exactly where that one lists
/// it as its leaf.
pub fn select_schema(dataset: &Dataset) -> (r: Result<Schema, Error>)
    ensures
        r matches Ok(s) ==> selected_schema(dataset@) == Ok::<SchemaModel, Error>(s@),
        r matches Ok(s) ==> keys_distinct(s@) && mutual(s@),
        r matches Err(e) ==> selected_schema(dataset@) == Err::<SchemaModel, Error>(e),
{
    proof {
        reveal_strlit("_");
        assert("_"@ =~= schema_base());
    }
    let query = Entry {
        base: "_".to_owned(),
        base_value: Some("_".to_owned()),
        leader_value: None,
        leaves: Vec::new(),
    };
    proof {
        lemma_entry_leaves(query);
        assert(query@.leaves =~= Seq::empty());
        assert(query@ == schema_query());
    }
    let entries = match select_schema_stream(dataset, &query) {
        Ok(entries) => entries,
        Err(e) => {
            return Err(e);
        },
    };
    if entries.len() == 0 {
        return Err(Error::BrokenPlan);
    }
    assert(entries.deep_view()[0] == entries@[0]@);
    Schema::try_from(&entries[0])
}

/// Whether the schema has the base of the query and every attribute that it
/// names: see [`known`].
fn is_known(schema: &Schema, query: &Entry) -> (r: bool)
    ensures
        r == known(schema@, query@),
{
    if find(&schema.0, query.base.as_str()).is_none() {
        return false;
    }
    let keys = gather_keys(query);
    let mut i: usize = 0;
    while i < keys.len()
        invariant
            keys.deep_view() == gathered(query@),
            i <= keys.len(),
            forall|k: int| 0 <= k < i ==> has_key(schema@, #[trigger] gathered(query@)[k]),
        decreases keys.len() - i,
    {
        assert(keys.deep_view()[i as int] == keys@[i as int]@);
        if find(&schema.0, keys[i].as_str()).is_none() {
            return false;
        }
        i += 1;
    }
    true
}

/// What one final state gives to the answer of `query`: see [`record_of`].
pub fn collect_record(state: &State, query: &Entry) -> (r: Result<Option<Entry>, Error>)
    ensures
        r matches Ok(out) ==> record_of(state@, query@) == Ok::<Option<EntryModel>, Error>(
            out.deep_view(),
        ),
        r matches Err(e) ==> record_of(state@, query@) == Err::<Option<EntryModel>, Error>(e),
{
    let entry = match &state.entry {
        None => {
            return Err(Error::BrokenPlan);
        },
        Some(e) => e,
    };
    if state.match_map.is_some() {
        return Ok(None);
    }
    match &query.leader_value {
        None => {
            let mut out = entry.clone();
            proof {
                lemma_entry_leaves(out);
            }
            out.base = query.base.clone();
            proof {
                lemma_entry_leaves(out);
                lemma_entry_leaves(*entry);
            }
            Ok(Some(out))
        },
        Some(leader) => {
            let q = match &state.query {
                None => {
                    return Ok(None);
                },
                Some(q) => q,
            };
            proof {
                lemma_entry_leaves(*q);
            }
            match find(&q.leaves, leader.as_str()) {
                None => Ok(None),
                Some(p) => {
                    let items = &q.leaves[p].1;
                    if items.len() > 0 {
                        assert(items.deep_view()[0] == items@[0]@);
                        Ok(Some(items[0].clone()))
                    } else {
                        Ok(None)
                    }
                },
            }
        },
    }
}

/// A failure on the first states is the failure of the answer.
proof fn lemma_records_failure_stays(states: Seq<StateModel>, query: EntryModel, n: int)
    requires
        0 <= n <= states.len(),
        records_of(states.take(n), query) is Err,
    ensures
        records_of(states, query) is Err,
        records_of(states, query)->Err_0 == records_of(states.take(n), query)->Err_0,
    decreases states.len() - n,
{
    if n < states.len() {
        assert(states.take(n + 1).drop_last() =~= states.take(n));
        lemma_records_failure_stays(states, query, n + 1);
    } else {
        assert(states.take(n) =~= states);
    }
}

/// What the final states give to the answer of `query`: see [`records_of`].
fn collect_records(states: &Vec<State>, query: &Entry) -> (r: Result<Vec<Entry>, Error>)
    ensures
        r matches Ok(out) ==> records_of(states.deep_view(), query@) == Ok::<
            Seq<EntryModel>,
            Error,
        >(out.deep_view()),
        r matches Err(e) ==> records_of(states.deep_view(), query@) == Err::<
            Seq<EntryModel>,
            Error,
        >(e),
{
    let ghost all = states.deep_view();
    let mut out: Vec<Entry> = Vec::new();
    let mut i: usize = 0;
    proof {
        assert(all.take(0) =~= Seq::<StateModel>::empty());
        assert(out.deep_view() =~= Seq::<EntryModel>::empty());
    }
    while i < states.len()
        invariant
            all == states.deep_view(),
            i <= states.len(),
            records_of(all.take(i as int), query@) == Ok::<Seq<EntryModel>, Error>(
                out.deep_view(),
            ),
        decreases states.len() - i,
    {
        proof {
            assert(all.take(i + 1).drop_last() =~= all.take(i as int));
            assert(all.take(i + 1).last() == states@[i as int]@);
        }
        match collect_record(&states[i], query) {
            Ok(Some(entry)) => {
                let ghost before = out.deep_view();
                out.push(entry);
                assert(out.deep_view() =~= before.push(entry@));
            },
            Ok(None) => {},
            Err(e) => {
                proof {
                    lemma_records_failure_stays(all, query@, i + 1);
                }
                return Err(e);
            },
        }
        i += 1;
    }
    assert(all.take(states.len() as int) =~= all);
    Ok(out)
}

/// The answer to one query: see [`selected`].
pub fn select_record_stream(dataset: &Dataset, query: &Entry) -> (r: Result<Vec<Entry>, Error>)
    ensures
        r matches Ok(out) ==> selected(dataset@, query@) == Ok::<Seq<EntryModel>, Error>(
            out.deep_view(),
        ),
        r matches Err(e) ==> selected(dataset@, query@) == Err::<Seq<EntryModel>, Error>(e),
{
    proof {
        reveal_strlit("_");
        assert("_"@ =~= schema_base());
    }
    if same_text(query.base.as_str(), "_") {
        return select_schema_stream(dataset, query);
    }
    let schema = match select_schema(dataset) {
        Ok(schema) => schema,
        Err(e) => {
            return Err(e);
        },
    };
    if !is_known(&schema, query) {
        return Err(Error::UnknownSchemaNode);
    }
    let plan = plan_select(&schema, query);
    match run_plan(dataset, &plan, start(query)) {
        Ok(states) => collect_records(&states, query),
        Err(e) => Err(e),
    }
}

/// A failure on the first queries is the failure of them all.
proof fn lemma_select_failure_stays(d: DatasetModel, queries: Seq<EntryModel>, n: int)
    requires
        0 <= n <= queries.len(),
        selected_records(d, queries.take(n)) is Err,
    ensures
        selected_records(d, queries) is Err,
        selected_records(d, queries)->Err_0 == selected_records(d, queries.take(n))->Err_0,
    decreases queries.len() - n,
{
    if n < queries.len() {
        assert(queries.take(n + 1).drop_last() =~= queries.take(n));
        lemma_select_failure_stays(d, queries, n + 1);
    } else {
        assert(queries.take(n) =~= queries);
    }
}

/// The answers to the queries, query after query: see [`selected_records`].
pub fn select_record(dataset: &Dataset, query: Vec<Entry>) -> (r: Result<Vec<Entry>, Error>)
    ensures
        r matches Ok(out) ==> selected_records(dataset@, query.deep_view()) == Ok::<
            Seq<EntryModel>,
            Error,
        >(out.deep_view()),
        r matches Err(e) ==> selected_records(dataset@, query.deep_view()) == Err::<
            Seq<EntryModel>,
            Error,
        >(e),
{
    let ghost queries = query.deep_view();
    let mut out: Vec<Entry> = Vec::new();
    let mut i: usize = 0;
    proof {
        assert(queries.take(0) =~= Seq::<EntryModel>::empty());
        assert(out.deep_view() =~= Seq::<EntryModel>::empty());
    }
    while i < query.len()
        invariant
            queries == query.deep_view(),
            i <= query.len(),
            selected_records(dataset@, queries.take(i as int)) == Ok::<Seq<EntryModel>, Error>(
                out.deep_view(),
            ),
        decreases query.len() - i,
    {
        proof {
            assert(queries.take(i + 1).drop_last() =~= queries.take(i as int));
            assert(queries.take(i + 1).last() == query@[i as int]@);
        }
        match select_record_stream(dataset, &query[i]) {
            Ok(more) => {
                let ghost before = out.deep_view();
                let ghost added = more.deep_view();
                let mut rest = more;
                out.append(&mut rest);
                assert(out.deep_view() =~= before + added);
            },
            Err(e) => {
                proof {
                    lemma_select_failure_stays(dataset@, queries, i + 1);
                }
                return Err(e);
            },
        }
        i += 1;
    }
    assert(queries.take(query.len() as int) =~= queries);
    Ok(out)
}

} // verus!
