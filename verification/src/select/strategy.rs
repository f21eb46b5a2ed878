//! Turning a query into the list of steps that answers it.
use vstd::prelude::*;
use vstd::string::StringExecFns;
use crate::assoc::find;
use crate::entry::{lemma_entry_leaves, Entry, EntryModel};
use crate::schema::find_crown::{crown, find_crown};
use crate::schema::sort_nesting_ascending::{sort_nesting_ascending, sorted_up};
use crate::schema::sort_nesting_descending::{sort_nesting_descending, sorted_down};
use crate::schema::{leaves_of, trunks_of, Schema, SchemaModel};
use crate::select::types::tablet::{Tablet, TabletModel};
use crate::text::{same_opt_text, same_text};

verus! {

/// The name of the file that holds the schema.
pub open spec fn schema_file() -> Seq<char> {
    seq!['_', '-', '_', '.', 'c', 's', 'v']
}

/// The name of the file that holds the edges from `trunk` down to `branch`.
pub open spec fn edge_file(trunk: Seq<char>, branch: Seq<char>) -> Seq<char> {
    trunk + seq!['-'] + branch + seq!['.', 'c', 's', 'v']
}

/// The step that reads the schema.
pub open spec fn schema_tablet() -> TabletModel {
    TabletModel {
        filename: schema_file(),
        thing: seq!['_'],
        trait_: seq!['_'],
        thing_is_first: false,
        trait_is_first: true,
        base: seq!['_'],
        trait_is_regex: false,
        passthrough: false,
        querying: false,
        eager: false,
        accumulating: false,
    }
}

/// The step that narrows the candidates for `trunk` by a filter on `branch`.
pub open spec fn query_tablet(trunk: Seq<char>, branch: Seq<char>) -> TabletModel {
    TabletModel {
        filename: edge_file(trunk, branch),
        thing: trunk,
        trait_: branch,
        thing_is_first: true,
        trait_is_first: false,
        base: trunk,
        trait_is_regex: true,
        passthrough: false,
        querying: true,
        eager: true,
        accumulating: false,
    }
}

/// The step that adds the `branch` values of a known `trunk`; it may hand a
/// result on early only where `trunk` is the `base` of the query.
pub open spec fn value_tablet(trunk: Seq<char>, branch: Seq<char>, base: Seq<char>) -> TabletModel {
    TabletModel {
        filename: edge_file(trunk, branch),
        thing: branch,
        trait_: trunk,
        thing_is_first: false,
        trait_is_first: true,
        base: trunk,
        trait_is_regex: false,
        passthrough: true,
        querying: false,
        eager: trunk == base,
        accumulating: false,
    }
}

/// The step that collects the values of `base` from the file of its leaf `leaf`.
pub open spec fn option_leaf_tablet(base: Seq<char>, leaf: Seq<char>) -> TabletModel {
    TabletModel {
        filename: edge_file(base, leaf),
        thing: base,
        trait_: base,
        thing_is_first: true,
        trait_is_first: true,
        base,
        trait_is_regex: true,
        passthrough: false,
        querying: false,
        eager: true,
        accumulating: true,
    }
}

/// The step that collects the values of `base` from the file of its trunk `trunk`.
pub open spec fn option_trunk_tablet(base: Seq<char>, trunk: Seq<char>) -> TabletModel {
    TabletModel {
        filename: edge_file(trunk, base),
        thing: base,
        trait_: trunk,
        thing_is_first: false,
        trait_is_first: false,
        base: trunk,
        trait_is_regex: true,
        passthrough: false,
        querying: false,
        eager: true,
        accumulating: true,
    }
}

/// The step for the edge from `trunk` down to `branch`: a querying step, or
/// the value step of a query on `base`.
pub open spec fn edge_tablet(
    querying: bool,
    trunk: Seq<char>,
    branch: Seq<char>,
    base: Seq<char>,
) -> TabletModel {
    if querying {
        query_tablet(trunk, branch)
    } else {
        value_tablet(trunk, branch, base)
    }
}

/// One step for each trunk of each of `branches`, in their order.
pub open spec fn edge_tablets(
    s: SchemaModel,
    branches: Seq<Seq<char>>,
    querying: bool,
    base: Seq<char>,
) -> Seq<TabletModel>
    decreases branches.len(),
{
    if branches.len() == 0 {
        Seq::empty()
    } else {
        let branch = branches.last();
        let trunks = trunks_of(s, branch);
        edge_tablets(s, branches.drop_last(), querying, base) + Seq::new(
            trunks.len(),
            |k: int| edge_tablet(querying, trunks[k], branch, base),
        )
    }
}

/// Every attribute named anywhere in the query, in the order of the tree:
/// each list's name, then what its items name. A list named like the value
/// that the query itself holds is passed over.
pub open spec fn gathered(e: EntryModel) -> Seq<Seq<char>>
    decreases e, 0nat,
{
    gathered_of_leaves(e.leaves, e.base_value)
}

/// The attributes that `leaves` name, passing over a list named `skip`.
pub open spec fn gathered_of_leaves(
    leaves: Seq<(Seq<char>, Seq<EntryModel>)>,
    skip: Option<Seq<char>>,
) -> Seq<Seq<char>>
    decreases leaves, 2nat,
{
    if leaves.len() == 0 {
        Seq::empty()
    } else {
        let rest = gathered_of_leaves(leaves.drop_last(), skip);
        if skip == Some(leaves.last().0) {
            rest
        } else {
            rest + seq![leaves.last().0] + gathered_of_items(leaves.last().1)
        }
    }
}

/// The attributes that `items` name, item after item.
pub open spec fn gathered_of_items(items: Seq<EntryModel>) -> Seq<Seq<char>>
    decreases items, 1nat,
{
    if items.len() == 0 {
        Seq::empty()
    } else {
        gathered_of_items(items.drop_last()) + gathered(items.last())
    }
}

/// The plan that reads the schema: one step.
pub open spec fn schema_plan() -> Seq<TabletModel> {
    seq![schema_tablet()]
}

/// The steps that narrow the candidates: one for each trunk of each attribute
/// that the query names, the deepest attribute first.
pub open spec fn query_plan(s: SchemaModel, query: EntryModel) -> Seq<TabletModel> {
    edge_tablets(s, sorted_up(s, gathered(query)), true, query.base)
}

/// The steps that list every value of `base`: one for each of its leaves,
/// then one for each of its trunks.
pub open spec fn options_plan(s: SchemaModel, base: Seq<char>) -> Seq<TabletModel> {
    let leaves = leaves_of(s, base);
    let trunks = trunks_of(s, base);
    Seq::new(leaves.len(), |k: int| option_leaf_tablet(base, leaves[k])) + Seq::new(
        trunks.len(),
        |k: int| option_trunk_tablet(base, trunks[k]),
    )
}

/// The names of `names` other than `base`.
pub open spec fn others(names: Seq<Seq<char>>, base: Seq<char>) -> Seq<Seq<char>> {
    names.filter(|name: Seq<char>| name != base)
}

/// The steps that add the values: one for each trunk of each node below the
/// base of the query, the node nearest to the roots first.
pub open spec fn values_plan(s: SchemaModel, query: EntryModel) -> Seq<TabletModel> {
    edge_tablets(s, sorted_down(s, others(crown(s, query.base), query.base)), false, query.base)
}

/// The whole plan: the steps that narrow the candidates, or where the query
/// has no filter the steps that list every value; then the steps that add
/// the values.
pub open spec fn select_plan(s: SchemaModel, query: EntryModel) -> Seq<TabletModel> {
    let narrowing = query_plan(s, query);
    let first = if narrowing.len() > 0 {
        narrowing
    } else {
        options_plan(s, query.base)
    };
    first + values_plan(s, query)
}

/// The name of the file that holds the edges from `trunk` down to `branch`.
pub fn edge_filename(trunk: &str, branch: &str) -> (r: String)
    ensures
        r@ == edge_file(trunk@, branch@),
{
    proof {
        reveal_strlit("-");
        reveal_strlit(".csv");
    }
    let mut name = String::from_str(trunk);
    name.append("-");
    name.append(branch);
    name.append(".csv");
    assert("-"@ =~= seq!['-']);
    assert(".csv"@ =~= seq!['.', 'c', 's', 'v']);
    name
}

/// The plan that reads the schema: see [`schema_plan`].
pub fn plan_select_schema(query: &Entry) -> (r: Vec<Tablet>)
    ensures
        r.deep_view() == schema_plan(),
{
    proof {
        reveal_strlit("_");
        reveal_strlit("_-_.csv");
    }
    let tablet = Tablet {
        filename: String::from_str("_-_.csv"),
        thing: String::from_str("_"),
        trait_: String::from_str("_"),
        thing_is_first: false,
        trait_is_first: true,
        base: String::from_str("_"),
        trait_is_regex: false,
        passthrough: false,
        querying: false,
        eager: false,
        accumulating: false,
    };
    assert("_"@ =~= seq!['_']);
    assert("_-_.csv"@ =~= schema_file());
    let mut out: Vec<Tablet> = Vec::new();
    out.push(tablet);
    assert(out.deep_view() =~= schema_plan());
    out
}

/// Moves the names of `more` to the end of `out`.
fn append_names(out: &mut Vec<String>, more: Vec<String>)
    ensures
        final(out).deep_view() == old(out).deep_view() + more.deep_view(),
{
    let ghost added = more.deep_view();
    let mut rest = more;
    out.append(&mut rest);
    assert(out.deep_view() =~= old(out).deep_view() + added);
}

/// Every attribute named anywhere in the query: see [`gathered`].
pub fn gather_keys(query: &Entry) -> (r: Vec<String>)
    ensures
        r.deep_view() == gathered(query@),
    decreases query,
{
    proof {
        lemma_entry_leaves(*query);
    }
    let ghost leaves = query@.leaves;
    let ghost skip = query@.base_value;
    let mut out: Vec<String> = Vec::new();
    let mut i: usize = 0;
    proof {
        assert(leaves.take(0) =~= Seq::<(Seq<char>, Seq<EntryModel>)>::empty());
        assert(out.deep_view() =~= Seq::<Seq<char>>::empty());
    }
    while i < query.leaves.len()
        invariant
            leaves == query@.leaves,
            leaves == query.leaves.deep_view(),
            skip == query@.base_value,
            skip == query.base_value.deep_view(),
            i <= query.leaves.len(),
            out.deep_view() == gathered_of_leaves(leaves.take(i as int), skip),
        decreases query.leaves.len() - i,
    {
        let name = &query.leaves[i].0;
        let items = &query.leaves[i].1;
        proof {
            assert(leaves.take(i + 1).drop_last() =~= leaves.take(i as int));
            assert(leaves.take(i + 1).last() == leaves[i as int]);
        }
        let named = Some(name.clone());
        if !same_opt_text(&query.base_value, &named) {
            let ghost before = out.deep_view();
            out.push(name.clone());
            assert(out.deep_view() =~= before + seq![name@]);
            let mut j: usize = 0;
            let ghost start = out.deep_view();
            proof {
                assert(items.deep_view().take(0) =~= Seq::<EntryModel>::empty());
                assert(start + gathered_of_items(items.deep_view().take(0)) =~= start);
            }
            while j < items.len()
                invariant
                    i < query.leaves.len(),
                    items == &query.leaves@[i as int].1,
                    j <= items.len(),
                    out.deep_view() == start + gathered_of_items(items.deep_view().take(j as int)),
                decreases items.len() - j,
            {
                proof {
                    assert(items.deep_view().take(j + 1).drop_last() =~= items.deep_view().take(
                        j as int,
                    ));
                    assert(items.deep_view().take(j + 1).last() == items@[j as int]@);
                }
                let more = gather_keys(&items[j]);
                append_names(&mut out, more);
                assert(out.deep_view() =~= start + gathered_of_items(
                    items.deep_view().take(j + 1),
                ));
                j += 1;
            }
            assert(items.deep_view().take(items.len() as int) =~= items.deep_view());
        }
        i += 1;
    }
    assert(leaves.take(query.leaves.len() as int) =~= leaves);
    out
}

/// One step for each trunk of each of `branches`: see [`edge_tablets`].
fn plan_edges(schema: &Schema, branches: &Vec<String>, querying: bool, base: &str) -> (r: Vec<
    Tablet,
>)
    ensures
        r.deep_view() == edge_tablets(schema@, branches.deep_view(), querying, base@),
{
    let ghost s = schema@;
    let ghost names = branches.deep_view();
    let mut out: Vec<Tablet> = Vec::new();
    let mut i: usize = 0;
    proof {
        assert(names.take(0) =~= Seq::<Seq<char>>::empty());
        assert(out.deep_view() =~= Seq::<TabletModel>::empty());
    }
    while i < branches.len()
        invariant
            s == schema@,
            names == branches.deep_view(),
            i <= branches.len(),
            out.deep_view() == edge_tablets(s, names.take(i as int), querying, base@),
        decreases branches.len() - i,
    {
        let branch = &branches[i];
        proof {
            assert(names.take(i + 1).drop_last() =~= names.take(i as int));
            assert(names.take(i + 1).last() == branch@);
        }
        let ghost start = out.deep_view();
        let ghost trunk_names = trunks_of(s, branch@);
        match find(&schema.0, branch.as_str()) {
            None => {
                assert(start + Seq::new(
                    trunk_names.len(),
                    |k: int| edge_tablet(querying, trunk_names[k], branch@, base@),
                ) =~= start);
            },
            Some(p) => {
                let trunks = &schema.0[p].1.trunks.0;
                let mut j: usize = 0;
                while j < trunks.len()
                    invariant
                        p < schema.0.len(),
                        trunks == &schema.0@[p as int].1.trunks.0,
                        trunk_names == trunks.deep_view(),
                        j <= trunks.len(),
                        out.len() == start.len() + j,
                        forall|k: int|
                            0 <= k < start.len() ==> (#[trigger] out.deep_view()[k]) == start[k],
                        forall|k: int|
                            start.len() <= k < out.len() ==> (#[trigger] out.deep_view()[k])
                                == edge_tablet(
                                querying,
                                trunk_names[k - start.len()],
                                branch@,
                                base@,
                            ),
                    decreases trunks.len() - j,
                {
                    let trunk = &trunks[j];
                    let ghost before = out.deep_view();
                    let tablet = if querying {
                        Tablet {
                            filename: edge_filename(trunk.as_str(), branch.as_str()),
                            thing: trunk.clone(),
                            trait_: branch.clone(),
                            thing_is_first: true,
                            trait_is_first: false,
                            base: trunk.clone(),
                            trait_is_regex: true,
                            passthrough: false,
                            querying: true,
                            eager: true,
                            accumulating: false,
                        }
                    } else {
                        Tablet {
                            filename: edge_filename(trunk.as_str(), branch.as_str()),
                            thing: branch.clone(),
                            trait_: trunk.clone(),
                            thing_is_first: false,
                            trait_is_first: true,
                            base: trunk.clone(),
                            trait_is_regex: false,
                            passthrough: true,
                            querying: false,
                            eager: same_text(trunk.as_str(), base),
                            accumulating: false,
                        }
                    };
                    assert(tablet@ == edge_tablet(querying, trunk@, branch@, base@));
                    out.push(tablet);
                    proof {
                        assert(out.deep_view() =~= before.push(tablet@));
                        assert(trunk_names[j as int] == trunk@);
                    }
                    j += 1;
                }
                assert(out.deep_view() =~= start + Seq::new(
                    trunk_names.len(),
                    |k: int| edge_tablet(querying, trunk_names[k], branch@, base@),
                ));
            },
        }
        i += 1;
    }
    assert(names.take(branches.len() as int) =~= names);
    out
}

/// The steps that narrow the candidates: see [`query_plan`].
pub fn plan_query(schema: &Schema, query: &Entry) -> (r: Vec<Tablet>)
    ensures
        r.deep_view() == query_plan(schema@, query@),
{
    let keys = gather_keys(query);
    let sorted = sort_nesting_ascending(schema, keys);
    plan_edges(schema, &sorted, true, query.base.as_str())
}

/// The steps that list every value of `base`: see [`options_plan`].
pub fn plan_options(schema: &Schema, base: &str) -> (r: Vec<Tablet>)
    ensures
        r.deep_view() == options_plan(schema@, base@),
{
    let ghost s = schema@;
    let ghost leaf_names = leaves_of(s, base@);
    let ghost trunk_names = trunks_of(s, base@);
    let mut out: Vec<Tablet> = Vec::new();
    let p = match find(&schema.0, base) {
        Some(p) => p,
        None => {
            assert(out.deep_view() =~= options_plan(s, base@));
            return out;
        },
    };
    let leaves = &schema.0[p].1.leaves.0;
    let trunks = &schema.0[p].1.trunks.0;
    let mut i: usize = 0;
    while i < leaves.len()
        invariant
            leaf_names == leaves.deep_view(),
            i <= leaves.len(),
            out.len() == i,
            forall|k: int|
                0 <= k < i ==> (#[trigger] out.deep_view()[k]) == option_leaf_tablet(
                    base@,
                    leaf_names[k],
                ),
        decreases leaves.len() - i,
    {
        let leaf = &leaves[i];
        let ghost before = out.deep_view();
        let tablet = Tablet {
            filename: edge_filename(base, leaf.as_str()),
            thing: base.to_owned(),
            trait_: base.to_owned(),
            thing_is_first: true,
            trait_is_first: true,
            base: base.to_owned(),
            trait_is_regex: true,
            passthrough: false,
            querying: false,
            eager: true,
            accumulating: true,
        };
        assert(tablet@ == option_leaf_tablet(base@, leaf@));
        out.push(tablet);
        proof {
            assert(out.deep_view() =~= before.push(tablet@));
            assert(leaf_names[i as int] == leaf@);
        }
        i += 1;
    }
    let mut j: usize = 0;
    while j < trunks.len()
        invariant
            leaf_names == leaves.deep_view(),
            trunk_names == trunks.deep_view(),
            j <= trunks.len(),
            out.len() == leaves.len() + j,
            forall|k: int|
                0 <= k < leaves.len() ==> (#[trigger] out.deep_view()[k]) == option_leaf_tablet(
                    base@,
                    leaf_names[k],
                ),
            forall|k: int|
                leaves.len() <= k < out.len() ==> (#[trigger] out.deep_view()[k])
                    == option_trunk_tablet(base@, trunk_names[k - leaves.len()]),
        decreases trunks.len() - j,
    {
        let trunk = &trunks[j];
        let ghost before = out.deep_view();
        let tablet = Tablet {
            filename: edge_filename(trunk.as_str(), base),
            thing: base.to_owned(),
            trait_: trunk.clone(),
            thing_is_first: false,
            trait_is_first: false,
            base: trunk.clone(),
            trait_is_regex: true,
            passthrough: false,
            querying: false,
            eager: true,
            accumulating: true,
        };
        assert(tablet@ == option_trunk_tablet(base@, trunk@));
        out.push(tablet);
        proof {
            assert(out.deep_view() =~= before.push(tablet@));
            assert(trunk_names[j as int] == trunk@);
        }
        j += 1;
    }
    assert(out.deep_view() =~= options_plan(s, base@));
    out
}

/// The names of `names` other than `base`: see [`others`].
fn without(names: &Vec<String>, base: &str) -> (r: Vec<String>)
    ensures
        r.deep_view() == others(names.deep_view(), base@),
{
    let ghost given = names.deep_view();
    let ghost pred = |name: Seq<char>| name != base@;
    let mut out: Vec<String> = Vec::new();
    let mut i: usize = 0;
    proof {
        reveal(Seq::filter);
        assert(given.take(0) =~= Seq::<Seq<char>>::empty());
        assert(out.deep_view() =~= Seq::<Seq<char>>::empty());
    }
    while i < names.len()
        invariant
            given == names.deep_view(),
            pred == |name: Seq<char>| name != base@,
            i <= names.len(),
            out.deep_view() == given.take(i as int).filter(pred),
        decreases names.len() - i,
    {
        let name = &names[i];
        proof {
            reveal(Seq::filter);
            assert(given.take(i + 1).drop_last() =~= given.take(i as int));
            assert(given.take(i + 1).last() == name@);
        }
        if !same_text(name.as_str(), base) {
            let ghost before = out.deep_view();
            out.push(name.clone());
            assert(out.deep_view() =~= before.push(name@));
        }
        i += 1;
    }
    assert(given.take(names.len() as int) =~= given);
    out
}

/// The steps that add the values: see [`values_plan`].
pub fn plan_values(schema: &Schema, query: &Entry) -> (r: Vec<Tablet>)
    ensures
        r.deep_view() == values_plan(schema@, query@),
{
    let crown = find_crown(schema, query.base.as_str());
    let below = without(&crown, query.base.as_str());
    let sorted = sort_nesting_descending(schema, below);
    plan_edges(schema, &sorted, false, query.base.as_str())
}

/// The whole plan of a query: see [`select_plan`].
pub fn plan_select(schema: &Schema, query: &Entry) -> (r: Vec<Tablet>)
    ensures
        r.deep_view() == select_plan(schema@, query@),
{
    let narrowing = plan_query(schema, query);
    let mut plan = if narrowing.len() > 0 {
        narrowing
    } else {
        plan_options(schema, query.base.as_str())
    };
    let ghost first = plan.deep_view();
    let mut values = plan_values(schema, query);
    let ghost second = values.deep_view();
    plan.append(&mut values);
    assert(plan.deep_view() =~= first + second);
    plan
}

} // verus!
