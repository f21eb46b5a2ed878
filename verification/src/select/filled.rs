//! The answer to a query without a filter: what each entry holds.
use vstd::prelude::*;
use crate::assoc::{has_key, keys_distinct};
use crate::dataset::{lines_of, DatasetModel};
use crate::delete::sorted_by_key;
use crate::entry::try_from::base_key;
use crate::entry::EntryModel;
use crate::error::Error;
use crate::lists::lemma_filter_distinct;
use crate::entry::sow::bare;
use crate::order::{lemma_sorted, lemma_unique_no_duplicates, unique};
use crate::schema::sort_nesting_ascending::{lemma_sorted_up, sorted_up};
use crate::schema::find_crown::{crown, lemma_crown_distinct};
use crate::schema::sort_nesting_descending::{sorted_down, way_down};
use crate::schema::try_from::{lemma_inferred_sound, schema_base};
use crate::schema::{leaves_of, trunks_of, SchemaModel};
use crate::select::children::{
    all_filled,
    bare_items,
    children_named,
    fill_steps,
    filled,
    lemma_fill_steps,
    lemma_filled_children,
    lemma_filled_head,
    lemma_filled_lists,
    values_at,
};
use crate::select::collect::{closing, founds};
use crate::select::laws::lemma_run_from_the_front;
use crate::select::strategy::{
    edge_file,
    edge_tablets,
    gathered,
    options_plan,
    others,
    query_plan,
    select_plan,
    values_plan,
};
use crate::select::types::state::StateModel;
use crate::select::types::tablet::TabletModel;
use crate::select::wildcard::{
    leaf_keys,
    leaf_steps,
    lemma_closing_dropped,
    lemma_leaf_steps,
    lemma_open_query_meets,
    lemma_run_in_two,
};
use crate::select::{first_state, known, plan_run, record_of, records_of, selected, selected_schema};

verus! {

/// The nodes that stand below `base` in the schema: those of its crown but
/// itself, from the roots down.
pub open spec fn below(s: SchemaModel, base: Seq<char>) -> Seq<Seq<char>> {
    sorted_down(s, others(crown(s, base), base))
}

/// Every node below `base` has `base` as its one trunk: they are its leaves
/// and nothing stands below them.
pub open spec fn flat_below(s: SchemaModel, base: Seq<char>) -> bool {
    forall|k: int|
        0 <= k < below(s, base).len() ==> trunks_of(s, #[trigger] below(s, base)[k]) == seq![base]
}

/// The names other than `base` are what a filter keeps that lets pass
/// every name but `base`.
proof fn lemma_others_filtered(names: Seq<Seq<char>>, base: Seq<char>, pred: spec_fn(Seq<char>) -> bool)
    requires
        forall|name: Seq<char>| #[trigger] pred(name) == (name != base),
    ensures
        others(names, base) == names.filter(pred),
    decreases names.len(),
{
    reveal(Seq::filter);
    if names.len() > 0 {
        lemma_others_filtered(names.drop_last(), base, pred);
    }
}

/// The steps for nodes that have `base` as their one trunk fill in the
/// leaves of `base`, node for node.
proof fn lemma_edge_fill_steps(s: SchemaModel, names: Seq<Seq<char>>, base: Seq<char>)
    requires
        forall|k: int| 0 <= k < names.len() ==> trunks_of(s, #[trigger] names[k]) == seq![base],
    ensures
        edge_tablets(s, names, false, base) == fill_steps(base, names),
    decreases names.len(),
{
    if names.len() == 0 {
        assert(fill_steps(base, names) =~= Seq::<TabletModel>::empty());
    } else {
        let first = names.drop_last();
        assert forall|k: int| 0 <= k < first.len() implies trunks_of(s, #[trigger] first[k])
            == seq![base] by {
            assert(first[k] == names[k]);
        }
        lemma_edge_fill_steps(s, first, base);
        assert(names.last() == names[names.len() - 1]);
        assert(edge_tablets(s, names, false, base) =~= fill_steps(base, names));
    }
}

/// Where no name stands twice in the schema, none stands twice among the
/// nodes below a base, and the base is not among them.
proof fn lemma_below_distinct(s: SchemaModel, base: Seq<char>)
    requires
        keys_distinct(s),
    ensures
        below(s, base).no_duplicates(),
        !below(s, base).contains(base),
{
    let pred = |name: Seq<char>| name != base;
    let rest = others(crown(s, base), base);
    lemma_crown_distinct(s, base);
    lemma_filter_distinct(crown(s, base), pred);
    lemma_others_filtered(crown(s, base), base, pred);
    lemma_sorted(way_down(s), rest);
    rest.lemma_multiset_has_no_duplicates();
    below(s, base).lemma_multiset_has_no_duplicates_conv();
    below(s, base).to_multiset_ensures();
    rest.to_multiset_ensures();
    if below(s, base).contains(base) {
        assert(below(s, base).to_multiset().count(base) > 0);
        assert(rest.to_multiset().count(base) > 0);
        assert(rest.contains(base));
        let i = choose|i: int| 0 <= i < rest.len() && rest[i] == base;
        #[allow(deprecated)]
        crown(s, base).filter_lemma(pred);
        assert(pred(rest[i]));
    }
}

/// Results that carry no things seen give their entries to the answer of a
/// query that asks for whole entries, one for one.
proof fn lemma_results_recorded(
    states: Seq<StateModel>,
    query: EntryModel,
    entries: Seq<EntryModel>,
)
    requires
        query.leader_value is None,
        states.len() == entries.len(),
        forall|i: int|
            0 <= i < states.len() ==> (#[trigger] states[i]).match_map is None && states[i].entry
                == Some(entries[i]) && entries[i].base == query.base,
    ensures
        records_of(states, query) == Ok::<Seq<EntryModel>, Error>(entries),
    decreases states.len(),
{
    if states.len() == 0 {
        assert(entries =~= Seq::<EntryModel>::empty());
    } else {
        let n = states.len() - 1;
        let first = states.drop_last();
        assert forall|i: int| 0 <= i < first.len() implies (#[trigger] first[i]).match_map is None
            && first[i].entry == Some(entries.drop_last()[i]) && entries.drop_last()[i].base
            == query.base by {
            assert(first[i] == states[i]);
        }
        lemma_results_recorded(first, query, entries.drop_last());
        assert(states.last() == states[n]);
        assert(entries.drop_last().push(entries[n]) =~= entries);
    }
}

/// The entries of the results for `values` with the leaves `names` filled
/// in, in order.
pub open spec fn filled_entries(
    d: DatasetModel,
    base: Seq<char>,
    names: Seq<Seq<char>>,
    values: Seq<Seq<char>>,
) -> Seq<EntryModel> {
    Seq::new(values.len(), |i: int| filled(d, base, names, values[i]))
}

/// The answer to a query without a filter holds, for each value, what the
/// files of the leaves hold for it.
///
/// The dataset has the schema `s`, and the query is rooted at a node of it
/// that has no trunks and only leaves below it; it holds no value, asks for
/// whole entries and names no attribute. The files of the leaves stand in
/// the order of their first column.
///
/// Then the query is answered, with one entry for each value that stands in
/// a first column of the files of the leaves, in the order in which the
/// values first stand there. The entry of a value holds, under each leaf,
/// one bare child for each second column of the rows of that leaf's file
/// whose first column is the value, in the order in which they first stand
/// there: a row that stands twice gives one child. It has no other list.
pub proof fn lemma_wildcard_children(d: DatasetModel, s: SchemaModel, query: EntryModel)
    requires
        selected_schema(d) == Ok::<SchemaModel, Error>(s),
        known(s, query),
        query.base != base_key(),
        query.leader_value is None,
        query_plan(s, query).len() == 0,
        trunks_of(s, query.base).len() == 0,
        leaves_of(s, query.base).len() > 0,
        flat_below(s, query.base),
        query.base_value is None,
        forall|k: int|
            0 <= k < below(s, query.base).len() ==> sorted_by_key(
                lines_of(d, edge_file(query.base, #[trigger] below(s, query.base)[k])),
            ),
    ensures
        selected(d, query) == Ok::<Seq<EntryModel>, Error>(
            filled_entries(
                d,
                query.base,
                below(s, query.base),
                unique(leaf_keys(d, query.base, leaves_of(s, query.base))),
            ),
        ),
        forall|i: int, k: int|
            #![trigger selected(d, query)->Ok_0[i], below(s, query.base)[k]]
            0 <= i < selected(d, query)->Ok_0.len() && 0 <= k < below(s, query.base).len()
                ==> children_named(selected(d, query)->Ok_0[i], below(s, query.base)[k])
                == bare_items(
                below(s, query.base)[k],
                unique(
                    values_at(
                        lines_of(d, edge_file(query.base, below(s, query.base)[k])),
                        unique(leaf_keys(d, query.base, leaves_of(s, query.base)))[i],
                    ),
                ),
            ),
        forall|i: int, other: Seq<char>|
            0 <= i < selected(d, query)->Ok_0.len() && #[trigger] has_key(
                selected(d, query)->Ok_0[i].leaves,
                other,
            ) ==> below(s, query.base).contains(other),
{
    let base = query.base;
    let leaves = leaves_of(s, base);
    let names = below(s, base);
    let listing = leaf_steps(base, leaves);
    let adding = values_plan(s, query);
    let start = seq![first_state(query)];
    let values = unique(leaf_keys(d, base, leaves));
    let q = Some(query);
    let results = founds(base, q, values);
    let ended = closing(base, q, values);
    let handed = results.push(ended);
    let answer = filled_entries(d, base, names, values);
    assert(base_key() =~= schema_base());
    match crate::select::selected_schema_entries(d, crate::select::schema_query()) {
        Ok(entries) => {
            lemma_inferred_sound(entries[0]);
        },
        Err(_) => {},
    }
    lemma_below_distinct(s, base);
    lemma_edge_fill_steps(s, names, base);
    assert(adding == fill_steps(base, names));
    assert(options_plan(s, base) =~= listing);
    assert(select_plan(s, query) == listing + adding);
    lemma_open_query_meets(d, query, leaves);
    lemma_leaf_steps(d, query, leaves);
    lemma_run_in_two(d, listing, adding, start);
    assert forall|i: int| 0 <= i < results.len() implies (#[trigger] results[i]).match_map is None
        && results[i].entry == Some(filled(d, base, Seq::empty(), values[i])) by {}
    assert(all_filled(results, d, base, Seq::empty(), values));
    lemma_fill_steps(d, base, names, results, values);
    let run = plan_run(d, adding, results)->Ok_0;
    if adding.len() == 0 {
        assert(names =~= Seq::<Seq<char>>::empty());
        assert(handed.drop_last() =~= results);
        assert(handed.last() == ended);
        assert(record_of(ended, query) == Ok::<Option<EntryModel>, Error>(None));
    } else {
        let lines = lines_of(d, adding[0].filename);
        lemma_run_from_the_front(d, adding, handed);
        lemma_run_from_the_front(d, adding, results);
        if edge_file(base, names[0]) == crate::select::strategy::schema_file() {
            crate::select::wildcard::lemma_edge_file_is_schema_file(base, names[0]);
        }
        lemma_closing_dropped(results, ended, adding[0], lines);
    }
    assert forall|i: int| 0 <= i < run.len() implies (#[trigger] run[i]).match_map is None
        && run[i].entry == Some(answer[i]) && answer[i].base == query.base by {
        lemma_filled_head(d, base, names, values[i]);
    }
    lemma_results_recorded(run, query, answer);
    assert forall|i: int, k: int|
        #![trigger answer[i], names[k]]
        0 <= i < answer.len() && 0 <= k < names.len() implies children_named(answer[i], names[k])
        == bare_items(
        names[k],
        unique(values_at(lines_of(d, edge_file(base, names[k])), values[i])),
    ) by {
        lemma_filled_children(d, base, names, values[i], k);
    }
    assert forall|i: int, other: Seq<char>|
        0 <= i < answer.len() && #[trigger] has_key(answer[i].leaves, other) implies names.contains(
        other,
    ) by {
        if !names.contains(other) {
            lemma_filled_lists(d, base, names, values[i], other);
        }
    }
}

/// The query that asks for every entry of the node `base`: the bare node,
/// without a value.
pub open spec fn every(base: Seq<char>) -> EntryModel {
    bare(base, None)
}

/// The query for every entry of a node is answered with each value once,
/// and with what the files hold for it.
///
/// The dataset has the schema `s`. The node `base` is a node of it, not the
/// schema's own, that has no trunks and only leaves below it, and the files
/// of its leaves stand in the order of their first column. Then the query
/// never fails, and the answer is what [`lemma_wildcard_children`] says: one
/// entry of the node for each value that stands in a first column of the
/// files of the leaves, no two for the same value; under each leaf the entry
/// holds the second columns of the rows of the leaf's file whose first
/// column is the entry's value, in the order in which they first stand
/// there, and it holds nothing else.
pub proof fn lemma_every_entry(d: DatasetModel, s: SchemaModel, base: Seq<char>)
    requires
        selected_schema(d) == Ok::<SchemaModel, Error>(s),
        has_key(s, base),
        base != base_key(),
        trunks_of(s, base).len() == 0,
        leaves_of(s, base).len() > 0,
        flat_below(s, base),
        forall|k: int|
            0 <= k < below(s, base).len() ==> sorted_by_key(
                lines_of(d, edge_file(base, #[trigger] below(s, base)[k])),
            ),
    ensures
        selected(d, every(base)) == Ok::<Seq<EntryModel>, Error>(
            filled_entries(d, base, below(s, base), unique(leaf_keys(d, base, leaves_of(s, base)))),
        ),
        selected(d, every(base))->Ok_0.len() == unique(
            leaf_keys(d, base, leaves_of(s, base)),
        ).len(),
        unique(leaf_keys(d, base, leaves_of(s, base))).no_duplicates(),
        forall|i: int|
            0 <= i < selected(d, every(base))->Ok_0.len() ==> (#[trigger] selected(
                d,
                every(base),
            )->Ok_0[i]).base == base && selected(d, every(base))->Ok_0[i].base_value == Some(
                unique(leaf_keys(d, base, leaves_of(s, base)))[i],
            ),
        forall|i: int, k: int|
            #![trigger selected(d, every(base))->Ok_0[i], below(s, base)[k]]
            0 <= i < selected(d, every(base))->Ok_0.len() && 0 <= k < below(s, base).len()
                ==> children_named(selected(d, every(base))->Ok_0[i], below(s, base)[k])
                == bare_items(
                below(s, base)[k],
                unique(
                    values_at(
                        lines_of(d, edge_file(base, below(s, base)[k])),
                        unique(leaf_keys(d, base, leaves_of(s, base)))[i],
                    ),
                ),
            ),
        forall|i: int, other: Seq<char>|
            0 <= i < selected(d, every(base))->Ok_0.len() && #[trigger] has_key(
                selected(d, every(base))->Ok_0[i].leaves,
                other,
            ) ==> below(s, base).contains(other),
{
    let query = every(base);
    let values = unique(leaf_keys(d, base, leaves_of(s, base)));
    assert(gathered(query) =~= Seq::<Seq<char>>::empty()) by {
        assert(query.leaves =~= Seq::empty());
    }
    lemma_sorted_up(s, gathered(query));
    assert(sorted_up(s, gathered(query)) =~= Seq::<Seq<char>>::empty());
    assert(query_plan(s, query) =~= Seq::<TabletModel>::empty());
    lemma_wildcard_children(d, s, query);
    lemma_unique_no_duplicates(leaf_keys(d, base, leaves_of(s, base)));
    assert forall|i: int| 0 <= i < values.len() implies (#[trigger] selected(d, query)->Ok_0[i]).base
        == base && selected(d, query)->Ok_0[i].base_value == Some(values[i]) by {
        lemma_filled_head(d, base, below(s, base), values[i]);
    }
}

} // verus!
