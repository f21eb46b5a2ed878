//! Reading the schema off the record that holds its edges.
use vstd::prelude::*;
use crate::assoc::{bind, find, keys_distinct, lemma_put, lemma_put_distinct, lookup, put};
use crate::entry::{lemma_entry_leaves, Entry, EntryModel};
use crate::error::Error;
use crate::lists::lemma_push_contains;
use crate::schema::is_connected::mutual;
use crate::schema::{leaves_of, trunks_of, Branch, BranchModel, Leaves, Schema, SchemaModel, Trunks};
use crate::text::{copy_texts, same_text};

verus! {

/// What the schema knows of `name`; a node without trunks or leaves where it
/// knows nothing.
pub open spec fn branch_of(s: SchemaModel, name: Seq<char>) -> BranchModel {
    match lookup(s, name) {
        Some(b) => b,
        None => BranchModel { trunks: Seq::empty(), leaves: Seq::empty() },
    }
}

/// The schema after the edge from `trunk` down to `leaf` was added: `leaf`
/// is the last leaf of `trunk`, and `trunk` is the last trunk of `leaf`.
pub open spec fn with_edge(s: SchemaModel, trunk: Seq<char>, leaf: Seq<char>) -> SchemaModel {
    let above = branch_of(s, trunk);
    let s1 = put(s, trunk, BranchModel { trunks: above.trunks, leaves: above.leaves.push(leaf) });
    let below = branch_of(s1, leaf);
    put(s1, leaf, BranchModel { trunks: below.trunks.push(trunk), leaves: below.leaves })
}

/// The schema after an edge from `trunk` was added for each of `items` that
/// holds a value, in their order.
pub open spec fn with_edges(s: SchemaModel, trunk: Seq<char>, items: Seq<EntryModel>) -> SchemaModel
    decreases items.len(),
{
    if items.len() == 0 {
        s
    } else {
        let t = with_edges(s, trunk, items.drop_last());
        match items.last().base_value {
            Some(leaf) => with_edge(t, trunk, leaf),
            None => t,
        }
    }
}

/// The schema after the edges of all of `lists` were added, list after list.
pub open spec fn with_all_edges(
    s: SchemaModel,
    lists: Seq<(Seq<char>, Seq<EntryModel>)>,
) -> SchemaModel
    decreases lists.len(),
{
    if lists.len() == 0 {
        s
    } else {
        with_edges(with_all_edges(s, lists.drop_last()), lists.last().0, lists.last().1)
    }
}

/// The schema that a record of edges describes: each list of the record is
/// named after a trunk, and each value in it names a leaf of that trunk.
pub open spec fn inferred(e: EntryModel) -> SchemaModel {
    with_all_edges(Seq::empty(), e.leaves)
}

/// The name under which the schema itself is kept.
pub open spec fn schema_base() -> Seq<char> {
    seq!['_']
}

/// A copy of what the schema knows of `name`.
fn copy_branch(nodes: &Vec<(String, Branch)>, name: &str) -> (r: Branch)
    ensures
        r@ == branch_of(nodes.deep_view(), name@),
{
    match find(nodes, name) {
        Some(p) => Branch {
            trunks: Trunks(copy_texts(&nodes[p].1.trunks.0)),
            leaves: Leaves(copy_texts(&nodes[p].1.leaves.0)),
        },
        None => {
            let r = Branch { trunks: Trunks(Vec::new()), leaves: Leaves(Vec::new()) };
            assert(r@.trunks =~= Seq::empty());
            assert(r@.leaves =~= Seq::empty());
            r
        },
    }
}

/// Adds the edge from `trunk` down to `leaf`.
fn add_edge(nodes: &mut Vec<(String, Branch)>, trunk: &str, leaf: &str)
    ensures
        final(nodes).deep_view() == with_edge(old(nodes).deep_view(), trunk@, leaf@),
{
    let mut above = copy_branch(nodes, trunk);
    let ghost old_leaves = above@.leaves;
    above.leaves.0.push(leaf.to_owned());
    assert(above@.leaves =~= old_leaves.push(leaf@));
    bind(nodes, trunk.to_owned(), above);
    let mut below = copy_branch(nodes, leaf);
    let ghost old_trunks = below@.trunks;
    below.trunks.0.push(trunk.to_owned());
    assert(below@.trunks =~= old_trunks.push(trunk@));
    bind(nodes, leaf.to_owned(), below);
}

impl Schema {
    /// The schema that the record `entry` describes: see [`inferred`]. In it
    /// no name stands twice, and a node lists another as its trunk exactly
    /// where that one lists it as its leaf. A record whose base is not `_` is
    /// refused as malformed.
    pub fn try_from(entry: &Entry) -> (r: Result<Schema, Error>)
        ensures
            r is Ok <==> entry@.base == schema_base(),
            r matches Ok(s) ==> s@ == inferred(entry@),
            r matches Ok(s) ==> keys_distinct(s@) && mutual(s@),
            r matches Err(e) ==> e == Error::MalformedQuery,
    {
        proof {
            reveal_strlit("_");
            assert("_"@ =~= schema_base());
            lemma_entry_leaves(*entry);
        }
        if !same_text(entry.base.as_str(), "_") {
            return Err(Error::MalformedQuery);
        }
        let ghost lists = entry@.leaves;
        let mut nodes: Vec<(String, Branch)> = Vec::new();
        let mut i: usize = 0;
        proof {
            assert(lists.take(0) =~= Seq::<(Seq<char>, Seq<EntryModel>)>::empty());
            assert(nodes.deep_view() =~= Seq::<(Seq<char>, BranchModel)>::empty());
        }
        while i < entry.leaves.len()
            invariant
                lists == entry@.leaves,
                lists == entry.leaves.deep_view(),
                i <= entry.leaves.len(),
                nodes.deep_view() == with_all_edges(Seq::empty(), lists.take(i as int)),
            decreases entry.leaves.len() - i,
        {
            let trunk = &entry.leaves[i].0;
            let items = &entry.leaves[i].1;
            let ghost start = nodes.deep_view();
            let mut j: usize = 0;
            proof {
                assert(items.deep_view().take(0) =~= Seq::<EntryModel>::empty());
            }
            while j < items.len()
                invariant
                    i < entry.leaves.len(),
                    trunk == &entry.leaves@[i as int].0,
                    items == &entry.leaves@[i as int].1,
                    j <= items.len(),
                    nodes.deep_view() == with_edges(start, trunk@, items.deep_view().take(j as int)),
                decreases items.len() - j,
            {
                proof {
                    assert(items.deep_view().take(j + 1).drop_last() =~= items.deep_view().take(
                        j as int,
                    ));
                    assert(items.deep_view().take(j + 1).last() == items@[j as int]@);
                }
                match &items[j].base_value {
                    Some(leaf) => add_edge(&mut nodes, trunk.as_str(), leaf.as_str()),
                    None => {},
                }
                j += 1;
            }
            proof {
                assert(items.deep_view().take(items.len() as int) =~= items.deep_view());
                assert(lists.take(i + 1).drop_last() =~= lists.take(i as int));
                assert(lists.take(i + 1).last() == lists[i as int]);
            }
            i += 1;
        }
        proof {
            assert(lists.take(entry.leaves.len() as int) =~= lists);
            lemma_inferred_sound(entry@);
        }
        Ok(Schema(nodes))
    }
}

/// An edge that was added is there: the leaf is among the trunk's leaves and
/// the trunk among the leaf's trunks.
pub proof fn lemma_with_edge_adds(s: SchemaModel, trunk: Seq<char>, leaf: Seq<char>)
    ensures
        leaves_of(with_edge(s, trunk, leaf), trunk).contains(leaf),
        trunks_of(with_edge(s, trunk, leaf), leaf).contains(trunk),
{
    let above = branch_of(s, trunk);
    let grown = BranchModel { trunks: above.trunks, leaves: above.leaves.push(leaf) };
    let s1 = put(s, trunk, grown);
    let below = branch_of(s1, leaf);
    let linked = BranchModel { trunks: below.trunks.push(trunk), leaves: below.leaves };
    lemma_put(s, trunk, grown, trunk);
    lemma_put(s, trunk, grown, leaf);
    lemma_put(s1, leaf, linked, leaf);
    lemma_put(s1, leaf, linked, trunk);
    assert(grown.leaves[above.leaves.len() as int] == leaf);
    assert(linked.trunks[below.trunks.len() as int] == trunk);
}

/// Adding an edge takes no leaf and no trunk away from any node.
pub proof fn lemma_with_edge_keeps(
    s: SchemaModel,
    trunk: Seq<char>,
    leaf: Seq<char>,
    node: Seq<char>,
    name: Seq<char>,
)
    ensures
        leaves_of(s, node).contains(name) ==> leaves_of(with_edge(s, trunk, leaf), node).contains(
            name,
        ),
        trunks_of(s, node).contains(name) ==> trunks_of(with_edge(s, trunk, leaf), node).contains(
            name,
        ),
{
    let above = branch_of(s, trunk);
    let grown = BranchModel { trunks: above.trunks, leaves: above.leaves.push(leaf) };
    let s1 = put(s, trunk, grown);
    let below = branch_of(s1, leaf);
    let linked = BranchModel { trunks: below.trunks.push(trunk), leaves: below.leaves };
    lemma_put(s, trunk, grown, node);
    lemma_put(s1, leaf, linked, node);
    if leaves_of(s, node).contains(name) {
        let k = choose|k: int| 0 <= k < leaves_of(s, node).len() && leaves_of(s, node)[k] == name;
        assert(leaves_of(s1, node)[k] == name);
        assert(leaves_of(with_edge(s, trunk, leaf), node)[k] == name);
    }
    if trunks_of(s, node).contains(name) {
        let k = choose|k: int| 0 <= k < trunks_of(s, node).len() && trunks_of(s, node)[k] == name;
        assert(trunks_of(s1, node)[k] == name);
        assert(trunks_of(with_edge(s, trunk, leaf), node)[k] == name);
    }
}

/// Adding the edges of a list takes nothing away.
pub proof fn lemma_with_edges_keeps(
    s: SchemaModel,
    trunk: Seq<char>,
    items: Seq<EntryModel>,
    node: Seq<char>,
    name: Seq<char>,
)
    ensures
        leaves_of(s, node).contains(name) ==> leaves_of(with_edges(s, trunk, items), node).contains(
            name,
        ),
        trunks_of(s, node).contains(name) ==> trunks_of(with_edges(s, trunk, items), node).contains(
            name,
        ),
    decreases items.len(),
{
    if items.len() > 0 {
        lemma_with_edges_keeps(s, trunk, items.drop_last(), node, name);
        if let Some(leaf) = items.last().base_value {
            lemma_with_edge_keeps(with_edges(s, trunk, items.drop_last()), trunk, leaf, node, name);
        }
    }
}

/// Adding the edges of more lists takes nothing away.
pub proof fn lemma_with_all_edges_keeps(
    s: SchemaModel,
    lists: Seq<(Seq<char>, Seq<EntryModel>)>,
    node: Seq<char>,
    name: Seq<char>,
)
    ensures
        leaves_of(s, node).contains(name) ==> leaves_of(with_all_edges(s, lists), node).contains(
            name,
        ),
        trunks_of(s, node).contains(name) ==> trunks_of(with_all_edges(s, lists), node).contains(
            name,
        ),
    decreases lists.len(),
{
    if lists.len() > 0 {
        lemma_with_all_edges_keeps(s, lists.drop_last(), node, name);
        lemma_with_edges_keeps(
            with_all_edges(s, lists.drop_last()),
            lists.last().0,
            lists.last().1,
            node,
            name,
        );
    }
}

/// Each value of a list of edges is an edge after the list was added.
pub proof fn lemma_with_edges_adds(s: SchemaModel, trunk: Seq<char>, items: Seq<EntryModel>, j: int)
    requires
        0 <= j < items.len(),
        items[j].base_value is Some,
    ensures
        leaves_of(with_edges(s, trunk, items), trunk).contains(items[j].base_value->0),
        trunks_of(with_edges(s, trunk, items), items[j].base_value->0).contains(trunk),
    decreases items.len(),
{
    let leaf = items[j].base_value->0;
    let t = with_edges(s, trunk, items.drop_last());
    if j == items.len() - 1 {
        lemma_with_edge_adds(t, trunk, leaf);
    } else {
        lemma_with_edges_adds(s, trunk, items.drop_last(), j);
        if let Some(last) = items.last().base_value {
            lemma_with_edge_keeps(t, trunk, last, trunk, leaf);
            lemma_with_edge_keeps(t, trunk, last, leaf, trunk);
        }
    }
}

/// Schema inference keeps every edge of the record: where the list named
/// `trunk` holds the value `leaf`, the schema lists `leaf` among the leaves
/// of `trunk` and `trunk` among the trunks of `leaf`.
pub proof fn lemma_inferred_holds_edges(e: EntryModel, i: int, j: int)
    requires
        0 <= i < e.leaves.len(),
        0 <= j < e.leaves[i].1.len(),
        e.leaves[i].1[j].base_value is Some,
    ensures
        leaves_of(inferred(e), e.leaves[i].0).contains(e.leaves[i].1[j].base_value->0),
        trunks_of(inferred(e), e.leaves[i].1[j].base_value->0).contains(e.leaves[i].0),
{
    lemma_all_edges_hold(Seq::empty(), e.leaves, i, j);
}

/// Each value of each list is an edge after all lists were added.
proof fn lemma_all_edges_hold(
    s: SchemaModel,
    lists: Seq<(Seq<char>, Seq<EntryModel>)>,
    i: int,
    j: int,
)
    requires
        0 <= i < lists.len(),
        0 <= j < lists[i].1.len(),
        lists[i].1[j].base_value is Some,
    ensures
        leaves_of(with_all_edges(s, lists), lists[i].0).contains(lists[i].1[j].base_value->0),
        trunks_of(with_all_edges(s, lists), lists[i].1[j].base_value->0).contains(lists[i].0),
    decreases lists.len(),
{
    let trunk = lists[i].0;
    let leaf = lists[i].1[j].base_value->0;
    let t = with_all_edges(s, lists.drop_last());
    if i == lists.len() - 1 {
        lemma_with_edges_adds(t, trunk, lists[i].1, j);
    } else {
        lemma_all_edges_hold(s, lists.drop_last(), i, j);
        lemma_with_edges_keeps(t, lists.last().0, lists.last().1, trunk, leaf);
        lemma_with_edges_keeps(t, lists.last().0, lists.last().1, leaf, trunk);
    }
}

/// What the schema lists after an edge was added: what it listed before,
/// and the edge.
pub proof fn lemma_with_edge_lists(
    s: SchemaModel,
    trunk: Seq<char>,
    leaf: Seq<char>,
    node: Seq<char>,
    name: Seq<char>,
)
    ensures
        leaves_of(with_edge(s, trunk, leaf), node).contains(name) <==> leaves_of(s, node).contains(
            name,
        ) || (node == trunk && name == leaf),
        trunks_of(with_edge(s, trunk, leaf), node).contains(name) <==> trunks_of(s, node).contains(
            name,
        ) || (node == leaf && name == trunk),
{
    let above = branch_of(s, trunk);
    let grown = BranchModel { trunks: above.trunks, leaves: above.leaves.push(leaf) };
    let s1 = put(s, trunk, grown);
    let below = branch_of(s1, leaf);
    let linked = BranchModel { trunks: below.trunks.push(trunk), leaves: below.leaves };
    lemma_put(s, trunk, grown, node);
    lemma_put(s, trunk, grown, leaf);
    lemma_put(s1, leaf, linked, node);
    lemma_push_contains(above.leaves, leaf, name);
    lemma_push_contains(below.trunks, trunk, name);
}

/// Adding an edge keeps trunks and leaves mutual and the names different.
pub proof fn lemma_with_edge_sound(s: SchemaModel, trunk: Seq<char>, leaf: Seq<char>)
    requires
        mutual(s),
        keys_distinct(s),
    ensures
        mutual(with_edge(s, trunk, leaf)),
        keys_distinct(with_edge(s, trunk, leaf)),
{
    let t = with_edge(s, trunk, leaf);
    assert forall|above: Seq<char>, below: Seq<char>|
        #![trigger trunks_of(t, below).contains(above)]
        #![trigger leaves_of(t, above).contains(below)]
        trunks_of(t, below).contains(above) <==> leaves_of(t, above).contains(below) by {
        lemma_with_edge_lists(s, trunk, leaf, below, above);
        lemma_with_edge_lists(s, trunk, leaf, above, below);
        assert(trunks_of(s, below).contains(above) <==> leaves_of(s, above).contains(below));
    }
    let above = branch_of(s, trunk);
    let grown = BranchModel { trunks: above.trunks, leaves: above.leaves.push(leaf) };
    let s1 = put(s, trunk, grown);
    let below = branch_of(s1, leaf);
    let linked = BranchModel { trunks: below.trunks.push(trunk), leaves: below.leaves };
    lemma_put_distinct(s, trunk, grown);
    lemma_put_distinct(s1, leaf, linked);
}

/// Adding the edges of a list keeps trunks and leaves mutual and the names
/// different.
pub proof fn lemma_with_edges_sound(s: SchemaModel, trunk: Seq<char>, items: Seq<EntryModel>)
    requires
        mutual(s),
        keys_distinct(s),
    ensures
        mutual(with_edges(s, trunk, items)),
        keys_distinct(with_edges(s, trunk, items)),
    decreases items.len(),
{
    if items.len() > 0 {
        lemma_with_edges_sound(s, trunk, items.drop_last());
        if let Some(leaf) = items.last().base_value {
            lemma_with_edge_sound(with_edges(s, trunk, items.drop_last()), trunk, leaf);
        }
    }
}

/// Adding the edges of all lists keeps trunks and leaves mutual and the
/// names different.
pub proof fn lemma_with_all_edges_sound(s: SchemaModel, lists: Seq<(Seq<char>, Seq<EntryModel>)>)
    requires
        mutual(s),
        keys_distinct(s),
    ensures
        mutual(with_all_edges(s, lists)),
        keys_distinct(with_all_edges(s, lists)),
    decreases lists.len(),
{
    if lists.len() > 0 {
        lemma_with_all_edges_sound(s, lists.drop_last());
        lemma_with_edges_sound(
            with_all_edges(s, lists.drop_last()),
            lists.last().0,
            lists.last().1,
        );
    }
}

/// In a schema read off a record no name stands twice, and a node lists
/// another as its trunk exactly where that one lists it as its leaf.
pub proof fn lemma_inferred_sound(e: EntryModel)
    ensures
        keys_distinct(inferred(e)),
        mutual(inferred(e)),
{
    let empty = Seq::<(Seq<char>, BranchModel)>::empty();
    assert forall|above: Seq<char>, below: Seq<char>|
        #![trigger trunks_of(empty, below).contains(above)]
        #![trigger leaves_of(empty, above).contains(below)]
        trunks_of(empty, below).contains(above) <==> leaves_of(empty, above).contains(below) by {
        assert(trunks_of(empty, below) =~= Seq::<Seq<char>>::empty());
        assert(leaves_of(empty, above) =~= Seq::<Seq<char>>::empty());
    }
    lemma_with_all_edges_sound(empty, e.leaves);
}

} // verus!
