//! Whether one node lies above another.
use vstd::prelude::*;
use crate::assoc::find;
use crate::lists::lemma_short;
use crate::schema::{leaves_of, trunks_of, Schema, SchemaModel};
use crate::text::{contains_text, same_text};

verus! {

/// A chain of nodes in which each one but the last has the next one among its
/// trunks.
pub open spec fn is_trunk_chain(s: SchemaModel, chain: Seq<Seq<char>>) -> bool {
    &&& chain.len() > 0
    &&& forall|i: int|
        0 <= i < chain.len() - 1 ==> trunks_of(s, #[trigger] chain[i]).contains(chain[i + 1])
}

/// Whether `branch` is `base` or lies below it: a chain of trunks leads from
/// `branch` up to `base`.
pub open spec fn connected(s: SchemaModel, base: Seq<char>, branch: Seq<char>) -> bool {
    exists|chain: Seq<Seq<char>>|
        #![trigger is_trunk_chain(s, chain)]
        is_trunk_chain(s, chain) && chain.first() == branch && chain.last() == base
}

/// A node is connected to itself.
pub proof fn lemma_connected_reflexive(s: SchemaModel, node: Seq<char>)
    ensures
        connected(s, node, node),
{
    let chain = seq![node];
    assert(is_trunk_chain(s, chain));
    assert(chain.first() == node && chain.last() == node);
}

/// What lies below a node lies below everything above that node.
pub proof fn lemma_connected_transitive(
    s: SchemaModel,
    top: Seq<char>,
    middle: Seq<char>,
    bottom: Seq<char>,
)
    requires
        connected(s, top, middle),
        connected(s, middle, bottom),
    ensures
        connected(s, top, bottom),
{
    let lower = choose|chain: Seq<Seq<char>>|
        #![trigger is_trunk_chain(s, chain)]
        is_trunk_chain(s, chain) && chain.first() == bottom && chain.last() == middle;
    let upper = choose|chain: Seq<Seq<char>>|
        #![trigger is_trunk_chain(s, chain)]
        is_trunk_chain(s, chain) && chain.first() == middle && chain.last() == top;
    let chain = lower + upper.drop_first();
    assert forall|i: int| 0 <= i < chain.len() - 1 implies trunks_of(
        s,
        #[trigger] chain[i],
    ).contains(chain[i + 1]) by {
        if i < lower.len() - 1 {
            assert(chain[i] == lower[i] && chain[i + 1] == lower[i + 1]);
        } else if i == lower.len() - 1 {
            assert(chain[i] == upper[0]);
            assert(chain[i + 1] == upper[1]);
        } else {
            let k = i - lower.len() + 1;
            assert(chain[i] == upper[k] && chain[i + 1] == upper[k + 1]);
        }
    }
    assert(is_trunk_chain(s, chain));
    assert(chain.first() == bottom);
    assert(chain.last() == top) by {
        if upper.len() == 1 {
            assert(chain =~= lower);
        }
    }
}

/// A trunk of a connected node is connected too.
pub proof fn lemma_connected_step(s: SchemaModel, from: Seq<char>, node: Seq<char>, trunk: Seq<char>)
    requires
        connected(s, node, from),
        trunks_of(s, node).contains(trunk),
    ensures
        connected(s, trunk, from),
{
    let pair = seq![node, trunk];
    assert(is_trunk_chain(s, pair));
    assert(pair.first() == node && pair.last() == trunk);
    lemma_connected_transitive(s, trunk, node, from);
}

/// A chain of nodes in which each one but the last has the next one among its
/// leaves.
pub open spec fn is_leaf_chain(s: SchemaModel, chain: Seq<Seq<char>>) -> bool {
    &&& chain.len() > 0
    &&& forall|i: int|
        0 <= i < chain.len() - 1 ==> leaves_of(s, #[trigger] chain[i]).contains(chain[i + 1])
}

/// Each node that is listed as a trunk lists the node among its leaves, and
/// the other way round.
pub open spec fn mutual(s: SchemaModel) -> bool {
    forall|above: Seq<char>, below: Seq<char>|
        #![trigger trunks_of(s, below).contains(above)]
        #![trigger leaves_of(s, above).contains(below)]
        trunks_of(s, below).contains(above) <==> leaves_of(s, above).contains(below)
}

/// Where trunks and leaves are mutual, a chain of trunks read backwards is
/// a chain of leaves, and the other way round.
pub proof fn lemma_chain_backwards(s: SchemaModel, chain: Seq<Seq<char>>)
    requires
        mutual(s),
    ensures
        is_trunk_chain(s, chain) <==> is_leaf_chain(s, chain.reverse()),
{
    let back = chain.reverse();
    let n = chain.len();
    if is_trunk_chain(s, chain) {
        assert forall|i: int| 0 <= i < back.len() - 1 implies leaves_of(s, #[trigger] back[i]).contains(
            back[i + 1],
        ) by {
            let k = n - 2 - i;
            assert(back[i] == chain[k + 1] && back[i + 1] == chain[k]);
            assert(trunks_of(s, chain[k]).contains(chain[k + 1]));
        }
    }
    if is_leaf_chain(s, back) {
        assert forall|i: int| 0 <= i < chain.len() - 1 implies trunks_of(
            s,
            #[trigger] chain[i],
        ).contains(chain[i + 1]) by {
            let k = n - 2 - i;
            assert(back[k] == chain[i + 1] && back[k + 1] == chain[i]);
            assert(leaves_of(s, back[k]).contains(back[k + 1]));
        }
    }
}

/// Where trunks and leaves are mutual, the nodes connected to `base` are
/// the nodes that a chain of leaves leads down to from `base`.
pub proof fn lemma_connected_by_leaves(s: SchemaModel, base: Seq<char>, branch: Seq<char>)
    requires
        mutual(s),
    ensures
        connected(s, base, branch) <==> exists|chain: Seq<Seq<char>>|
            #![trigger is_leaf_chain(s, chain)]
            is_leaf_chain(s, chain) && chain.first() == base && chain.last() == branch,
{
    if connected(s, base, branch) {
        let up = choose|chain: Seq<Seq<char>>|
            #![trigger is_trunk_chain(s, chain)]
            is_trunk_chain(s, chain) && chain.first() == branch && chain.last() == base;
        lemma_chain_backwards(s, up);
        let down = up.reverse();
        assert(is_leaf_chain(s, down));
        assert(down.first() == base && down.last() == branch);
    }
    if exists|chain: Seq<Seq<char>>|
        #![trigger is_leaf_chain(s, chain)]
        is_leaf_chain(s, chain) && chain.first() == base && chain.last() == branch {
        let down = choose|chain: Seq<Seq<char>>|
            #![trigger is_leaf_chain(s, chain)]
            is_leaf_chain(s, chain) && chain.first() == base && chain.last() == branch;
        let up = down.reverse();
        assert(up.reverse() =~= down);
        lemma_chain_backwards(s, up);
        assert(is_trunk_chain(s, up));
        assert(up.first() == branch && up.last() == base);
    }
}

/// A set of names that holds `from` and, with each name, its trunks, holds
/// every node that `from` is connected to.
proof fn lemma_closed_holds_chain(s: SchemaModel, seen: Seq<Seq<char>>, chain: Seq<Seq<char>>, k: int)
    requires
        is_trunk_chain(s, chain),
        seen.contains(chain.first()),
        forall|n: Seq<char>, t: Seq<char>|
            #![trigger seen.contains(n), trunks_of(s, n).contains(t)]
            seen.contains(n) && trunks_of(s, n).contains(t) ==> seen.contains(t),
        0 <= k < chain.len(),
    ensures
        seen.contains(chain[k]),
    decreases k,
{
    if k > 0 {
        lemma_closed_holds_chain(s, seen, chain, k - 1);
        assert(trunks_of(s, chain[k - 1]).contains(chain[k]));
    }
}

/// All names that stand in some list of trunks, list after list.
pub open spec fn all_trunks(s: SchemaModel) -> Seq<Seq<char>>
    decreases s.len(),
{
    if s.len() == 0 {
        Seq::empty()
    } else {
        all_trunks(s.drop_last()) + s.last().1.trunks
    }
}

/// A trunk of a node stands in `all_trunks`.
proof fn lemma_all_trunks(s: SchemaModel, p: int, t: Seq<char>)
    requires
        0 <= p < s.len(),
        s[p].1.trunks.contains(t),
    ensures
        all_trunks(s).contains(t),
    decreases s.len(),
{
    if p == s.len() - 1 {
        let j = choose|j: int| 0 <= j < s[p].1.trunks.len() && s[p].1.trunks[j] == t;
        assert(all_trunks(s)[all_trunks(s.drop_last()).len() + j] == t);
    } else {
        lemma_all_trunks(s.drop_last(), p, t);
        let j = choose|j: int|
            0 <= j < all_trunks(s.drop_last()).len() && all_trunks(s.drop_last())[j] == t;
        assert(all_trunks(s)[j] == t);
    }
}

/// Whether `branch` is `base` or lies below it: see [`connected`]. Each node
/// above `branch` is looked at once, so a schema with a cycle is no trouble.
pub fn is_connected(schema: &Schema, base: &str, branch: &str) -> (r: bool)
    ensures
        r == connected(schema@, base@, branch@),
{
    if same_text(branch, base) {
        proof {
            lemma_connected_reflexive(schema@, base@);
        }
        return true;
    }
    let ghost s = schema@;
    let ghost universe = all_trunks(s).to_set().insert(branch@);
    let mut seen: Vec<String> = Vec::new();
    seen.push(branch.to_owned());
    proof {
        lemma_connected_reflexive(s, branch@);
        assert(seen.deep_view() =~= seq![branch@]);
        vstd::seq_lib::seq_to_set_is_finite(all_trunks(s));
    }
    let mut i: usize = 0;
    while i < seen.len()
        invariant
            s == schema@,
            universe == all_trunks(s).to_set().insert(branch@),
            universe.finite(),
            i <= seen.len(),
            seen.len() > 0,
            seen.deep_view()[0] == branch@,
            seen.deep_view().no_duplicates(),
            forall|k: int| 0 <= k < seen.len() ==> universe.contains(#[trigger] seen.deep_view()[k]),
            forall|k: int| 0 <= k < seen.len() ==> connected(s, #[trigger] seen.deep_view()[k], branch@),
            forall|k: int| 0 <= k < seen.len() ==> (#[trigger] seen.deep_view()[k]) != base@,
            forall|k: int, t: Seq<char>|
                #![trigger seen.deep_view()[k], trunks_of(s, seen.deep_view()[k]).contains(t)]
                0 <= k < i && trunks_of(s, seen.deep_view()[k]).contains(t) ==> seen.deep_view().contains(t),
        decreases universe.len() - i,
    {
        proof {
            lemma_short(seen.deep_view(), universe);
        }
        let ghost node = seen.deep_view()[i as int];
        match find(&schema.0, seen[i].as_str()) {
            None => {
                assert(trunks_of(s, node) =~= Seq::empty());
            },
            Some(p) => {
                let trunks = &schema.0[p].1.trunks.0;
                assert(trunks.deep_view() == trunks_of(s, node));
                let mut j: usize = 0;
                while j < trunks.len()
                    invariant
                        s == schema@,
                        universe == all_trunks(s).to_set().insert(branch@),
                        p < schema.0.len(),
                        trunks == &schema.0@[p as int].1.trunks.0,
                        trunks.deep_view() == trunks_of(s, node),
                        i < seen.len(),
                        node == seen.deep_view()[i as int],
                        j <= trunks.len(),
                        seen.deep_view()[0] == branch@,
                        seen.deep_view().no_duplicates(),
                        forall|k: int|
                            0 <= k < seen.len() ==> universe.contains(#[trigger] seen.deep_view()[k]),
                        forall|k: int|
                            0 <= k < seen.len() ==> connected(
                                s,
                                #[trigger] seen.deep_view()[k],
                                branch@,
                            ),
                        forall|k: int| 0 <= k < seen.len() ==> (#[trigger] seen.deep_view()[k]) != base@,
                        forall|k: int, t: Seq<char>|
                            #![trigger seen.deep_view()[k], trunks_of(s, seen.deep_view()[k]).contains(t)]
                            0 <= k < i && trunks_of(s, seen.deep_view()[k]).contains(t)
                                ==> seen.deep_view().contains(t),
                        forall|m: int|
                            0 <= m < j ==> seen.deep_view().contains(#[trigger] trunks.deep_view()[m]),
                    decreases trunks.len() - j,
                {
                    let trunk = &trunks[j];
                    proof {
                        assert(trunks.deep_view()[j as int] == trunk@);
                        assert(trunks_of(s, node).contains(trunk@));
                        lemma_connected_step(s, branch@, node, trunk@);
                    }
                    if same_text(trunk.as_str(), base) {
                        return true;
                    }
                    if !contains_text(&seen, trunk.as_str()) {
                        let ghost before = seen.deep_view();
                        seen.push(trunk.clone());
                        proof {
                            assert(seen.deep_view() =~= before.push(trunk@));
                            assert(s[p as int].1.trunks == trunks.deep_view());
                            lemma_all_trunks(s, p as int, trunk@);
                            assert(all_trunks(s).to_set().contains(trunk@));
                            assert forall|k: int, t: Seq<char>|
                                #![trigger seen.deep_view()[k], trunks_of(s, seen.deep_view()[k]).contains(t)]
                                0 <= k < i && trunks_of(s, seen.deep_view()[k]).contains(
                                    t,
                                ) implies seen.deep_view().contains(t) by {
                                assert(before[k] == seen.deep_view()[k]);
                                assert(before.contains(t));
                                let w = choose|w: int| 0 <= w < before.len() && before[w] == t;
                                assert(seen.deep_view()[w] == t);
                            }
                            assert forall|m: int| 0 <= m < j + 1 implies seen.deep_view().contains(
                                #[trigger] trunks.deep_view()[m],
                            ) by {
                                if m < j {
                                    assert(before.contains(trunks.deep_view()[m]));
                                    let w = choose|w: int|
                                        0 <= w < before.len() && before[w] == trunks.deep_view()[m];
                                    assert(seen.deep_view()[w] == trunks.deep_view()[m]);
                                } else {
                                    assert(seen.deep_view()[before.len() as int] == trunk@);
                                }
                            }
                        }
                    }
                    j += 1;
                }
                assert forall|t: Seq<char>| trunks_of(s, node).contains(t) implies seen.deep_view().contains(
                    t,
                ) by {
                    let m = choose|m: int| 0 <= m < trunks.deep_view().len() && trunks.deep_view()[m] == t;
                    assert(seen.deep_view().contains(trunks.deep_view()[m]));
                }
            },
        }
        i += 1;
    }
    proof {
        let seen_names = seen.deep_view();
        if connected(s, base@, branch@) {
            let chain = choose|chain: Seq<Seq<char>>|
                #![trigger is_trunk_chain(s, chain)]
                is_trunk_chain(s, chain) && chain.first() == branch@ && chain.last() == base@;
            assert(seen_names.contains(chain.first())) by {
                assert(seen_names[0] == branch@);
            }
            assert forall|n: Seq<char>, t: Seq<char>|
                #![trigger seen_names.contains(n), trunks_of(s, n).contains(t)]
                seen_names.contains(n) && trunks_of(s, n).contains(t) implies seen_names.contains(
                t,
            ) by {
                let k = choose|k: int| 0 <= k < seen_names.len() && seen_names[k] == n;
                assert(trunks_of(s, seen_names[k]).contains(t));
            }
            lemma_closed_holds_chain(s, seen_names, chain, chain.len() - 1);
            let k = choose|k: int| 0 <= k < seen_names.len() && seen_names[k] == base@;
            assert(seen_names[k] != base@);
        }
    }
    false
}

} // verus!
