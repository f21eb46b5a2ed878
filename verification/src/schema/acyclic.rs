//! Nesting levels on a schema without cycles.
use vstd::prelude::*;
use crate::assoc::{lemma_position, position};
use crate::schema::get_nesting_level::{
    greatest_level,
    lemma_greatest_bound,
    lemma_level_bound,
    level_within,
    nesting_level,
};
use crate::schema::is_connected::is_trunk_chain;
use crate::schema::{names_of, trunks_of, SchemaModel};

verus! {

/// No chain of trunks leads from a node back to itself.
pub open spec fn acyclic(s: SchemaModel) -> bool {
    forall|chain: Seq<Seq<char>>|
        #![trigger is_trunk_chain(s, chain)]
        is_trunk_chain(s, chain) && chain.len() > 1 ==> chain.first() != chain.last()
}

/// With more steps allowed no level gets lower.
proof fn lemma_level_grows(s: SchemaModel, name: Seq<char>, depth: nat)
    ensures
        level_within(s, name, depth) <= level_within(s, name, depth + 1),
    decreases depth, 0nat,
{
    if depth > 0 && trunks_of(s, name).len() > 0 {
        lemma_greatest_grows(s, trunks_of(s, name), (depth - 1) as nat);
    }
}

/// With more steps allowed no greatest level gets lower.
proof fn lemma_greatest_grows(s: SchemaModel, names: Seq<Seq<char>>, depth: nat)
    ensures
        greatest_level(s, names, depth) <= greatest_level(s, names, depth + 1),
    decreases depth, 1 + names.len(),
{
    if names.len() > 0 {
        lemma_greatest_grows(s, names.drop_last(), depth);
        lemma_level_grows(s, names.last(), depth);
    }
}

/// A level that does not use up the steps allowed stays with one step more.
proof fn lemma_level_settles(s: SchemaModel, name: Seq<char>, depth: nat)
    requires
        level_within(s, name, depth) < depth,
    ensures
        level_within(s, name, depth + 1) == level_within(s, name, depth),
    decreases depth, 0nat,
{
    if trunks_of(s, name).len() > 0 {
        lemma_greatest_settles(s, trunks_of(s, name), (depth - 1) as nat);
    }
}

/// A greatest level that does not use up the steps allowed stays with one
/// step more.
proof fn lemma_greatest_settles(s: SchemaModel, names: Seq<Seq<char>>, depth: nat)
    requires
        greatest_level(s, names, depth) < depth,
    ensures
        greatest_level(s, names, depth + 1) == greatest_level(s, names, depth),
    decreases depth, 1 + names.len(),
{
    if names.len() > 0 {
        lemma_greatest_settles(s, names.drop_last(), depth);
        lemma_level_settles(s, names.last(), depth);
    }
}

/// The greatest level of a list is the level of one of its names.
proof fn lemma_greatest_is_one(s: SchemaModel, names: Seq<Seq<char>>, depth: nat) -> (k: int)
    requires
        names.len() > 0,
    ensures
        0 <= k < names.len(),
        level_within(s, names[k], depth) == greatest_level(s, names, depth),
    decreases names.len(),
{
    let rest = greatest_level(s, names.drop_last(), depth);
    let last = level_within(s, names.last(), depth);
    if names.len() == 1 || rest < last {
        assert(greatest_level(s, names.drop_last(), depth) >= 0);
        if names.len() == 1 {
            assert(names.drop_last() =~= Seq::<Seq<char>>::empty());
        }
        names.len() - 1
    } else {
        let k = lemma_greatest_is_one(s, names.drop_last(), depth);
        assert(names.drop_last()[k] == names[k]);
        k
    }
}

/// A level that uses up all the steps allowed has a chain of trunks of that
/// many steps behind it, each node of which but the last has trunks.
proof fn lemma_level_has_chain(s: SchemaModel, name: Seq<char>, depth: nat) -> (chain: Seq<Seq<char>>)
    requires
        level_within(s, name, depth) == depth,
    ensures
        is_trunk_chain(s, chain),
        chain.len() == depth + 1,
        chain.first() == name,
        forall|i: int| 0 <= i < depth ==> trunks_of(s, #[trigger] chain[i]).len() > 0,
    decreases depth,
{
    if depth == 0 {
        seq![name]
    } else {
        let trunks = trunks_of(s, name);
        let below = (depth - 1) as nat;
        lemma_greatest_bound(s, trunks, below);
        let k = lemma_greatest_is_one(s, trunks, below);
        let rest = lemma_level_has_chain(s, trunks[k], below);
        let chain = seq![name] + rest;
        assert forall|i: int| 0 <= i < chain.len() - 1 implies trunks_of(
            s,
            #[trigger] chain[i],
        ).contains(chain[i + 1]) by {
            if i == 0 {
                assert(chain[1] == rest[0]);
            } else {
                assert(chain[i] == rest[i - 1] && chain[i + 1] == rest[i]);
            }
        }
        assert forall|i: int| 0 <= i < depth implies trunks_of(s, #[trigger] chain[i]).len()
            > 0 by {
            if i > 0 {
                assert(chain[i] == rest[i - 1]);
            }
        }
        chain
    }
}

/// A part of a chain of trunks is a chain of trunks.
proof fn lemma_chain_part(s: SchemaModel, chain: Seq<Seq<char>>, from: int, to: int)
    requires
        is_trunk_chain(s, chain),
        0 <= from <= to < chain.len(),
    ensures
        is_trunk_chain(s, chain.subrange(from, to + 1)),
{
    let part = chain.subrange(from, to + 1);
    assert forall|i: int| 0 <= i < part.len() - 1 implies trunks_of(s, #[trigger] part[i]).contains(
        part[i + 1],
    ) by {
        assert(part[i] == chain[from + i] && part[i + 1] == chain[from + i + 1]);
    }
}

/// On a schema without cycles no level uses up more steps than the schema
/// has nodes.
proof fn lemma_level_below_size(s: SchemaModel, name: Seq<char>)
    requires
        acyclic(s),
    ensures
        level_within(s, name, s.len() + 1) <= s.len(),
{
    let depth = s.len() + 1;
    lemma_level_bound(s, name, depth);
    if level_within(s, name, depth) == depth {
        let chain = lemma_level_has_chain(s, name, depth);
        let nodes = chain.take(depth as int);
        let names = names_of(s).to_set();
        vstd::seq_lib::seq_to_set_is_finite(names_of(s));
        names_of(s).lemma_cardinality_of_set();
        assert forall|i: int| 0 <= i < nodes.len() implies names.contains(#[trigger] nodes[i]) by {
            assert(nodes[i] == chain[i]);
            assert(trunks_of(s, chain[i]).len() > 0);
            lemma_position(s, chain[i]);
            let p = position(s, chain[i]);
            assert(names_of(s)[p] == chain[i]);
        }
        if nodes.no_duplicates() {
            nodes.unique_seq_to_set();
            assert(nodes.to_set().subset_of(names)) by {
                assert forall|x: Seq<char>| nodes.to_set().contains(x) implies names.contains(x) by {
                    let i = choose|i: int| 0 <= i < nodes.len() && nodes[i] == x;
                    assert(names.contains(nodes[i]));
                }
            }
            vstd::set_lib::lemma_len_subset(nodes.to_set(), names);
        } else {
            let (i, j) = choose|i: int, j: int|
                0 <= i < nodes.len() && 0 <= j < nodes.len() && i != j && nodes[i] == nodes[j];
            let (a, b) = if i < j {
                (i, j)
            } else {
                (j, i)
            };
            lemma_chain_part(s, chain, a, b);
            let part = chain.subrange(a, b + 1);
            assert(part.first() == chain[a] && part.last() == chain[b]);
            assert(nodes[a] == chain[a] && nodes[b] == chain[b]);
        }
    }
}

/// On a schema without cycles the nesting level is what following the
/// trunks to their end gives: 0 for a node without trunks, otherwise one
/// more than the greatest nesting level among its trunks. Allowing more
/// steps changes nothing.
pub proof fn lemma_nesting_level(s: SchemaModel, name: Seq<char>)
    requires
        acyclic(s),
    ensures
        nesting_level(s, name) == level_within(s, name, s.len() + 1),
        nesting_level(s, name) == if trunks_of(s, name).len() == 0 {
            0
        } else {
            1 + greatest_level(s, trunks_of(s, name), s.len())
        },
{
    lemma_level_below_size(s, name);
    lemma_level_grows(s, name, s.len());
    lemma_level_bound(s, name, s.len());
    if level_within(s, name, s.len()) < s.len() {
        lemma_level_settles(s, name, s.len());
    }
}

/// On a schema without cycles the greatest level of a list of names is the
/// greatest of their nesting levels.
pub proof fn lemma_greatest_nesting_level(s: SchemaModel, names: Seq<Seq<char>>, k: int)
    requires
        acyclic(s),
        0 <= k < names.len(),
    ensures
        nesting_level(s, names[k]) <= greatest_level(s, names, s.len()),
        exists|m: int|
            0 <= m < names.len() && nesting_level(s, #[trigger] names[m]) == greatest_level(
                s,
                names,
                s.len(),
            ),
    decreases names.len(),
{
    let m = lemma_greatest_is_one(s, names, s.len());
    assert(nesting_level(s, names[m]) == greatest_level(s, names, s.len()));
    if k < names.len() - 1 {
        lemma_greatest_nesting_level(s, names.drop_last(), k);
        assert(names.drop_last()[k] == names[k]);
    }
}

} // verus!
