//! How far below the roots a node lies.
use vstd::prelude::*;
use crate::assoc::find;
use crate::schema::{trunks_of, Schema, SchemaModel};

verus! {

/// The nesting level of `name` when chains of trunks are followed for at most
/// `depth` steps: 0 for a node without trunks, otherwise one more than the
/// greatest level among its trunks.
pub open spec fn level_within(s: SchemaModel, name: Seq<char>, depth: nat) -> nat
    decreases depth, 0nat,
{
    if depth == 0 || trunks_of(s, name).len() == 0 {
        0
    } else {
        1 + greatest_level(s, trunks_of(s, name), (depth - 1) as nat)
    }
}

/// The greatest level among `names`, 0 where there are none.
pub open spec fn greatest_level(s: SchemaModel, names: Seq<Seq<char>>, depth: nat) -> nat
    decreases depth, 1 + names.len(),
{
    if names.len() == 0 {
        0
    } else {
        let rest = greatest_level(s, names.drop_last(), depth);
        let last = level_within(s, names.last(), depth);
        if rest >= last {
            rest
        } else {
            last
        }
    }
}

/// The nesting level of `name`: 0 for a root, otherwise one more than the
/// greatest level among its trunks. Chains are followed for as many steps as
/// the schema has nodes, which is as long as a chain without a cycle can be.
pub open spec fn nesting_level(s: SchemaModel, name: Seq<char>) -> nat {
    level_within(s, name, s.len())
}

/// No level is greater than the number of steps allowed.
pub proof fn lemma_level_bound(s: SchemaModel, name: Seq<char>, depth: nat)
    ensures
        level_within(s, name, depth) <= depth,
    decreases depth, 0nat,
{
    if depth > 0 && trunks_of(s, name).len() > 0 {
        lemma_greatest_bound(s, trunks_of(s, name), (depth - 1) as nat);
    }
}

/// No greatest level is greater than the number of steps allowed.
pub proof fn lemma_greatest_bound(s: SchemaModel, names: Seq<Seq<char>>, depth: nat)
    ensures
        greatest_level(s, names, depth) <= depth,
    decreases depth, 1 + names.len(),
{
    if names.len() > 0 {
        lemma_greatest_bound(s, names.drop_last(), depth);
        lemma_level_bound(s, names.last(), depth);
    }
}

/// The level of `name` within `depth` steps: see [`level_within`].
fn level(schema: &Schema, name: &str, depth: usize) -> (r: usize)
    ensures
        r == level_within(schema@, name@, depth as nat),
    decreases depth,
{
    if depth == 0 {
        return 0;
    }
    let p = match find(&schema.0, name) {
        Some(p) => p,
        None => {
            return 0;
        },
    };
    let trunks = &schema.0[p].1.trunks.0;
    if trunks.len() == 0 {
        return 0;
    }
    let ghost s = schema@;
    let ghost names = trunks.deep_view();
    let mut greatest: usize = 0;
    let mut i: usize = 0;
    assert(names.take(0) =~= Seq::<Seq<char>>::empty());
    while i < trunks.len()
        invariant
            s == schema@,
            names == trunks.deep_view(),
            depth > 0,
            i <= trunks.len(),
            greatest == greatest_level(s, names.take(i as int), (depth - 1) as nat),
        decreases trunks.len() - i,
    {
        proof {
            assert(names.take(i + 1).drop_last() =~= names.take(i as int));
            assert(names.take(i + 1).last() == trunks@[i as int]@);
        }
        let one = level(schema, trunks[i].as_str(), depth - 1);
        if one > greatest {
            greatest = one;
        }
        i += 1;
    }
    proof {
        assert(names.take(trunks.len() as int) =~= names);
        lemma_greatest_bound(s, names, (depth - 1) as nat);
    }
    greatest + 1
}

/// The nesting level of `branch`: see [`nesting_level`].
pub fn get_nesting_level(schema: &Schema, branch: &str) -> (r: usize)
    ensures
        r == nesting_level(schema@, branch@),
{
    level(schema, branch, schema.0.len())
}

} // verus!
