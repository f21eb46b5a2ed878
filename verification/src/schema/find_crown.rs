//! The nodes at and below a node.
use vstd::prelude::*;
use crate::assoc::keys_distinct;
use crate::lists::{lemma_filter_order, lemma_filter_within, origin};
use crate::schema::is_connected::{connected, is_connected, lemma_connected_reflexive};
use crate::schema::{names_of, Schema, SchemaModel};

verus! {

/// The crown of `base`: the names of the schema's nodes that are `base` or lie
/// below it, in the order of the schema.
pub open spec fn crown(s: SchemaModel, base: Seq<char>) -> Seq<Seq<char>> {
    names_of(s).filter(|name: Seq<char>| connected(s, base, name))
}

/// The crown holds the nodes of the schema that are connected to `base`, and
/// nothing else; it holds `base` itself where the schema has that node.
pub proof fn lemma_crown(s: SchemaModel, base: Seq<char>)
    ensures
        forall|name: Seq<char>|
            crown(s, base).contains(name) <==> names_of(s).contains(name) && connected(
                s,
                base,
                name,
            ),
        names_of(s).contains(base) ==> crown(s, base).contains(base),
{
    let pred = |name: Seq<char>| connected(s, base, name);
    let names = names_of(s);
    #[allow(deprecated)]
    names.filter_lemma(pred);
    lemma_connected_reflexive(s, base);
    assert forall|name: Seq<char>| crown(s, base).contains(name) implies names.contains(name)
        && connected(s, base, name) by {
        let i = choose|i: int| 0 <= i < crown(s, base).len() && crown(s, base)[i] == name;
        assert(pred(names.filter(pred)[i]));
        lemma_filter_within(names, pred, i);
    }
}

/// Where no name stands twice in the schema, none stands twice in a crown.
pub proof fn lemma_crown_distinct(s: SchemaModel, base: Seq<char>)
    requires
        keys_distinct(s),
    ensures
        crown(s, base).no_duplicates(),
{
    let pred = |name: Seq<char>| connected(s, base, name);
    let names = names_of(s);
    lemma_filter_order(names, pred);
    assert forall|i: int, j: int|
        0 <= i < crown(s, base).len() && 0 <= j < crown(s, base).len() && i != j implies crown(
        s,
        base,
    )[i] != crown(s, base)[j] by {
        let a = origin(names, pred, i);
        let b = origin(names, pred, j);
        if i < j {
            assert(a < b);
            assert(s[a].0 != s[b].0);
        } else {
            assert(b < a);
            assert(s[b].0 != s[a].0);
        }
    }
}

/// The crown of `base`: see [`crown`]. It holds the nodes of the schema that
/// are `base` or lie below it and no others, `base` itself where the schema
/// has that node, and no name twice where the schema has none twice.
pub fn find_crown(schema: &Schema, base: &str) -> (r: Vec<String>)
    ensures
        r.deep_view() == crown(schema@, base@),
        forall|name: Seq<char>|
            r.deep_view().contains(name) <==> names_of(schema@).contains(name) && connected(
                schema@,
                base@,
                name,
            ),
        names_of(schema@).contains(base@) ==> r.deep_view().contains(base@),
        keys_distinct(schema@) ==> r.deep_view().no_duplicates(),
{
    let ghost s = schema@;
    let ghost pred = |name: Seq<char>| connected(s, base@, name);
    let mut out: Vec<String> = Vec::new();
    let mut i: usize = 0;
    proof {
        reveal(Seq::filter);
        assert(names_of(s).take(0) =~= Seq::<Seq<char>>::empty());
        assert(out.deep_view() =~= Seq::<Seq<char>>::empty());
    }
    while i < schema.0.len()
        invariant
            s == schema@,
            pred == |name: Seq<char>| connected(s, base@, name),
            i <= schema.0.len(),
            out.deep_view() == names_of(s).take(i as int).filter(pred),
        decreases schema.0.len() - i,
    {
        let name = &schema.0[i].0;
        proof {
            reveal(Seq::filter);
            assert(names_of(s).take(i + 1).drop_last() =~= names_of(s).take(i as int));
            assert(names_of(s).take(i + 1).last() == name@);
        }
        if is_connected(schema, base, name.as_str()) {
            let ghost before = out.deep_view();
            out.push(name.clone());
            assert(out.deep_view() =~= before.push(name@));
        }
        i += 1;
    }
    proof {
        assert(names_of(s).take(schema.0.len() as int) =~= names_of(s));
        lemma_crown(s, base@);
        if keys_distinct(s) {
            lemma_crown_distinct(s, base@);
        }
    }
    out
}

} // verus!
