//! Ordering names from the deepest nodes up.
use vstd::prelude::*;
use crate::order::in_order;
use crate::schema::sort_nesting_descending::{
    comes_before,
    descends_before,
    lemma_sorted_down,
    sort_nesting_descending,
    sorted_down,
};
use crate::schema::{Schema, SchemaModel};

verus! {

/// Whether `a` comes strictly before `b` on the way up to the roots: it has
/// the higher nesting level, or the same level and the name that sorts last.
pub open spec fn ascends_before(s: SchemaModel, a: Seq<char>, b: Seq<char>) -> bool {
    descends_before(s, b, a)
}

/// The order of the way up to the roots.
pub open spec fn way_up(s: SchemaModel) -> spec_fn(Seq<char>, Seq<char>) -> bool {
    |a: Seq<char>, b: Seq<char>| ascends_before(s, a, b)
}

/// No name of the list comes strictly before an earlier one on the way up.
pub open spec fn ascending(s: SchemaModel, names: Seq<Seq<char>>) -> bool {
    in_order(way_up(s), names)
}

/// The names in the order of the way up to the roots: the order of the way
/// down, read backwards.
pub open spec fn sorted_up(s: SchemaModel, names: Seq<Seq<char>>) -> Seq<Seq<char>> {
    sorted_down(s, names).reverse()
}

/// Sorting keeps the names, each as often as it was given, and leaves no name
/// before one that it should follow.
pub proof fn lemma_sorted_up(s: SchemaModel, names: Seq<Seq<char>>)
    ensures
        sorted_up(s, names).to_multiset() == names.to_multiset(),
        sorted_up(s, names).len() == names.len(),
        ascending(s, sorted_up(s, names)),
{
    lemma_sorted_down(s, names);
    sorted_down(s, names).lemma_reverse_to_multiset();
}

/// Whether `a` comes strictly before `b` on the way up to the roots: see
/// [`ascends_before`]. This is the comparison by which
/// [`sort_nesting_ascending`] sorts.
pub fn comes_first(schema: &Schema, a: &str, b: &str) -> (r: bool)
    ensures
        r == ascends_before(schema@, a@, b@),
{
    comes_before(schema, b, a)
}

/// The names in the order of the way up to the roots: by nesting level,
/// highest first, and within a level by name, last first. See [`sorted_up`].
pub fn sort_nesting_ascending(schema: &Schema, names: Vec<String>) -> (r: Vec<String>)
    ensures
        r.deep_view() == sorted_up(schema@, names.deep_view()),
        r.deep_view().to_multiset() == names.deep_view().to_multiset(),
        ascending(schema@, r.deep_view()),
{
    let mut down = sort_nesting_descending(schema, names);
    let ghost sorted = down.deep_view();
    let mut out: Vec<String> = Vec::new();
    assert(out.deep_view() =~= Seq::<Seq<char>>::empty());
    while down.len() > 0
        invariant
            out.len() + down.len() == sorted.len(),
            down.deep_view() == sorted.take(down.len() as int),
            forall|k: int|
                0 <= k < out.len() ==> (#[trigger] out.deep_view()[k]) == sorted[sorted.len() - 1 - k],
        decreases down.len(),
    {
        let ghost before = out.deep_view();
        let ghost rest = down.deep_view();
        let name = down.pop().unwrap();
        proof {
            assert(name@ == rest[rest.len() - 1]);
            assert(down.deep_view() =~= sorted.take(down.len() as int));
        }
        out.push(name);
        assert(out.deep_view() =~= before.push(name@));
    }
    proof {
        assert(out.deep_view() =~= sorted.reverse());
        lemma_sorted_up(schema@, names.deep_view());
    }
    out
}

} // verus!
