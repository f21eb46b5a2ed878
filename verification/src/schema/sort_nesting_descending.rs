//! Ordering names from the roots down.
use vstd::prelude::*;
use crate::order::{in_order, lemma_place_is, lemma_sorted, sorted, strict_order};
use crate::schema::get_nesting_level::{get_nesting_level, nesting_level};
use crate::schema::{Schema, SchemaModel};
use crate::text::{lemma_text_lt_asymmetric, lemma_text_lt_transitive, text_less, text_lt};

verus! {

/// Whether `a` comes strictly before `b` on the way down from the roots: it
/// has the lower nesting level, or the same level and the name that sorts
/// first.
pub open spec fn descends_before(s: SchemaModel, a: Seq<char>, b: Seq<char>) -> bool {
    nesting_level(s, a) < nesting_level(s, b) || (nesting_level(s, a) == nesting_level(s, b)
        && text_lt(a, b))
}

/// The order of the way down from the roots.
pub open spec fn way_down(s: SchemaModel) -> spec_fn(Seq<char>, Seq<char>) -> bool {
    |a: Seq<char>, b: Seq<char>| descends_before(s, a, b)
}

/// No name of the list comes strictly before an earlier one on the way down.
pub open spec fn descending(s: SchemaModel, names: Seq<Seq<char>>) -> bool {
    in_order(way_down(s), names)
}

/// The names in the order of the way down from the roots: by nesting level,
/// lowest first, and within a level by name.
pub open spec fn sorted_down(s: SchemaModel, names: Seq<Seq<char>>) -> Seq<Seq<char>> {
    sorted(way_down(s), names)
}

/// The order of the way down is a strict order.
pub proof fn lemma_way_down_strict(s: SchemaModel)
    ensures
        strict_order(way_down(s)),
{
    assert forall|a: Seq<char>, b: Seq<char>| #[trigger] way_down(s)(a, b) implies !way_down(s)(
        b,
        a,
    ) by {
        if text_lt(a, b) {
            lemma_text_lt_asymmetric(a, b);
        }
    }
    assert forall|a: Seq<char>, b: Seq<char>, c: Seq<char>| #[trigger]
        way_down(s)(a, b) && #[trigger] way_down(s)(b, c) implies way_down(s)(a, c) by {
        if text_lt(a, b) && text_lt(b, c) {
            lemma_text_lt_transitive(a, b, c);
        }
    }
}

/// Sorting keeps the names, each as often as it was given, and leaves no name
/// before one that it should follow.
pub proof fn lemma_sorted_down(s: SchemaModel, names: Seq<Seq<char>>)
    ensures
        sorted_down(s, names).to_multiset() == names.to_multiset(),
        sorted_down(s, names).len() == names.len(),
        descending(s, sorted_down(s, names)),
{
    lemma_way_down_strict(s);
    lemma_sorted(way_down(s), names);
}

/// Whether `a` comes strictly before `b` on the way down from the roots: see
/// [`descends_before`]. This is the comparison by which
/// [`sort_nesting_descending`] sorts.
pub fn comes_before(schema: &Schema, a: &str, b: &str) -> (r: bool)
    ensures
        r == descends_before(schema@, a@, b@),
{
    let level_a = get_nesting_level(schema, a);
    let level_b = get_nesting_level(schema, b);
    if level_a < level_b {
        true
    } else if level_a > level_b {
        false
    } else {
        text_less(a, b)
    }
}

/// The names in the order of the way down from the roots: see
/// [`sorted_down`]. The result holds the names that were given, each as often
/// as it was given.
pub fn sort_nesting_descending(schema: &Schema, names: Vec<String>) -> (r: Vec<String>)
    ensures
        r.deep_view() == sorted_down(schema@, names.deep_view()),
        r.deep_view().to_multiset() == names.deep_view().to_multiset(),
        descending(schema@, r.deep_view()),
{
    let ghost s = schema@;
    let ghost given = names.deep_view();
    let mut out: Vec<String> = Vec::new();
    let mut i: usize = 0;
    proof {
        assert(given.take(0) =~= Seq::<Seq<char>>::empty());
        assert(out.deep_view() =~= Seq::<Seq<char>>::empty());
    }
    while i < names.len()
        invariant
            s == schema@,
            given == names.deep_view(),
            i <= names.len(),
            out.deep_view() == sorted_down(s, given.take(i as int)),
        decreases names.len() - i,
    {
        let name = names[i].clone();
        let mut at: usize = 0;
        while at < out.len() && !comes_before(schema, name.as_str(), out[at].as_str())
            invariant
                s == schema@,
                at <= out.len(),
                forall|k: int| 0 <= k < at ==> !way_down(s)(name@, #[trigger] out.deep_view()[k]),
            decreases out.len() - at,
        {
            at += 1;
        }
        let ghost before = out.deep_view();
        out.insert(at, name);
        proof {
            lemma_place_is(way_down(s), before, name@, at as int);
            assert(out.deep_view() =~= before.insert(at as int, name@));
            assert(given.take(i + 1).drop_last() =~= given.take(i as int));
            assert(given.take(i + 1).last() == name@);
        }
        i += 1;
    }
    proof {
        assert(given.take(names.len() as int) =~= given);
        lemma_sorted_down(s, given);
    }
    out
}

} // verus!
