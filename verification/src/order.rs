//! Putting lists in order: each item in turn goes to its place among those
//! before it.
use vstd::prelude::*;
use crate::text::{
    contains_text,
    lemma_text_lt_asymmetric,
    lemma_text_lt_transitive,
    text_less,
    text_lt,
};

verus! {

/// Where `x` goes in `sorted`: before the first item that it comes strictly
/// before, at the end where there is none.
pub open spec fn place<A>(lt: spec_fn(A, A) -> bool, sorted: Seq<A>, x: A) -> int
    decreases sorted.len(),
{
    if sorted.len() == 0 || lt(x, sorted[0]) {
        0
    } else {
        1 + place(lt, sorted.drop_first(), x)
    }
}

/// The items in order: each one in turn is put in its place among those
/// before it, so that items of the same rank keep their order.
pub open spec fn sorted<A>(lt: spec_fn(A, A) -> bool, items: Seq<A>) -> Seq<A>
    decreases items.len(),
{
    if items.len() == 0 {
        Seq::empty()
    } else {
        let before = sorted(lt, items.drop_last());
        before.insert(place(lt, before, items.last()), items.last())
    }
}

/// No item of the list comes strictly before an earlier one.
pub open spec fn in_order<A>(lt: spec_fn(A, A) -> bool, items: Seq<A>) -> bool {
    forall|i: int, j: int|
        0 <= i < j < items.len() ==> !lt(#[trigger] items[j], #[trigger] items[i])
}

/// Of two items at most one comes before the other, and what comes before an
/// item comes before everything after it.
pub open spec fn strict_order<A>(lt: spec_fn(A, A) -> bool) -> bool {
    &&& forall|a: A, b: A| #[trigger] lt(a, b) ==> !lt(b, a)
    &&& forall|a: A, b: A, c: A| #[trigger] lt(a, b) && #[trigger] lt(b, c) ==> lt(a, c)
}

/// What `place` is: the least index whose item `x` comes strictly before.
pub proof fn lemma_place<A>(lt: spec_fn(A, A) -> bool, sorted: Seq<A>, x: A)
    ensures
        0 <= place(lt, sorted, x) <= sorted.len(),
        forall|k: int| 0 <= k < place(lt, sorted, x) ==> !lt(x, #[trigger] sorted[k]),
        place(lt, sorted, x) < sorted.len() ==> lt(x, sorted[place(lt, sorted, x)]),
    decreases sorted.len(),
{
    if sorted.len() > 0 && !lt(x, sorted[0]) {
        let rest = sorted.drop_first();
        lemma_place(lt, rest, x);
        assert forall|k: int| 0 <= k < place(lt, sorted, x) implies !lt(x, #[trigger] sorted[k]) by {
            if k > 0 {
                assert(sorted[k] == rest[k - 1]);
            }
        }
    }
}

/// An index whose item `x` comes before, with no earlier one, is `place`.
pub proof fn lemma_place_is<A>(lt: spec_fn(A, A) -> bool, sorted: Seq<A>, x: A, p: int)
    requires
        0 <= p <= sorted.len(),
        forall|k: int| 0 <= k < p ==> !lt(x, #[trigger] sorted[k]),
        p < sorted.len() ==> lt(x, sorted[p]),
    ensures
        place(lt, sorted, x) == p,
{
    lemma_place(lt, sorted, x);
    let q = place(lt, sorted, x);
    if q < p {
        assert(!lt(x, sorted[q]));
    } else if p < q {
        assert(!lt(x, sorted[p]));
    }
}

/// Sorting keeps the items, each as often as it was given, and under a
/// strict order leaves no item before one that it should follow.
pub proof fn lemma_sorted<A>(lt: spec_fn(A, A) -> bool, items: Seq<A>)
    ensures
        sorted(lt, items).to_multiset() == items.to_multiset(),
        sorted(lt, items).len() == items.len(),
        strict_order(lt) ==> in_order(lt, sorted(lt, items)),
    decreases items.len(),
{
    if items.len() == 0 {
        assert(items =~= Seq::<A>::empty());
    } else {
        let rest = items.drop_last();
        let x = items.last();
        let before = sorted(lt, rest);
        let at = place(lt, before, x);
        let after = sorted(lt, items);
        lemma_sorted(lt, rest);
        lemma_place(lt, before, x);
        assert(after.remove(at) =~= before);
        after.to_multiset_ensures();
        before.to_multiset_ensures();
        rest.to_multiset_ensures();
        assert(items =~= rest.push(x));
        assert(after.to_multiset() =~= before.to_multiset().insert(x)) by {
            assert(after[at] == x);
            assert(after.to_multiset().count(x) > 0);
        }
        if strict_order(lt) {
            assert forall|a: int, b: int| 0 <= a < b < after.len() implies !lt(
                #[trigger] after[b],
                #[trigger] after[a],
            ) by {
                if b == at {
                    assert(after[a] == before[a]);
                } else if a == at {
                    assert(after[b] == before[b - 1]);
                    if lt(after[b], x) {
                        assert(lt(x, before[at]));
                        if b - 1 > at {
                            assert(!lt(before[b - 1], before[at]));
                        }
                        assert(lt(after[b], before[at]));
                        assert(!lt(before[at], x));
                    }
                } else if b < at {
                    assert(after[a] == before[a] && after[b] == before[b]);
                } else if a < at {
                    assert(after[a] == before[a] && after[b] == before[b - 1]);
                } else {
                    assert(after[a] == before[a - 1] && after[b] == before[b - 1]);
                }
            }
        }
    }
}

/// The order of texts.
pub open spec fn by_text() -> spec_fn(Seq<char>, Seq<char>) -> bool {
    |a: Seq<char>, b: Seq<char>| text_lt(a, b)
}

/// The order of texts is a strict order.
pub proof fn lemma_by_text_strict()
    ensures
        strict_order(by_text()),
{
    assert forall|a: Seq<char>, b: Seq<char>| #[trigger] by_text()(a, b) implies !by_text()(b, a) by {
        lemma_text_lt_asymmetric(a, b);
    }
    assert forall|a: Seq<char>, b: Seq<char>, c: Seq<char>| #[trigger]
        by_text()(a, b) && #[trigger] by_text()(b, c) implies by_text()(a, c) by {
        lemma_text_lt_transitive(a, b, c);
    }
}

/// The texts in order are the texts that were given, each as often as it
/// was given, and none of them sorts before an earlier one.
pub proof fn lemma_sorted_texts(names: Seq<Seq<char>>)
    ensures
        sorted(by_text(), names).to_multiset() == names.to_multiset(),
        in_order(by_text(), sorted(by_text(), names)),
{
    lemma_by_text_strict();
    lemma_sorted(by_text(), names);
}

/// The texts in order.
pub fn sort_texts(names: Vec<String>) -> (r: Vec<String>)
    ensures
        r.deep_view() == sorted(by_text(), names.deep_view()),
        r.deep_view().to_multiset() == names.deep_view().to_multiset(),
        in_order(by_text(), r.deep_view()),
{
    let ghost given = names.deep_view();
    let mut out: Vec<String> = Vec::new();
    let mut i: usize = 0;
    proof {
        assert(given.take(0) =~= Seq::<Seq<char>>::empty());
        assert(out.deep_view() =~= Seq::<Seq<char>>::empty());
    }
    while i < names.len()
        invariant
            given == names.deep_view(),
            i <= names.len(),
            out.deep_view() == sorted(by_text(), given.take(i as int)),
        decreases names.len() - i,
    {
        let name = names[i].clone();
        let mut at: usize = 0;
        while at < out.len() && !text_less(name.as_str(), out[at].as_str())
            invariant
                at <= out.len(),
                forall|k: int| 0 <= k < at ==> !by_text()(name@, #[trigger] out.deep_view()[k]),
            decreases out.len() - at,
        {
            at += 1;
        }
        let ghost before = out.deep_view();
        out.insert(at, name);
        proof {
            lemma_place_is(by_text(), before, name@, at as int);
            assert(out.deep_view() =~= before.insert(at as int, name@));
            assert(given.take(i + 1).drop_last() =~= given.take(i as int));
            assert(given.take(i + 1).last() == name@);
        }
        i += 1;
    }
    proof {
        assert(given.take(names.len() as int) =~= given);
        lemma_sorted_texts(given);
    }
    out
}

/// The items of a list without those that stood in it before.
pub open spec fn unique<A>(items: Seq<A>) -> Seq<A>
    decreases items.len(),
{
    if items.len() == 0 {
        Seq::empty()
    } else {
        let before = unique(items.drop_last());
        if before.contains(items.last()) {
            before
        } else {
            before.push(items.last())
        }
    }
}

/// What is in a list without repeats is what was in the list.
pub proof fn lemma_unique_holds<A>(items: Seq<A>, x: A)
    ensures
        unique(items).contains(x) <==> items.contains(x),
    decreases items.len(),
{
    if items.len() > 0 {
        let first = items.drop_last();
        lemma_unique_holds(first, x);
        lemma_unique_holds(first, items.last());
        let u = unique(first);
        if unique(items).contains(x) {
            let i = choose|i: int| 0 <= i < unique(items).len() && unique(items)[i] == x;
            if i < u.len() {
                assert(u[i] == x);
                let j = choose|j: int| 0 <= j < first.len() && first[j] == x;
                assert(items[j] == x);
            } else {
                assert(items[items.len() - 1] == x);
            }
        }
        if items.contains(x) {
            let j = choose|j: int| 0 <= j < items.len() && items[j] == x;
            if j < first.len() {
                assert(first[j] == x);
                let i = choose|i: int| 0 <= i < u.len() && u[i] == x;
                assert(unique(items)[i] == x);
            } else if !u.contains(x) {
                assert(unique(items)[u.len() as int] == x);
            } else {
                let i = choose|i: int| 0 <= i < u.len() && u[i] == x;
                assert(unique(items)[i] == x);
            }
        }
    }
}

/// A list without repeats has none.
pub proof fn lemma_unique_no_duplicates<A>(items: Seq<A>)
    ensures
        unique(items).no_duplicates(),
    decreases items.len(),
{
    if items.len() > 0 {
        let first = items.drop_last();
        lemma_unique_no_duplicates(first);
        let u = unique(first);
        if !u.contains(items.last()) {
            let w = unique(items);
            assert forall|i: int, j: int| 0 <= i < j < w.len() implies w[i] != w[j] by {
                if j == u.len() {
                    assert(u[i] == w[i]);
                    assert(u.contains(w[i]));
                }
            }
        }
    }
}

/// A list without repeats is the list of its items without repeats.
pub proof fn lemma_unique_of_distinct<A>(items: Seq<A>)
    requires
        items.no_duplicates(),
    ensures
        unique(items) == items,
    decreases items.len(),
{
    if items.len() > 0 {
        let first = items.drop_last();
        lemma_unique_of_distinct(first);
        lemma_unique_holds(first, items.last());
        if first.contains(items.last()) {
            let k = choose|k: int| 0 <= k < first.len() && first[k] == items.last();
            assert(items[k] == items[items.len() - 1]);
        }
        assert(first.push(items.last()) =~= items);
    } else {
        assert(items =~= Seq::<A>::empty());
    }
}

/// The texts without those that stood in the list before.
pub fn unique_texts(names: &Vec<String>) -> (r: Vec<String>)
    ensures
        r.deep_view() == unique(names.deep_view()),
{
    let ghost given = names.deep_view();
    let mut out: Vec<String> = Vec::new();
    let mut i: usize = 0;
    proof {
        assert(given.take(0) =~= Seq::<Seq<char>>::empty());
        assert(out.deep_view() =~= Seq::<Seq<char>>::empty());
    }
    while i < names.len()
        invariant
            given == names.deep_view(),
            i <= names.len(),
            out.deep_view() == unique(given.take(i as int)),
        decreases names.len() - i,
    {
        proof {
            assert(given.take(i + 1).drop_last() =~= given.take(i as int));
            assert(given.take(i + 1).last() == names@[i as int]@);
        }
        if !contains_text(&out, names[i].as_str()) {
            let ghost before = out.deep_view();
            out.push(names[i].clone());
            assert(out.deep_view() =~= before.push(names@[i as int]@));
        }
        i += 1;
    }
    assert(given.take(names.len() as int) =~= given);
    out
}

} // verus!
