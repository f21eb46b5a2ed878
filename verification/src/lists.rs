//! What holds of lists whatever they hold.
use vstd::prelude::*;

verus! {

/// What one of two lists holds, the two together hold, and nothing else.
pub proof fn lemma_concat_contains<A>(head: Seq<A>, tail: Seq<A>, x: A)
    ensures
        (head + tail).contains(x) <==> head.contains(x) || tail.contains(x),
{
    let both = head + tail;
    if head.contains(x) {
        let k = choose|k: int| 0 <= k < head.len() && head[k] == x;
        assert(both[k] == x);
    }
    if tail.contains(x) {
        let k = choose|k: int| 0 <= k < tail.len() && tail[k] == x;
        assert(both[head.len() + k] == x);
    }
    if both.contains(x) {
        let k = choose|k: int| 0 <= k < both.len() && both[k] == x;
        if k < head.len() {
            assert(head[k] == x);
        } else {
            assert(tail[k - head.len()] == x);
        }
    }
}

/// What a list holds after one more item was put at its end.
pub proof fn lemma_push_contains<A>(s: Seq<A>, x: A, y: A)
    ensures
        s.push(x).contains(y) <==> s.contains(y) || y == x,
{
    let t = s.push(x);
    if s.contains(y) {
        let k = choose|k: int| 0 <= k < s.len() && s[k] == y;
        assert(t[k] == y);
    }
    if y == x {
        assert(t[s.len() as int] == y);
    }
    if t.contains(y) {
        let k = choose|k: int| 0 <= k < t.len() && t[k] == y;
        if k < s.len() {
            assert(s[k] == y);
        }
    }
}

/// Whatever a filter keeps stood in the list.
pub proof fn lemma_filter_within<A>(names: Seq<A>, pred: spec_fn(A) -> bool, i: int)
    requires
        0 <= i < names.filter(pred).len(),
    ensures
        names.contains(names.filter(pred)[i]),
    decreases names.len(),
{
    reveal(Seq::filter);
    if names.len() > 0 {
        let rest = names.drop_last();
        if i < rest.filter(pred).len() {
            lemma_filter_within(rest, pred, i);
            let k = choose|k: int| 0 <= k < rest.len() && rest[k] == rest.filter(pred)[i];
            assert(names[k] == names.filter(pred)[i]);
        } else {
            assert(names[names.len() - 1] == names.filter(pred)[i]);
        }
    }
}

/// A filter keeps no less of a list than of its first part.
pub proof fn lemma_filter_grows<A>(s: Seq<A>, pred: spec_fn(A) -> bool, n: int)
    requires
        0 <= n <= s.len(),
    ensures
        s.take(n).filter(pred).len() <= s.filter(pred).len(),
    decreases s.len() - n,
{
    reveal(Seq::filter);
    if n < s.len() {
        assert(s.take(n + 1).drop_last() =~= s.take(n));
        lemma_filter_grows(s, pred, n + 1);
    } else {
        assert(s.take(n) =~= s);
    }
}

/// Where in the list the item stood that a filter kept as its `i`th.
pub open spec fn origin<A>(s: Seq<A>, pred: spec_fn(A) -> bool, i: int) -> int
    decreases s.len(),
{
    if s.len() == 0 {
        0
    } else if i < s.drop_last().filter(pred).len() {
        origin(s.drop_last(), pred, i)
    } else {
        s.len() - 1
    }
}

/// What a filter keeps, it keeps in the order of the list: each kept item
/// stood in the list, and of two kept items the earlier stood earlier.
pub proof fn lemma_filter_order<A>(s: Seq<A>, pred: spec_fn(A) -> bool)
    ensures
        forall|i: int|
            0 <= i < s.filter(pred).len() ==> 0 <= #[trigger] origin(s, pred, i) < s.len() && s[origin(
                s,
                pred,
                i,
            )] == s.filter(pred)[i],
        forall|i: int, j: int|
            0 <= i < j < s.filter(pred).len() ==> #[trigger] origin(s, pred, i) < #[trigger] origin(
                s,
                pred,
                j,
            ),
    decreases s.len(),
{
    reveal(Seq::filter);
    if s.len() > 0 {
        let rest = s.drop_last();
        lemma_filter_order(rest, pred);
        assert forall|i: int| 0 <= i < s.filter(pred).len() implies 0 <= #[trigger] origin(
            s,
            pred,
            i,
        ) < s.len() && s[origin(s, pred, i)] == s.filter(pred)[i] by {
            if i < rest.filter(pred).len() {
                assert(origin(s, pred, i) == origin(rest, pred, i));
                assert(rest[origin(rest, pred, i)] == s[origin(rest, pred, i)]);
            }
        }
        assert forall|i: int, j: int| 0 <= i < j < s.filter(pred).len() implies #[trigger] origin(
            s,
            pred,
            i,
        ) < #[trigger] origin(s, pred, j) by {
            assert(i < rest.filter(pred).len());
            assert(origin(s, pred, i) == origin(rest, pred, i));
            if j < rest.filter(pred).len() {
                assert(origin(s, pred, j) == origin(rest, pred, j));
            }
        }
    }
}

/// A filter that every item passes keeps the list as it is.
pub proof fn lemma_filter_all<A>(s: Seq<A>, pred: spec_fn(A) -> bool)
    requires
        forall|i: int| 0 <= i < s.len() ==> pred(#[trigger] s[i]),
    ensures
        s.filter(pred) == s,
    decreases s.len(),
{
    reveal(Seq::filter);
    if s.len() > 0 {
        let rest = s.drop_last();
        assert forall|i: int| 0 <= i < rest.len() implies pred(#[trigger] rest[i]) by {
            assert(rest[i] == s[i]);
        }
        lemma_filter_all(rest, pred);
        assert(pred(s[s.len() - 1]));
        assert(s.filter(pred) =~= s);
    }
}

/// A list without repeats whose members all lie in a finite set is no longer
/// than the set is large.
pub proof fn lemma_short<A>(names: Seq<A>, universe: Set<A>)
    requires
        universe.finite(),
        names.no_duplicates(),
        forall|k: int| 0 <= k < names.len() ==> universe.contains(#[trigger] names[k]),
    ensures
        names.len() <= universe.len(),
{
    names.unique_seq_to_set();
    assert(names.to_set().subset_of(universe)) by {
        assert forall|x: A| names.to_set().contains(x) implies universe.contains(x) by {
            let k = choose|k: int| 0 <= k < names.len() && names[k] == x;
            assert(universe.contains(names[k]));
        }
    }
    vstd::set_lib::lemma_len_subset(names.to_set(), universe);
}

/// A filter leaves no item twice where none stood twice.
pub proof fn lemma_filter_distinct<A>(s: Seq<A>, pred: spec_fn(A) -> bool)
    requires
        s.no_duplicates(),
    ensures
        s.filter(pred).no_duplicates(),
{
    let kept = s.filter(pred);
    lemma_filter_order(s, pred);
    assert forall|i: int, j: int| 0 <= i < kept.len() && 0 <= j < kept.len() && i != j implies kept[i]
        != kept[j] by {
        let a = origin(s, pred, i);
        let b = origin(s, pred, j);
        if i < j {
            assert(a < b);
        } else {
            assert(b < a);
        }
    }
}

} // verus!
