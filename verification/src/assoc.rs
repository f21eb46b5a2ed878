//! Lists of named values that are read as maps: a name is looked up from the
//! front, so the first pair with that name is the one that counts.
use vstd::prelude::*;
use crate::text::same_text;

verus! {

/// The index of the first pair named `key`; the length of `s` when there is none.
pub open spec fn position<V>(s: Seq<(Seq<char>, V)>, key: Seq<char>) -> int
    decreases s.len(),
{
    if s.len() == 0 {
        0
    } else if s[0].0 == key {
        0
    } else {
        1 + position(s.drop_first(), key)
    }
}

/// Whether some pair of `s` is named `key`.
pub open spec fn has_key<V>(s: Seq<(Seq<char>, V)>, key: Seq<char>) -> bool {
    position(s, key) < s.len()
}

/// The value of the first pair named `key`.
pub open spec fn lookup<V>(s: Seq<(Seq<char>, V)>, key: Seq<char>) -> Option<V> {
    if has_key(s, key) {
        Some(s[position(s, key)].1)
    } else {
        None
    }
}

/// `s` with `key` bound to `value`: in place where `key` is bound already,
/// at the end otherwise.
pub open spec fn put<V>(s: Seq<(Seq<char>, V)>, key: Seq<char>, value: V) -> Seq<(Seq<char>, V)> {
    if has_key(s, key) {
        s.update(position(s, key), (key, value))
    } else {
        s.push((key, value))
    }
}

/// No name occurs twice.
pub open spec fn keys_distinct<V>(s: Seq<(Seq<char>, V)>) -> bool {
    forall|i: int, j: int| 0 <= i < j < s.len() ==> s[i].0 != s[j].0
}

/// What `position` is: the least index at which `key` stands.
pub proof fn lemma_position<V>(s: Seq<(Seq<char>, V)>, key: Seq<char>)
    ensures
        0 <= position(s, key) <= s.len(),
        forall|j: int| 0 <= j < position(s, key) ==> (#[trigger] s[j]).0 != key,
        position(s, key) < s.len() ==> s[position(s, key)].0 == key,
    decreases s.len(),
{
    if s.len() > 0 && s[0].0 != key {
        let t = s.drop_first();
        lemma_position(t, key);
        assert forall|j: int| 0 <= j < position(s, key) implies (#[trigger] s[j]).0 != key by {
            if j > 0 {
                assert(s[j] == t[j - 1]);
            }
        }
    }
}

/// An index at which `key` stands, with no earlier one, is `position`.
pub proof fn lemma_position_is<V>(s: Seq<(Seq<char>, V)>, key: Seq<char>, p: int)
    requires
        0 <= p <= s.len(),
        forall|j: int| 0 <= j < p ==> (#[trigger] s[j]).0 != key,
        p < s.len() ==> s[p].0 == key,
    ensures
        position(s, key) == p,
{
    lemma_position(s, key);
    let q = position(s, key);
    if q < p {
        assert(s[q].0 != key);
    } else if p < q {
        assert(s[p].0 != key);
    }
}

/// Binding a name changes what is found under that name and nothing else.
pub proof fn lemma_put<V>(s: Seq<(Seq<char>, V)>, key: Seq<char>, value: V, other: Seq<char>)
    ensures
        lookup(put(s, key, value), other) == if other == key {
            Some(value)
        } else {
            lookup(s, other)
        },
        has_key(put(s, key, value), other) == (other == key || has_key(s, other)),
{
    let t = put(s, key, value);
    let q = position(s, other);
    lemma_position(s, key);
    lemma_position(s, other);
    if has_key(s, key) {
        assert forall|j: int| 0 <= j < q implies (#[trigger] t[j]).0 != other by {
            assert(s[j].0 != other);
        }
        lemma_position_is(t, other, q);
    } else if other == key {
        assert forall|j: int| 0 <= j < s.len() implies (#[trigger] t[j]).0 != key by {
            assert(s[j].0 != key);
        }
        lemma_position_is(t, key, s.len() as int);
    } else if q < s.len() {
        assert forall|j: int| 0 <= j < q implies (#[trigger] t[j]).0 != other by {
            assert(s[j].0 != other);
        }
        lemma_position_is(t, other, q);
    } else {
        assert forall|j: int| 0 <= j < t.len() implies (#[trigger] t[j]).0 != other by {
            if j < s.len() {
                assert(s[j].0 != other);
            }
        }
        lemma_position_is(t, other, t.len() as int);
    }
}

/// Binding a name to what it is bound to changes nothing.
pub proof fn lemma_put_same<V>(s: Seq<(Seq<char>, V)>, key: Seq<char>, value: V)
    requires
        lookup(s, key) == Some(value),
    ensures
        put(s, key, value) == s,
{
    lemma_position(s, key);
    assert(put(s, key, value) =~= s);
}

/// Binding a name leaves no name twice where none stood twice.
pub proof fn lemma_put_distinct<V>(s: Seq<(Seq<char>, V)>, key: Seq<char>, value: V)
    requires
        keys_distinct(s),
    ensures
        keys_distinct(put(s, key, value)),
{
    lemma_position(s, key);
    let t = put(s, key, value);
    assert forall|i: int, j: int| 0 <= i < j < t.len() implies t[i].0 != t[j].0 by {
        if has_key(s, key) {
            assert(t[i].0 == s[i].0 && t[j].0 == s[j].0);
        } else if j == s.len() {
            assert(s[i].0 != key);
        }
    }
}

/// After a name was bound, each pair is the bound one or stood there before.
pub proof fn lemma_put_pairs<V>(s: Seq<(Seq<char>, V)>, key: Seq<char>, value: V)
    ensures
        s.len() <= put(s, key, value).len() <= s.len() + 1,
        forall|i: int|
            0 <= i < put(s, key, value).len() ==> (#[trigger] put(s, key, value)[i]) == (key, value)
                || (i < s.len() && put(s, key, value)[i] == s[i]),
        forall|i: int|
            0 <= i < s.len() ==> (#[trigger] put(s, key, value)[i]).0 == s[i].0,
{
    lemma_position(s, key);
}

/// A list without a pair named `key` has no such key.
pub proof fn lemma_no_key<V>(s: Seq<(Seq<char>, V)>, key: Seq<char>)
    requires
        forall|i: int| 0 <= i < s.len() ==> (#[trigger] s[i]).0 != key,
    ensures
        !has_key(s, key),
        lookup(s, key) is None,
{
    lemma_position_is(s, key, s.len() as int);
}

/// Looking up in two lists on end: the first list counts where it has the
/// key, the second where it has not.
pub proof fn lemma_lookup_concat<V>(a: Seq<(Seq<char>, V)>, b: Seq<(Seq<char>, V)>, key: Seq<char>)
    ensures
        has_key(a + b, key) == (has_key(a, key) || has_key(b, key)),
        has_key(a, key) ==> lookup(a + b, key) == lookup(a, key),
        !has_key(a, key) ==> lookup(a + b, key) == lookup(b, key),
{
    let both = a + b;
    lemma_position(a, key);
    lemma_position(b, key);
    let p = position(a, key);
    let q = position(b, key);
    if p < a.len() {
        assert forall|j: int| 0 <= j < p implies (#[trigger] both[j]).0 != key by {
            assert(a[j].0 != key);
        }
        assert(both[p] == a[p]);
        lemma_position_is(both, key, p);
    } else {
        assert forall|j: int| 0 <= j < a.len() + q implies (#[trigger] both[j]).0 != key by {
            if j < a.len() {
                assert(a[j].0 != key);
            } else {
                assert(b[j - a.len()].0 != key);
                assert(both[j] == b[j - a.len()]);
            }
        }
        if q < b.len() {
            assert(both[a.len() + q] == b[q]);
        }
        lemma_position_is(both, key, a.len() + q);
    }
}

/// The name of each member after a name was bound is that name or the name
/// that stood there before.
pub proof fn lemma_put_names<V>(s: Seq<(Seq<char>, V)>, key: Seq<char>, value: V)
    ensures
        forall|i: int|
            0 <= i < put(s, key, value).len() ==> (#[trigger] put(s, key, value)[i]).0 == key || (i
                < s.len() && put(s, key, value)[i].0 == s[i].0),
{
    lemma_position(s, key);
}

/// The index of the first pair of `v` named `key`, if there is one.
pub fn find<V: DeepView>(v: &Vec<(String, V)>, key: &str) -> (r: Option<usize>)
    ensures
        r is Some <==> has_key(v.deep_view(), key@),
        r matches Some(i) ==> i == position(v.deep_view(), key@) && i < v.len(),
{
    let mut i: usize = 0;
    while i < v.len()
        invariant
            i <= v.len(),
            forall|j: int| 0 <= j < i ==> (#[trigger] v.deep_view()[j]).0 != key@,
        decreases v.len() - i,
    {
        if same_text(v[i].0.as_str(), key) {
            proof {
                assert(v.deep_view()[i as int].0 == key@);
                lemma_position_is(v.deep_view(), key@, i as int);
            }
            return Some(i);
        }
        i += 1;
    }
    proof {
        lemma_position_is(v.deep_view(), key@, v.len() as int);
    }
    None
}

/// Binds `key` to `value` in `v`: in place where `key` is bound already, at
/// the end otherwise.
pub fn bind<V: DeepView>(v: &mut Vec<(String, V)>, key: String, value: V)
    ensures
        final(v).deep_view() == put(old(v).deep_view(), key@, value.deep_view()),
{
    let ghost before = v.deep_view();
    let ghost bound = (key@, value.deep_view());
    match find(v, key.as_str()) {
        Some(i) => {
            v[i] = (key, value);
            assert(v.deep_view() =~= before.update(i as int, bound));
        },
        None => {
            v.push((key, value));
            assert(v.deep_view() =~= before.push(bound));
        },
    }
}

} // verus!
