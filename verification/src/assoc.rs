//! Association sequences: ordered lists of key/value pairs, the mathematical
//! model behind every map in this crate.

use vstd::prelude::*;

verus! {

/// Some pair of `s` has the key `k`.
pub open spec fn has_key<K, V>(s: Seq<(K, V)>, k: K) -> bool {
    exists|i: int| 0 <= i < s.len() && (#[trigger] s[i]).0 == k
}

/// An index at which `k` occurs in `s`, when it occurs at all.
pub open spec fn position<K, V>(s: Seq<(K, V)>, k: K) -> int {
    choose|i: int| 0 <= i < s.len() && (#[trigger] s[i]).0 == k
}

/// No key occurs twice.
pub open spec fn distinct_keys<K, V>(s: Seq<(K, V)>) -> bool {
    forall|i: int, j: int| 0 <= i < j < s.len() ==> (#[trigger] s[i]).0 != (#[trigger] s[j]).0
}

/// The value stored under `k`.
pub open spec fn lookup<K, V>(s: Seq<(K, V)>, k: K) -> Option<V> {
    if has_key(s, k) {
        Some(s[position(s, k)].1)
    } else {
        None
    }
}

/// Map insertion that keeps positions: an existing key keeps its place and
/// gets the new value, a new key goes to the end.
pub open spec fn put<K, V>(s: Seq<(K, V)>, k: K, v: V) -> Seq<(K, V)> {
    if has_key(s, k) {
        s.update(position(s, k), (k, v))
    } else {
        s.push((k, v))
    }
}

/// The value of the first pair with key `k`, in a sequence that may repeat keys.
pub open spec fn first_value<K, V>(s: Seq<(K, V)>, k: K) -> Option<V>
    decreases s.len(),
{
    if s.len() == 0 {
        None
    } else {
        match first_value(s.drop_last(), k) {
            Some(v) => Some(v),
            None => if s.last().0 == k {
                Some(s.last().1)
            } else {
                None
            },
        }
    }
}

/// The value of the last pair with key `k`, in a sequence that may repeat keys.
pub open spec fn last_value<K, V>(s: Seq<(K, V)>, k: K) -> Option<V>
    decreases s.len(),
{
    if s.len() == 0 {
        None
    } else if s.last().0 == k {
        Some(s.last().1)
    } else {
        last_value(s.drop_last(), k)
    }
}

/// With distinct keys, a key found at `i` is found nowhere else.
pub proof fn lemma_found_at<K, V>(s: Seq<(K, V)>, k: K, i: int)
    requires
        distinct_keys(s),
        0 <= i < s.len(),
        s[i].0 == k,
    ensures
        has_key(s, k),
        position(s, k) == i,
        lookup(s, k) == Some(s[i].1),
{
    let p = position(s, k);
    assert(0 <= p < s.len() && s[p].0 == k);
    if p < i {
        assert(s[p].0 != s[i].0);
    } else if i < p {
        assert(s[i].0 != s[p].0);
    }
}

/// `put` keeps the keys distinct and changes the value of one key only.
pub proof fn lemma_put<K, V>(s: Seq<(K, V)>, k: K, v: V)
    requires
        distinct_keys(s),
    ensures
        distinct_keys(put(s, k, v)),
        lookup(put(s, k, v), k) == Some(v),
        forall|q: K| q != k ==> #[trigger] lookup(put(s, k, v), q) == lookup(s, q),
        forall|q: K| #[trigger] has_key(put(s, k, v), q) <==> (q == k || has_key(s, q)),
        put(s, k, v).len() == if has_key(s, k) { s.len() } else { s.len() + 1 },
{
    let t = put(s, k, v);
    if has_key(s, k) {
        let p = position(s, k);
        assert(0 <= p < s.len() && s[p].0 == k);
        assert forall|i: int, j: int| 0 <= i < j < t.len() implies (#[trigger] t[i]).0 != (
        #[trigger] t[j]).0 by {
            assert(t[i].0 == s[i].0);
            assert(t[j].0 == s[j].0);
        }
        assert(t[p].0 == k);
        lemma_found_at(t, k, p);
        assert forall|q: K| #[trigger] has_key(t, q) <==> (q == k || has_key(s, q)) by {
            if has_key(t, q) {
                let i = position(t, q);
                assert(t[i].0 == s[i].0);
            }
            if has_key(s, q) {
                let i = position(s, q);
                assert(t[i].0 == s[i].0);
            }
        }
        assert forall|q: K| q != k implies #[trigger] lookup(t, q) == lookup(s, q) by {
            if has_key(s, q) {
                let i = position(s, q);
                assert(i != p);
                assert(t[i] == s[i]);
                lemma_found_at(t, q, i);
            }
        }
    } else {
        let n = s.len() as int;
        assert forall|i: int, j: int| 0 <= i < j < t.len() implies (#[trigger] t[i]).0 != (
        #[trigger] t[j]).0 by {
            assert(t[i] == s[i]);
            if j < n {
                assert(t[j] == s[j]);
            } else {
                assert(t[j].0 == k);
            }
        }
        assert(t[n].0 == k);
        lemma_found_at(t, k, n);
        assert forall|q: K| #[trigger] has_key(t, q) <==> (q == k || has_key(s, q)) by {
            if has_key(t, q) {
                let i = position(t, q);
                if i < n {
                    assert(t[i] == s[i]);
                }
            }
            if has_key(s, q) {
                let i = position(s, q);
                assert(t[i] == s[i]);
            }
        }
        assert forall|q: K| q != k implies #[trigger] lookup(t, q) == lookup(s, q) by {
            if has_key(s, q) {
                let i = position(s, q);
                assert(t[i] == s[i]);
                lemma_found_at(t, q, i);
            }
        }
    }
}

/// `first_value` finds a pair exactly when the key occurs.
pub proof fn lemma_first_value_some<K, V>(s: Seq<(K, V)>, k: K)
    ensures
        first_value(s, k) is Some <==> has_key(s, k),
        last_value(s, k) is Some <==> has_key(s, k),
    decreases s.len(),
{
    if s.len() > 0 {
        let d = s.drop_last();
        lemma_first_value_some(d, k);
        if has_key(d, k) {
            let i = position(d, k);
            assert(s[i] == d[i]);
        }
        if s.last().0 == k {
            assert(s[s.len() - 1].0 == k);
        }
        if has_key(s, k) {
            let i = position(s, k);
            if i < s.len() - 1 {
                assert(d[i] == s[i]);
            }
        }
    }
}

/// A prefix of a sequence with distinct keys has distinct keys.
pub proof fn lemma_distinct_take<K, V>(s: Seq<(K, V)>, n: int)
    requires
        distinct_keys(s),
        0 <= n <= s.len(),
    ensures
        distinct_keys(s.take(n)),
{
    let t = s.take(n);
    assert forall|i: int, j: int| 0 <= i < j < t.len() implies (#[trigger] t[i]).0 != (
    #[trigger] t[j]).0 by {
        assert(t[i] == s[i]);
        assert(t[j] == s[j]);
    }
}

/// Pushing a pair with a new key: it answers for its own key, the sequence
/// for every other.
pub proof fn lemma_lookup_push<K, V>(s: Seq<(K, V)>, x: (K, V))
    requires
        distinct_keys(s.push(x)),
    ensures
        !has_key(s, x.0),
        lookup(s.push(x), x.0) == Some(x.1),
        forall|q: K| q != x.0 ==> #[trigger] lookup(s.push(x), q) == lookup(s, q),
{
    let t = s.push(x);
    let n = s.len() as int;
    assert(t[n] == x);
    if has_key(s, x.0) {
        let i = position(s, x.0);
        assert(t[i] == s[i]);
        assert(t[i].0 != t[n].0);
    }
    lemma_found_at(t, x.0, n);
    lemma_distinct_take(t, n);
    assert(t.take(n) =~= s);
    assert forall|q: K| q != x.0 implies #[trigger] lookup(t, q) == lookup(s, q) by {
        if has_key(s, q) {
            let i = position(s, q);
            assert(t[i] == s[i]);
            lemma_found_at(t, q, i);
        }
        if has_key(t, q) {
            let i = position(t, q);
            assert(i < n);
            assert(t[i] == s[i]);
        }
    }
}

/// Putting a pair in front of a sequence: it answers for its own key, the
/// sequence for every other.
pub proof fn lemma_first_value_front<K, V>(x: (K, V), s: Seq<(K, V)>, k: K)
    ensures
        first_value(seq![x] + s, k) == if x.0 == k {
            Some(x.1)
        } else {
            first_value(s, k)
        },
    decreases s.len(),
{
    let t = seq![x] + s;
    if s.len() == 0 {
        assert(t.drop_last() =~= Seq::empty());
        assert(t.last() == x);
        assert(first_value(t.drop_last(), k) is None);
        assert(first_value(s, k) is None);
    } else {
        assert(t.drop_last() =~= seq![x] + s.drop_last());
        assert(t.last() == s.last());
        lemma_first_value_front(x, s.drop_last(), k);
    }
}

/// Of two sequences one after the other, the first answers where it can.
pub proof fn lemma_first_value_concat<K, V>(a: Seq<(K, V)>, b: Seq<(K, V)>, k: K)
    ensures
        first_value(a + b, k) == match first_value(a, k) {
            Some(v) => Some(v),
            None => first_value(b, k),
        },
    decreases b.len(),
{
    if b.len() == 0 {
        assert(a + b =~= a);
    } else {
        assert((a + b).drop_last() =~= a + b.drop_last());
        assert((a + b).last() == b.last());
        lemma_first_value_concat(a, b.drop_last(), k);
    }
}

/// What `first_value` finds is the value of a pair with the key.
pub proof fn lemma_first_value_member<K, V>(s: Seq<(K, V)>, k: K)
    ensures
        first_value(s, k) matches Some(v) ==> exists|i: int|
            0 <= i < s.len() && #[trigger] s[i] == (k, v),
    decreases s.len(),
{
    if s.len() > 0 {
        let d = s.drop_last();
        lemma_first_value_member(d, k);
        match first_value(d, k) {
            Some(v) => {
                let i = choose|i: int| 0 <= i < d.len() && #[trigger] d[i] == (k, v);
                assert(s[i] == (k, v));
            },
            None => {
                if s.last().0 == k {
                    assert(s[s.len() - 1] == (k, s.last().1));
                }
            },
        }
    }
}

} // verus!
