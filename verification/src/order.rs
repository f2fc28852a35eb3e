//! The order of strings, and the names of version files in that order.

use crate::assoc::{distinct_keys, has_key, position};
use crate::keyed::KeyedVec;
use crate::text::append_texts;
use vstd::prelude::*;
use vstd::utf8::{encode_utf8, encode_utf8_decode_utf8};

verus! {

/// `a` comes before `b` byte by byte: at the first place where they
/// differ `a` has the smaller byte, or `a` ends there and `b` goes on.
pub open spec fn bytes_lt(a: Seq<u8>, b: Seq<u8>) -> bool {
    exists|n: int| #[trigger] differ_at(a, b, n) && (n == a.len() || a[n] < b[n])
}

/// `a` and `b` agree before `n`, where `b` goes on and `a` may end.
pub open spec fn differ_at(a: Seq<u8>, b: Seq<u8>, n: int) -> bool {
    &&& 0 <= n <= a.len()
    &&& n < b.len()
    &&& forall|i: int| 0 <= i < n ==> a[i] == b[i]
}

/// The order of strings: that of their bytes in UTF-8.
pub open spec fn text_lt(a: Seq<char>, b: Seq<char>) -> bool {
    bytes_lt(encode_utf8(a), encode_utf8(b))
}

/// Each string comes before every later one.
pub open spec fn ascending(s: Seq<Seq<char>>) -> bool {
    forall|i: int, j: int| 0 <= i < j < s.len() ==> text_lt(#[trigger] s[i], #[trigger] s[j])
}

/// How one string stands to another in the order.
#[derive(Clone, Copy, Debug, PartialEq, Eq, Structural)]
pub enum Side {
    /// The one comes before the other.
    Before,
    /// The two are the same string.
    Same,
    /// The one comes after the other.
    After,
}

/// The order is transitive.
pub proof fn lemma_bytes_lt_transitive(a: Seq<u8>, b: Seq<u8>, c: Seq<u8>)
    requires
        bytes_lt(a, b),
        bytes_lt(b, c),
    ensures
        bytes_lt(a, c),
{
    let n1 = choose|n: int| #[trigger] differ_at(a, b, n) && (n == a.len() || a[n] < b[n]);
    let n2 = choose|n: int| #[trigger] differ_at(b, c, n) && (n == b.len() || b[n] < c[n]);
    if n1 <= n2 {
        assert(differ_at(a, c, n1));
        if n1 < n2 {
            assert(b[n1] == c[n1]);
        }
    } else {
        assert(a[n2] == b[n2]);
        assert(differ_at(a, c, n2));
    }
}

/// No string comes before itself.
pub proof fn lemma_bytes_lt_irreflexive(a: Seq<u8>)
    ensures
        !bytes_lt(a, a),
{
    if bytes_lt(a, a) {
        let n = choose|n: int| #[trigger] differ_at(a, a, n) && (n == a.len() || a[n] < a[n]);
        assert(false);
    }
}

/// How `a` stands to `b` in the order of strings.
pub fn text_order(a: &str, b: &str) -> (r: Side)
    ensures
        match r {
            Side::Before => text_lt(a@, b@),
            Side::Same => a@ == b@,
            Side::After => text_lt(b@, a@),
        },
{
    let x = a.as_bytes();
    let y = b.as_bytes();
    let mut i: usize = 0;
    while i < x.len() && i < y.len()
        invariant
            i <= x@.len(),
            i <= y@.len(),
            x@ == encode_utf8(a@),
            y@ == encode_utf8(b@),
            forall|k: int| 0 <= k < i ==> x@[k] == y@[k],
        decreases x@.len() - i,
    {
        if x[i] < y[i] {
            assert(differ_at(x@, y@, i as int));
            return Side::Before;
        }
        if y[i] < x[i] {
            assert(differ_at(y@, x@, i as int));
            return Side::After;
        }
        i += 1;
    }
    if i < y.len() {
        assert(differ_at(x@, y@, i as int));
        Side::Before
    } else if i < x.len() {
        assert(differ_at(y@, x@, i as int));
        Side::After
    } else {
        proof {
            assert(x@ =~= y@);
            encode_utf8_decode_utf8(a@);
            encode_utf8_decode_utf8(b@);
        }
        Side::Same
    }
}

/// The strings of `v` in ascending order, each once: what a sorted set of
/// them holds, in the order in which it is walked.
pub fn sorted_texts(v: &Vec<String>) -> (r: Vec<String>)
    ensures
        ascending(r.deep_view()),
        forall|x: Seq<char>| #[trigger] r.deep_view().contains(x) <==> v.deep_view().contains(x),
{
    let mut r: Vec<String> = Vec::new();
    let mut i: usize = 0;
    while i < v.len()
        invariant
            i <= v@.len(),
            ascending(r.deep_view()),
            forall|x: Seq<char>| #[trigger]
                r.deep_view().contains(x) <==> v.deep_view().take(i as int).contains(x),
        decreases v@.len() - i,
    {
        let ghost before = r.deep_view();
        let ghost seen = v.deep_view().take(i as int);
        let ghost key = v@[i as int]@;
        let mut p: usize = 0;
        let mut found = false;
        while p < r.len()
            invariant_except_break
                !found,
            invariant
                p <= r@.len(),
                before == r.deep_view(),
                key == v@[i as int]@,
                i < v@.len(),
                forall|k: int| 0 <= k < p ==> text_lt(#[trigger] before[k], key),
            ensures
                p <= r@.len(),
                found ==> p < r@.len() && before[p as int] == key,
                !found && p < r@.len() ==> text_lt(key, before[p as int]),
            decreases r@.len() - p,
        {
            match text_order(r[p].as_str(), v[i].as_str()) {
                Side::Before => {
                    p += 1;
                },
                Side::Same => {
                    found = true;
                    break ;
                },
                Side::After => {
                    break ;
                },
            }
        }
        proof {
            assert(v.deep_view().take(i + 1) =~= seen.push(key));
        }
        if !found {
            r.insert(p, v[i].clone());
            proof {
                let after = r.deep_view();
                assert(after =~= before.insert(p as int, key));
                assert forall|a: int, b: int| 0 <= a < b < after.len() implies text_lt(
                    #[trigger] after[a],
                    #[trigger] after[b],
                ) by {
                    if b < p {
                        assert(after[a] == before[a] && after[b] == before[b]);
                    } else if b == p {
                        assert(after[a] == before[a]);
                    } else if a == p {
                        assert(after[b] == before[b - 1]);
                        if b - 1 > p {
                            assert(text_lt(before[p as int], before[b - 1]));
                            lemma_bytes_lt_transitive(
                                encode_utf8(key),
                                encode_utf8(before[p as int]),
                                encode_utf8(before[b - 1]),
                            );
                        }
                    } else if a < p {
                        assert(after[a] == before[a] && after[b] == before[b - 1]);
                    } else {
                        assert(after[a] == before[a - 1] && after[b] == before[b - 1]);
                    }
                }
                assert forall|x: Seq<char>| #[trigger]
                    after.contains(x) <==> seen.push(key).contains(x) by {
                    if after.contains(x) {
                        let k = choose|k: int| 0 <= k < after.len() && after[k] == x;
                        if k < p {
                            assert(before[k] == x);
                            assert(before.contains(x));
                        } else if k > p {
                            assert(before[k - 1] == x);
                            assert(before.contains(x));
                        }
                        if x != key {
                            assert(seen.contains(x));
                            let q = choose|q: int| 0 <= q < seen.len() && seen[q] == x;
                            assert(seen.push(key)[q] == x);
                        } else {
                            assert(seen.push(key)[seen.len() as int] == x);
                        }
                    }
                    if seen.push(key).contains(x) {
                        let q = choose|q: int| 0 <= q < seen.len() + 1 && seen.push(key)[q] == x;
                        if q < seen.len() {
                            assert(seen[q] == x);
                            assert(seen.contains(x));
                            assert(before.contains(x));
                            let k = choose|k: int| 0 <= k < before.len() && before[k] == x;
                            if k < p {
                                assert(after[k] == x);
                            } else {
                                assert(after[k + 1] == x);
                            }
                        } else {
                            assert(after[p as int] == x);
                        }
                    }
                }
            }
        } else {
            proof {
                assert forall|x: Seq<char>| #[trigger]
                    before.contains(x) <==> seen.push(key).contains(x) by {
                    if before.contains(x) {
                        assert(seen.contains(x));
                        let q = choose|q: int| 0 <= q < seen.len() && seen[q] == x;
                        assert(seen.push(key)[q] == x);
                    }
                    if seen.push(key).contains(x) {
                        let q = choose|q: int| 0 <= q < seen.len() + 1 && seen.push(key)[q] == x;
                        if q < seen.len() {
                            assert(seen[q] == x);
                            assert(seen.contains(x));
                        } else {
                            assert(before[p as int] == x);
                        }
                    }
                }
            }
        }
        i += 1;
    }
    assert(v.deep_view().take(v@.len() as int) =~= v.deep_view());
    r
}

/// An ascending sequence holds as many strings as a sequence without
/// repetition that holds the same strings.
proof fn lemma_ascending_len(sorted: Seq<Seq<char>>, keys: Seq<Seq<char>>)
    requires
        ascending(sorted),
        keys.no_duplicates(),
        forall|x: Seq<char>| #[trigger] sorted.contains(x) <==> keys.contains(x),
    ensures
        sorted.len() == keys.len(),
{
    assert forall|i: int, j: int| 0 <= i < sorted.len() && 0 <= j < sorted.len() && i != j implies sorted[i]
        != sorted[j] by {
        lemma_bytes_lt_irreflexive(encode_utf8(sorted[i]));
        if i < j {
            assert(text_lt(sorted[i], sorted[j]));
        } else {
            assert(text_lt(sorted[j], sorted[i]));
        }
    }
    sorted.unique_seq_to_set();
    keys.unique_seq_to_set();
    assert(sorted.to_set() =~= keys.to_set());
}

/// The keys of a map, in the order of the map.
pub fn keys_of<V: DeepView>(m: &KeyedVec<V>) -> (r: Vec<String>)
    ensures
        r.deep_view().len() == m@.len(),
        forall|i: int| 0 <= i < m@.len() ==> #[trigger] r.deep_view()[i] == m@[i].0,
        r.deep_view().no_duplicates(),
{
    let n = m.len();
    let mut r: Vec<String> = Vec::new();
    let mut i: usize = 0;
    while i < n
        invariant
            i <= n,
            n == m@.len(),
            r@.len() == i,
            distinct_keys(m@),
            forall|k: int| 0 <= k < i ==> #[trigger] r.deep_view()[k] == m@[k].0,
        decreases n - i,
    {
        let ghost before = r.deep_view();
        match m.key_at(i) {
            Some(key) => {
                r.push(key.clone());
                assert(r.deep_view() =~= before.push(m@[i as int].0));
            },
            None => {},
        }
        i += 1;
    }
    proof {
        assert forall|a: int, b: int|
            0 <= a < r.deep_view().len() && 0 <= b < r.deep_view().len() && a != b implies r.deep_view()[a]
            != r.deep_view()[b] by {
            if a < b {
                assert(m@[a].0 != m@[b].0);
            } else {
                assert(m@[b].0 != m@[a].0);
            }
        }
    }
    r
}

/// The keys of a map in ascending order: the order in which a sorted map
/// of the same keys is walked.
pub fn ascending_keys<V: DeepView>(m: &KeyedVec<V>) -> (r: Vec<String>)
    ensures
        r.deep_view().len() == m@.len(),
        ascending(r.deep_view()),
        forall|x: Seq<char>| #[trigger] r.deep_view().contains(x) <==> has_key(m@, x),
{
    let keys = keys_of(m);
    let r = sorted_texts(&keys);
    proof {
        assert forall|x: Seq<char>| #[trigger] keys.deep_view().contains(x) <==> has_key(m@, x) by {
            if keys.deep_view().contains(x) {
                let i = choose|i: int| 0 <= i < keys.deep_view().len() && keys.deep_view()[i] == x;
                assert(m@[i].0 == x);
            }
            if has_key(m@, x) {
                let i = position(m@, x);
                assert(keys.deep_view()[i] == x);
            }
        }
        lemma_ascending_len(r.deep_view(), keys.deep_view());
    }
    r
}

/// The file names to look for in each directory, in the order in which
/// they are looked for: the names of the version files in ascending order,
/// then the default names.
pub fn config_filenames(legacy: &KeyedVec<Vec<String>>, defaults: &Vec<String>) -> (r: Vec<String>)
    ensures
        r.deep_view().len() == legacy@.len() + defaults.deep_view().len(),
        ascending(r.deep_view().take(legacy@.len() as int)),
        forall|x: Seq<char>| #[trigger]
            r.deep_view().take(legacy@.len() as int).contains(x) <==> has_key(legacy@, x),
        r.deep_view().skip(legacy@.len() as int) == defaults.deep_view(),
{
    let mut r = ascending_keys(legacy);
    let ghost sorted = r.deep_view();
    append_texts(&mut r, defaults);
    proof {
        assert(r.deep_view().take(legacy@.len() as int) =~= sorted);
        assert(r.deep_view().skip(legacy@.len() as int) =~= defaults.deep_view());
    }
    r
}

} // verus!
