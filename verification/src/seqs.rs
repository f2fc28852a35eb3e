//! Removal of repeated items from a sequence, keeping first occurrences.

use vstd::prelude::*;

verus! {

/// `s` without the items that occurred before: of equal items the first stays,
/// and what stays keeps its order.
pub open spec fn dedup_first<T>(s: Seq<T>) -> Seq<T>
    decreases s.len(),
{
    if s.len() == 0 {
        s
    } else {
        let head = dedup_first(s.drop_last());
        if s.drop_last().contains(s.last()) {
            head
        } else {
            head.push(s.last())
        }
    }
}

/// The index of the first occurrence of `x` in `s`.
pub open spec fn first_index<T>(s: Seq<T>, x: T) -> int
    decreases s.len(),
{
    if s.len() == 0 {
        0
    } else if s.drop_last().contains(x) {
        first_index(s.drop_last(), x)
    } else {
        s.len() - 1
    }
}

/// `first_index` is the least index at which `x` stands.
pub proof fn lemma_first_index<T>(s: Seq<T>, x: T)
    requires
        s.contains(x),
    ensures
        0 <= first_index(s, x) < s.len(),
        s[first_index(s, x)] == x,
        forall|k: int| 0 <= k < first_index(s, x) ==> s[k] != x,
    decreases s.len(),
{
    let i = choose|i: int| 0 <= i < s.len() && s[i] == x;
    let d = s.drop_last();
    if d.contains(x) {
        lemma_first_index(d, x);
        assert forall|k: int| 0 <= k < first_index(s, x) implies s[k] != x by {
            assert(d[k] == s[k]);
        }
    } else {
        if i < s.len() - 1 {
            assert(d[i] == x);
        }
        assert forall|k: int| 0 <= k < s.len() - 1 implies s[k] != x by {
            if s[k] == x {
                assert(d[k] == x);
            }
        }
    }
}

/// What `dedup_first` keeps: every item of `s` once, the items in the order
/// of their first occurrences in `s`.
pub proof fn lemma_dedup_first<T>(s: Seq<T>)
    ensures
        dedup_first(s).no_duplicates(),
        dedup_first(s).len() <= s.len(),
        forall|x: T| #[trigger] dedup_first(s).contains(x) <==> s.contains(x),
        forall|i: int, j: int|
            0 <= i < j < dedup_first(s).len() ==> first_index(s, #[trigger] dedup_first(s)[i])
                < first_index(s, #[trigger] dedup_first(s)[j]),
    decreases s.len(),
{
    let r = dedup_first(s);
    if s.len() > 0 {
        let d = s.drop_last();
        let last = s.last();
        let h = dedup_first(d);
        lemma_dedup_first(d);
        assert forall|x: T| #[trigger] r.contains(x) <==> s.contains(x) by {
            if r.contains(x) {
                let i = choose|i: int| 0 <= i < r.len() && r[i] == x;
                if i < h.len() {
                    assert(h[i] == x);
                    assert(h.contains(x));
                    let k = choose|k: int| 0 <= k < d.len() && d[k] == x;
                    assert(s[k] == x);
                } else {
                    assert(s[s.len() - 1] == x);
                }
            }
            if s.contains(x) {
                let k = choose|k: int| 0 <= k < s.len() && s[k] == x;
                if k < d.len() {
                    assert(d[k] == x);
                    assert(h.contains(x));
                    let i = choose|i: int| 0 <= i < h.len() && h[i] == x;
                    assert(r[i] == x);
                } else {
                    if d.contains(last) {
                        assert(h.contains(x));
                        let i = choose|i: int| 0 <= i < h.len() && h[i] == x;
                        assert(r[i] == x);
                    } else {
                        assert(r[r.len() - 1] == x);
                    }
                }
            }
        }
        assert forall|i: int, j: int| 0 <= i < j < r.len() implies first_index(s, #[trigger] r[i])
            < first_index(s, #[trigger] r[j]) by {
            assert(h[i] == r[i]);
            assert(h.contains(r[i]));
            assert(d.contains(r[i]));
            lemma_first_index(d, r[i]);
            if j < h.len() {
                assert(h[j] == r[j]);
                assert(h.contains(r[j]));
                assert(d.contains(r[j]));
            } else {
                assert(!d.contains(r[j]));
            }
        }
        if !d.contains(last) {
            assert(!h.contains(last));
            assert forall|i: int, j: int| 0 <= i < r.len() && 0 <= j < r.len() && i != j implies r[i]
                != r[j] by {
                if i < h.len() {
                    assert(h[i] == r[i]);
                    assert(h.contains(r[i]));
                }
                if j < h.len() {
                    assert(h[j] == r[j]);
                    assert(h.contains(r[j]));
                }
            }
        }
    }
}

/// The items of `s` that are not in `gone`, in their order.
pub open spec fn without<T>(s: Seq<T>, gone: Seq<T>) -> Seq<T>
    decreases s.len(),
{
    if s.len() == 0 {
        s
    } else if gone.contains(s.last()) {
        without(s.drop_last(), gone)
    } else {
        without(s.drop_last(), gone).push(s.last())
    }
}

/// Of two sequences one after the other, the first keeps its places: what
/// stays of the second is what the first does not hold.
pub proof fn lemma_dedup_first_concat<T>(a: Seq<T>, b: Seq<T>)
    ensures
        dedup_first(a + b) == dedup_first(a) + without(dedup_first(b), a),
    decreases b.len(),
{
    if b.len() == 0 {
        assert(a + b =~= a);
        assert(dedup_first(a) + without(dedup_first(b), a) =~= dedup_first(a));
    } else {
        let d = b.drop_last();
        let x = b.last();
        let kept = dedup_first(d);
        assert((a + b).drop_last() =~= a + d);
        assert((a + b).last() == x);
        lemma_dedup_first_concat(a, d);
        assert((a + d).contains(x) <==> a.contains(x) || d.contains(x)) by {
            if (a + d).contains(x) {
                let i = choose|i: int| 0 <= i < (a + d).len() && (a + d)[i] == x;
                if i < a.len() {
                    assert(a[i] == x);
                } else {
                    assert(d[i - a.len()] == x);
                }
            }
            if a.contains(x) {
                let i = choose|i: int| 0 <= i < a.len() && a[i] == x;
                assert((a + d)[i] == x);
            }
            if d.contains(x) {
                let i = choose|i: int| 0 <= i < d.len() && d[i] == x;
                assert((a + d)[a.len() + i] == x);
            }
        }
        if !d.contains(x) {
            assert(kept.push(x).drop_last() =~= kept);
            assert(kept.push(x).last() == x);
            if !a.contains(x) {
                assert(dedup_first(a) + without(kept, a).push(x) =~= (dedup_first(a) + without(
                    kept,
                    a,
                )).push(x));
            }
        }
    }
}

/// What stands first in a sequence stands first after the repetitions are
/// removed.
pub proof fn lemma_dedup_first_head<T>(s: Seq<T>)
    requires
        s.len() > 0,
    ensures
        dedup_first(s).len() > 0,
        dedup_first(s)[0] == s[0],
    decreases s.len(),
{
    if s.len() > 1 {
        let d = s.drop_last();
        lemma_dedup_first_head(d);
        assert(d[0] == s[0]);
    } else {
        assert(s.drop_last() =~= Seq::<T>::empty());
        assert(dedup_first(s.drop_last()) =~= Seq::<T>::empty());
        assert(!s.drop_last().contains(s.last()));
    }
}

/// A sequence without repetition is what `dedup_first` makes of itself.
pub proof fn lemma_dedup_first_fixed<T>(s: Seq<T>)
    requires
        s.no_duplicates(),
    ensures
        dedup_first(s) == s,
    decreases s.len(),
{
    if s.len() > 0 {
        let d = s.drop_last();
        lemma_dedup_first_fixed(d);
        if d.contains(s.last()) {
            let k = choose|k: int| 0 <= k < d.len() && d[k] == s.last();
            assert(s[k] == s[s.len() - 1]);
        }
        assert(d.push(s.last()) =~= s);
    }
}

/// Removing repetitions twice removes no more than removing them once.
pub proof fn lemma_dedup_first_idempotent<T>(s: Seq<T>)
    ensures
        dedup_first(dedup_first(s)) == dedup_first(s),
{
    lemma_dedup_first(s);
    lemma_dedup_first_fixed(dedup_first(s));
}

} // verus!
