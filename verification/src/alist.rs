//! Specification vocabulary for association sequences.
//!
//! Every map-like container in this crate is stored as a vector of
//! key/value pairs whose keys are pairwise distinct, and is abstracted as
//! the sequence of pairs it holds. The functions here say what such a
//! sequence contains, and the lemmas relate lookup to insertion, update
//! and extension; the container modules build their contracts from them.

use vstd::prelude::*;

verus! {

/// Whether some pair of `s` carries the key `k`.
pub open spec fn alist_contains<K, V>(s: Seq<(K, V)>, k: K) -> bool {
    exists|i: int| 0 <= i < s.len() && (#[trigger] s[i]).0 == k
}

/// The value of the first pair of `s` carrying `k`, if any.
pub open spec fn alist_find<K, V>(s: Seq<(K, V)>, k: K) -> Option<V>
    decreases s.len(),
{
    if s.len() == 0 {
        None
    } else if s[0].0 == k {
        Some(s[0].1)
    } else {
        alist_find(s.drop_first(), k)
    }
}

/// Whether the keys of `s` are pairwise distinct.
pub open spec fn alist_distinct<K, V>(s: Seq<(K, V)>) -> bool {
    forall|i: int, j: int|
        0 <= i < j < s.len() ==> (#[trigger] s[i]).0 != (#[trigger] s[j]).0
}

/// Lookup finds the pair at `i` when no earlier pair carries its key.
pub proof fn lemma_find_at<K, V>(s: Seq<(K, V)>, k: K, i: int)
    requires
        0 <= i < s.len(),
        s[i].0 == k,
        forall|j: int| 0 <= j < i ==> (#[trigger] s[j]).0 != k,
    ensures
        alist_find(s, k) == Some(s[i].1),
    decreases i,
{
    if i == 0 {
    } else {
        assert forall|j: int| 0 <= j < i - 1 implies (#[trigger] s.drop_first()[j]).0 != k by {
            assert(s.drop_first()[j] == s[j + 1]);
        }
        lemma_find_at(s.drop_first(), k, i - 1);
    }
}

/// Lookup fails when no pair carries the key.
pub proof fn lemma_find_absent<K, V>(s: Seq<(K, V)>, k: K)
    requires
        forall|j: int| 0 <= j < s.len() ==> (#[trigger] s[j]).0 != k,
    ensures
        alist_find(s, k) == None::<V>,
    decreases s.len(),
{
    if s.len() > 0 {
        assert forall|j: int| 0 <= j < s.len() - 1 implies (#[trigger] s.drop_first()[j]).0 != k by {
            assert(s.drop_first()[j] == s[j + 1]);
        }
        lemma_find_absent(s.drop_first(), k);
    }
}

/// Lookup succeeds exactly on the keys the sequence contains.
pub proof fn lemma_find_contains<K, V>(s: Seq<(K, V)>, k: K)
    ensures
        alist_find(s, k) is Some <==> alist_contains(s, k),
    decreases s.len(),
{
    if s.len() > 0 {
        lemma_find_contains(s.drop_first(), k);
        if s[0].0 != k && alist_contains(s.drop_first(), k) {
            let i = choose|i: int|
                0 <= i < s.drop_first().len() && (#[trigger] s.drop_first()[i]).0 == k;
            assert(s[i + 1] == s.drop_first()[i]);
        }
        if s[0].0 != k && alist_contains(s, k) {
            let i = choose|i: int| 0 <= i < s.len() && (#[trigger] s[i]).0 == k;
            assert(s.drop_first()[i - 1] == s[i]);
        }
    }
}

/// How lookup behaves after a pair is appended.
pub proof fn lemma_find_push<K, V>(s: Seq<(K, V)>, k: K, v: V, q: K)
    ensures
        alist_find(s.push((k, v)), q) == if alist_find(s, q) is Some {
            alist_find(s, q)
        } else if q == k {
            Some(v)
        } else {
            None::<V>
        },
    decreases s.len(),
{
    if s.len() == 0 {
        assert(s.push((k, v)).drop_first() =~= Seq::<(K, V)>::empty());
        assert(s.push((k, v))[0] == (k, v));
        assert(alist_find(Seq::<(K, V)>::empty(), q) == None::<V>);
    } else {
        assert(s.push((k, v)).drop_first() =~= s.drop_first().push((k, v)));
        lemma_find_push(s.drop_first(), k, v, q);
    }
}

/// How lookup behaves after the pair at `i` has its value replaced.
pub proof fn lemma_find_update<K, V>(s: Seq<(K, V)>, i: int, v: V, q: K)
    requires
        0 <= i < s.len(),
        alist_distinct(s),
    ensures
        alist_find(s.update(i, (s[i].0, v)), q) == if q == s[i].0 {
            Some(v)
        } else {
            alist_find(s, q)
        },
{
    let t = s.update(i, (s[i].0, v));
    assert(t[i].0 == s[i].0);
    if q == s[i].0 {
        assert(forall|j: int| 0 <= j < i ==> (#[trigger] t[j]).0 != q);
        lemma_find_at(t, q, i);
    } else {
        lemma_find_contains(s, q);
        lemma_find_contains(t, q);
        if alist_contains(s, q) {
            let jf = find_index(s, q);
            lemma_find_index(s, q);
            assert(t[jf] == s[jf]);
            assert forall|m: int| 0 <= m < jf implies (#[trigger] t[m]).0 != q by {
                if m != i {
                    assert(t[m] == s[m]);
                }
            }
            lemma_find_at(t, q, jf);
        } else {
            assert(forall|j: int| 0 <= j < t.len() ==> (#[trigger] t[j]).0 != q);
            lemma_find_absent(t, q);
            lemma_find_absent(s, q);
        }
    }
}

/// The position of the first pair of `s` carrying `k`.
pub open spec fn find_index<K, V>(s: Seq<(K, V)>, k: K) -> int
    decreases s.len(),
{
    if s.len() == 0 {
        0
    } else if s[0].0 == k {
        0
    } else {
        1 + find_index(s.drop_first(), k)
    }
}

/// When `s` contains `k`, `find_index` points at its first occurrence.
pub proof fn lemma_find_index<K, V>(s: Seq<(K, V)>, k: K)
    requires
        alist_contains(s, k),
    ensures
        0 <= find_index(s, k) < s.len(),
        s[find_index(s, k)].0 == k,
        forall|j: int| 0 <= j < find_index(s, k) ==> (#[trigger] s[j]).0 != k,
        alist_find(s, k) == Some(s[find_index(s, k)].1),
    decreases s.len(),
{
    if s[0].0 == k {
    } else {
        let i = choose|i: int| 0 <= i < s.len() && (#[trigger] s[i]).0 == k;
        assert(s.drop_first()[i - 1] == s[i]);
        lemma_find_index(s.drop_first(), k);
        let f = find_index(s.drop_first(), k);
        assert(s[f + 1] == s.drop_first()[f]);
        assert forall|j: int| 0 <= j < f + 1 implies (#[trigger] s[j]).0 != k by {
            if j > 0 {
                assert(s.drop_first()[j - 1] == s[j]);
            }
        }
        lemma_find_at(s, k, f + 1);
    }
}

/// Appending a fresh key preserves distinctness.
pub proof fn lemma_distinct_push<K, V>(s: Seq<(K, V)>, k: K, v: V)
    requires
        alist_distinct(s),
        !alist_contains(s, k),
    ensures
        alist_distinct(s.push((k, v))),
{
    let t = s.push((k, v));
    assert forall|i: int, j: int| 0 <= i < j < t.len() implies (#[trigger] t[i]).0 != (
    #[trigger] t[j]).0 by {
        if j == s.len() {
            assert(t[i] == s[i]);
        } else {
            assert(t[i] == s[i] && t[j] == s[j]);
        }
    }
}

/// Replacing the value at `i` preserves distinctness.
pub proof fn lemma_distinct_update<K, V>(s: Seq<(K, V)>, i: int, v: V)
    requires
        0 <= i < s.len(),
        alist_distinct(s),
    ensures
        alist_distinct(s.update(i, (s[i].0, v))),
{
}

/// `s` with `k` bound to `v`: the first pair carrying `k` is replaced, or a
/// fresh pair is appended.
pub open spec fn alist_insert<K, V>(s: Seq<(K, V)>, k: K, v: V) -> Seq<(K, V)> {
    if alist_contains(s, k) {
        s.update(find_index(s, k), (k, v))
    } else {
        s.push((k, v))
    }
}

/// How lookup behaves after an insertion.
pub proof fn lemma_find_insert<K, V>(s: Seq<(K, V)>, k: K, v: V, q: K)
    requires
        alist_distinct(s),
    ensures
        alist_find(alist_insert(s, k, v), q) == if q == k {
            Some(v)
        } else {
            alist_find(s, q)
        },
{
    if alist_contains(s, k) {
        let i = find_index(s, k);
        lemma_find_index(s, k);
        assert((k, v) == (s[i].0, v));
        lemma_find_update(s, i, v, q);
    } else {
        lemma_find_push(s, k, v, q);
        lemma_find_contains(s, q);
        if q == k {
            lemma_find_contains(s, k);
        }
    }
}

/// Insertion preserves distinctness.
pub proof fn lemma_distinct_insert<K, V>(s: Seq<(K, V)>, k: K, v: V)
    requires
        alist_distinct(s),
    ensures
        alist_distinct(alist_insert(s, k, v)),
{
    if alist_contains(s, k) {
        let i = find_index(s, k);
        lemma_find_index(s, k);
        assert((k, v) == (s[i].0, v));
        lemma_distinct_update(s, i, v);
    } else {
        lemma_distinct_push(s, k, v);
    }
}

/// The association sequence built by inserting the pairs of `ps` in order,
/// later pairs replacing earlier ones with the same key.
pub open spec fn alist_from_pairs<K, V>(ps: Seq<(K, V)>) -> Seq<(K, V)>
    decreases ps.len(),
{
    if ps.len() == 0 {
        Seq::empty()
    } else {
        alist_insert(alist_from_pairs(ps.drop_last()), ps.last().0, ps.last().1)
    }
}

/// Writing `v` under `k` into a write-once table: a fresh key is
/// appended, an agreeing rewrite is a silent success, and a differing
/// rewrite is refused with the value already stored.
pub open spec fn alist_write_once<K, V>(s: Seq<(K, V)>, k: K, v: V) -> Result<Seq<(K, V)>, V> {
    match alist_find(s, k) {
        None => Ok(s.push((k, v))),
        Some(w) => if w == v {
            Ok(s)
        } else {
            Err(w)
        },
    }
}

/// A write-once write keeps keys distinct.
pub proof fn lemma_write_once_distinct<K, V>(s: Seq<(K, V)>, k: K, v: V)
    requires
        alist_distinct(s),
        alist_write_once(s, k, v) matches Ok(t),
    ensures
        alist_write_once(s, k, v) matches Ok(t) ==> alist_distinct(t),
{
    if alist_find(s, k) is None {
        lemma_find_contains(s, k);
        lemma_distinct_push(s, k, v);
    }
}

/// After a successful write of `v` under `k`, the table holds `v` there.
pub proof fn lemma_write_once_find<K, V>(s: Seq<(K, V)>, k: K, v: V, q: K)
    requires
        alist_write_once(s, k, v) matches Ok(t),
    ensures
        alist_write_once(s, k, v) matches Ok(t) ==> alist_find(t, q) == if q == k {
            Some(v)
        } else {
            alist_find(s, q)
        },
{
    if alist_find(s, k) is None {
        lemma_find_push(s, k, v, q);
    }
}

} // verus!
