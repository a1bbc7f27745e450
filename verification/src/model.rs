//! The mathematical model of a segment.
//!
//! In-memory and on-disk segments are two encodings of one structure:
//! a sorted key table, a sorted value table, and a table of
//! `(key index, value index)` pairs sorted by pair.  This module defines
//! that structure, what a lookup returns over it, how it is built from
//! an input batch, and the ordering and round-trip laws the engine
//! guarantees.  Both segment kinds state their contracts over this one
//! model, which is what makes their results interchangeable.

use vstd::prelude::*;
use crate::order::{lex_lt, lemma_lex_irrefl, lemma_lex_trans, strictly_sorted};

verus! {

/// The model of one segment.
pub struct SegModel {
    /// Decoded keys, strictly ascending.
    pub keys: Seq<Seq<char>>,
    /// Decoded values, strictly ascending.
    pub values: Seq<Seq<char>>,
    /// `(key index, value index)` pairs, strictly ascending by pair.
    pub entries: Seq<(int, int)>,
}

/// An input batch: a mapping from keys to value lists, as a sequence of
/// pairs with distinct keys.
pub type BatchView = Seq<(Seq<char>, Seq<Seq<char>>)>;

/// Strict order on entry pairs: by key index, then by value index.
pub open spec fn pair_lt(a: (int, int), b: (int, int)) -> bool {
    a.0 < b.0 || (a.0 == b.0 && a.1 < b.1)
}

pub open spec fn pairs_sorted(s: Seq<(int, int)>) -> bool {
    forall|i: int, j: int| 0 <= i < j < s.len() ==> pair_lt(s[i], s[j])
}

/// The segment structure invariant: both string tables strictly sorted,
/// the entry pairs strictly sorted, and every pair in range.
pub open spec fn model_wf(m: SegModel) -> bool {
    &&& strictly_sorted(m.keys)
    &&& strictly_sorted(m.values)
    &&& pairs_sorted(m.entries)
    &&& forall|i: int|
        0 <= i < m.entries.len() ==> 0 <= (#[trigger] m.entries[i]).0 < m.keys.len() && 0
            <= m.entries[i].1 < m.values.len()
}

/// The index of a key in the key table.
pub open spec fn key_index(keys: Seq<Seq<char>>, k: Seq<char>) -> int {
    choose|i: int| 0 <= i < keys.len() && keys[i] == k
}

/// In a strictly sorted table every string occurs at most once.
pub proof fn lemma_sorted_index_unique(keys: Seq<Seq<char>>, i: int, j: int)
    requires
        strictly_sorted(keys),
        0 <= i < keys.len(),
        0 <= j < keys.len(),
        keys[i] == keys[j],
    ensures
        i == j,
{
    if i < j {
        lemma_lex_irrefl(keys[i]);
    }
    if j < i {
        lemma_lex_irrefl(keys[i]);
    }
}

/// The entry pairs carrying a given key index, in order.
pub open spec fn pairs_with_key(entries: Seq<(int, int)>, ki: int) -> Seq<(int, int)>
    decreases entries.len(),
{
    if entries.len() == 0 {
        Seq::empty()
    } else if entries[0].0 == ki {
        seq![entries[0]] + pairs_with_key(entries.drop_first(), ki)
    } else {
        pairs_with_key(entries.drop_first(), ki)
    }
}

/// What a lookup returns over the model: the values of the pairs whose
/// key index is the queried key's, in pair order; an absent key yields
/// nothing.
pub open spec fn seg_find(m: SegModel, k: Seq<char>) -> Seq<Seq<char>> {
    if m.keys.contains(k) {
        pairs_with_key(m.entries, key_index(m.keys, k)).map_values(|e: (int, int)| m.values[e.1])
    } else {
        Seq::empty()
    }
}

pub proof fn lemma_pwk_contains(entries: Seq<(int, int)>, ki: int, e: (int, int))
    ensures
        pairs_with_key(entries, ki).contains(e) <==> (entries.contains(e) && e.0 == ki),
    decreases entries.len(),
{
    if entries.len() > 0 {
        lemma_pwk_contains(entries.drop_first(), ki, e);
        let rest = entries.drop_first();
        let sub = pairs_with_key(entries, ki);
        if entries.contains(e) && e.0 == ki {
            let j = choose|j: int| 0 <= j < entries.len() && entries[j] == e;
            if j == 0 {
                assert(sub[0] == e);
                assert(sub.contains(e));
            } else {
                assert(rest[j - 1] == e);
                assert(rest.contains(e));
                let subr = pairs_with_key(rest, ki);
                let p = choose|p: int| 0 <= p < subr.len() && subr[p] == e;
                if entries[0].0 == ki {
                    assert(sub[p + 1] == e);
                } else {
                    assert(sub[p] == e);
                }
                assert(sub.contains(e));
            }
        }
        if sub.contains(e) {
            let p = choose|p: int| 0 <= p < sub.len() && sub[p] == e;
            if entries[0].0 == ki {
                if p == 0 {
                    assert(entries[0] == e);
                    assert(entries.contains(e));
                } else {
                    assert(pairs_with_key(rest, ki)[p - 1] == e);
                    assert(pairs_with_key(rest, ki).contains(e));
                    let q = choose|q: int| 0 <= q < rest.len() && rest[q] == e;
                    assert(entries[q + 1] == e);
                    assert(entries.contains(e));
                }
            } else {
                assert(pairs_with_key(rest, ki).contains(e));
                let q = choose|q: int| 0 <= q < rest.len() && rest[q] == e;
                assert(entries[q + 1] == e);
                assert(entries.contains(e));
            }
        }
    }
}

pub proof fn lemma_pwk_sorted(entries: Seq<(int, int)>, ki: int)
    requires
        pairs_sorted(entries),
    ensures
        pairs_sorted(pairs_with_key(entries, ki)),
    decreases entries.len(),
{
    if entries.len() > 0 {
        let rest = entries.drop_first();
        assert(pairs_sorted(rest)) by {
            assert forall|i: int, j: int| 0 <= i < j < rest.len() implies pair_lt(
                rest[i],
                rest[j],
            ) by {
                assert(rest[i] == entries[i + 1]);
                assert(rest[j] == entries[j + 1]);
            }
        }
        lemma_pwk_sorted(rest, ki);
        if entries[0].0 == ki {
            let subr = pairs_with_key(rest, ki);
            let sub = pairs_with_key(entries, ki);
            assert forall|i: int, j: int| 0 <= i < j < sub.len() implies pair_lt(
                sub[i],
                sub[j],
            ) by {
                if i == 0 {
                    assert(sub[j] == subr[j - 1]);
                    lemma_pwk_contains(rest, ki, subr[j - 1]);
                    let q = choose|q: int| 0 <= q < rest.len() && rest[q] == subr[j - 1];
                    assert(rest[q] == entries[q + 1]);
                    assert(pair_lt(entries[0], entries[q + 1]));
                } else {
                    assert(sub[i] == subr[i - 1]);
                    assert(sub[j] == subr[j - 1]);
                }
            }
        }
    }
}

pub proof fn lemma_pwk_empty(entries: Seq<(int, int)>, ki: int)
    requires
        forall|i: int| 0 <= i < entries.len() ==> (#[trigger] entries[i]).0 != ki,
    ensures
        pairs_with_key(entries, ki) == Seq::<(int, int)>::empty(),
    decreases entries.len(),
{
    if entries.len() > 0 {
        let rest = entries.drop_first();
        assert forall|i: int| 0 <= i < rest.len() implies (#[trigger] rest[i]).0 != ki by {
            assert(rest[i] == entries[i + 1]);
        }
        lemma_pwk_empty(rest, ki);
    }
}

pub proof fn lemma_pwk_concat(a: Seq<(int, int)>, b: Seq<(int, int)>, ki: int)
    ensures
        pairs_with_key(a + b, ki) == pairs_with_key(a, ki) + pairs_with_key(b, ki),
    decreases a.len(),
{
    if a.len() == 0 {
        assert(a + b =~= b);
        assert(pairs_with_key(a, ki) + pairs_with_key(b, ki) =~= pairs_with_key(b, ki));
    } else {
        assert((a + b).drop_first() =~= a.drop_first() + b);
        assert((a + b)[0] == a[0]);
        lemma_pwk_concat(a.drop_first(), b, ki);
        if a[0].0 == ki {
            assert(seq![a[0]] + (pairs_with_key(a.drop_first(), ki) + pairs_with_key(b, ki)) =~= (
            seq![a[0]] + pairs_with_key(a.drop_first(), ki)) + pairs_with_key(b, ki));
        }
    }
}

pub proof fn lemma_pwk_all(entries: Seq<(int, int)>, ki: int)
    requires
        forall|i: int| 0 <= i < entries.len() ==> (#[trigger] entries[i]).0 == ki,
    ensures
        pairs_with_key(entries, ki) == entries,
    decreases entries.len(),
{
    if entries.len() > 0 {
        let rest = entries.drop_first();
        assert forall|i: int| 0 <= i < rest.len() implies (#[trigger] rest[i]).0 == ki by {
            assert(rest[i] == entries[i + 1]);
        }
        lemma_pwk_all(rest, ki);
        assert(seq![entries[0]] + rest =~= entries);
    }
}

/// In a table sorted by pair, the pairs carrying one key index form one
/// contiguous run.
pub proof fn lemma_pwk_run(entries: Seq<(int, int)>, ki: int, lo: int, hi: int)
    requires
        0 <= lo <= hi <= entries.len(),
        forall|j: int| lo <= j < hi ==> (#[trigger] entries[j]).0 == ki,
        forall|j: int| 0 <= j < lo ==> (#[trigger] entries[j]).0 != ki,
        forall|j: int| hi <= j < entries.len() ==> (#[trigger] entries[j]).0 != ki,
    ensures
        pairs_with_key(entries, ki) == entries.subrange(lo, hi),
{
    let front = entries.subrange(0, lo);
    let run = entries.subrange(lo, hi);
    let back = entries.subrange(hi, entries.len() as int);
    assert(entries =~= front + run + back);
    lemma_pwk_concat(front + run, back, ki);
    lemma_pwk_concat(front, run, ki);
    lemma_pwk_empty(front, ki);
    lemma_pwk_empty(back, ki);
    lemma_pwk_all(run, ki);
    assert(pairs_with_key(entries, ki) =~= run);
}

/// All the values of a batch, in batch order.
pub open spec fn flat_values(iv: BatchView) -> Seq<Seq<char>>
    decreases iv.len(),
{
    if iv.len() == 0 {
        Seq::empty()
    } else {
        iv[0].1 + flat_values(iv.drop_first())
    }
}

pub proof fn lemma_flat_values_concat(a: BatchView, b: BatchView)
    ensures
        flat_values(a + b) == flat_values(a) + flat_values(b),
    decreases a.len(),
{
    if a.len() == 0 {
        assert(a + b =~= b);
        assert(flat_values(a) + flat_values(b) =~= flat_values(b));
    } else {
        assert((a + b).drop_first() =~= a.drop_first() + b);
        assert((a + b)[0] == a[0]);
        lemma_flat_values_concat(a.drop_first(), b);
        assert(a[0].1 + (flat_values(a.drop_first()) + flat_values(b)) =~= (a[0].1 + flat_values(
            a.drop_first(),
        )) + flat_values(b));
    }
}

pub proof fn lemma_flat_values_contains(iv: BatchView, v: Seq<char>)
    ensures
        flat_values(iv).contains(v) <==> batch_has_value(iv, v),
    decreases iv.len(),
{
    if iv.len() > 0 {
        let rest = iv.drop_first();
        lemma_flat_values_contains(rest, v);
        let fv = flat_values(iv);
        if fv.contains(v) {
            let p = choose|p: int| 0 <= p < fv.len() && fv[p] == v;
            if p < iv[0].1.len() {
                assert(iv[0].1[p] == v);
                assert(batch_has_value(iv, v));
            } else {
                assert(flat_values(rest)[p - iv[0].1.len()] == v);
                assert(flat_values(rest).contains(v));
                let (i, j) = choose|i: int, j: int|
                    0 <= i < rest.len() && 0 <= j < rest[i].1.len() && #[trigger] rest[i].1[j]
                        == v;
                assert(iv[i + 1].1[j] == v);
                assert(batch_has_value(iv, v));
            }
        }
        if batch_has_value(iv, v) {
            let (i, j) = choose|i: int, j: int|
                0 <= i < iv.len() && 0 <= j < iv[i].1.len() && #[trigger] iv[i].1[j] == v;
            if i == 0 {
                assert(fv[j] == v);
                assert(fv.contains(v));
            } else {
                assert(rest[i - 1].1[j] == v);
                assert(batch_has_value(rest, v));
                assert(flat_values(rest).contains(v));
                let p = choose|p: int| 0 <= p < flat_values(rest).len() && flat_values(rest)[p]
                    == v;
                assert(fv[iv[0].1.len() + p] == v);
                assert(fv.contains(v));
            }
        }
    }
}

/// The batch has an entry for key `k`.
pub open spec fn batch_has_key(iv: BatchView, k: Seq<char>) -> bool {
    exists|i: int| 0 <= i < iv.len() && (#[trigger] iv[i]).0 == k
}

/// Some value list of the batch holds `v`.
pub open spec fn batch_has_value(iv: BatchView, v: Seq<char>) -> bool {
    exists|i: int, j: int|
        0 <= i < iv.len() && 0 <= j < iv[i].1.len() && #[trigger] iv[i].1[j] == v
}

/// The batch maps key `k` to (among others) value `v`.
pub open spec fn batch_has_pair(iv: BatchView, k: Seq<char>, v: Seq<char>) -> bool {
    exists|i: int, j: int|
        0 <= i < iv.len() && iv[i].0 == k && 0 <= j < iv[i].1.len() && #[trigger] iv[i].1[j] == v
}

/// The batch's keys are pairwise distinct.
pub open spec fn batch_keys_distinct(iv: BatchView) -> bool {
    forall|i: int, j: int| 0 <= i < j < iv.len() ==> (#[trigger] iv[i]).0 != (#[trigger] iv[j]).0
}

/// The segment a batch builds: the keys are the batch's keys, the values
/// are the union of its value lists, and the entry pairs are exactly the
/// index pairs of the batch's `(key, value)` pairs.
pub open spec fn built_from(m: SegModel, iv: BatchView) -> bool {
    &&& model_wf(m)
    &&& forall|k: Seq<char>| #[trigger] m.keys.contains(k) <==> batch_has_key(iv, k)
    &&& forall|v: Seq<char>| #[trigger] m.values.contains(v) <==> batch_has_value(iv, v)
    &&& forall|a: int, b: int|
        #[trigger] m.entries.contains((a, b)) <==> (0 <= a < m.keys.len() && 0 <= b
            < m.values.len() && batch_has_pair(iv, m.keys[a], m.values[b]))
}

/// Round-trip law: looking up a key of the batch in the segment built
/// from it returns exactly the distinct values the batch maps that key
/// to, in strictly ascending order — that is, the sorted deduplication
/// of the key's value list.
pub proof fn lemma_round_trip(m: SegModel, iv: BatchView, k: Seq<char>)
    requires
        built_from(m, iv),
        batch_has_key(iv, k),
    ensures
        strictly_sorted(seg_find(m, k)),
        forall|v: Seq<char>| #[trigger] seg_find(m, k).contains(v) <==> batch_has_pair(iv, k, v),
{
    assert(m.keys.contains(k));
    let ki = key_index(m.keys, k);
    assert(0 <= ki < m.keys.len() && m.keys[ki] == k);
    let run = pairs_with_key(m.entries, ki);
    let res = seg_find(m, k);
    lemma_pwk_sorted(m.entries, ki);

    assert forall|p: int| 0 <= p < run.len() implies (#[trigger] run[p]).0 == ki && 0 <= run[p].1
        < m.values.len() by {
        assert(run.contains(run[p]));
        lemma_pwk_contains(m.entries, ki, run[p]);
        assert(m.entries.contains(run[p]));
        let q = choose|q: int| 0 <= q < m.entries.len() && m.entries[q] == run[p];
        assert(0 <= m.entries[q].1 < m.values.len());
    }

    assert forall|i: int, j: int| 0 <= i < j < res.len() implies lex_lt(res[i], res[j]) by {
        assert(pair_lt(run[i], run[j]));
        assert(run[i].0 == ki && run[j].0 == ki);
        assert(run[i].1 < run[j].1);
        assert(lex_lt(m.values[run[i].1], m.values[run[j].1]));
    }

    assert forall|v: Seq<char>| #[trigger] res.contains(v) <==> batch_has_pair(iv, k, v) by {
        if res.contains(v) {
            let p = choose|p: int| 0 <= p < res.len() && res[p] == v;
            let e = run[p];
            assert(run.contains(e));
            lemma_pwk_contains(m.entries, ki, e);
            assert(m.entries.contains(e));
            assert(m.entries.contains((e.0, e.1)));
            assert(batch_has_pair(iv, m.keys[e.0], m.values[e.1]));
            assert(m.keys[e.0] == k);
        }
        if batch_has_pair(iv, k, v) {
            assert(batch_has_value(iv, v));
            assert(m.values.contains(v));
            let b = choose|b: int| 0 <= b < m.values.len() && m.values[b] == v;
            assert(batch_has_pair(iv, m.keys[ki], m.values[b]));
            assert(m.entries.contains((ki, b)));
            lemma_pwk_contains(m.entries, ki, (ki, b));
            assert(run.contains((ki, b)));
            let p = choose|p: int| 0 <= p < run.len() && run[p] == (ki, b);
            assert(res[p] == v);
            assert(res.contains(v));
        }
    }
}

/// A key absent from the batch finds nothing in the segment built from
/// it.
pub proof fn lemma_find_absent(m: SegModel, iv: BatchView, k: Seq<char>)
    requires
        built_from(m, iv),
        !batch_has_key(iv, k),
    ensures
        seg_find(m, k) == Seq::<Seq<char>>::empty(),
{
    assert(!m.keys.contains(k));
}

/// Segment parity: lookup is a function of the model alone, so an
/// in-memory segment and the on-disk segment written from it — which the
/// writer guarantees has the same model — return the same results for
/// every key.
pub proof fn lemma_segment_parity(m1: SegModel, m2: SegModel, k: Seq<char>)
    requires
        m1.keys == m2.keys,
        m1.values == m2.values,
        m1.entries == m2.entries,
    ensures
        seg_find(m1, k) == seg_find(m2, k),
{
    assert(m1 == m2);
}

/// What a tiered lookup returns before the limit is applied: the
/// segments' results concatenated in segment order.
pub open spec fn all_results(models: Seq<SegModel>, k: Seq<char>) -> Seq<Seq<char>>
    decreases models.len(),
{
    if models.len() == 0 {
        Seq::empty()
    } else {
        seg_find(models[0], k) + all_results(models.drop_first(), k)
    }
}

pub proof fn lemma_all_results_concat(a: Seq<SegModel>, b: Seq<SegModel>, k: Seq<char>)
    ensures
        all_results(a + b, k) == all_results(a, k) + all_results(b, k),
    decreases a.len(),
{
    if a.len() == 0 {
        assert(a + b =~= b);
        assert(all_results(a, k) + all_results(b, k) =~= all_results(b, k));
    } else {
        assert((a + b).drop_first() =~= a.drop_first() + b);
        assert((a + b)[0] == a[0]);
        lemma_all_results_concat(a.drop_first(), b, k);
        assert(seg_find(a[0], k) + (all_results(a.drop_first(), k) + all_results(b, k)) =~= (
        seg_find(a[0], k) + all_results(a.drop_first(), k)) + all_results(b, k));
    }
}

/// The results, cut to the caller's limit: all of them when no limit is
/// given, and at most `l` of them under limit `l`.
pub open spec fn take_up_to(s: Seq<Seq<char>>, limit: Option<usize>) -> Seq<Seq<char>> {
    match limit {
        Option::None => s,
        Option::Some(l) => if s.len() <= l {
            s
        } else {
            s.take(l as int)
        },
    }
}

/// Limit law: under limit `l` the result holds `min(l, total)` values.
pub proof fn lemma_take_up_to_len(s: Seq<Seq<char>>, limit: Option<usize>)
    ensures
        match limit {
            Option::None => take_up_to(s, limit).len() == s.len(),
            Option::Some(l) => take_up_to(s, limit).len() == if s.len() <= l {
                s.len() as int
            } else {
                l as int
            },
        },
{
}

} // verus!
