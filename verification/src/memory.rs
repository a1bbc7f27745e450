//! In-memory segments.
//!
//! A cached segment is the in-memory form of a segment: sorted unique
//! key and value tables, the sorted entry pairs joining them, and a
//! bloom filter over the keys.  It is immutable once built.

use vstd::prelude::*;
use vstd::utf8::encode_utf8;
use crate::order::{
    lex_lt, strictly_sorted, views_of, insert_sorted, find_string, str_compare, lemma_lex_irrefl,
};
use crate::entry::Entry;
use crate::bloom::{bloom_keys, bloom_new, bloom_set, bloom_usable};
use crate::model::{
    SegModel, BatchView, pair_lt, pairs_sorted, model_wf, key_index, seg_find, pairs_with_key,
    built_from, batch_has_key, batch_has_value, batch_has_pair, batch_keys_distinct, flat_values,
    lemma_flat_values_concat, lemma_flat_values_contains, lemma_sorted_index_unique,
    lemma_pwk_run, lemma_pwk_empty,
};
use crate::segment::SegmentMapError;

verus! {

/// The view of an input batch: decoded keys and value lists.
pub open spec fn batch_view_of(b: Seq<(String, Vec<String>)>) -> BatchView {
    Seq::new(b.len(), |i: int| (b[i].0@, views_of(b[i].1@)))
}

/// Every string of the batch fits the 31-bit payload length field of the
/// segment file format.
pub open spec fn batch_fits(iv: BatchView) -> bool {
    &&& forall|i: int|
        0 <= i < iv.len() ==> encode_utf8((#[trigger] iv[i]).0).len() < 0x80000000
    &&& forall|i: int, j: int|
        0 <= i < iv.len() && 0 <= j < iv[i].1.len() ==> encode_utf8(
            #[trigger] iv[i].1[j],
        ).len() < 0x80000000
}

/// The index pairs of an entry table, as mathematical integers.
pub open spec fn pair_view(s: Seq<(u32, u32)>) -> Seq<(int, int)> {
    Seq::new(s.len(), |i: int| (s[i].0 as int, s[i].1 as int))
}

/// The decoded strings of an entry table.
pub open spec fn entry_views(s: Seq<Entry>) -> Seq<Seq<char>> {
    Seq::new(s.len(), |i: int| s[i].decoded()->0)
}

/// Insert an index pair into a sorted pair table, keeping it sorted and
/// ignoring the pair if it is already present.
#[verifier::rlimit(30)]
pub(crate) fn insert_sorted_pair(list: &mut Vec<(u32, u32)>, a: u32, b: u32)
    requires
        pairs_sorted(pair_view(old(list)@)),
    ensures
        pairs_sorted(pair_view(final(list)@)),
        forall|e: (int, int)|
            #[trigger] pair_view(final(list)@).contains(e) <==> (pair_view(
                old(list)@,
            ).contains(e) || e == (a as int, b as int)),
{
    let ghost orig = list@;
    let ghost item = (a as int, b as int);
    let mut i: usize = 0;
    loop
        invariant
            item == (a as int, b as int),
            pairs_sorted(pair_view(list@)),
            list@ == orig,
            i <= list.len(),
            forall|j: int| 0 <= j < i ==> pair_lt(#[trigger] pair_view(list@)[j], item),
        ensures
            item == (a as int, b as int),
            list@ == orig,
            i <= list.len(),
            forall|j: int| 0 <= j < i ==> pair_lt(#[trigger] pair_view(list@)[j], item),
            i < list.len() ==> pair_lt(item, pair_view(list@)[i as int]),
        decreases list.len() - i,
    {
        if i == list.len() {
            break;
        }
        let p = list[i];
        assert(pair_view(list@)[i as int] == (p.0 as int, p.1 as int));
        if p.0 == a && p.1 == b {
            assert(pair_view(list@)[i as int] == item);
            assert(pair_view(list@).contains(item));
            return;
        }
        if p.0 > a || (p.0 == a && p.1 > b) {
            break;
        }
        assert(pair_lt(pair_view(list@)[i as int], item));
        i = i + 1;
    }
    let ghost pos = i as int;
    list.insert(i, (a, b));
    proof {
        let nv = pair_view(list@);
        let ov = pair_view(orig);
        assert(list@ == orig.insert(pos, (a, b)));
        orig.insert_ensures(pos, (a, b));
        assert(nv.len() == ov.len() + 1);
        assert forall|j: int| 0 <= j < nv.len() implies nv[j] == (if j < pos {
            ov[j]
        } else if j == pos {
            item
        } else {
            ov[j - 1]
        }) by {
            assert(nv[j] == (list@[j].0 as int, list@[j].1 as int));
        }
        assert forall|x: int, y: int| 0 <= x < y < nv.len() implies pair_lt(nv[x], nv[y]) by {
            if y < pos {
                assert(pair_lt(ov[x], ov[y]));
            } else if x < pos && y == pos {
                assert(pair_lt(ov[x], item));
            } else if y > pos {
                assert(nv[y] == ov[y - 1]);
                if x == pos {
                    if pos == y - 1 {
                        assert(pair_lt(item, ov[y - 1]));
                    } else {
                        assert(pair_lt(item, ov[pos]));
                        assert(pair_lt(ov[pos], ov[y - 1]));
                    }
                } else if x < pos {
                    if pos == y - 1 {
                        assert(pair_lt(ov[x], item));
                        assert(pair_lt(item, ov[y - 1]));
                    } else {
                        assert(pair_lt(ov[x], ov[y - 1]));
                    }
                } else {
                    assert(nv[x] == ov[x - 1]);
                    assert(pair_lt(ov[x - 1], ov[y - 1]));
                }
            }
        }
        assert forall|e: (int, int)|
            #[trigger] nv.contains(e) <==> (ov.contains(e) || e == item) by {
            if nv.contains(e) {
                let j = choose|j: int| 0 <= j < nv.len() && nv[j] == e;
                if j < pos {
                    assert(ov[j] == e);
                    assert(ov.contains(e));
                } else if j > pos {
                    assert(ov[j - 1] == e);
                    assert(ov.contains(e));
                }
            }
            if ov.contains(e) {
                let j = choose|j: int| 0 <= j < ov.len() && ov[j] == e;
                if j < pos {
                    assert(nv[j] == e);
                } else {
                    assert(nv[j + 1] == e);
                }
                assert(nv.contains(e));
            }
            if e == item {
                assert(nv[pos] == e);
                assert(nv.contains(e));
            }
        }
    }
}

/// Binary search over a sorted table of encoded entries, decoding each
/// probe.  The result is meaningful when the table is well formed.
pub(crate) fn find_entry(list: &Vec<Entry>, key: &str) -> (r: Option<usize>)
    ensures
        (strictly_sorted(entry_views(list@)) && (forall|i: int|
            0 <= i < list@.len() ==> (#[trigger] list@[i]).wf())) ==> match r {
            Some(i) => i < list.len() && entry_views(list@)[i as int] == key@,
            None => !entry_views(list@).contains(key@),
        },
        r matches Some(i) ==> i < list.len(),
{
    let ghost vs = entry_views(list@);
    let ghost wfh = strictly_sorted(vs) && (forall|i: int|
        0 <= i < list@.len() ==> (#[trigger] list@[i]).wf());
    let mut lo: usize = 0;
    let mut hi: usize = list.len();
    while lo < hi
        invariant
            lo <= hi <= list.len(),
            vs == entry_views(list@),
            wfh == (strictly_sorted(vs) && (forall|i: int|
                0 <= i < list@.len() ==> (#[trigger] list@[i]).wf())),
            wfh ==> forall|j: int| 0 <= j < vs.len() && vs[j] == key@ ==> lo <= j < hi,
        decreases hi - lo,
    {
        let mid = lo + (hi - lo) / 2;
        let probe = match list[mid].as_uncompressed() {
            Ok(s) => s,
            Err(_) => {
                return None;
            },
        };
        assert(wfh ==> probe@ == vs[mid as int]);
        let c = str_compare(key, probe.as_str());
        if c == 0 {
            proof {
                if wfh {
                    assert(vs[mid as int] == key@);
                }
            }
            if list.len() > mid {
                return Some(mid);
            }
            return None;
        }
        if c == -1 {
            proof {
                if wfh {
                    assert forall|j: int| 0 <= j < vs.len() && vs[j] == key@ implies lo <= j
                        < mid by {
                        if j >= mid {
                            if j == mid {
                                assert(false);
                            } else {
                                assert(lex_lt(vs[mid as int], vs[j]));
                                crate::order::lemma_lex_trans(key@, vs[mid as int], key@);
                                lemma_lex_irrefl(key@);
                            }
                        }
                    }
                }
            }
            hi = mid;
        } else {
            proof {
                if wfh {
                    assert forall|j: int| 0 <= j < vs.len() && vs[j] == key@ implies mid < j
                        < hi by {
                        if j <= mid {
                            if j == mid {
                                assert(false);
                            } else {
                                assert(lex_lt(vs[j], vs[mid as int]));
                                crate::order::lemma_lex_trans(
                                    vs[mid as int],
                                    key@,
                                    vs[mid as int],
                                );
                                lemma_lex_irrefl(vs[mid as int]);
                            }
                        }
                    }
                }
            }
            lo = mid + 1;
        }
    }
    proof {
        if wfh && vs.contains(key@) {
            let j = choose|j: int| 0 <= j < vs.len() && vs[j] == key@;
            assert(lo <= j < hi);
        }
    }
    None
}

/// Binary search over the entry pairs for any position carrying the
/// given key index.  A hit is exact unconditionally; a miss is
/// conclusive when the table is sorted.
pub(crate) fn find_pair_with_key(entries: &Vec<(u32, u32)>, ki: u32) -> (r: Option<usize>)
    ensures
        r matches Some(i) ==> i < entries.len() && entries@[i as int].0 == ki,
        pairs_sorted(pair_view(entries@)) && r is None ==> forall|j: int|
            0 <= j < entries@.len() ==> (#[trigger] pair_view(entries@)[j]).0 != ki as int,
{
    let ghost pv = pair_view(entries@);
    let ghost sorted = pairs_sorted(pv);
    let mut lo: usize = 0;
    let mut hi: usize = entries.len();
    while lo < hi
        invariant
            lo <= hi <= entries.len(),
            pv == pair_view(entries@),
            sorted == pairs_sorted(pv),
            sorted ==> forall|j: int| 0 <= j < pv.len() && (#[trigger] pv[j]).0 == ki as int
                ==> lo <= j < hi,
        decreases hi - lo,
    {
        let mid = lo + (hi - lo) / 2;
        let p = entries[mid];
        assert(pv[mid as int] == (p.0 as int, p.1 as int));
        if p.0 == ki {
            return Some(mid);
        }
        if ki < p.0 {
            proof {
                if sorted {
                    assert forall|j: int|
                        0 <= j < pv.len() && (#[trigger] pv[j]).0 == ki as int implies lo <= j
                        < mid by {
                        if j > mid {
                            assert(pair_lt(pv[mid as int], pv[j]));
                        }
                    }
                }
            }
            hi = mid;
        } else {
            proof {
                if sorted {
                    assert forall|j: int|
                        0 <= j < pv.len() && (#[trigger] pv[j]).0 == ki as int implies mid < j
                        < hi by {
                        if j < mid {
                            assert(pair_lt(pv[j], pv[mid as int]));
                        }
                    }
                }
            }
            lo = mid + 1;
        }
    }
    None
}

/// Ceiling of the base-two logarithm.
pub open spec fn ceil_log2_spec(n: int) -> int
    decreases n,
{
    if n <= 1 {
        0
    } else {
        1 + ceil_log2_spec((n + 1) / 2)
    }
}

pub proof fn lemma_ceil_log2_nonneg(n: int)
    ensures
        ceil_log2_spec(n) >= 0,
    decreases n,
{
    if n > 1 {
        lemma_ceil_log2_nonneg((n + 1) / 2);
    }
}

pub proof fn lemma_ceil_log2_bound(n: int, k: nat)
    requires
        1 <= n <= vstd::arithmetic::power2::pow2(k),
    ensures
        ceil_log2_spec(n) <= k,
    decreases k,
{
    if n > 1 {
        assert(k > 0) by {
            if k == 0 {
                vstd::arithmetic::power2::lemma2_to64();
            }
        }
        assert(vstd::arithmetic::power2::pow2(k) == 2 * vstd::arithmetic::power2::pow2(
            (k - 1) as nat,
        )) by {
            vstd::arithmetic::power2::lemma_pow2_unfold(k);
        }
        lemma_ceil_log2_bound((n + 1) / 2, (k - 1) as nat);
    }
}

/// The number of bits per element the bloom filter is sized with:
/// twice the ceiling of the logarithm of the key count, plus one.
fn ceil_log2(n: usize) -> (r: usize)
    requires
        n >= 1,
    ensures
        r == ceil_log2_spec(n as int),
        r <= 64,
{
    proof {
        vstd::arithmetic::power2::lemma2_to64();
        assert(usize::MAX <= 0xffffffffffffffff);
        lemma_ceil_log2_bound(n as int, 64);
        lemma_ceil_log2_nonneg(n as int);
    }
    let mut m: usize = n;
    let mut r: usize = 0;
    while m > 1
        invariant
            1 <= m <= n,
            r + ceil_log2_spec(m as int) == ceil_log2_spec(n as int),
            r <= ceil_log2_spec(n as int),
            ceil_log2_spec(n as int) <= 64,
        decreases m,
    {
        proof {
            lemma_ceil_log2_nonneg(((m + 1) / 2) as int);
        }
        m = m / 2 + m % 2;
        r = r + 1;
    }
    r
}

/// An immutable in-memory segment: sorted unique keys and values, the
/// sorted entry pairs joining them, and a bloom filter over the keys.
pub struct CachedSegment {
    pub keys: Vec<Entry>,
    pub values: Vec<Entry>,
    pub entries: Vec<(u32, u32)>,
    pub bloom: bloomfilter::Bloom<str>,
}

impl CachedSegment {
    /// The mathematical model this segment encodes.
    pub open spec fn model(&self) -> SegModel {
        SegModel {
            keys: entry_views(self.keys@),
            values: entry_views(self.values@),
            entries: pair_view(self.entries@),
        }
    }

    /// Every entry decodes and fits the file format, the model is a
    /// well-formed segment, and the bloom filter covers every key.
    pub open spec fn wf(&self) -> bool {
        &&& forall|i: int|
            0 <= i < self.keys@.len() ==> (#[trigger] self.keys@[i]).wf() && self.keys@[i].fits()
        &&& forall|i: int|
            0 <= i < self.values@.len() ==> (#[trigger] self.values@[i]).wf()
                && self.values@[i].fits()
        &&& model_wf(self.model())
        &&& self.model().keys.len() <= 0xffffffff
        &&& self.model().values.len() <= 0xffffffff
        &&& bloom_usable(self.bloom)
        &&& forall|k: Seq<char>|
            #[trigger] self.model().keys.contains(k) ==> bloom_keys(self.bloom).contains(k)
    }

    /// Build a segment from a batch mapping keys to value lists.
    ///
    /// The keys become the sorted key table and go into the bloom
    /// filter; the union of the value lists, deduplicated, becomes the
    /// sorted value table; and every `(key, value)` pair of the batch
    /// becomes the entry pair of its two table indices.  A batch with no
    /// keys is rejected; creation fails otherwise only when the bloom
    /// filter can draw no random seed.
    #[verifier::loop_isolation(false)]
    #[verifier::rlimit(60)]
    pub fn new(batch: Vec<(String, Vec<String>)>) -> (r: Result<CachedSegment, SegmentMapError>)
        requires
            batch_keys_distinct(batch_view_of(batch@)),
            batch_fits(batch_view_of(batch@)),
            batch@.len() <= 0xffffffff,
            flat_values(batch_view_of(batch@)).len() <= 0xffffffff,
        ensures
            match r {
                Ok(seg) => seg.wf() && built_from(seg.model(), batch_view_of(batch@)),
                Err(e) => e == SegmentMapError::EmptyInput || e == SegmentMapError::IoError,
            },
            (r == Err::<CachedSegment, SegmentMapError>(SegmentMapError::EmptyInput)) <==> batch@.len() == 0,
    {
        let ghost iv = batch_view_of(batch@);
        if batch.len() == 0 {
            return Err(SegmentMapError::EmptyInput);
        }

        // Distinct keys, sorted by text.
        let mut keys_strs: Vec<String> = Vec::new();
        let mut i: usize = 0;
        while i < batch.len()
            invariant
                i <= batch.len(),
                strictly_sorted(views_of(keys_strs@)),
                keys_strs@.len() <= i,
                forall|x: Seq<char>|
                    #[trigger] views_of(keys_strs@).contains(x) <==> exists|j: int|
                        0 <= j < i && (#[trigger] iv[j]).0 == x,
            decreases batch.len() - i,
        {
            assert(iv[i as int].0 == batch@[i as int].0@);
            insert_sorted(&mut keys_strs, batch[i].0.as_str());
            i = i + 1;
        }
        let ghost kv = views_of(keys_strs@);
        assert(forall|x: Seq<char>| #[trigger] kv.contains(x) <==> batch_has_key(iv, x));

        // All values of the batch, flattened in batch order.
        let mut flat: Vec<String> = Vec::new();
        i = 0;
        while i < batch.len()
            invariant
                i <= batch.len(),
                views_of(flat@) == flat_values(iv.take(i as int)),
            decreases batch.len() - i,
        {
            let ghost before = views_of(flat@);
            let mut j: usize = 0;
            while j < batch[i].1.len()
                invariant
                    j <= batch@[i as int].1@.len(),
                    views_of(flat@) == before + iv[i as int].1.take(j as int),
                decreases batch@[i as int].1@.len() - j,
            {
                let ghost old_flat = flat@;
                flat.push(batch[i].1[j].clone());
                proof {
                    let x = iv[i as int].1[j as int];
                    assert(x == batch@[i as int].1@[j as int]@);
                    assert(flat@.len() == old_flat.len() + 1);
                    assert(flat@[old_flat.len() as int]@ == x);
                    assert(views_of(flat@) =~= views_of(old_flat).push(x));
                    assert(iv[i as int].1.take(j + 1) =~= iv[i as int].1.take(j as int).push(x));
                    assert((before + iv[i as int].1.take(j as int)).push(x) =~= before + iv[
                        i as int
                    ].1.take(j + 1));
                }
                j = j + 1;
            }
            proof {
                assert(iv[i as int].1.take(iv[i as int].1.len() as int) =~= iv[i as int].1);
                lemma_flat_values_concat(iv.take(i as int), seq![iv[i as int]]);
                assert(iv.take(i as int) + seq![iv[i as int]] =~= iv.take(i + 1));
                let single: BatchView = seq![iv[i as int]];
                assert(single.len() == 1);
                assert(single.drop_first() =~= Seq::<(Seq<char>, Seq<Seq<char>>)>::empty());
                assert(flat_values(single.drop_first()).len() == 0);
                assert(flat_values(single) == single[0].1 + flat_values(single.drop_first()));
                assert(flat_values(single) =~= iv[i as int].1);
                assert(views_of(flat@) =~= flat_values(iv.take(i + 1)));
            }
            i = i + 1;
        }
        proof {
            assert(iv.take(iv.len() as int) =~= iv);
        }
        let ghost fv = views_of(flat@);
        assert(fv == flat_values(iv));

        // Distinct values, sorted by text.
        let mut values_strs: Vec<String> = Vec::new();
        i = 0;
        while i < flat.len()
            invariant
                i <= flat.len(),
                strictly_sorted(views_of(values_strs@)),
                values_strs@.len() <= i,
                forall|x: Seq<char>|
                    #[trigger] views_of(values_strs@).contains(x) <==> exists|l: int|
                        0 <= l < i && fv[l] == x,
            decreases flat.len() - i,
        {
            assert(fv[i as int] == flat@[i as int]@);
            insert_sorted(&mut values_strs, flat[i].as_str());
            i = i + 1;
        }
        let ghost vv = views_of(values_strs@);
        assert forall|x: Seq<char>| #[trigger] vv.contains(x) <==> batch_has_value(iv, x) by {
            lemma_flat_values_contains(iv, x);
            if fv.contains(x) {
                let l = choose|l: int| 0 <= l < fv.len() && fv[l] == x;
                assert(vv.contains(x));
            }
        }

        // The bloom filter over the keys.
        assert(kv.contains(iv[0].0));
        assert(keys_strs.len() >= 1);
        let bits = ceil_log2(keys_strs.len()) * 2 + 1;
        let mut filter = match bloom_new(bits, keys_strs.len()) {
            Some(f) => f,
            None => {
                return Err(SegmentMapError::IoError);
            },
        };
        i = 0;
        while i < keys_strs.len()
            invariant
                i <= keys_strs.len(),
                bloom_usable(filter),
                forall|j: int| 0 <= j < i ==> bloom_keys(filter).contains(#[trigger] kv[j]),
            decreases keys_strs.len() - i,
        {
            let ghost before_keys = bloom_keys(filter);
            bloom_set(&mut filter, keys_strs[i].as_str());
            proof {
                assert(before_keys.insert(kv[i as int]).subset_of(bloom_keys(filter)));
                assert forall|j: int| 0 <= j < i + 1 implies bloom_keys(filter).contains(
                    #[trigger] kv[j],
                ) by {
                    if j < i {
                        assert(before_keys.contains(kv[j]));
                        assert(before_keys.insert(kv[i as int]).contains(kv[j]));
                    } else {
                        assert(before_keys.insert(kv[i as int]).contains(kv[j]));
                    }
                }
            }
            i = i + 1;
        }

        // Encode the key table.
        let mut keys: Vec<Entry> = Vec::new();
        i = 0;
        while i < keys_strs.len()
            invariant
                i <= keys_strs.len(),
                keys@.len() == i,
                forall|j: int|
                    0 <= j < i ==> (#[trigger] keys@[j]).wf() && keys@[j].fits()
                        && keys@[j].decoded() == Some(kv[j]),
            decreases keys_strs.len() - i,
        {
            proof {
                assert(kv.contains(kv[i as int]));
                let j = choose|j: int| 0 <= j < iv.len() && (#[trigger] iv[j]).0 == kv[i as int];
                assert(encode_utf8(iv[j].0).len() < 0x80000000);
            }
            keys.push(Entry::new(keys_strs[i].as_str()));
            i = i + 1;
        }

        // Encode the value table.
        let mut values: Vec<Entry> = Vec::new();
        i = 0;
        while i < values_strs.len()
            invariant
                i <= values_strs.len(),
                values@.len() == i,
                forall|j: int|
                    0 <= j < i ==> (#[trigger] values@[j]).wf() && values@[j].fits()
                        && values@[j].decoded() == Some(vv[j]),
            decreases values_strs.len() - i,
        {
            proof {
                assert(vv.contains(vv[i as int]));
                assert(batch_has_value(iv, vv[i as int]));
                let (a, b) = choose|a: int, b: int|
                    0 <= a < iv.len() && 0 <= b < iv[a].1.len() && #[trigger] iv[a].1[b] == vv[i as int];
                assert(encode_utf8(iv[a].1[b]).len() < 0x80000000);
            }
            values.push(Entry::new(values_strs[i].as_str()));
            i = i + 1;
        }

        // The entry pairs: for every batch pair, the indices of its key
        // and value in the two tables.
        let mut pairs: Vec<(u32, u32)> = Vec::new();
        let mut a_i: usize = 0;
        while a_i < batch.len()
            invariant
                a_i <= batch.len(),
                pairs_sorted(pair_view(pairs@)),
                forall|e: (int, int)|
                    #[trigger] pair_view(pairs@).contains(e) <==> exists|r: int, c: int|
                        0 <= r < a_i && 0 <= c < iv[r].1.len() && e == (
                            key_index(kv, iv[r].0),
                            #[trigger] key_index(vv, iv[r].1[c]),
                        ),
            decreases batch.len() - a_i,
        {
            assert(kv.contains(iv[a_i as int].0));
            let ka = match find_string(&keys_strs, batch[a_i].0.as_str()) {
                Some(v) => v,
                None => {
                    proof {
                        assert(false);
                    }
                    return Err(SegmentMapError::IoError);
                },
            };
            proof {
                lemma_sorted_index_unique(kv, ka as int, key_index(kv, iv[a_i as int].0));
            }
            let mut b_j: usize = 0;
            while b_j < batch[a_i].1.len()
                invariant
                    b_j <= batch@[a_i as int].1@.len(),
                    ka < keys_strs.len(),
                    ka as int == key_index(kv, iv[a_i as int].0),
                    pairs_sorted(pair_view(pairs@)),
                    forall|e: (int, int)|
                        #[trigger] pair_view(pairs@).contains(e) <==> exists|r: int, c: int|
                            ((0 <= r < a_i && 0 <= c < iv[r].1.len()) || (r == a_i && 0 <= c
                                < b_j)) && e == (
                                key_index(kv, iv[r].0),
                                #[trigger] key_index(vv, iv[r].1[c]),
                            ),
                decreases batch@[a_i as int].1@.len() - b_j,
            {
                assert(iv[a_i as int].1[b_j as int] == batch@[a_i as int].1@[b_j as int]@);
                assert(batch_has_value(iv, iv[a_i as int].1[b_j as int]));
                assert(vv.contains(iv[a_i as int].1[b_j as int]));
                let vb = match find_string(&values_strs, batch[a_i].1[b_j].as_str()) {
                    Some(v) => v,
                    None => {
                        proof {
                            assert(false);
                        }
                        return Err(SegmentMapError::IoError);
                    },
                };
                proof {
                    lemma_sorted_index_unique(
                        vv,
                        vb as int,
                        key_index(vv, iv[a_i as int].1[b_j as int]),
                    );
                }
                insert_sorted_pair(&mut pairs, ka as u32, vb as u32);
                proof {
                    let added = (ka as int, vb as int);
                    assert(added == (
                        key_index(kv, iv[a_i as int].0),
                        key_index(vv, iv[a_i as int].1[b_j as int]),
                    ));
                }
                b_j = b_j + 1;
            }
            a_i = a_i + 1;
        }

        let seg = CachedSegment { keys, values, entries: pairs, bloom: filter };
        proof {
            assert(seg.model().keys =~= kv);
            assert(seg.model().values =~= vv);
            let pv = seg.model().entries;

            // The pair characterization, in the form `built_from` uses.
            assert forall|x: int, y: int|
                #[trigger] pv.contains((x, y)) <==> (0 <= x < kv.len() && 0 <= y < vv.len()
                    && batch_has_pair(iv, kv[x], vv[y])) by {
                if pv.contains((x, y)) {
                    let (r, c) = choose|r: int, c: int|
                        0 <= r < iv.len() && 0 <= c < iv[r].1.len() && (x, y) == (
                            key_index(kv, iv[r].0),
                            #[trigger] key_index(vv, iv[r].1[c]),
                        );
                    assert(kv.contains(iv[r].0));
                    assert(0 <= key_index(kv, iv[r].0) < kv.len() && kv[key_index(kv, iv[r].0)]
                        == iv[r].0);
                    assert(batch_has_value(iv, iv[r].1[c]));
                    assert(vv.contains(iv[r].1[c]));
                    assert(0 <= key_index(vv, iv[r].1[c]) < vv.len() && vv[key_index(
                        vv,
                        iv[r].1[c],
                    )] == iv[r].1[c]);
                    assert(batch_has_pair(iv, kv[x], vv[y]));
                }
                if 0 <= x < kv.len() && 0 <= y < vv.len() && batch_has_pair(iv, kv[x], vv[y]) {
                    let (r, c) = choose|r: int, c: int|
                        0 <= r < iv.len() && iv[r].0 == kv[x] && 0 <= c < iv[r].1.len()
                            && #[trigger] iv[r].1[c] == vv[y];
                    lemma_sorted_index_unique(kv, x, key_index(kv, iv[r].0));
                    lemma_sorted_index_unique(vv, y, key_index(vv, iv[r].1[c]));
                    assert((x, y) == (key_index(kv, iv[r].0), key_index(vv, iv[r].1[c])));
                    assert(pv.contains((x, y)));
                }
            }

            // Every pair is in range, so the model is well formed.
            assert forall|i2: int|
                0 <= i2 < pv.len() implies 0 <= (#[trigger] pv[i2]).0 < kv.len() && 0 <= pv[i2].1
                < vv.len() by {
                assert(pv.contains(pv[i2]));
                assert(pv.contains((pv[i2].0, pv[i2].1)));
            }
            assert(model_wf(seg.model()));
            assert(built_from(seg.model(), iv));
        }
        Ok(seg)
    }

    /// Look up the values stored under a key: for a well-formed segment,
    /// exactly the model's results, in ascending text order.
    #[verifier::loop_isolation(false)]
    pub fn find(&self, key: &str) -> (r: Vec<String>)
        ensures
            self.wf() ==> views_of(r@) == seg_find(self.model(), key@),
    {
        let ghost m = self.model();
        let ghost wfh = self.wf();
        let key_idx = match find_entry(&self.keys, key) {
            Some(i) => i,
            None => {
                proof {
                    if wfh {
                        assert(!m.keys.contains(key@));
                        assert(views_of(Seq::<String>::empty()) =~= seg_find(m, key@));
                    }
                }
                return Vec::new();
            },
        };
        proof {
            if wfh {
                assert(m.keys[key_idx as int] == key@);
                assert(m.keys.contains(key@));
                lemma_sorted_index_unique(m.keys, key_idx as int, key_index(m.keys, key@));
            }
        }
        if key_idx > 0xffffffff {
            // Key indices fit the file format's 32-bit field, so a
            // well-formed segment never reaches this.
            proof {
                if wfh {
                    assert(false);
                }
            }
            return Vec::new();
        }
        let ki = key_idx as u32;
        let found = match find_pair_with_key(&self.entries, ki) {
            Some(i) => i,
            None => {
                proof {
                    if wfh {
                        lemma_pwk_empty(m.entries, key_idx as int);
                        assert(views_of(Seq::<String>::empty()) =~= seg_find(m, key@));
                    }
                }
                return Vec::new();
            },
        };
        // Walk back to the start of the run of pairs carrying this key.
        let mut start = found;
        while start > 0 && self.entries[start - 1].0 == ki
            invariant
                start <= found,
                forall|j: int| start <= j <= found ==> (#[trigger] m.entries[j]).0 == ki as int,
            decreases start,
        {
            assert(m.entries[start - 1] == (self.entries@[start - 1].0 as int, self.entries@[
                start - 1].1 as int));
            start = start - 1;
        }
        assert(start == 0 || m.entries[start - 1].0 != ki as int) by {
            if start > 0 {
                assert(m.entries[start - 1] == (self.entries@[start - 1].0 as int, self.entries@[
                    start - 1].1 as int));
            }
        }
        // Scan the run forward, decoding each value.
        let mut items: Vec<String> = Vec::new();
        let mut idx = start;
        while idx < self.entries.len() && self.entries[idx].0 == ki
            invariant
                start <= idx <= self.entries.len(),
                forall|j: int| start <= j < idx ==> (#[trigger] m.entries[j]).0 == ki as int,
                wfh ==> views_of(items@) =~= m.entries.subrange(start as int, idx as int)
                    .map_values(|e: (int, int)| m.values[e.1]),
            decreases self.entries.len() - idx,
        {
            proof {
                assert(m.entries[idx as int] == (self.entries@[idx as int].0 as int, self.entries@[
                    idx as int].1 as int));
            }
            let vi = self.entries[idx].1;
            if (vi as usize) >= self.values.len() {
                // Out of range: impossible in a well-formed segment.
                proof {
                    if wfh {
                        assert(false);
                    }
                }
                return items;
            }
            let s = match self.values[vi as usize].as_uncompressed() {
                Ok(s) => s,
                Err(_) => {
                    proof {
                        if wfh {
                            assert(false);
                        }
                    }
                    return items;
                },
            };
            let ghost old_items = items@;
            items.push(s);
            proof {
                if wfh {
                    let f = |e: (int, int)| m.values[e.1];
                    let sub1 = m.entries.subrange(start as int, idx + 1);
                    assert(sub1 =~= m.entries.subrange(start as int, idx as int).push(
                        m.entries[idx as int],
                    ));
                    assert(s@ == m.values[vi as int]);
                    assert(views_of(items@) =~= views_of(old_items).push(s@));
                    assert(m.entries.subrange(start as int, idx as int).push(
                        m.entries[idx as int],
                    ).map_values(f) =~= m.entries.subrange(start as int, idx as int).map_values(
                        f,
                    ).push(f(m.entries[idx as int])));
                }
            }
            idx = idx + 1;
        }
        proof {
            assert(idx < self.entries@.len() ==> m.entries[idx as int].0 != ki as int) by {
                if idx < self.entries@.len() {
                    assert(m.entries[idx as int] == (self.entries@[idx as int].0 as int, self
                        .entries@[idx as int].1 as int));
                }
            }
            if wfh {
                // The scanned range is exactly the run of this key.
                assert(m.entries[found as int].0 == ki as int) by {
                    assert(m.entries[found as int] == (self.entries@[found as int].0 as int, self
                        .entries@[found as int].1 as int));
                }
                assert(idx > found) by {
                    if idx <= found {
                        assert(m.entries[idx as int].0 == ki as int);
                        assert(m.entries[idx as int] == (self.entries@[idx as int].0 as int, self
                            .entries@[idx as int].1 as int));
                    }
                }
                assert forall|j: int| 0 <= j < start implies (#[trigger] m.entries[j]).0
                    != ki as int by {
                    if start > 0 {
                        assert(pair_lt(m.entries[start - 1], m.entries[start as int]));
                        if j < start - 1 {
                            assert(pair_lt(m.entries[j], m.entries[start - 1]));
                        }
                    }
                }
                assert forall|j: int| idx <= j < m.entries.len() implies (#[trigger] m.entries[j]).0
                    != ki as int by {
                    assert(pair_lt(m.entries[start as int], m.entries[idx as int]));
                    if j > idx {
                        assert(pair_lt(m.entries[idx as int], m.entries[j]));
                    }
                }
                lemma_pwk_run(m.entries, ki as int, start as int, idx as int);
                assert(views_of(items@) =~= seg_find(m, key@));
            }
        }
        items
    }
}

} // verus!
