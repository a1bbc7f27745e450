//! The tiered segment map: a queue of in-memory segments in front of a
//! queue of on-disk segments, per partition.
//!
//! Every insert builds a fresh immutable segment.  A segment whose value
//! table exceeds the spill threshold is written to a new `seg-<N>`
//! directory and queued on the disk tier; smaller ones stay on the
//! memory tier.  Lookups consult memory segments oldest-first, then disk
//! segments oldest-first, so values written earlier come out earlier.
//! Recovery rebuilds the disk tier by parsing the `seg-<N>` names found
//! in the partition's directory and sorting them by suffix.

use vstd::prelude::*;
use vstd::multiset::Multiset;
use vstd::seq_lib::lemma_multiset_commutative;
use vstd::utf8::encode_utf8;
use vstd::string::StringExecFns;
use crate::model::{
    SegModel, built_from, lemma_take_up_to_len, take_up_to, all_results, lemma_all_results_concat,
};
use crate::memory::{CachedSegment, batch_view_of, batch_fits};
use crate::model::{batch_keys_distinct, flat_values};
use crate::disk::{DiskSegment, DiskResolutionError, SegmentFiles};
use crate::bloom::bloom_parse_keys;
use crate::order::views_of;

verus! {

/// Errors of building or recovering a tiered segment map.
#[derive(Debug, Clone, Copy, PartialEq, Eq, Structural)]
pub enum SegmentMapError {
    /// An underlying system facility failed (for example, no random seed
    /// could be drawn for a fresh bloom filter).
    IoError,
    /// The recovery scan met a directory entry not named `seg-<N>`.
    UnknownFile,
    /// The recovery scan met a segment name whose suffix is not a
    /// decimal number that the counter can exceed.
    InvalidIndex,
    /// A segment was to be built from a batch with no keys.
    EmptyInput,
}

/// A new segment spills to disk when its value table holds more than
/// this many values.
pub const SPILL_THRESHOLD: usize = 4096;

/// Whether a batch spills: its distinct values outnumber the threshold.
pub open spec fn batch_spills(iv: crate::model::BatchView) -> bool {
    flat_values(iv).to_set().len() > SPILL_THRESHOLD
}

/// The value table of the segment a batch builds holds exactly the
/// batch's distinct values.
pub proof fn lemma_values_count(m: SegModel, iv: crate::model::BatchView)
    requires
        built_from(m, iv),
    ensures
        m.values.len() == flat_values(iv).to_set().len(),
{
    assert(m.values.no_duplicates()) by {
        assert forall|i: int, j: int|
            0 <= i < m.values.len() && 0 <= j < m.values.len() && i != j implies m.values[i]
            != m.values[j] by {
            if m.values[i] == m.values[j] {
                if i < j {
                    crate::order::lemma_lex_irrefl(m.values[i]);
                } else {
                    crate::order::lemma_lex_irrefl(m.values[j]);
                }
            }
        }
    }
    m.values.unique_seq_to_set();
    assert(m.values.to_set() =~= flat_values(iv).to_set()) by {
        assert forall|v: Seq<char>|
            #[trigger] m.values.to_set().contains(v) <==> flat_values(iv).to_set().contains(
                v,
            ) by {
            crate::model::lemma_flat_values_contains(iv, v);
        }
    }
}

/// The character of a decimal digit.
pub open spec fn digit_char(d: int) -> char {
    ((48 + d) as u8) as char
}

pub open spec fn is_digit(c: char) -> bool {
    48 <= c as u32 <= 57
}

pub open spec fn is_digit_seq(s: Seq<char>) -> bool {
    forall|i: int| 0 <= i < s.len() ==> is_digit(#[trigger] s[i])
}

/// The decimal digits of a number, most significant first.
pub open spec fn decimal_digits(n: int) -> Seq<char>
    recommends
        n >= 0,
    decreases n when n >= 0
{
    if n < 10 {
        seq![digit_char(n)]
    } else {
        decimal_digits(n / 10) + seq![digit_char(n % 10)]
    }
}

/// The number a sequence of decimal digits denotes.
pub open spec fn digits_value(s: Seq<char>) -> int
    decreases s.len(),
{
    if s.len() == 0 {
        0
    } else {
        digits_value(s.drop_last()) * 10 + (s.last() as u32 - 48)
    }
}

pub proof fn lemma_decimal_digits(n: int)
    requires
        n >= 0,
    ensures
        decimal_digits(n).len() >= 1,
        is_digit_seq(decimal_digits(n)),
        digits_value(decimal_digits(n)) == n,
    decreases n,
{
    if n < 10 {
        let s = decimal_digits(n);
        assert(s.len() == 1);
        assert(s.last() == digit_char(n));
        assert(digit_char(n) as u32 == 48 + n);
        assert(s.drop_last() =~= Seq::<char>::empty());
        assert(digits_value(s.drop_last()) == 0);
        assert(digits_value(s) == n);
    } else {
        lemma_decimal_digits(n / 10);
        let hd = decimal_digits(n / 10);
        let s = decimal_digits(n);
        assert(s.drop_last() =~= hd);
        assert(s.last() == digit_char(n % 10));
        assert(digit_char(n % 10) as u32 == 48 + n % 10);
        assert(digits_value(s) == (n / 10) * 10 + n % 10);
        assert((n / 10) * 10 + n % 10 == n) by (nonlinear_arith);
        assert forall|i: int| 0 <= i < s.len() implies is_digit(#[trigger] s[i]) by {
            if i < hd.len() {
                assert(s[i] == hd[i]);
            }
        }
    }
}

pub proof fn lemma_digits_value_nonneg(s: Seq<char>)
    requires
        is_digit_seq(s),
    ensures
        digits_value(s) >= 0,
    decreases s.len(),
{
    if s.len() > 0 {
        assert forall|i: int| 0 <= i < s.drop_last().len() implies is_digit(
            #[trigger] s.drop_last()[i],
        ) by {
            assert(s.drop_last()[i] == s[i]);
        }
        lemma_digits_value_nonneg(s.drop_last());
        assert(is_digit(s.last()));
        assert(digits_value(s.drop_last()) * 10 >= 0) by (nonlinear_arith)
            requires
                digits_value(s.drop_last()) >= 0,
        ;
    }
}

/// Extending a digit string can only grow its value.
pub proof fn lemma_digits_value_extend(s: Seq<char>, i: int)
    requires
        is_digit_seq(s),
        0 <= i <= s.len(),
    ensures
        digits_value(s.take(i)) <= digits_value(s),
    decreases s.len() - i,
{
    if i < s.len() {
        lemma_digits_value_extend(s, i + 1);
        let t = s.take(i + 1);
        assert forall|j: int| 0 <= j < t.len() implies is_digit(#[trigger] t[j]) by {
            assert(t[j] == s[j]);
        }
        assert(t.drop_last() =~= s.take(i));
        assert forall|j: int| 0 <= j < s.take(i).len() implies is_digit(
            #[trigger] s.take(i)[j],
        ) by {
            assert(s.take(i)[j] == s[j]);
        }
        lemma_digits_value_nonneg(s.take(i));
        assert(digits_value(t) == digits_value(s.take(i)) * 10 + (t.last() as u32 - 48));
        assert(digits_value(s.take(i)) * 10 >= digits_value(s.take(i))) by (nonlinear_arith)
            requires
                digits_value(s.take(i)) >= 0,
        ;
        assert(is_digit(s[i]));
    } else {
        assert(s.take(i) =~= s);
    }
}

/// The decimal rendering of a number: its digits by repeated division,
/// materialized as ASCII bytes and read back as a string.
pub(crate) fn u64_to_decimal(n: u64) -> (r: String)
    ensures
        r@ == decimal_digits(n as int),
{
    broadcast use
        vstd::utf8::encode_utf8_valid_utf8,
        vstd::utf8::encode_utf8_decode_utf8,
        vstd::utf8::is_ascii_chars_encode_utf8,
    ;

    let mut bytes: Vec<u8> = Vec::new();
    let ghost mut cs: Seq<char> = Seq::empty();
    let mut m = n;
    loop
        invariant_except_break
            cs.len() > 0 ==> m > 0,
            (if cs.len() == 0 {
                m == n
            } else {
                decimal_digits(n as int) == decimal_digits(m as int) + cs
            }),
        invariant
            cs.len() == bytes@.len(),
            forall|k: int|
                0 <= k < bytes@.len() ==> 48 <= #[trigger] bytes@[k] <= 57 && cs[k] == ((
            bytes@[k]) as char),
        ensures
            cs.len() == bytes@.len(),
            forall|k: int|
                0 <= k < bytes@.len() ==> 48 <= #[trigger] bytes@[k] <= 57 && cs[k] == ((
            bytes@[k]) as char),
            decimal_digits(n as int) == cs,
        decreases m,
    {
        let ghost old_m = m;
        let ghost old_cs = cs;
        let ghost old_bytes = bytes@;
        let d = (m % 10) as u8;
        bytes.insert(0, 48 + d);
        proof {
            cs = seq![digit_char((old_m % 10) as int)] + old_cs;
            old_bytes.insert_ensures(0, (48 + d) as u8);
            assert(digit_char((old_m % 10) as int) as u32 == 48 + (old_m % 10));
            assert forall|k: int|
                0 <= k < bytes@.len() implies 48 <= #[trigger] bytes@[k] <= 57 && cs[k] == ((
            bytes@[k]) as char) by {
                if k == 0 {
                    assert(bytes@[0] == 48 + d);
                } else {
                    assert(bytes@[k] == old_bytes[k - 1]);
                    assert(cs[k] == old_cs[k - 1]);
                }
            }
        }
        m = m / 10;
        proof {
            if old_m < 10 {
                assert(decimal_digits(old_m as int) == seq![digit_char(old_m as int)]);
                assert(old_m % 10 == old_m);
                if old_cs.len() == 0 {
                    assert(cs =~= decimal_digits(n as int));
                } else {
                    assert(cs =~= decimal_digits(old_m as int) + old_cs);
                }
            } else {
                assert(decimal_digits(old_m as int) == decimal_digits(m as int) + seq![
                    digit_char((old_m % 10) as int),
                ]);
                if old_cs.len() == 0 {
                    assert(decimal_digits(n as int) =~= decimal_digits(m as int) + cs);
                } else {
                    assert((decimal_digits(m as int) + seq![digit_char((old_m % 10) as int)])
                        + old_cs =~= decimal_digits(m as int) + cs);
                }
            }
        }
        if m == 0 {
            break;
        }
    }
    proof {
        assert(vstd::utf8::is_ascii_chars(cs)) by {
            assert forall|i: int| 0 <= i < cs.len() implies '\0' <= #[trigger] cs[i]
                <= '\u{7f}' by {
                assert(cs[i] == (bytes@[i] as char));
                assert(cs[i] as u32 == bytes@[i]);
            }
        }
        assert(encode_utf8(cs) =~= bytes@) by {
            assert forall|i: int| 0 <= i < cs.len() implies encode_utf8(cs)[i] == bytes@[i] by {
                assert(cs[i] as u8 == encode_utf8(cs)[i]);
                assert(cs[i] as u32 == bytes@[i]);
            }
        }
        assert(vstd::utf8::valid_utf8(bytes@));
    }
    match crate::entry::string_from_utf8(bytes) {
        Some(s) => {
            proof {
                assert(s@ == vstd::utf8::decode_utf8(encode_utf8(cs)));
                assert(s@ == cs);
            }
            s
        },
        None => {
            proof {
                assert(false);
            }
            String::new()
        },
    }
}

/// The directory name of the segment with a given suffix.
pub open spec fn segment_name(n: int) -> Seq<char> {
    seq!['s', 'e', 'g', '-'] + decimal_digits(n)
}

/// A string that begins with `seg-`.
pub open spec fn has_seg_prefix(s: Seq<char>) -> bool {
    s.len() >= 4 && s[0] == 's' && s[1] == 'e' && s[2] == 'g' && s[3] == '-'
}

/// What follows the `seg-` prefix.
pub open spec fn seg_suffix(s: Seq<char>) -> Seq<char> {
    s.skip(4)
}

/// A well-shaped segment directory name: `seg-` followed by decimal
/// digits denoting a number the counter can exceed.
pub open spec fn valid_segment_name(s: Seq<char>) -> bool {
    &&& has_seg_prefix(s)
    &&& seg_suffix(s).len() > 0
    &&& is_digit_seq(seg_suffix(s))
    &&& digits_value(seg_suffix(s)) < u64::MAX
}

pub(crate) fn make_segment_name(n: u64) -> (r: String)
    ensures
        r@ == segment_name(n as int),
{
    let mut s = String::from_str("seg-");
    proof {
        reveal_strlit("seg-");
    }
    let d = u64_to_decimal(n);
    s.append(d.as_str());
    proof {
        assert(s@ =~= segment_name(n as int));
    }
    s
}

/// Parse a segment directory name: `UnknownFile` for anything not
/// starting with `seg-`, `InvalidIndex` for a suffix that is not a
/// decimal number below the counter's ceiling.
#[verifier::loop_isolation(false)]
pub fn parse_segment_suffix(name: &str) -> (r: Result<u64, SegmentMapError>)
    ensures
        (r is Ok) <==> valid_segment_name(name@),
        r matches Ok(n) ==> n as int == digits_value(seg_suffix(name@)),
        (r == Err::<u64, SegmentMapError>(SegmentMapError::UnknownFile)) <==> !has_seg_prefix(
            name@,
        ),
        r is Err ==> (r == Err::<u64, SegmentMapError>(SegmentMapError::UnknownFile) || r
            == Err::<u64, SegmentMapError>(SegmentMapError::InvalidIndex)),
{
    let len = name.unicode_len();
    if len < 4 {
        return Err(SegmentMapError::UnknownFile);
    }
    if name.get_char(0) != 's' || name.get_char(1) != 'e' || name.get_char(2) != 'g'
        || name.get_char(3) != '-' {
        return Err(SegmentMapError::UnknownFile);
    }
    if len == 4 {
        assert(seg_suffix(name@).len() == 0);
        return Err(SegmentMapError::InvalidIndex);
    }
    let ghost sfx = seg_suffix(name@);
    let mut value: u64 = 0;
    let mut i: usize = 4;
    while i < len
        invariant
            4 <= i <= len,
            value < u64::MAX,
            is_digit_seq(sfx.take(i - 4)),
            value as int == digits_value(sfx.take(i - 4)),
        decreases len - i,
    {
        let c = name.get_char(i);
        let u = c as u32;
        if u < 48 || u > 57 {
            proof {
                assert(sfx[i - 4] == name@[i as int]);
                assert(!is_digit(sfx[i - 4]));
            }
            return Err(SegmentMapError::InvalidIndex);
        }
        let d = (u - 48) as u64;
        proof {
            assert(sfx[i - 4] == name@[i as int]);
            assert(sfx.take(i - 4 + 1).drop_last() =~= sfx.take(i - 4));
            assert(sfx.take(i - 4 + 1).last() == sfx[i - 4]);
            assert(digits_value(sfx.take(i - 4 + 1)) == value as int * 10 + d);
            assert forall|j: int| 0 <= j < sfx.take(i - 4 + 1).len() implies is_digit(
                #[trigger] sfx.take(i - 4 + 1)[j],
            ) by {
                assert(sfx.take(i - 4 + 1)[j] == sfx[j]);
            }
        }
        let mut overflowed = false;
        let mut next: u64 = 0;
        match value.checked_mul(10) {
            Some(v) => match v.checked_add(d) {
                Some(v2) => {
                    if v2 == u64::MAX {
                        overflowed = true;
                    } else {
                        next = v2;
                    }
                },
                None => {
                    overflowed = true;
                },
            },
            None => {
                overflowed = true;
            },
        }
        if overflowed {
            // The suffix does not fit below the counter's ceiling.
            proof {
                assert(digits_value(sfx.take(i - 4 + 1)) >= u64::MAX);
                if is_digit_seq(sfx) {
                    lemma_digits_value_extend(sfx, i - 4 + 1);
                }
            }
            return Err(SegmentMapError::InvalidIndex);
        }
        value = next;
        i = i + 1;
    }
    proof {
        assert(sfx.take(len - 4) =~= sfx);
    }
    Ok(value)
}

/// Canonical names parse back to their suffix.
pub proof fn lemma_segment_name_valid(n: int)
    requires
        0 <= n < u64::MAX,
    ensures
        valid_segment_name(segment_name(n)),
        digits_value(seg_suffix(segment_name(n))) == n,
{
    lemma_decimal_digits(n);
    let s = segment_name(n);
    assert(seg_suffix(s) =~= decimal_digits(n));
}

/// Disk-tier entries in ascending suffix order.
pub open spec fn suffixes_sorted(s: Seq<(u64, DiskSegment)>) -> bool {
    forall|i: int, j: int| 0 <= i < j < s.len() ==> (#[trigger] s[i]).0 <= (#[trigger] s[j]).0
}

/// The `(suffix, files)` pairs a recovery scan yields, in input order.
pub open spec fn parsed_pairs(found: Seq<(String, SegmentFiles)>) -> Seq<(int, SegmentFiles)> {
    Seq::new(found.len(), |i: int| (digits_value(seg_suffix(found[i].0@)), found[i].1))
}

/// The greatest suffix a recovery scan yields, or -1 when it yields
/// none; the counter starts one above it.
pub open spec fn max_parsed_suffix(found: Seq<(String, SegmentFiles)>) -> int
    decreases found.len(),
{
    if found.len() == 0 {
        -1
    } else {
        let rest = max_parsed_suffix(found.drop_last());
        let last = digits_value(seg_suffix(found.last().0@));
        if last > rest {
            last
        } else {
            rest
        }
    }
}

/// The `(suffix, files)` pairs of a disk tier.
pub open spec fn tier_pairs(s: Seq<(u64, DiskSegment)>) -> Seq<(int, SegmentFiles)> {
    Seq::new(s.len(), |k: int| (s[k].0 as int, s[k].1.files))
}

/// Insert a disk-tier entry, keeping the tier sorted by suffix.
#[verifier::rlimit(30)]
fn insert_segment_sorted(list: &mut Vec<(u64, DiskSegment)>, suffix: u64, seg: DiskSegment)
    requires
        suffixes_sorted(old(list)@),
    ensures
        suffixes_sorted(final(list)@),
        final(list)@.len() == old(list)@.len() + 1,
        tier_pairs(final(list)@).to_multiset() == tier_pairs(old(list)@).to_multiset().insert(
            (suffix as int, seg.files),
        ),
        forall|x: (u64, DiskSegment)|
            #[trigger] final(list)@.contains(x) <==> (old(list)@.contains(x) || x == (suffix, seg)),
{
    broadcast use vstd::seq_lib::group_to_multiset_ensures;

    let ghost orig = list@;
    let mut i: usize = 0;
    loop
        invariant
            list@ == orig,
            i <= list.len(),
            forall|j: int| 0 <= j < i ==> (#[trigger] list@[j]).0 <= suffix,
        ensures
            list@ == orig,
            i <= list.len(),
            forall|j: int| 0 <= j < i ==> (#[trigger] list@[j]).0 <= suffix,
            i < list.len() ==> suffix <= list@[i as int].0,
        decreases list.len() - i,
    {
        if i == list.len() {
            break;
        }
        if list[i].0 > suffix {
            break;
        }
        i = i + 1;
    }
    let ghost pos = i as int;
    let ghost item = (suffix, seg);
    list.insert(i, (suffix, seg));
    proof {
        let nv = list@;
        assert(nv == orig.insert(pos, item));
        orig.insert_ensures(pos, item);
        assert forall|x: int, y: int| 0 <= x < y < nv.len() implies (#[trigger] nv[x]).0 <= (
        #[trigger] nv[y]).0 by {
            if x < pos && y > pos {
                if pos < orig.len() {
                    assert(orig[x].0 <= suffix);
                } else {
                    assert(false);
                }
            }
        }
        assert forall|x: (u64, DiskSegment)|
            #[trigger] nv.contains(x) <==> (orig.contains(x) || x == item) by {
            if nv.contains(x) {
                let j = choose|j: int| 0 <= j < nv.len() && nv[j] == x;
                if j < pos {
                    assert(orig[j] == x);
                    assert(orig.contains(x));
                } else if j > pos {
                    assert(orig[j - 1] == x);
                    assert(orig.contains(x));
                }
            }
            if orig.contains(x) {
                let j = choose|j: int| 0 <= j < orig.len() && orig[j] == x;
                if j < pos {
                    assert(nv[j] == x);
                } else {
                    assert(nv[j + 1] == x);
                }
                assert(nv.contains(x));
            }
            if x == item {
                assert(nv[pos] == x);
                assert(nv.contains(x));
            }
        }
        // The inserted sequence carries the old contents plus the item.
        let a = orig.subrange(0, pos);
        let b = orig.subrange(pos, orig.len() as int);
        assert(orig =~= a + b);
        assert(nv =~= a.push(item) + b);
        let mitem = (suffix as int, seg.files);
        let ma = tier_pairs(a);
        let mb = tier_pairs(b);
        assert(tier_pairs(nv) =~= ma.push(mitem) + mb);
        assert(tier_pairs(orig) =~= ma + mb);
        lemma_multiset_commutative(ma.push(mitem), mb);
        lemma_multiset_commutative(ma, mb);
        assert(ma.push(mitem).to_multiset() =~= ma.to_multiset().insert(mitem));
        assert(tier_pairs(nv).to_multiset() =~= tier_pairs(orig).to_multiset().insert(mitem));
    }
}

/// A per-partition tiered store: in-memory segments in front of on-disk
/// segments, plus the counter naming the next segment directory.
pub struct TieredSegmentMap {
    pub directory: String,
    pub counter: u64,
    pub memory: Vec<CachedSegment>,
    pub disk: Vec<(u64, DiskSegment)>,
}

impl TieredSegmentMap {
    /// The models of the memory tier, oldest first.
    pub open spec fn memory_models(&self) -> Seq<SegModel> {
        Seq::new(self.memory@.len(), |i: int| self.memory@[i].model())
    }

    /// The models of the disk tier, oldest first.
    pub open spec fn disk_models(&self) -> Seq<SegModel> {
        Seq::new(self.disk@.len(), |i: int| self.disk@[i].1.model())
    }

    /// The models of every segment, in the order lookups consult them.
    pub open spec fn models(&self) -> Seq<SegModel> {
        self.memory_models() + self.disk_models()
    }

    /// The disk tier as `(suffix, files)` pairs.
    pub open spec fn disk_entries(&self) -> Seq<(int, SegmentFiles)> {
        tier_pairs(self.disk@)
    }

    pub open spec fn spec_counter(&self) -> int {
        self.counter as int
    }

    /// The tier structure is sound: suffixes ascend and stay below the
    /// counter.
    pub open spec fn tiers_wf(&self) -> bool {
        &&& suffixes_sorted(self.disk@)
        &&& forall|i: int| 0 <= i < self.disk@.len() ==> (#[trigger] self.disk@[i]).0 < self.counter
    }

    /// The map is well formed: sound tiers and well-formed segments.
    pub open spec fn wf(&self) -> bool {
        &&& self.tiers_wf()
        &&& forall|i: int| 0 <= i < self.memory@.len() ==> (#[trigger] self.memory@[i]).wf()
        &&& forall|i: int| 0 <= i < self.disk@.len() ==> (#[trigger] self.disk@[i]).1.wf()
    }

    /// Recover a map from the segment directories found under its
    /// directory: parse each `seg-<N>` name, order the segments by
    /// suffix, and start the counter above every suffix seen.  Rejects
    /// foreign names with `UnknownFile` and unusable suffixes with
    /// `InvalidIndex`; segment contents are not validated here.
    #[verifier::loop_isolation(false)]
    pub fn new(directory: String, found: Vec<(String, SegmentFiles)>) -> (r: Result<
        TieredSegmentMap,
        SegmentMapError,
    >)
        ensures
            (r is Ok) <==> (forall|i: int|
                0 <= i < found@.len() ==> valid_segment_name((#[trigger] found@[i]).0@)),
            r == Err::<TieredSegmentMap, SegmentMapError>(SegmentMapError::UnknownFile)
                ==> exists|i: int|
                0 <= i < found@.len() && !has_seg_prefix((#[trigger] found@[i]).0@),
            r == Err::<TieredSegmentMap, SegmentMapError>(SegmentMapError::InvalidIndex)
                ==> exists|i: int|
                0 <= i < found@.len() && has_seg_prefix((#[trigger] found@[i]).0@)
                    && !valid_segment_name(found@[i].0@),
            r is Err ==> (r == Err::<TieredSegmentMap, SegmentMapError>(
                SegmentMapError::UnknownFile,
            ) || r == Err::<TieredSegmentMap, SegmentMapError>(SegmentMapError::InvalidIndex)),
            r matches Ok(m) ==> {
                &&& m.memory@.len() == 0
                &&& m.disk@.len() == found@.len()
                &&& m.spec_counter() == max_parsed_suffix(found@) + 1
                &&& m.tiers_wf()
                &&& m.disk_entries().to_multiset() == parsed_pairs(found@).to_multiset()
                &&& m.directory@ == directory@
                &&& (forall|i: int|
                    0 <= i < found@.len() ==> digits_value(seg_suffix((#[trigger] found@[i]).0@))
                        < m.spec_counter())
                &&& (forall|f: SegmentFiles|
                    (exists|i: int|
                        0 <= i < found@.len() && (#[trigger] found@[i]).1 == f)
                        ==> #[trigger] crate::disk::files_wf(f)) ==> m.wf()
            },
    {
        broadcast use vstd::seq_lib::group_to_multiset_ensures;

        let ghost all_found = found@;
        let mut rest = found;
        let total = rest.len();
        let mut disk: Vec<(u64, DiskSegment)> = Vec::new();
        let mut maximum: u64 = 0;
        let mut any = false;
        let mut i: usize = 0;
        while rest.len() > 0
            invariant
                total == all_found.len(),
                i + rest@.len() == all_found.len(),
                rest@ =~= all_found.skip(i as int),
                forall|j: int| 0 <= j < i ==> valid_segment_name((#[trigger] all_found[j]).0@),
                suffixes_sorted(disk@),
                disk@.len() == i,
                tier_pairs(disk@).to_multiset() == parsed_pairs(
                    all_found.take(i as int),
                ).to_multiset(),
                forall|k: int| 0 <= k < disk@.len() ==> (#[trigger] disk@[k]).0 <= maximum,
                forall|j: int|
                    0 <= j < i ==> digits_value(seg_suffix((#[trigger] all_found[j]).0@))
                        <= maximum as int,
                maximum < u64::MAX,
                any == (i > 0),
                !any ==> maximum == 0,
                any ==> maximum as int == max_parsed_suffix(all_found.take(i as int)),
                forall|x: (u64, DiskSegment)|
                    #[trigger] disk@.contains(x) ==> exists|j: int|
                        0 <= j < i && (#[trigger] all_found[j]).1 == x.1.files,
            decreases rest@.len(),
        {
            let pair = rest.remove(0);
            assert(pair == all_found[i as int]);
            let name = pair.0;
            let files = pair.1;
            let suffix = match parse_segment_suffix(name.as_str()) {
                Ok(v) => v,
                Err(e) => {
                    proof {
                        if e == SegmentMapError::UnknownFile {
                            assert(!has_seg_prefix(all_found[i as int].0@));
                        } else {
                            assert(has_seg_prefix(all_found[i as int].0@));
                            assert(!valid_segment_name(all_found[i as int].0@));
                        }
                    }
                    return Err(e);
                },
            };
            let ghost old_max = maximum;
            let ghost old_any = any;
            if suffix > maximum {
                maximum = suffix;
            }
            any = true;
            proof {
                assert(all_found.take(i + 1).drop_last() =~= all_found.take(i as int));
                assert(all_found.take(i + 1).last() == all_found[i as int]);
                assert(suffix as int == digits_value(seg_suffix(all_found[i as int].0@)));
                if old_any {
                    assert(max_parsed_suffix(all_found.take(i + 1)) == maximum as int);
                } else {
                    assert(max_parsed_suffix(all_found.take(i as int)) == -1);
                    assert(max_parsed_suffix(all_found.take(i + 1)) == maximum as int);
                }
            }
            let mut path = directory.clone();
            path.append("/");
            path.append(name.as_str());
            let ghost before = disk@;
            let seg = DiskSegment::open_or_create_segment(path, files);
            assert(seg.files == all_found[i as int].1);
            insert_segment_sorted(&mut disk, suffix, seg);
            proof {
                let pp = parsed_pairs(all_found.take(i as int));
                let pp1 = parsed_pairs(all_found.take(i + 1));
                assert(pp1.drop_last() =~= pp);
                assert(pp1.last() == (suffix as int, all_found[i as int].1));
                assert(pp1 =~= pp.push((suffix as int, all_found[i as int].1)));
                assert(tier_pairs(disk@).to_multiset() == tier_pairs(before).to_multiset().insert(
                    (suffix as int, all_found[i as int].1),
                ));
                assert(tier_pairs(disk@).to_multiset() == pp1.to_multiset());
                assert(rest@ =~= all_found.skip(i + 1));
                assert forall|k: int| 0 <= k < disk@.len() implies (#[trigger] disk@[k]).0
                    <= maximum by {
                    assert(disk@.contains(disk@[k]));
                    if before.contains(disk@[k]) {
                        let j = choose|j: int| 0 <= j < before.len() && before[j] == disk@[k];
                    }
                }
            }
            i = i + 1;
        }
        proof {
            assert(all_found.take(all_found.len() as int) =~= all_found);
        }
        let counter = if any {
            match maximum.checked_add(1) {
                Some(c) => c,
                None => {
                    proof {
                        assert(false);
                    }
                    return Err(SegmentMapError::InvalidIndex);
                },
            }
        } else {
            0
        };
        let m = TieredSegmentMap { directory, counter, memory: Vec::new(), disk };
        proof {
            assert(m.memory_models() =~= Seq::<SegModel>::empty());
            if forall|f: SegmentFiles|
                (exists|j: int| 0 <= j < found@.len() && (#[trigger] found@[j]).1 == f)
                    ==> #[trigger] crate::disk::files_wf(f) {
                assert forall|k: int| 0 <= k < m.disk@.len() implies (#[trigger] m.disk@[k]).1.wf()
                by {
                    assert(m.disk@.contains(m.disk@[k]));
                    let j = choose|j: int|
                        0 <= j < found@.len() && (#[trigger] found@[j]).1 == m.disk@[k].1.files;
                    assert(crate::disk::files_wf(m.disk@[k].1.files));
                }
            }
        }
        Ok(m)
    }

    /// Materialize a freshly built segment under the next `seg-<N>`
    /// directory name, advancing the counter.
    fn write_segment(&mut self, memory_segment: &CachedSegment) -> (r: Result<
        DiskSegment,
        SegmentMapError,
    >)
        requires
            memory_segment.wf(),
            old(self).counter < u64::MAX,
        ensures
            final(self).memory == old(self).memory,
            final(self).disk == old(self).disk,
            final(self).directory == old(self).directory,
            match r {
                Ok(d) => {
                    &&& d.wf()
                    &&& d.model() == memory_segment.model()
                    &&& d.directory@ == old(self).directory@ + seq!['/'] + segment_name(
                        old(self).counter as int,
                    )
                    &&& final(self).counter == old(self).counter + 1
                },
                Err(_) => false,
            },
    {
        let name = make_segment_name(self.counter);
        self.counter = self.counter + 1;
        let mut path = self.directory.clone();
        path.append("/");
        path.append(name.as_str());
        proof {
            reveal_strlit("/");
            assert(path@ =~= self.directory@ + seq!['/'] + segment_name((self.counter - 1) as int));
        }
        let files = SegmentFiles {
            keys_data: Vec::new(),
            keys_lookup: Vec::new(),
            values_data: Vec::new(),
            values_lookup: Vec::new(),
            bloom: Vec::new(),
            entries: Vec::new(),
        };
        let mut disk_segment = DiskSegment::open_or_create_segment(path, files);
        match disk_segment.flush_memory_segment(memory_segment) {
            Ok(_) => Ok(disk_segment),
            Err(_) => {
                proof {
                    assert(false);
                }
                Err(SegmentMapError::IoError)
            },
        }
    }

    /// Index a batch: build a segment from it and queue it — on the disk
    /// tier when its value table exceeds the spill threshold, on the
    /// memory tier otherwise.  The batch's keys must be distinct, and
    /// its strings and counts must fit the segment file format.
    pub fn insert(&mut self, values: Vec<(String, Vec<String>)>) -> (r: Result<
        (),
        SegmentMapError,
    >)
        requires
            batch_keys_distinct(batch_view_of(values@)),
            batch_fits(batch_view_of(values@)),
            values@.len() <= 0xffffffff,
            flat_values(batch_view_of(values@)).len() <= 0xffffffff,
        ensures
            final(self).directory == old(self).directory,
            r is Err ==> *final(self) == *old(self),
            (r == Err::<(), SegmentMapError>(SegmentMapError::EmptyInput)) <==> values@.len()
                == 0,
            r matches Err(e) ==> e == SegmentMapError::EmptyInput || e == SegmentMapError::IoError
                || e == SegmentMapError::InvalidIndex,
            // The counter runs out only on a spilling batch at the
            // counter's ceiling; everything else succeeds unless the
            // bloom filter can draw no random seed.
            r == Err::<(), SegmentMapError>(SegmentMapError::InvalidIndex) ==> old(self).counter
                == u64::MAX && batch_spills(batch_view_of(values@)),
            (values@.len() > 0 && !(batch_spills(batch_view_of(values@)) && old(self).counter
                == u64::MAX)) ==> (r is Ok || r == Err::<(), SegmentMapError>(
                SegmentMapError::IoError,
            )),
            r is Ok ==> exists|m: SegModel|
                {
                    &&& #[trigger] built_from(m, batch_view_of(values@))
                    &&& if batch_spills(batch_view_of(values@)) {
                        &&& m.values.len() > SPILL_THRESHOLD
                        &&& final(self).memory_models() == old(self).memory_models()
                        &&& final(self).memory@ == old(self).memory@
                        &&& final(self).disk_models() == old(self).disk_models().push(m)
                        &&& final(self).disk@.len() == old(self).disk@.len() + 1
                        &&& final(self).disk@.drop_last() == old(self).disk@
                        &&& final(self).disk@.last().0 == old(self).counter
                        &&& final(self).disk@.last().1.wf()
                        &&& final(self).disk@.last().1.model() == m
                        &&& final(self).disk@.last().1.directory@ == old(self).directory@
                            + seq!['/'] + segment_name(old(self).counter as int)
                        &&& final(self).counter == old(self).counter + 1
                    } else {
                        &&& m.values.len() <= SPILL_THRESHOLD
                        &&& final(self).memory_models() == old(self).memory_models().push(m)
                        &&& final(self).memory@.len() == old(self).memory@.len() + 1
                        &&& final(self).memory@.drop_last() == old(self).memory@
                        &&& final(self).memory@.last().wf()
                        &&& final(self).memory@.last().model() == m
                        &&& final(self).disk_models() == old(self).disk_models()
                        &&& final(self).disk@ == old(self).disk@
                        &&& final(self).counter == old(self).counter
                    }
                },
            (old(self).wf() && r is Ok) ==> final(self).wf(),
    {
        let ghost iv = batch_view_of(values@);
        let ghost empty_in = values@.len() == 0;
        let memory_segment = match CachedSegment::new(values) {
            Ok(s) => s,
            Err(e) => {
                return Err(e);
            },
        };
        let ghost m = memory_segment.model();
        proof {
            lemma_values_count(m, iv);
        }
        if memory_segment.values.len() > SPILL_THRESHOLD {
            assert(batch_spills(iv));
            if self.counter == u64::MAX {
                // The segment namespace is exhausted.
                return Err(SegmentMapError::InvalidIndex);
            }
            let ghost before = *self;
            let disk_segment = match self.write_segment(&memory_segment) {
                Ok(d) => d,
                Err(e) => {
                    proof {
                        assert(false);
                    }
                    return Err(e);
                },
            };
            let suffix = self.counter - 1;
            self.disk.push((suffix, disk_segment));
            proof {
                assert(m.values.len() > SPILL_THRESHOLD);
                assert(self.disk_models() =~= before.disk_models().push(m));
                assert(self.memory_models() =~= before.memory_models());
                assert(built_from(m, iv));
                assert(self.disk@.drop_last() =~= before.disk@);
                assert(self.disk@.last() == (suffix, disk_segment));
                assert(suffix == before.counter);
                assert(disk_segment.directory@ == before.directory@ + seq!['/'] + segment_name(
                    before.counter as int,
                ));
                if before.wf() {
                    assert forall|k: int| 0 <= k < self.disk@.len() implies (#[trigger] self
                        .disk@[k]).0 < self.counter by {
                        if k < self.disk@.len() - 1 {
                            assert(self.disk@[k] == before.disk@[k]);
                        }
                    }
                    assert forall|x: int, y: int|
                        0 <= x < y < self.disk@.len() implies (#[trigger] self.disk@[x]).0 <= (
                    #[trigger] self.disk@[y]).0 by {
                        if y < self.disk@.len() - 1 {
                            assert(self.disk@[x] == before.disk@[x]);
                            assert(self.disk@[y] == before.disk@[y]);
                        } else {
                            assert(self.disk@[x] == before.disk@[x]);
                            assert(before.disk@[x].0 < before.counter);
                        }
                    }
                    assert(self.wf());
                }
            }
            Ok(())
        } else {
            assert(!batch_spills(iv));
            let ghost before = *self;
            let ghost gseg = memory_segment;
            self.memory.push(memory_segment);
            proof {
                assert(m.values.len() <= SPILL_THRESHOLD);
                assert(self.memory_models() =~= before.memory_models().push(m));
                assert(self.disk_models() =~= before.disk_models());
                assert(built_from(m, iv));
                assert(self.memory@.drop_last() =~= before.memory@);
                assert(self.memory@.last() == gseg);
                if before.wf() {
                    assert forall|k: int| 0 <= k < self.memory@.len() implies (#[trigger] self
                        .memory@[k]).wf() by {
                        if k < self.memory@.len() - 1 {
                            assert(self.memory@[k] == before.memory@[k]);
                        }
                    }
                    assert(self.wf());
                }
            }
            Ok(())
        }
    }

    /// Look up a key across the tiers: memory segments oldest-first,
    /// then disk segments oldest-first, accumulating until the limit is
    /// reached.  Under limit `l` the result is the first `min(l, total)`
    /// values; with no limit, all of them.  A limit of zero returns
    /// nothing without consulting any segment.
    #[verifier::loop_isolation(false)]
    #[verifier::rlimit(60)]
    pub fn find(&self, key: &str, limit: Option<usize>) -> (r: Result<
        Vec<String>,
        DiskResolutionError,
    >)
        ensures
            self.wf() ==> match r {
                Ok(items) => {
                    &&& views_of(items@) == take_up_to(all_results(self.models(), key@), limit)
                    &&& items@.len() == (match limit {
                        Option::None => all_results(self.models(), key@).len() as int,
                        Option::Some(l) => if all_results(self.models(), key@).len() <= l {
                            all_results(self.models(), key@).len() as int
                        } else {
                            l as int
                        },
                    })
                },
                Err(_) => false,
            },
            // A zero limit yields nothing, whatever the segments hold.
            limit == Some(0usize) ==> (r matches Ok(items) && items@.len() == 0),
            // An error implicates a corrupt disk segment; nothing is
            // ever skipped or silently dropped on a healthy map.
            r is Err ==> exists|i: int|
                0 <= i < self.disk@.len() && !(#[trigger] self.disk@[i]).1.wf(),
            // Conversely, an unlimited lookup consults every disk
            // segment, so a segment whose bloom file does not restore a
            // usable filter is never silently skipped.
            (limit is None && exists|i: int|
                0 <= i < self.disk@.len() && bloom_parse_keys(
                    (#[trigger] self.disk@[i]).1.files.bloom@,
                ) is None) ==> r is Err,
    {
        let ghost h = self.wf();
        let ghost all = all_results(self.models(), key@);
        let ghost mm = self.memory_models();
        let ghost dm = self.disk_models();
        if let Some(l) = limit {
            if l == 0 {
                proof {
                    if h {
                        assert(take_up_to(all, limit) =~= views_of(Seq::<String>::empty()));
                    }
                }
                return Ok(Vec::new());
            }
        }
        let mut out: Vec<String> = Vec::new();
        let mut remaining = limit;
        // consulted: how many segments, in `models()` order, contributed.
        let ghost mut consulted: int = 0;
        let mut i: usize = 0;
        while i < self.memory.len() && budget_left(&remaining)
            invariant
                i <= self.memory@.len(),
                consulted == i as int,
                h ==> views_of(out@) =~= all_results(mm.take(i as int), key@),
                limit is None ==> remaining is None,
                limit matches Some(l) ==> remaining == Some(
                    if out@.len() >= l {
                        0usize
                    } else {
                        (l - out@.len()) as usize
                    },
                ),
            decreases self.memory@.len() - i,
        {
            let mut found = self.memory[i].find(key);
            proof {
                if h {
                    assert(self.memory@[i as int].wf());
                    assert(views_of(found@) == crate::model::seg_find(mm[i as int], key@));
                    lemma_all_results_step(mm, key@, i as int);
                }
            }
            let n = found.len();
            if let Some(v) = remaining {
                remaining = Some(if v > n {
                    v - n
                } else {
                    0
                });
            }
            let ghost out_before = out@;
            out.append(&mut found);
            proof {
                consulted = consulted + 1;
                if h {
                    assert(views_of(out@) =~= views_of(out_before) + crate::model::seg_find(
                        mm[i as int],
                        key@,
                    ));
                }
            }
            i = i + 1;
        }
        proof {
            if h {
                assert(mm.take(mm.len() as int) =~= mm);
            }
        }
        if budget_left(&remaining) {
            // The memory tier was exhausted with budget left; go on to
            // the disk tier.
            assert(i == self.memory.len());
            let mut j: usize = 0;
            while j < self.disk.len() && budget_left(&remaining)
                invariant
                    j <= self.disk@.len(),
                    consulted == mm.len() + j as int,
                    limit is None ==> forall|j2: int|
                        0 <= j2 < j ==> bloom_parse_keys(
                            (#[trigger] self.disk@[j2]).1.files.bloom@,
                        ) is Some,
                    h ==> views_of(out@) =~= all_results(mm + dm.take(j as int), key@),
                    limit is None ==> remaining is None,
                    limit matches Some(l) ==> remaining == Some(
                        if out@.len() >= l {
                            0usize
                        } else {
                            (l - out@.len()) as usize
                        },
                    ),
                decreases self.disk@.len() - j,
            {
                let mut found = match self.disk[j].1.find(key) {
                    Ok(v) => v,
                    Err(e) => {
                        proof {
                            // A segment whose find fails is not well
                            // formed, so neither is the map.
                            assert(!self.disk@[j as int].1.wf());
                        }
                        return Err(e);
                    },
                };
                proof {
                    if h {
                        assert(self.disk@[j as int].1.wf());
                        assert(views_of(found@) == crate::model::seg_find(dm[j as int], key@));
                        lemma_all_results_step(dm, key@, j as int);
                        lemma_all_results_concat(mm, dm.take(j as int), key@);
                        lemma_all_results_concat(mm, dm.take(j + 1), key@);
                    }
                }
                let n = found.len();
                if let Some(v) = remaining {
                    remaining = Some(if v > n {
                        v - n
                    } else {
                        0
                    });
                }
                let ghost out_before = out@;
                out.append(&mut found);
                proof {
                    consulted = consulted + 1;
                    if h {
                        assert(views_of(out@) =~= views_of(out_before) + crate::model::seg_find(
                            dm[j as int],
                            key@,
                        ));
                    }
                }
                j = j + 1;
            }
            proof {
                if h && j == self.disk@.len() {
                    assert(dm.take(dm.len() as int) =~= dm);
                }
            }
        }
        // Either every segment was consulted, or the budget ran out with
        // at least the limit collected; truncate to the limit either
        // way.
        proof {
            if h {
                assert(views_of(out@) =~= all_results(self.models().take(consulted), key@)) by {
                    if consulted <= mm.len() {
                        assert(self.models().take(consulted) =~= mm.take(consulted));
                    } else {
                        assert(self.models().take(consulted) =~= mm + dm.take(
                            consulted - mm.len(),
                        ));
                    }
                }
                assert(self.models() =~= self.models().take(consulted) + self.models().skip(
                    consulted,
                ));
                lemma_all_results_concat(
                    self.models().take(consulted),
                    self.models().skip(consulted),
                    key@,
                );
            }
        }
        let ghost full_views = views_of(out@);
        let final_len = out.len();
        if let Some(l) = limit {
            if final_len > l {
                out.truncate(l);
                proof {
                    assert(views_of(out@) =~= full_views.take(l as int));
                }
            }
        }
        proof {
            if h {
                let pre = all_results(self.models().take(consulted), key@);
                assert(full_views == pre);
                match limit {
                    Option::None => {
                        // No budget: every segment was consulted.
                        assert(consulted == self.models().len());
                        assert(self.models().take(consulted) =~= self.models());
                        assert(views_of(out@) =~= all);
                    },
                    Option::Some(l) => {
                        if pre.len() > l {
                            // The budget ran out; the collected prefix
                            // already covers the limit.
                            assert(all.take(l as int) =~= pre.take(l as int));
                            assert(views_of(out@) =~= pre.take(l as int));
                        } else {
                            assert(views_of(out@) == pre);
                            if consulted < self.models().len() {
                                // Consulting stopped only because the
                                // budget reached zero.
                                assert(pre.len() >= l);
                                assert(pre.len() == l);
                                assert(all.take(l as int) =~= pre.take(l as int));
                                assert(pre.take(l as int) =~= pre);
                            } else {
                                assert(self.models().take(consulted) =~= self.models());
                            }
                        }
                        assert(views_of(out@) =~= take_up_to(all, limit));
                    },
                }
                lemma_take_up_to_len(all, limit);
            }
        }
        Ok(out)
    }
}

/// Whether any budget is left: a missing limit never runs out.
fn budget_left(l: &Option<usize>) -> (b: bool)
    ensures
        b == (match l {
            Option::Some(v) => *v > 0,
            Option::None => true,
        }),
{
    match l {
        Option::Some(v) => *v > 0,
        Option::None => true,
    }
}

/// Two tiers strictly sorted by suffix with the same pairs are the same
/// sequence.
pub proof fn lemma_sorted_pairs_unique(s1: Seq<(int, SegmentFiles)>, s2: Seq<(int, SegmentFiles)>)
    requires
        forall|i: int, j: int| 0 <= i < j < s1.len() ==> (#[trigger] s1[i]).0 < (#[trigger] s1[j]).0,
        forall|i: int, j: int| 0 <= i < j < s2.len() ==> (#[trigger] s2[i]).0 < (#[trigger] s2[j]).0,
        s1.to_multiset() == s2.to_multiset(),
    ensures
        s1 == s2,
    decreases s1.len(),
{
    broadcast use vstd::seq_lib::group_to_multiset_ensures;

    assert(s1.len() == s1.to_multiset().len());
    assert(s2.len() == s2.to_multiset().len());
    if s1.len() == 0 {
        assert(s2.len() == 0);
        assert(s1 =~= s2);
    } else {
        assert(s2.len() == s1.len());
        // The two heads carry the least suffix of the same multiset, so
        // they are equal.
        assert(s1.to_multiset().count(s1[0]) > 0);
        assert(s2.contains(s1[0]));
        let j = choose|j: int| 0 <= j < s2.len() && s2[j] == s1[0];
        assert(s1.to_multiset().count(s2[0]) > 0);
        assert(s1.contains(s2[0]));
        let i = choose|i: int| 0 <= i < s1.len() && s1[i] == s2[0];
        assert(s2[0].0 <= s1[0].0);
        assert(s1[0].0 <= s2[0].0);
        assert(j == 0) by {
            if j > 0 {
                assert(s2[0].0 < s2[j].0);
            }
        }
        assert(s2[0] == s1[0]);
        // Cancel the equal heads and recurse on the tails.
        let t1 = s1.drop_first();
        let t2 = s2.drop_first();
        assert(s1.remove(0).to_multiset() =~= s1.to_multiset().remove(s1[0]));
        assert(s2.remove(0).to_multiset() =~= s2.to_multiset().remove(s2[0]));
        assert(t1 =~= s1.remove(0));
        assert(t2 =~= s2.remove(0));
        assert(t1.to_multiset() == t2.to_multiset());
        assert forall|x: int, y: int| 0 <= x < y < t1.len() implies (#[trigger] t1[x]).0 < (
        #[trigger] t1[y]).0 by {
            assert(t1[x] == s1[x + 1]);
            assert(t1[y] == s1[y + 1]);
        }
        assert forall|x: int, y: int| 0 <= x < y < t2.len() implies (#[trigger] t2[x]).0 < (
        #[trigger] t2[y]).0 by {
            assert(t2[x] == s2[x + 1]);
            assert(t2[y] == s2[y + 1]);
        }
        lemma_sorted_pairs_unique(t1, t2);
        assert forall|x: int| 0 <= x < s1.len() implies s1[x] == s2[x] by {
            if x > 0 {
                assert(s1[x] == t1[x - 1]);
                assert(s2[x] == t2[x - 1]);
            }
        }
        assert(s1 =~= s2);
    }
}

/// Recovery fidelity: a map whose memory tier is empty and a map rebuilt
/// from the same segment files — however the directory scan ordered
/// them — return the same results for every key.  (Memory segments are
/// not persisted; what they held is gone after a close.)
pub proof fn lemma_recovery_fidelity(m1: TieredSegmentMap, m2: TieredSegmentMap, k: Seq<char>)
    requires
        m1.memory@.len() == 0,
        m2.memory@.len() == 0,
        forall|i: int, j: int|
            0 <= i < j < m1.disk@.len() ==> (#[trigger] m1.disk@[i]).0 < (#[trigger] m1.disk@[j]).0,
        forall|i: int, j: int|
            0 <= i < j < m2.disk@.len() ==> (#[trigger] m2.disk@[i]).0 < (#[trigger] m2.disk@[j]).0,
        m1.disk_entries().to_multiset() == m2.disk_entries().to_multiset(),
    ensures
        all_results(m1.models(), k) == all_results(m2.models(), k),
{
    let p1 = tier_pairs(m1.disk@);
    let p2 = tier_pairs(m2.disk@);
    assert forall|i: int, j: int| 0 <= i < j < p1.len() implies (#[trigger] p1[i]).0 < (
    #[trigger] p1[j]).0 by {
        assert(p1[i] == (m1.disk@[i].0 as int, m1.disk@[i].1.files));
        assert(p1[j] == (m1.disk@[j].0 as int, m1.disk@[j].1.files));
    }
    assert forall|i: int, j: int| 0 <= i < j < p2.len() implies (#[trigger] p2[i]).0 < (
    #[trigger] p2[j]).0 by {
        assert(p2[i] == (m2.disk@[i].0 as int, m2.disk@[i].1.files));
        assert(p2[j] == (m2.disk@[j].0 as int, m2.disk@[j].1.files));
    }
    lemma_sorted_pairs_unique(p1, p2);
    assert(p1.len() == p2.len());
    assert(m2.disk@.len() == m1.disk@.len());
    assert(m1.disk_models() =~= m2.disk_models()) by {
        assert forall|i: int| 0 <= i < m1.disk@.len() implies #[trigger] m1.disk_models()[i]
            == m2.disk_models()[i] by {
            assert(p1[i] == p2[i]);
            assert(p1[i] == (m1.disk@[i].0 as int, m1.disk@[i].1.files));
            assert(p2[i] == (m2.disk@[i].0 as int, m2.disk@[i].1.files));
            assert(m1.disk@[i].1.files == m2.disk@[i].1.files);
            assert(m1.disk@[i].1.model() == crate::disk::files_model(m1.disk@[i].1.files));
            assert(m2.disk@[i].1.model() == crate::disk::files_model(m2.disk@[i].1.files));
        }
    }
    assert(m1.models() =~= m2.models()) by {
        assert(m1.memory_models().len() == 0);
        assert(m2.memory_models().len() == 0);
    }
}

/// Appending one segment extends the concatenated results by that
/// segment's results.
pub proof fn lemma_all_results_step(models: Seq<SegModel>, k: Seq<char>, i: int)
    requires
        0 <= i < models.len(),
    ensures
        all_results(models.take(i + 1), k) == all_results(models.take(i), k) + crate::model::seg_find(
            models[i],
            k,
        ),
{
    let single = seq![models[i]];
    assert(models.take(i + 1) =~= models.take(i) + single);
    lemma_all_results_concat(models.take(i), single, k);
    assert(single.len() == 1);
    assert(single[0] == models[i]);
    assert(single.drop_first() =~= Seq::<SegModel>::empty());
    assert(all_results(single.drop_first(), k).len() == 0);
    assert(all_results(single, k) == crate::model::seg_find(single[0], k) + all_results(
        single.drop_first(),
        k,
    ));
    assert(all_results(single, k) =~= crate::model::seg_find(models[i], k));
}

} // verus!
