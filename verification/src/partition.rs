//! The partition directory.
//!
//! A partition map routes batches and queries to per-partition tiered
//! segment maps.  A partition's directory name is the z-base-32 encoding
//! of its identifier, so arbitrary strings become safe filesystem names.
//! The surrounding binary loads the tiered maps for the partitions a
//! request names and attaches them here; indexing and searching across
//! the attached partitions is verified logic.

use vstd::prelude::*;
use vstd::utf8::encode_utf8;
use vstd::string::{StringExecFns, StrSliceExecFns};
use crate::order::{views_of, str_compare};
use crate::model::{
    SegModel, built_from, take_up_to, all_results, lemma_take_up_to_len, batch_keys_distinct,
    flat_values,
};
use crate::memory::{batch_view_of, batch_fits};
use crate::segment::{TieredSegmentMap, SegmentMapError, SPILL_THRESHOLD};
use crate::disk::DiskResolutionError;

verus! {

/// Errors surfaced by partition-level operations.
#[derive(Debug, Clone, Copy, PartialEq, Eq, Structural)]
pub enum PartitionError {
    /// An underlying system failure.
    IoError,
    /// A segment could not be read back.
    ResolutionError(DiskResolutionError),
    /// A segment map could not be built.
    CreationError(SegmentMapError),
}

/// What the z-base-32 alphabet encodes a byte string to.
pub uninterp spec fn zbase32_of(b: Seq<u8>) -> Seq<char>;

/// Relies on `base32::encode` with the z-base-32 alphabet: a pure
/// function of the input bytes, and — the alphabet being decodable —
/// distinct inputs encode to distinct strings.
#[verifier::external_body]
fn zbase32_encode(b: &[u8]) -> (r: String)
    ensures
        r@ == zbase32_of(b@),
        forall|other: Seq<u8>| other != b@ ==> #[trigger] zbase32_of(other) != r@,
{
    base32::encode(base32::Alphabet::Z, b)
}

/// The directory name of a partition: the z-base-32 encoding of its
/// identifier's UTF-8 bytes.  The encoding is reversible, so distinct
/// partitions never share a directory.
pub fn partition_dir_name(partition: &str) -> (r: String)
    ensures
        r@ == zbase32_of(encode_utf8(partition@)),
        forall|other: Seq<char>|
            other != partition@ ==> #[trigger] zbase32_of(encode_utf8(other)) != r@,
{
    broadcast use vstd::utf8::encode_utf8_decode_utf8;

    let r = zbase32_encode(partition.as_bytes());
    proof {
        assert forall|other: Seq<char>| other != partition@ implies #[trigger] zbase32_of(
            encode_utf8(other),
        ) != r@ by {
            if encode_utf8(other) == encode_utf8(partition@) {
                // UTF-8 encoding is itself reversible.
                assert(vstd::utf8::decode_utf8(encode_utf8(other)) == other);
                assert(vstd::utf8::decode_utf8(encode_utf8(partition@)) == partition@);
            }
        }
    }
    r
}

/// The tiered map attached under a partition name, first match.
pub open spec fn lookup_map(s: Seq<(String, TieredSegmentMap)>, p: Seq<char>) -> Option<
    TieredSegmentMap,
>
    decreases s.len(),
{
    if s.len() == 0 {
        Option::None
    } else if s[0].0@ == p {
        Option::Some(s[0].1)
    } else {
        lookup_map(s.drop_first(), p)
    }
}

/// The segment models a query sees under a partition name.
pub open spec fn lookup_models(s: Seq<(String, TieredSegmentMap)>, p: Seq<char>) -> Seq<SegModel> {
    match lookup_map(s, p) {
        Option::Some(t) => t.models(),
        Option::None => Seq::empty(),
    }
}

/// If the first match for `p` is at `i`, the lookup returns that entry.
proof fn lemma_lookup_index(s: Seq<(String, TieredSegmentMap)>, i: int, p: Seq<char>)
    requires
        0 <= i < s.len(),
        s[i].0@ == p,
        forall|j: int| 0 <= j < i ==> (#[trigger] s[j]).0@ != p,
    ensures
        lookup_map(s, p) == Option::Some(s[i].1),
    decreases i,
{
    if i > 0 {
        let rest = s.drop_first();
        assert forall|j: int| 0 <= j < i - 1 implies (#[trigger] rest[j]).0@ != p by {
            assert(rest[j] == s[j + 1]);
        }
        lemma_lookup_index(rest, i - 1, p);
    }
}

/// If no entry matches `p`, the lookup is empty.
proof fn lemma_lookup_none(s: Seq<(String, TieredSegmentMap)>, p: Seq<char>)
    requires
        forall|j: int| 0 <= j < s.len() ==> (#[trigger] s[j]).0@ != p,
    ensures
        lookup_map(s, p) is None,
    decreases s.len(),
{
    if s.len() > 0 {
        let rest = s.drop_first();
        assert forall|j: int| 0 <= j < rest.len() implies (#[trigger] rest[j]).0@ != p by {
            assert(rest[j] == s[j + 1]);
        }
        lemma_lookup_none(rest, p);
    }
}

/// Replacing the first match for `p` changes only `p`'s lookup.
proof fn lemma_lookup_update(
    s: Seq<(String, TieredSegmentMap)>,
    i: int,
    pair: (String, TieredSegmentMap),
    q: Seq<char>,
)
    requires
        0 <= i < s.len(),
        forall|j: int| 0 <= j < i ==> (#[trigger] s[j]).0@ != s[i].0@,
        pair.0@ == s[i].0@,
    ensures
        lookup_map(s.update(i, pair), q) == (if q == s[i].0@ {
            Option::Some(pair.1)
        } else {
            lookup_map(s, q)
        }),
    decreases s.len(),
{
    let s2 = s.update(i, pair);
    if i == 0 {
        if q != s[0].0@ {
            assert(s2.drop_first() =~= s.drop_first());
        }
    } else {
        assert(s2[0] == s[0]);
        if q == s[0].0@ {
        } else {
            let rest = s.drop_first();
            assert forall|j: int| 0 <= j < i - 1 implies (#[trigger] rest[j]).0@ != rest[i
                - 1].0@ by {
                assert(rest[j] == s[j + 1]);
                assert(rest[i - 1] == s[i]);
            }
            assert(rest[i - 1] == s[i]);
            lemma_lookup_update(rest, i - 1, pair, q);
            assert(s2.drop_first() =~= rest.update(i - 1, pair));
        }
    }
}

/// Appending an entry changes only lookups its name answers first.
proof fn lemma_lookup_push(
    s: Seq<(String, TieredSegmentMap)>,
    pair: (String, TieredSegmentMap),
    q: Seq<char>,
)
    ensures
        lookup_map(s.push(pair), q) == (if lookup_map(s, q) is Some {
            lookup_map(s, q)
        } else if q == pair.0@ {
            Option::Some(pair.1)
        } else {
            Option::None
        }),
    decreases s.len(),
{
    if s.len() == 0 {
        assert(s.push(pair)[0] == pair);
        assert(s.push(pair).drop_first() =~= Seq::<(String, TieredSegmentMap)>::empty());
        assert(lookup_map(s, q) is None);
        if q == pair.0@ {
            assert(lookup_map(s.push(pair), q) == Option::Some(pair.1));
        } else {
            assert(lookup_map(s.push(pair).drop_first(), q) is None);
            assert(lookup_map(s.push(pair), q) is None);
        }
    } else {
        assert(s.push(pair)[0] == s[0]);
        if s[0].0@ == q {
            assert(lookup_map(s, q) == Option::Some(s[0].1));
            assert(lookup_map(s.push(pair), q) == Option::Some(s[0].1));
        } else {
            lemma_lookup_push(s.drop_first(), pair, q);
            assert(s.push(pair).drop_first() =~= s.drop_first().push(pair));
            assert(lookup_map(s.push(pair), q) == lookup_map(s.drop_first().push(pair), q));
            assert(lookup_map(s, q) == lookup_map(s.drop_first(), q));
        }
    }
}

/// What one query key contributes after another has already been
/// answered: the remaining budget.
pub open spec fn minus_used(limit: Option<usize>, used: int) -> Option<usize> {
    match limit {
        Option::None => Option::None,
        Option::Some(l) => Option::Some(
            if used >= l {
                0usize
            } else {
                (l - used) as usize
            },
        ),
    }
}

/// Truncation distributes over concatenation: cutting the whole to the
/// limit equals cutting the first part to the limit and the second to
/// what the first left over.
pub proof fn lemma_take_up_to_concat(a: Seq<Seq<char>>, b: Seq<Seq<char>>, limit: Option<usize>)
    ensures
        take_up_to(a + b, limit) == take_up_to(a, limit) + take_up_to(
            b,
            minus_used(limit, take_up_to(a, limit).len() as int),
        ),
{
    match limit {
        Option::None => {
            assert(take_up_to(a + b, limit) =~= take_up_to(a, limit) + take_up_to(
                b,
                minus_used(limit, take_up_to(a, limit).len() as int),
            ));
        },
        Option::Some(l) => {
            if a.len() >= l {
                assert(take_up_to(a + b, limit) =~= a.take(l as int));
                assert(take_up_to(a, limit).len() == l);
                assert(take_up_to(b, Option::Some(0usize)) =~= b.take(0));
                assert(take_up_to(a, limit) + b.take(0) =~= take_up_to(a, limit));
            } else {
                assert(take_up_to(a, limit) == a);
                if a.len() + b.len() <= l {
                    assert(take_up_to(a + b, limit) == a + b);
                    assert(take_up_to(b, minus_used(limit, a.len() as int)) == b);
                } else {
                    assert(take_up_to(a + b, limit) =~= a + b.take(l - a.len()));
                    assert(take_up_to(b, minus_used(limit, a.len() as int)) =~= b.take(
                        l - a.len(),
                    ));
                }
            }
        },
    }
}

/// What a list of keys returns against one partition's segments, before
/// any limit.
pub open spec fn keys_results(models: Seq<SegModel>, keys: Seq<Seq<char>>) -> Seq<Seq<char>>
    decreases keys.len(),
{
    if keys.len() == 0 {
        Seq::empty()
    } else {
        all_results(models, keys[0]) + keys_results(models, keys.drop_first())
    }
}

pub proof fn lemma_keys_results_step(models: Seq<SegModel>, keys: Seq<Seq<char>>, j: int)
    requires
        0 <= j < keys.len(),
    ensures
        keys_results(models, keys.take(j + 1)) == keys_results(models, keys.take(j)) + all_results(
            models,
            keys[j],
        ),
    decreases j,
{
    if j == 0 {
        let t = keys.take(1);
        assert(t[0] == keys[0]);
        assert(t.drop_first() =~= Seq::<Seq<char>>::empty());
        assert(keys_results(models, t.drop_first()).len() == 0);
        assert(keys.take(0).len() == 0);
        assert(keys_results(models, keys.take(1)) =~= all_results(models, keys[0]));
        assert(keys_results(models, keys.take(0)) + all_results(models, keys[0]) =~= all_results(
            models,
            keys[0],
        ));
    } else {
        let t1 = keys.take(j + 1);
        let t0 = keys.take(j);
        assert(t1[0] == keys[0]);
        assert(t0[0] == keys[0]);
        assert(t1.drop_first() =~= keys.drop_first().take(j));
        assert(t0.drop_first() =~= keys.drop_first().take(j - 1));
        lemma_keys_results_step(models, keys.drop_first(), j - 1);
        assert(keys.drop_first()[j - 1] == keys[j]);
        assert(all_results(models, keys[0]) + (keys_results(models, keys.drop_first().take(j - 1))
            + all_results(models, keys[j])) =~= (all_results(models, keys[0]) + keys_results(
            models,
            keys.drop_first().take(j - 1),
        )) + all_results(models, keys[j]));
    }
}

/// What a whole query returns, before any limit: partitions in query
/// order, keys in query order, values in segment order.
pub open spec fn query_results(
    parts: Seq<(String, TieredSegmentMap)>,
    q: Seq<(Seq<char>, Seq<Seq<char>>)>,
) -> Seq<Seq<char>>
    decreases q.len(),
{
    if q.len() == 0 {
        Seq::empty()
    } else {
        keys_results(lookup_models(parts, q[0].0), q[0].1) + query_results(parts, q.drop_first())
    }
}

pub proof fn lemma_query_results_step(
    parts: Seq<(String, TieredSegmentMap)>,
    q: Seq<(Seq<char>, Seq<Seq<char>>)>,
    i: int,
)
    requires
        0 <= i < q.len(),
    ensures
        query_results(parts, q.take(i + 1)) == query_results(parts, q.take(i)) + keys_results(
            lookup_models(parts, q[i].0),
            q[i].1,
        ),
    decreases i,
{
    if i == 0 {
        let t = q.take(1);
        assert(t[0] == q[0]);
        assert(t.drop_first() =~= Seq::<(Seq<char>, Seq<Seq<char>>)>::empty());
        assert(query_results(parts, t.drop_first()).len() == 0);
        assert(q.take(0).len() == 0);
        assert(query_results(parts, q.take(1)) =~= keys_results(lookup_models(parts, q[0].0), q[0].1));
        assert(query_results(parts, q.take(0)) + keys_results(lookup_models(parts, q[0].0), q[0].1)
            =~= keys_results(lookup_models(parts, q[0].0), q[0].1));
    } else {
        let t1 = q.take(i + 1);
        let t0 = q.take(i);
        assert(t1[0] == q[0]);
        assert(t0[0] == q[0]);
        assert(t1.drop_first() =~= q.drop_first().take(i));
        assert(t0.drop_first() =~= q.drop_first().take(i - 1));
        lemma_query_results_step(parts, q.drop_first(), i - 1);
        assert(q.drop_first()[i - 1] == q[i]);
        let h0 = keys_results(lookup_models(parts, q[0].0), q[0].1);
        assert(h0 + (query_results(parts, q.drop_first().take(i - 1)) + keys_results(
            lookup_models(parts, q[i].0),
            q[i].1,
        )) =~= (h0 + query_results(parts, q.drop_first().take(i - 1))) + keys_results(
            lookup_models(parts, q[i].0),
            q[i].1,
        ));
    }
}

/// How one indexed batch extends one partition's map: a single segment
/// built from the batch joins the disk tier when it spills, the memory
/// tier otherwise, and nothing else moves.
pub open spec fn map_extended(
    before: Option<TieredSegmentMap>,
    after: Option<TieredSegmentMap>,
    iv: crate::model::BatchView,
) -> bool {
    match after {
        Option::Some(t2) => {
            let om = match before {
                Option::Some(t) => t.memory_models(),
                Option::None => Seq::empty(),
            };
            let od = match before {
                Option::Some(t) => t.disk_models(),
                Option::None => Seq::empty(),
            };
            ||| {
                &&& t2.disk_models() == od
                &&& t2.memory_models().len() == om.len() + 1
                &&& t2.memory_models().drop_last() == om
                &&& built_from(t2.memory_models().last(), iv)
                &&& t2.memory_models().last().values.len() <= SPILL_THRESHOLD
            }
            ||| {
                &&& t2.memory_models() == om
                &&& t2.disk_models().len() == od.len() + 1
                &&& t2.disk_models().drop_last() == od
                &&& built_from(t2.disk_models().last(), iv)
                &&& t2.disk_models().last().values.len() > SPILL_THRESHOLD
            }
        },
        Option::None => false,
    }
}

/// Every batch of an index call meets the segment builder's input
/// bounds.
pub open spec fn batches_ok(b: Seq<(String, Vec<(String, Vec<String>)>)>) -> bool {
    forall|i: int|
        0 <= i < b.len() ==> {
            &&& batch_keys_distinct(batch_view_of((#[trigger] b[i]).1@))
            &&& batch_fits(batch_view_of(b[i].1@))
            &&& b[i].1@.len() <= 0xffffffff
            &&& flat_values(batch_view_of(b[i].1@)).len() <= 0xffffffff
        }
}

/// A partition directory: the root path and the tiered maps attached for
/// the current operation.
pub struct PartitionMap {
    pub directory: String,
    pub partitions: Vec<(String, TieredSegmentMap)>,
}

impl PartitionMap {
    /// The attached partition names are distinct and their maps well
    /// formed.
    pub open spec fn wf(&self) -> bool {
        &&& forall|i: int, j: int|
            0 <= i < j < self.partitions@.len() ==> (#[trigger] self.partitions@[i]).0@ != (
            #[trigger] self.partitions@[j]).0@
        &&& forall|i: int| 0 <= i < self.partitions@.len() ==> (#[trigger] self.partitions@[i]).1.wf()
    }

    /// A partition map over a root directory, with nothing attached yet.
    pub fn new(directory: String) -> (r: Result<PartitionMap, PartitionError>)
        ensures
            r matches Ok(m) ==> m.directory@ == directory@ && m.partitions@.len() == 0 && m.wf(),
            r is Ok,
    {
        Ok(PartitionMap { directory, partitions: Vec::new() })
    }

    /// Attach a loaded tiered map under a partition name not yet
    /// attached.
    pub fn attach_partition(&mut self, partition: String, map: TieredSegmentMap)
        requires
            forall|i: int|
                0 <= i < old(self).partitions@.len() ==> (#[trigger] old(
                    self,
                ).partitions@[i]).0@ != partition@,
        ensures
            final(self).directory == old(self).directory,
            final(self).partitions@ == old(self).partitions@.push((partition, map)),
    {
        self.partitions.push((partition, map));
    }

    /// The index of the first attached entry for a partition name.
    fn find_partition(&self, partition: &str) -> (r: Option<usize>)
        ensures
            match r {
                Some(i) => i < self.partitions@.len() && self.partitions@[i as int].0@
                    == partition@ && (forall|j: int|
                    0 <= j < i ==> (#[trigger] self.partitions@[j]).0@ != partition@),
                None => forall|j: int|
                    0 <= j < self.partitions@.len() ==> (#[trigger] self.partitions@[j]).0@
                        != partition@,
            },
    {
        let mut i: usize = 0;
        while i < self.partitions.len()
            invariant
                i <= self.partitions@.len(),
                forall|j: int| 0 <= j < i ==> (#[trigger] self.partitions@[j]).0@ != partition@,
            decreases self.partitions@.len() - i,
        {
            if str_compare(self.partitions[i].0.as_str(), partition) == 0 {
                return Some(i);
            }
            i = i + 1;
        }
        None
    }

    /// Index a batch of partitions: for each, insert its entries into
    /// the partition's tiered map, attaching a fresh empty map for a
    /// partition seen for the first time.  Partitions are processed in
    /// order; an error leaves the earlier ones indexed.
    #[verifier::loop_isolation(false)]
    #[verifier::rlimit(60)]
    pub fn index(&mut self, map: Vec<(String, Vec<(String, Vec<String>)>)>) -> (r: Result<
        (),
        PartitionError,
    >)
        requires
            batches_ok(map@),
            forall|i: int, j: int|
                0 <= i < j < map@.len() ==> (#[trigger] map@[i]).0@ != (#[trigger] map@[j]).0@,
        ensures
            final(self).directory == old(self).directory,
            old(self).wf() ==> final(self).wf(),
            // Partitions the batch does not name are untouched, whether
            // or not the call succeeds.
            old(self).wf() ==> forall|q: Seq<char>|
                (forall|i: int| 0 <= i < map@.len() ==> (#[trigger] map@[i]).0@ != q)
                    ==> #[trigger] lookup_map(final(self).partitions@, q) == lookup_map(
                    old(self).partitions@,
                    q,
                ),
            // Partitions are processed in order with no rollback: on an
            // error, each named partition is either already extended by
            // its batch or still as it was.
            old(self).wf() ==> forall|i: int|
                0 <= i < map@.len() ==> map_extended(
                    lookup_map(old(self).partitions@, (#[trigger] map@[i]).0@),
                    lookup_map(final(self).partitions@, map@[i].0@),
                    batch_view_of(map@[i].1@),
                ) || lookup_map(final(self).partitions@, map@[i].0@) == lookup_map(
                    old(self).partitions@,
                    map@[i].0@,
                ),
            (old(self).wf() && r is Ok) ==> forall|i: int|
                0 <= i < map@.len() ==> map_extended(
                    lookup_map(old(self).partitions@, (#[trigger] map@[i]).0@),
                    lookup_map(final(self).partitions@, map@[i].0@),
                    batch_view_of(map@[i].1@),
                ),
            // A partition seen for the first time gets its map rooted at
            // the z-base-32 directory of its identifier.
            old(self).wf() ==> forall|i: int|
                (0 <= i < map@.len() && lookup_map(
                    old(self).partitions@,
                    (#[trigger] map@[i]).0@,
                ) is None && lookup_map(final(self).partitions@, map@[i].0@) is Some)
                    ==> (lookup_map(final(self).partitions@, map@[i].0@)->0).directory@ == old(
                    self,
                ).directory@ + seq!['/'] + zbase32_of(encode_utf8(map@[i].0@)),
            r matches Err(e) ==> e matches PartitionError::CreationError(_),
            (forall|i: int| 0 <= i < map@.len() ==> (#[trigger] map@[i]).1@.len() > 0) ==> r
                != Err::<(), PartitionError>(
                PartitionError::CreationError(SegmentMapError::EmptyInput),
            ),
            // An empty batch list asks for nothing, so nothing fails.
            map@.len() == 0 ==> r is Ok,
    {
        let ghost h = old(self).wf();
        let ghost orig = old(self).partitions@;
        let ghost bv = map@;
        let mut rest = map;
        let total = rest.len();
        let mut i: usize = 0;
        while rest.len() > 0
            invariant
                total == bv.len(),
                i + rest@.len() == bv.len(),
                rest@ =~= bv.skip(i as int),
                self.directory == old(self).directory,
                h ==> self.wf(),
                h ==> forall|i2: int|
                    0 <= i2 < i ==> map_extended(
                        lookup_map(orig, (#[trigger] bv[i2]).0@),
                        lookup_map(self.partitions@, bv[i2].0@),
                        batch_view_of(bv[i2].1@),
                    ),
                h ==> forall|q: Seq<char>|
                    (forall|i2: int| 0 <= i2 < i ==> (#[trigger] bv[i2]).0@ != q)
                        ==> #[trigger] lookup_map(self.partitions@, q) == lookup_map(orig, q),
                h ==> forall|i2: int|
                    (0 <= i2 < i && lookup_map(orig, (#[trigger] bv[i2]).0@) is None) ==> (
                    lookup_map(self.partitions@, bv[i2].0@) is Some && (lookup_map(
                        self.partitions@,
                        bv[i2].0@,
                    )->0).directory@ == old(self).directory@ + seq!['/'] + zbase32_of(
                        encode_utf8(bv[i2].0@),
                    )),
            decreases rest@.len(),
        {
            let pair = rest.remove(0);
            assert(pair == bv[i as int]);
            let partition = pair.0;
            let entries = pair.1;
            let ghost before = self.partitions@;
            proof {
                if h {
                    assert forall|i2: int| 0 <= i2 < i implies (#[trigger] bv[i2]).0@ != bv[
                        i as int].0@ by {}
                    assert(lookup_map(before, bv[i as int].0@) == lookup_map(
                        orig,
                        bv[i as int].0@,
                    ));
                }
            }
            match self.find_partition(partition.as_str()) {
                Some(p) => {
                    let mut entry = self.partitions.remove(p);
                    let ghost t_old = entry.1;
                    let ghost entry_name = entry.0;
                    let ghost batch_len = entries@.len();
                    let res = entry.1.insert(entries);
                    let inserted = entry.1;
                    self.partitions.insert(p, (entry.0, inserted));
                    if let Err(e) = res {
                        proof {
                            // A failed insert leaves the map untouched,
                            // so the tier list is exactly as before.
                            assert(inserted == t_old);
                            assert((entry_name, inserted) == before[p as int]);
                            assert(self.partitions@ =~= before.update(
                                p as int,
                                before[p as int],
                            ));
                            assert(self.partitions@ =~= before);
                            if h {
                                assert forall|i2: int|
                                    i <= i2 < bv.len() implies #[trigger] lookup_map(
                                    self.partitions@,
                                    bv[i2].0@,
                                ) == lookup_map(orig, bv[i2].0@) by {
                                    assert forall|i3: int| 0 <= i3 < i implies (
                                    #[trigger] bv[i3]).0@ != bv[i2].0@ by {}
                                }
                            }
                            assert(batch_len == bv[i as int].1.len());
                        }
                        return Err(PartitionError::CreationError(e));
                    }
                    proof {
                        if h {
                            let p_int = p as int;
                            let newpair = self.partitions@[p_int];
                            assert(self.partitions@ =~= before.update(p_int, newpair));
                            assert(newpair.0 == before[p_int].0);
                            lemma_lookup_index(before, p_int, bv[i as int].0@);
                            assert(lookup_map(before, bv[i as int].0@) == Option::Some(t_old));
                            let m = choose|m: SegModel|
                                #[trigger] built_from(m, batch_view_of(bv[i as int].1@)) && (if m
                                    .values.len() > SPILL_THRESHOLD {
                                    newpair.1.memory_models() == t_old.memory_models()
                                        && newpair.1.disk_models()
                                        == t_old.disk_models().push(m)
                                } else {
                                    newpair.1.memory_models() == t_old.memory_models().push(m)
                                        && newpair.1.disk_models() == t_old.disk_models()
                                });
                            if m.values.len() > SPILL_THRESHOLD {
                                assert(newpair.1.disk_models().drop_last()
                                    =~= t_old.disk_models());
                                assert(newpair.1.disk_models().last() == m);
                            } else {
                                assert(newpair.1.memory_models().drop_last()
                                    =~= t_old.memory_models());
                                assert(newpair.1.memory_models().last() == m);
                            }
                            assert forall|q: Seq<char>| true implies #[trigger] lookup_map(
                                self.partitions@,
                                q,
                            ) == (if q == bv[i as int].0@ {
                                Option::Some(newpair.1)
                            } else {
                                lookup_map(before, q)
                            }) by {
                                lemma_lookup_update(before, p_int, newpair, q);
                            }
                            assert(map_extended(
                                lookup_map(orig, bv[i as int].0@),
                                lookup_map(self.partitions@, bv[i as int].0@),
                                batch_view_of(bv[i as int].1@),
                            ));
                            assert forall|x: int, y: int|
                                0 <= x < y < self.partitions@.len() implies (#[trigger] self
                                .partitions@[x]).0@ != (#[trigger] self.partitions@[y]).0@ by {
                                assert(self.partitions@[x].0 == before[x].0);
                                assert(self.partitions@[y].0 == before[y].0);
                            }
                            assert forall|x: int|
                                0 <= x < self.partitions@.len() implies (#[trigger] self
                                .partitions@[x]).1.wf() by {
                                if x != p_int {
                                    assert(self.partitions@[x] == before[x]);
                                }
                            }
                        }
                    }
                },
                None => {
                    let dir_name = partition_dir_name(partition.as_str());
                    let mut path = self.directory.clone();
                    path.append("/");
                    path.append(dir_name.as_str());
                    proof {
                        reveal_strlit("/");
                        assert(path@ =~= old(self).directory@ + seq!['/'] + zbase32_of(
                            encode_utf8(bv[i as int].0@),
                        ));
                    }
                    let ghost dirpath = path@;
                    let ghost batch_len = entries@.len();
                    let mut tier = match TieredSegmentMap::new(path, Vec::new()) {
                        Ok(t) => t,
                        Err(e) => {
                            proof {
                                assert(false);
                            }
                            return Err(PartitionError::CreationError(e));
                        },
                    };
                    let ghost t0 = tier;
                    if let Err(e) = tier.insert(entries) {
                        proof {
                            // Nothing was attached, so the partitions
                            // stand exactly as before.
                            if h {
                                assert forall|i2: int|
                                    i <= i2 < bv.len() implies #[trigger] lookup_map(
                                    self.partitions@,
                                    bv[i2].0@,
                                ) == lookup_map(orig, bv[i2].0@) by {
                                    assert forall|i3: int| 0 <= i3 < i implies (
                                    #[trigger] bv[i3]).0@ != bv[i2].0@ by {}
                                }
                            }
                            assert(batch_len == bv[i as int].1.len());
                        }
                        return Err(PartitionError::CreationError(e));
                    }
                    let ghost tier_after = tier;
                    let newpair = (partition, tier);
                    let ghost gp = newpair;
                    self.partitions.push(newpair);
                    proof {
                        assert(gp.1.directory@ == dirpath);
                    }
                    proof {
                        if h {
                            lemma_lookup_none(before, bv[i as int].0@);
                            assert(t0.memory_models() =~= Seq::<SegModel>::empty());
                            assert(t0.disk_models() =~= Seq::<SegModel>::empty());
                            let m = choose|m: SegModel|
                                #[trigger] built_from(m, batch_view_of(bv[i as int].1@)) && (if m
                                    .values.len() > SPILL_THRESHOLD {
                                    gp.1.memory_models() == t0.memory_models()
                                        && gp.1.disk_models() == t0.disk_models().push(m)
                                } else {
                                    gp.1.memory_models() == t0.memory_models().push(m)
                                        && gp.1.disk_models() == t0.disk_models()
                                });
                            if m.values.len() > SPILL_THRESHOLD {
                                assert(gp.1.disk_models().drop_last() =~= t0.disk_models());
                                assert(gp.1.disk_models().last() == m);
                            } else {
                                assert(gp.1.memory_models().drop_last() =~= t0.memory_models());
                                assert(gp.1.memory_models().last() == m);
                            }
                            assert forall|q: Seq<char>| true implies #[trigger] lookup_map(
                                self.partitions@,
                                q,
                            ) == (if lookup_map(before, q) is Some {
                                lookup_map(before, q)
                            } else if q == bv[i as int].0@ {
                                Option::Some(gp.1)
                            } else {
                                Option::None
                            }) by {
                                lemma_lookup_push(before, gp, q);
                            }
                            assert(lookup_map(self.partitions@, bv[i as int].0@) == Option::Some(
                                gp.1,
                            ));
                            assert(map_extended(
                                lookup_map(orig, bv[i as int].0@),
                                lookup_map(self.partitions@, bv[i as int].0@),
                                batch_view_of(bv[i as int].1@),
                            ));
                            assert forall|x: int, y: int|
                                0 <= x < y < self.partitions@.len() implies (#[trigger] self
                                .partitions@[x]).0@ != (#[trigger] self.partitions@[y]).0@ by {
                                if y < self.partitions@.len() - 1 {
                                    assert(self.partitions@[x] == before[x]);
                                    assert(self.partitions@[y] == before[y]);
                                } else {
                                    assert(self.partitions@[x] == before[x]);
                                    assert(before[x].0@ != bv[i as int].0@);
                                }
                            }
                            assert forall|x: int|
                                0 <= x < self.partitions@.len() implies (#[trigger] self
                                .partitions@[x]).1.wf() by {
                                if x < self.partitions@.len() - 1 {
                                    assert(self.partitions@[x] == before[x]);
                                }
                            }
                        }
                    }
                },
            }
            proof {
                if h {
                    // Earlier partitions, having distinct names, kept
                    // their lookups.
                    assert forall|i2: int| 0 <= i2 < i + 1 implies map_extended(
                        lookup_map(orig, (#[trigger] bv[i2]).0@),
                        lookup_map(self.partitions@, bv[i2].0@),
                        batch_view_of(bv[i2].1@),
                    ) by {
                        if i2 < i {
                            assert(bv[i2].0@ != bv[i as int].0@);
                            assert(lookup_map(self.partitions@, bv[i2].0@) == lookup_map(
                                before,
                                bv[i2].0@,
                            ));
                        }
                    }
                    assert forall|i2: int|
                        (0 <= i2 < i + 1 && lookup_map(orig, (#[trigger] bv[i2]).0@)
                            is None) implies (lookup_map(self.partitions@, bv[i2].0@) is Some && (
                    lookup_map(self.partitions@, bv[i2].0@)->0).directory@ == old(self).directory@
                        + seq!['/'] + zbase32_of(encode_utf8(bv[i2].0@))) by {
                        if i2 < i {
                            assert(bv[i2].0@ != bv[i as int].0@);
                            assert(lookup_map(self.partitions@, bv[i2].0@) == lookup_map(
                                before,
                                bv[i2].0@,
                            ));
                        }
                    }
                    assert(rest@ =~= bv.skip(i + 1));
                }
            }
            i = i + 1;
        }
        Ok(())
    }

    /// Answer a query: for each partition in query order, look up each
    /// of its keys in order, accumulating under the shared limit.  Under
    /// limit `l` the result holds the first `min(l, total)` values.
    #[verifier::loop_isolation(false)]
    #[verifier::rlimit(60)]
    pub fn search(&self, query: Vec<(String, Vec<String>)>, limit: Option<usize>) -> (r: Result<
        Vec<String>,
        PartitionError,
    >)
        ensures
            self.wf() ==> match r {
                Ok(items) => {
                    &&& views_of(items@) == take_up_to(
                        query_results(self.partitions@, batch_view_of(query@)),
                        limit,
                    )
                    &&& items@.len() == (match limit {
                        Option::None => query_results(
                            self.partitions@,
                            batch_view_of(query@),
                        ).len() as int,
                        Option::Some(l) => if query_results(
                            self.partitions@,
                            batch_view_of(query@),
                        ).len() <= l {
                            query_results(self.partitions@, batch_view_of(query@)).len() as int
                        } else {
                            l as int
                        },
                    })
                },
                Err(_) => false,
            },
    {
        let ghost h = self.wf();
        let ghost qv = batch_view_of(query@);
        let ghost parts = self.partitions@;
        let mut out: Vec<String> = Vec::new();
        let mut remaining = limit;
        let mut i: usize = 0;
        while i < query.len()
            invariant
                i <= query@.len(),
                h ==> views_of(out@) =~= take_up_to(query_results(parts, qv.take(i as int)), limit),
                h ==> remaining == minus_used(limit, out@.len() as int),
            decreases query@.len() - i,
        {
            let pos = self.find_partition(query[i].0.as_str());
            let ghost models = lookup_models(parts, qv[i as int].0);
            proof {
                if h {
                    match pos {
                        Some(p) => {
                            lemma_lookup_index(parts, p as int, qv[i as int].0);
                        },
                        None => {
                            lemma_lookup_none(parts, qv[i as int].0);
                        },
                    }
                }
            }
            let mut j: usize = 0;
            while j < query[i].1.len()
                invariant
                    i < query@.len(),
                    j <= query@[i as int].1@.len(),
                    h ==> views_of(out@) =~= take_up_to(
                        query_results(parts, qv.take(i as int)) + keys_results(
                            models,
                            qv[i as int].1.take(j as int),
                        ),
                        limit,
                    ),
                    h ==> remaining == minus_used(limit, out@.len() as int),
                decreases query@[i as int].1@.len() - j,
            {
                assert(qv[i as int].1[j as int] == query@[i as int].1@[j as int]@);
                let mut found = match pos {
                    Some(p) => {
                        match self.partitions[p].1.find(query[i].1[j].as_str(), remaining) {
                            Ok(v) => v,
                            Err(e) => {
                                proof {
                                    if h {
                                        assert(self.partitions@[p as int].1.wf());
                                        assert(false);
                                    }
                                }
                                return Err(PartitionError::ResolutionError(e));
                            },
                        }
                    },
                    None => Vec::new(),
                };
                proof {
                    if h {
                        if pos is None {
                            assert(models.len() == 0);
                            assert(all_results(models, qv[i as int].1[j as int]).len() == 0);
                            assert(views_of(found@) =~= take_up_to(
                                all_results(models, qv[i as int].1[j as int]),
                                remaining,
                            ));
                        }
                    }
                }
                let ghost fv = found@;
                let ghost rem_before = remaining;
                let n = found.len();
                if let Some(v) = remaining {
                    remaining = Some(
                        if v > n {
                            v - n
                        } else {
                            0
                        },
                    );
                }
                let ghost out_before = out@;
                out.append(&mut found);
                proof {
                    if h {
                        let prior = query_results(parts, qv.take(i as int)) + keys_results(
                            models,
                            qv[i as int].1.take(j as int),
                        );
                        let this = all_results(models, qv[i as int].1[j as int]);
                        assert(views_of(fv) =~= take_up_to(this, rem_before));
                        lemma_take_up_to_concat(prior, this, limit);
                        lemma_take_up_to_len(this, minus_used(limit, out_before.len() as int));
                        assert(views_of(out@) =~= views_of(out_before) + views_of(fv));
                        assert(views_of(out@) =~= take_up_to(prior + this, limit));
                        lemma_keys_results_step(models, qv[i as int].1, j as int);
                        assert(prior + this =~= query_results(parts, qv.take(i as int))
                            + keys_results(models, qv[i as int].1.take(j + 1)));
                        lemma_take_up_to_len(prior + this, limit);
                    }
                }
                j = j + 1;
            }
            proof {
                if h {
                    assert(qv[i as int].1.take(qv[i as int].1.len() as int) =~= qv[i as int].1);
                    lemma_query_results_step(parts, qv, i as int);
                    assert(query_results(parts, qv.take(i as int)) + keys_results(
                        models,
                        qv[i as int].1,
                    ) =~= query_results(parts, qv.take(i + 1)));
                }
            }
            i = i + 1;
        }
        proof {
            if h {
                assert(qv.take(qv.len() as int) =~= qv);
                lemma_take_up_to_len(query_results(parts, qv), limit);
            }
        }
        Ok(out)
    }
}

} // verus!
