//! Bloom filter gate.
//!
//! Each segment fronts its key table with a bloom filter over the key
//! strings.  The filter may accept keys that were never inserted, but it
//! never rejects a key that was, and its serialized form restores a
//! filter that accepts everything the original did.  The contracts below
//! track only that guaranteed-accepted set, plus usability: probing a
//! filter divides a hash by its bitmap size, so only a filter holding at
//! least one bitmap bit may be probed, and deserialization rejects the
//! rest.

use vstd::prelude::*;

verus! {

#[verifier::external_type_specification]
#[verifier::external_body]
#[verifier::reject_recursive_types(T)]
pub struct ExBloom<T: ?Sized>(bloomfilter::Bloom<T>);

/// The set of keys a filter is guaranteed to accept.
pub uninterp spec fn bloom_keys(b: bloomfilter::Bloom<str>) -> Set<Seq<char>>;

/// The filter holds at least one bitmap bit, so probing it cannot
/// divide by zero.
pub uninterp spec fn bloom_usable(b: bloomfilter::Bloom<str>) -> bool;

/// The guaranteed-accepted set of the usable filter that deserializing
/// a byte string restores, or nothing when the bytes do not parse or
/// restore a filter with no bitmap bits.
pub uninterp spec fn bloom_parse_keys(bytes: Seq<u8>) -> Option<Set<Seq<char>>>;

/// Relies on `Bloom::new`: a fresh filter has a bitmap of at least one
/// byte with no bit set, so nothing is guaranteed accepted; creation
/// fails only when no random seed can be drawn, and panics on a zero
/// size, which the preconditions rule out.
#[verifier::external_body]
pub(crate) fn bloom_new(bitmap_size: usize, items_count: usize) -> (r: Option<
    bloomfilter::Bloom<str>,
>)
    requires
        bitmap_size > 0,
        items_count > 0,
    ensures
        r matches Some(f) ==> bloom_keys(f) == Set::<Seq<char>>::empty() && bloom_usable(f),
{
    bloomfilter::Bloom::new(bitmap_size, items_count).ok()
}

/// Relies on `Bloom::set`: recording a key only sets bits, so everything
/// accepted before stays accepted, the key itself is now accepted, and
/// the bitmap keeps its size.
#[verifier::external_body]
pub(crate) fn bloom_set(b: &mut bloomfilter::Bloom<str>, key: &str)
    requires
        bloom_usable(*old(b)),
    ensures
        bloom_keys(*old(b)).insert(key@).subset_of(bloom_keys(*final(b))),
        bloom_usable(*final(b)),
{
    b.set(key);
}

/// Relies on `Bloom::check`: there are no false negatives, so a key in
/// the guaranteed-accepted set always checks true.
#[verifier::external_body]
pub(crate) fn bloom_check(b: &bloomfilter::Bloom<str>, key: &str) -> (r: bool)
    requires
        bloom_usable(*b),
    ensures
        bloom_keys(*b).contains(key@) ==> r,
{
    b.check(key)
}

/// Relies on `Bloom::as_slice` and `Bloom::from_bytes`: the serialized
/// bytes hold the bitmap, seed and hash count of a usable filter, so
/// deserializing them restores a filter that accepts exactly what this
/// one accepts.
#[verifier::external_body]
pub(crate) fn bloom_to_bytes(b: &bloomfilter::Bloom<str>) -> (r: Vec<u8>)
    ensures
        bloom_usable(*b) ==> bloom_parse_keys(r@) == Some(bloom_keys(*b)),
{
    b.as_slice().to_vec()
}

/// Relies on `Bloom::from_bytes` and `Bloom::len`: deserialization is a
/// pure function of the bytes, restoring the filter they were
/// serialized from; a filter whose restored bitmap holds no bits cannot
/// be probed and counts as unparseable.
#[verifier::external_body]
pub(crate) fn bloom_from_bytes(bytes: Vec<u8>) -> (r: Option<bloomfilter::Bloom<str>>)
    ensures
        (r is Some) <==> (bloom_parse_keys(bytes@) is Some),
        r matches Some(f) ==> Some(bloom_keys(f)) == bloom_parse_keys(bytes@) && bloom_usable(f),
{
    match bloomfilter::Bloom::from_bytes(bytes) {
        Ok(f) => if f.len() > 0 {
            Some(f)
        } else {
            None
        },
        Err(_) => None,
    }
}

} // verus!
