//! Per-string entry codec.
//!
//! Every key and value is stored as an [`Entry`]: either the raw UTF-8
//! string or its Snappy-compressed bytes, whichever is strictly smaller.
//! Decoding a compressed entry decompresses and re-validates UTF-8, so a
//! corrupt payload surfaces as an error rather than a bogus string.

use vstd::prelude::*;
use vstd::utf8::{decode_utf8, encode_utf8, valid_utf8};

verus! {

broadcast use vstd::utf8::encode_utf8_valid_utf8, vstd::utf8::encode_utf8_decode_utf8;

/// What Snappy compression returns for a byte string.
pub uninterp spec fn snappy_of(b: Seq<u8>) -> Seq<u8>;

/// What Snappy decompression returns for a byte string: the decompressed
/// bytes, or nothing when the input is not valid Snappy data.
pub uninterp spec fn unsnappy_of(b: Seq<u8>) -> Option<Seq<u8>>;

/// Relies on `snap::raw::Encoder::compress_vec`: compression is a pure
/// function of the input bytes, it fails only when the worst-case
/// compressed length `32 + n + n/6` overflows the format's 32-bit
/// bound — ruled out by the precondition, which admits exactly the
/// strings the segment format's 31-bit length field can store — and
/// decompressing its output returns the input.
#[verifier::external_body]
pub(crate) fn snappy_compress(b: &[u8]) -> (r: Vec<u8>)
    requires
        b@.len() < 0x80000000,
    ensures
        r@ == snappy_of(b@),
        unsnappy_of(r@) == Some(b@),
{
    snap::raw::Encoder::new().compress_vec(b).unwrap()
}

/// Relies on `snap::raw::Decoder::decompress_vec`: decompression is a
/// pure function of the input bytes, failing exactly on input that is
/// not valid Snappy data.
#[verifier::external_body]
pub(crate) fn snappy_uncompress(b: &[u8]) -> (r: Option<Vec<u8>>)
    ensures
        match r {
            Some(v) => unsnappy_of(b@) == Some(v@),
            None => unsnappy_of(b@) is None,
        },
{
    snap::raw::Decoder::new().decompress_vec(b).ok()
}

/// Relies on `String::from_utf8`: succeeds exactly on valid UTF-8 input
/// and returns the string those bytes encode.
#[verifier::external_body]
pub(crate) fn string_from_utf8(b: Vec<u8>) -> (r: Option<String>)
    ensures
        match r {
            Some(s) => valid_utf8(b@) && s@ == decode_utf8(b@),
            None => !valid_utf8(b@),
        },
{
    String::from_utf8(b).ok()
}

/// Decoding an entry failed: the compressed payload is not valid Snappy
/// data, or the decompressed bytes are not valid UTF-8.
#[derive(Debug, Clone, Copy, PartialEq, Eq, Structural)]
pub enum EntryError {
    CorruptCompressedEntry,
}

/// One stored string, kept compressed exactly when compression makes it
/// strictly smaller.
#[derive(Debug)]
pub enum Entry {
    Compressed(Vec<u8>),
    Uncompressed(String),
}

impl Entry {
    /// The string this entry decodes to, or nothing if the payload is
    /// corrupt.
    pub open spec fn decoded(&self) -> Option<Seq<char>> {
        match self {
            Entry::Uncompressed(s) => Some(s@),
            Entry::Compressed(b) => match unsnappy_of(b@) {
                Some(raw) => if valid_utf8(raw) {
                    Some(decode_utf8(raw))
                } else {
                    None
                },
                None => None,
            },
        }
    }

    /// The bytes this entry stores on disk.
    pub open spec fn payload(&self) -> Seq<u8> {
        match self {
            Entry::Uncompressed(s) => encode_utf8(s@),
            Entry::Compressed(b) => b@,
        }
    }

    /// The entry decodes to a string.
    pub open spec fn wf(&self) -> bool {
        self.decoded() is Some
    }

    /// The payload length fits the 31-bit length field of the segment
    /// file format.
    pub open spec fn fits(&self) -> bool {
        self.payload().len() < 0x80000000
    }

    /// Encode a string, choosing the compressed form exactly when it is
    /// strictly smaller than the raw bytes.  Decoding the result gives
    /// the string back.
    pub fn new(string: &str) -> (r: Entry)
        requires
            encode_utf8(string@).len() < 0x80000000,
        ensures
            r.wf(),
            r.fits(),
            r.decoded() == Some(string@),
            (r is Compressed) <==> snappy_of(encode_utf8(string@)).len() < encode_utf8(
                string@,
            ).len(),
            r is Compressed ==> r.payload() == snappy_of(encode_utf8(string@)),
            r is Uncompressed ==> r.payload() == encode_utf8(string@),
    {
        let bytes = string.as_bytes();
        let compressed = snappy_compress(bytes);
        if compressed.len() < bytes.len() {
            Entry::Compressed(compressed)
        } else {
            Entry::Uncompressed(string.to_owned())
        }
    }

    /// Decode without consuming the entry.
    pub fn as_uncompressed(&self) -> (r: Result<String, EntryError>)
        ensures
            match r {
                Ok(s) => self.decoded() == Some(s@),
                Err(_) => self.decoded() is None,
            },
            (r is Ok) <==> self.wf(),
    {
        match self {
            Entry::Uncompressed(s) => Ok(s.clone()),
            Entry::Compressed(b) => match snappy_uncompress(b.as_slice()) {
                None => Err(EntryError::CorruptCompressedEntry),
                Some(raw) => match string_from_utf8(raw) {
                    Some(s) => Ok(s),
                    None => Err(EntryError::CorruptCompressedEntry),
                },
            },
        }
    }

    /// Decode, consuming the entry.
    pub fn into_uncompressed(self) -> (r: Result<String, EntryError>)
        ensures
            match r {
                Ok(s) => self.decoded() == Some(s@),
                Err(_) => self.decoded() is None,
            },
            (r is Ok) <==> self.wf(),
    {
        match self {
            Entry::Uncompressed(s) => Ok(s),
            Entry::Compressed(b) => match snappy_uncompress(b.as_slice()) {
                None => Err(EntryError::CorruptCompressedEntry),
                Some(raw) => match string_from_utf8(raw) {
                    Some(s) => Ok(s),
                    None => Err(EntryError::CorruptCompressedEntry),
                },
            },
        }
    }
}

} // verus!
