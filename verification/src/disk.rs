//! On-disk segments.
//!
//! A sealed segment is six files: a data file and a lookup file for the
//! keys, the same pair for the values, the entry pairs, and the bloom
//! filter.  Data files are a concatenation of records, each a four-byte
//! big-endian header (a compression flag in the top bit, the payload
//! length in the low 31 bits) followed by the payload.  Lookup files are
//! arrays of eight-byte big-endian absolute offsets into their data
//! file.  The entries file is an array of `(u32, u32)` big-endian index
//! pairs sorted ascending.  This module holds the files as byte images;
//! reading and writing the actual files is the surrounding binary's
//! business.

use vstd::prelude::*;
use vstd::utf8::{decode_utf8, valid_utf8};
use crate::order::{lex_lt, strictly_sorted, str_compare, lemma_lex_irrefl, lemma_lex_trans};
use crate::entry::{Entry, snappy_uncompress, string_from_utf8, unsnappy_of};
use crate::model::{
    SegModel, pair_lt, pairs_sorted, model_wf, key_index, seg_find, pairs_with_key,
    lemma_sorted_index_unique, lemma_pwk_run, lemma_pwk_empty,
};
use crate::memory::{CachedSegment, entry_views, pair_view};
use crate::bloom::{bloom_parse_keys, bloom_keys, bloom_to_bytes, bloom_from_bytes, bloom_check};

verus! {

/// Errors of reading a segment from its files.
#[derive(Debug, Clone, Copy, PartialEq, Eq, Structural)]
pub enum DiskResolutionError {
    /// A lookup or entries file length is not a multiple of its record
    /// size, or an offset table is too large for 32-bit indices.
    LookupInvalidSize,
    /// A data file record header points outside the file.
    DataInvalidSize,
    /// The bloom filter file does not deserialize.
    BloomLoadError,
    /// A record's payload does not decompress or is not valid UTF-8.
    Utf8Error,
    /// An underlying system failure.  The in-memory reader never meets
    /// one; the variant stands for callers that surface their own.
    IoError,
}

/// The big-endian 32-bit value at a byte offset.
pub open spec fn be_u32_at(b: Seq<u8>, off: int) -> int {
    b[off] * 0x1000000 + b[off + 1] * 0x10000 + b[off + 2] * 0x100 + b[off + 3]
}

/// The big-endian 64-bit value at a byte offset.
pub open spec fn be_u64_at(b: Seq<u8>, off: int) -> int {
    b[off] * 0x100000000000000 + b[off + 1] * 0x1000000000000 + b[off + 2] * 0x10000000000 + b[off
        + 3] * 0x100000000 + b[off + 4] * 0x1000000 + b[off + 5] * 0x10000 + b[off + 6] * 0x100
        + b[off + 7]
}

pub(crate) fn read_u32_at(data: &Vec<u8>, off: usize) -> (r: u32)
    requires
        off + 4 <= data@.len(),
        data@.len() <= usize::MAX,
    ensures
        r as int == be_u32_at(data@, off as int),
{
    let b0 = data[off] as u32;
    let b1 = data[off + 1] as u32;
    let b2 = data[off + 2] as u32;
    let b3 = data[off + 3] as u32;
    b0 * 0x1000000 + b1 * 0x10000 + b2 * 0x100 + b3
}

pub(crate) fn read_u64_at(data: &Vec<u8>, off: usize) -> (r: u64)
    requires
        off + 8 <= data@.len(),
        data@.len() <= usize::MAX,
    ensures
        r as int == be_u64_at(data@, off as int),
{
    let b0 = data[off] as u64;
    let b1 = data[off + 1] as u64;
    let b2 = data[off + 2] as u64;
    let b3 = data[off + 3] as u64;
    let b4 = data[off + 4] as u64;
    let b5 = data[off + 5] as u64;
    let b6 = data[off + 6] as u64;
    let b7 = data[off + 7] as u64;
    b0 * 0x100000000000000 + b1 * 0x1000000000000 + b2 * 0x10000000000 + b3 * 0x100000000 + b4
        * 0x1000000 + b5 * 0x10000 + b6 * 0x100 + b7
}

/// Append a 32-bit value, big-endian.
pub(crate) fn push_u32_be(out: &mut Vec<u8>, x: u32)
    ensures
        final(out)@.len() == old(out)@.len() + 4,
        final(out)@.subrange(0, old(out)@.len() as int) == old(out)@,
        be_u32_at(final(out)@, old(out)@.len() as int) == x as int,
{
    let b0 = (x / 0x1000000) as u8;
    let b1 = ((x / 0x10000) % 0x100) as u8;
    let b2 = ((x / 0x100) % 0x100) as u8;
    let b3 = (x % 0x100) as u8;
    out.push(b0);
    out.push(b1);
    out.push(b2);
    out.push(b3);
    proof {
        let n = old(out)@.len() as int;
        assert(final(out)@.subrange(0, n) =~= old(out)@);
        assert(x as int == (x as int / 0x1000000) * 0x1000000 + ((x as int / 0x10000) % 0x100)
            * 0x10000 + ((x as int / 0x100) % 0x100) * 0x100 + (x as int % 0x100)) by (nonlinear_arith);
    }
}

/// Append a 64-bit value, big-endian.
pub(crate) fn push_u64_be(out: &mut Vec<u8>, x: u64)
    ensures
        final(out)@.len() == old(out)@.len() + 8,
        final(out)@.subrange(0, old(out)@.len() as int) == old(out)@,
        be_u64_at(final(out)@, old(out)@.len() as int) == x as int,
{
    let b0 = (x / 0x100000000000000) as u8;
    let b1 = ((x / 0x1000000000000) % 0x100) as u8;
    let b2 = ((x / 0x10000000000) % 0x100) as u8;
    let b3 = ((x / 0x100000000) % 0x100) as u8;
    let b4 = ((x / 0x1000000) % 0x100) as u8;
    let b5 = ((x / 0x10000) % 0x100) as u8;
    let b6 = ((x / 0x100) % 0x100) as u8;
    let b7 = (x % 0x100) as u8;
    out.push(b0);
    out.push(b1);
    out.push(b2);
    out.push(b3);
    out.push(b4);
    out.push(b5);
    out.push(b6);
    out.push(b7);
    proof {
        let n = old(out)@.len() as int;
        assert(final(out)@.subrange(0, n) =~= old(out)@);
        assert(x / 0x100000000000000 < 0x100) by (bit_vector);
        assert(x == (x / 0x100000000000000) * 0x100000000000000 + ((x / 0x1000000000000) % 0x100)
            * 0x1000000000000 + ((x / 0x10000000000) % 0x100) * 0x10000000000 + ((x / 0x100000000)
            % 0x100) * 0x100000000 + ((x / 0x1000000) % 0x100) * 0x1000000 + ((x / 0x10000)
            % 0x100) * 0x10000 + ((x / 0x100) % 0x100) * 0x100 + (x % 0x100)) by (bit_vector);
    }
}

/// Copy a byte buffer.
pub(crate) fn copy_bytes(src: &Vec<u8>) -> (r: Vec<u8>)
    ensures
        r@ == src@,
{
    let mut out: Vec<u8> = Vec::new();
    let mut i: usize = 0;
    while i < src.len()
        invariant
            i <= src@.len(),
            out@ == src@.take(i as int),
        decreases src@.len() - i,
    {
        out.push(src[i]);
        proof {
            assert(out@ =~= src@.take(i + 1));
        }
        i = i + 1;
    }
    proof {
        assert(src@.take(src@.len() as int) =~= src@);
    }
    out
}

/// The record at a byte offset of a data file: its compression flag and
/// payload, or nothing if the header or payload overruns the file.
pub open spec fn parse_record(data: Seq<u8>, off: int) -> Option<(bool, Seq<u8>)> {
    if 0 <= off && off + 4 <= data.len() {
        let w = be_u32_at(data, off);
        let flag = w >= 0x80000000;
        let len = if flag {
            w - 0x80000000
        } else {
            w
        };
        if off + 4 + len <= data.len() {
            Some((flag, data.subrange(off + 4, off + 4 + len)))
        } else {
            None
        }
    } else {
        None
    }
}

/// The string a record decodes to, through decompression and UTF-8
/// validation, or nothing if any step fails.
pub open spec fn record_decoded(data: Seq<u8>, off: int) -> Option<Seq<char>> {
    match parse_record(data, off) {
        Some((flag, payload)) => if flag {
            match unsnappy_of(payload) {
                Some(raw) => if valid_utf8(raw) {
                    Some(decode_utf8(raw))
                } else {
                    None
                },
                None => None,
            }
        } else {
            if valid_utf8(payload) {
                Some(decode_utf8(payload))
            } else {
                None
            }
        },
        None => None,
    }
}

/// A record already in the file parses the same after more bytes are
/// appended.
pub proof fn lemma_parse_stable(d1: Seq<u8>, d2: Seq<u8>, off: int)
    requires
        d1.len() <= d2.len(),
        d2.subrange(0, d1.len() as int) == d1,
        parse_record(d1, off) is Some,
    ensures
        parse_record(d2, off) == parse_record(d1, off),
        record_decoded(d2, off) == record_decoded(d1, off),
{
    assert forall|i: int| 0 <= i < d1.len() implies d1[i] == d2[i] by {
        assert(d2.subrange(0, d1.len() as int)[i] == d2[i]);
    }
    let w = be_u32_at(d1, off);
    assert(be_u32_at(d2, off) == w);
    let flag = w >= 0x80000000;
    let len = if flag {
        w - 0x80000000
    } else {
        w
    };
    assert(d2.subrange(off + 4, off + 4 + len) =~= d1.subrange(off + 4, off + 4 + len));
}

/// Read and decode the record at a byte offset, exactly when the model
/// says it decodes.
pub(crate) fn read_entry_within(data: &Vec<u8>, offset: u64) -> (r: Result<
    String,
    DiskResolutionError,
>)
    ensures
        match r {
            Ok(s) => record_decoded(data@, offset as int) == Some(s@),
            Err(e) => record_decoded(data@, offset as int) is None && (e
                == DiskResolutionError::DataInvalidSize || e == DiskResolutionError::Utf8Error),
        },
        (r is Err && r->Err_0 == DiskResolutionError::DataInvalidSize) <==> parse_record(
            data@,
            offset as int,
        ) is None,
{
    if data.len() < 4 || offset > (data.len() - 4) as u64 {
        return Err(DiskResolutionError::DataInvalidSize);
    }
    let off = offset as usize;
    let w = read_u32_at(data, off);
    let flag = w >= 0x80000000;
    let len = if flag {
        (w - 0x80000000) as usize
    } else {
        w as usize
    };
    if len > data.len() - 4 || off > data.len() - 4 - len {
        return Err(DiskResolutionError::DataInvalidSize);
    }
    // Copy the payload out of the data file.
    let mut payload: Vec<u8> = Vec::new();
    let mut i: usize = 0;
    while i < len
        invariant
            i <= len,
            off + 4 + len <= data@.len(),
            data@.len() <= usize::MAX,
            payload@ == data@.subrange(off + 4, off + 4 + i),
        decreases len - i,
    {
        payload.push(data[off + 4 + i]);
        proof {
            assert(payload@ =~= data@.subrange(off + 4, off + 4 + i + 1));
        }
        i = i + 1;
    }
    assert(payload@ == (parse_record(data@, offset as int)->0).1);
    if flag {
        match snappy_uncompress(payload.as_slice()) {
            None => Err(DiskResolutionError::Utf8Error),
            Some(raw) => match string_from_utf8(raw) {
                Some(s) => Ok(s),
                None => Err(DiskResolutionError::Utf8Error),
            },
        }
    } else {
        match string_from_utf8(payload) {
            Some(s) => Ok(s),
            None => Err(DiskResolutionError::Utf8Error),
        }
    }
}

/// Read the eight-byte offset stored at a byte position of a lookup
/// file.
pub(crate) fn read_offset(lookup: &Vec<u8>, offset: u64) -> (r: Result<u64, DiskResolutionError>)
    ensures
        match r {
            Ok(v) => offset + 8 <= lookup@.len() && v as int == be_u64_at(lookup@, offset as int),
            Err(e) => offset + 8 > lookup@.len() && e == DiskResolutionError::LookupInvalidSize,
        },
{
    if lookup.len() < 8 || offset > (lookup.len() - 8) as u64 {
        return Err(DiskResolutionError::LookupInvalidSize);
    }
    Ok(read_u64_at(lookup, offset as usize))
}

/// How many records a lookup file indexes.
pub open spec fn lookup_count(lookup: Seq<u8>) -> int {
    lookup.len() as int / 8
}

/// The data-file offset a lookup file stores for a record.
pub open spec fn lookup_at(lookup: Seq<u8>, i: int) -> int {
    be_u64_at(lookup, 8 * i)
}

/// The decoded strings of a data/lookup file pair, in record order.
pub open spec fn table_strings(data: Seq<u8>, lookup: Seq<u8>) -> Seq<Seq<char>> {
    Seq::new((lookup.len() / 8) as nat, |i: int| record_decoded(data, lookup_at(lookup, i))->0)
}

/// Every record a lookup file points at decodes.
pub open spec fn table_wf(data: Seq<u8>, lookup: Seq<u8>) -> bool {
    &&& lookup.len() % 8 == 0
    &&& forall|i: int|
        0 <= i < lookup_count(lookup) ==> record_decoded(data, #[trigger] lookup_at(lookup, i))
            is Some
}

/// The index pairs of an entries file.
pub open spec fn entry_pairs(b: Seq<u8>) -> Seq<(int, int)> {
    Seq::new((b.len() / 8) as nat, |i: int| (be_u32_at(b, 8 * i), be_u32_at(b, 8 * i + 4)))
}

pub proof fn lemma_be_u32_stable(d1: Seq<u8>, d2: Seq<u8>, off: int)
    requires
        0 <= off,
        off + 4 <= d1.len(),
        d1.len() <= d2.len(),
        d2.subrange(0, d1.len() as int) == d1,
    ensures
        be_u32_at(d2, off) == be_u32_at(d1, off),
{
    assert forall|i: int| 0 <= i < d1.len() implies d1[i] == d2[i] by {
        assert(d2.subrange(0, d1.len() as int)[i] == d2[i]);
    }
}

pub proof fn lemma_be_u64_stable(d1: Seq<u8>, d2: Seq<u8>, off: int)
    requires
        0 <= off,
        off + 8 <= d1.len(),
        d1.len() <= d2.len(),
        d2.subrange(0, d1.len() as int) == d1,
    ensures
        be_u64_at(d2, off) == be_u64_at(d1, off),
{
    assert forall|i: int| 0 <= i < d1.len() implies d1[i] == d2[i] by {
        assert(d2.subrange(0, d1.len() as int)[i] == d2[i]);
    }
}

/// The number of fixed-size records a file of this byte length holds.
pub fn length(len_bytes: u64, factor: usize) -> (r: u32)
    requires
        factor > 0,
        len_bytes / (factor as u64) <= 0xffffffff,
    ensures
        r as int == len_bytes as int / factor as int,
{
    (len_bytes / (factor as u64)) as u32
}

/// The byte position of a fixed-size record.
pub fn convert(index: u32, factor: usize) -> (r: u64)
    requires
        index as int * factor as int <= u64::MAX,
    ensures
        r as int == index as int * factor as int,
{
    proof {
        assert(index as int * factor as int >= 0) by (nonlinear_arith);
    }
    (index as u64) * (factor as u64)
}

/// Serialize a lookup table: one eight-byte big-endian offset per
/// record.
#[verifier::loop_isolation(false)]
pub(crate) fn write_lookup_table(offsets: &Vec<u64>) -> (r: Vec<u8>)
    ensures
        r@.len() == 8 * offsets@.len(),
        forall|j: int| 0 <= j < offsets@.len() ==> #[trigger] lookup_at(r@, j) == offsets@[j],
{
    let mut out: Vec<u8> = Vec::new();
    let mut i: usize = 0;
    while i < offsets.len()
        invariant
            i <= offsets@.len(),
            out@.len() == 8 * i,
            forall|j: int| 0 <= j < i ==> #[trigger] lookup_at(out@, j) == offsets@[j],
        decreases offsets@.len() - i,
    {
        let ghost prev = out@;
        push_u64_be(&mut out, offsets[i]);
        proof {
            assert forall|j: int| 0 <= j < i + 1 implies #[trigger] lookup_at(out@, j)
                == offsets@[j] by {
                if j < i {
                    assert(lookup_at(prev, j) == offsets@[j]);
                    lemma_be_u64_stable(prev, out@, 8 * j);
                    assert(lookup_at(out@, j) == be_u64_at(out@, 8 * j));
                } else {
                    assert(8 * j == prev.len() as int);
                    assert(be_u64_at(out@, prev.len() as int) == offsets@[j]);
                }
            }
        }
        i = i + 1;
    }
    out
}

/// The byte offset at which a record begins when records are packed in
/// table order: the total size of the records before it.
pub open spec fn record_offset(table: Seq<Entry>, j: int) -> int
    decreases j when j >= 0
{
    if j <= 0 {
        0
    } else {
        record_offset(table, j - 1) + 4 + table[j - 1].payload().len()
    }
}

/// Serialize a table of entries: for each, a header holding the
/// compression flag and payload length, then the payload; records are
/// packed in table order, and the lookup table holds each record's
/// offset.  Fails only when a payload exceeds the 31-bit length field.
#[verifier::spinoff_prover]
#[verifier::rlimit(100)]
pub(crate) fn write_full_table(table: &Vec<Entry>) -> (r: Option<(Vec<u8>, Vec<u8>)>)
    ensures
        (forall|i: int| 0 <= i < table@.len() ==> (#[trigger] table@[i]).fits()) ==> r is Some,
        r matches Some(dl) ==> {
            &&& dl.1@.len() == 8 * table@.len()
            &&& forall|j: int|
                0 <= j < table@.len() ==> #[trigger] parse_record(dl.0@, lookup_at(dl.1@, j))
                    == Some((table@[j] is Compressed, table@[j].payload()))
            &&& forall|j: int|
                0 <= j < table@.len() ==> record_decoded(dl.0@, lookup_at(dl.1@, j)) == (
                #[trigger] table@[j]).decoded()
            &&& forall|j: int|
                0 <= j < table@.len() ==> #[trigger] lookup_at(dl.1@, j) == record_offset(
                    table@,
                    j,
                )
            &&& dl.0@.len() == record_offset(table@, table@.len() as int)
        },
{
    broadcast use vstd::utf8::encode_utf8_valid_utf8, vstd::utf8::encode_utf8_decode_utf8;

    let mut data: Vec<u8> = Vec::new();
    let mut offsets: Vec<u64> = Vec::new();
    let mut i: usize = 0;
    while i < table.len()
        invariant
            i <= table@.len(),
            offsets@.len() == i,
            data@.len() == record_offset(table@, i as int),
            forall|j: int| 0 <= j < i ==> #[trigger] offsets@[j] as int == record_offset(
                table@,
                j,
            ),
            forall|j: int|
                0 <= j < i ==> #[trigger] parse_record(data@, offsets@[j] as int) == Some(
                    (table@[j] is Compressed, table@[j].payload()),
                ),
        decreases table@.len() - i,
    {
        let offset = data.len() as u64;
        let ghost prev = data@;
        let mut payload: Vec<u8>;
        let header: u32;
        let ghost flag: bool;
        match &table[i] {
            Entry::Compressed(b) => {
                if b.len() >= 0x80000000 {
                    return None;
                }
                header = b.len() as u32 + 0x80000000;
                payload = copy_bytes(b);
                proof {
                    flag = true;
                }
            },
            Entry::Uncompressed(s) => {
                let bv = s.as_str().as_bytes_vec();
                if bv.len() >= 0x80000000 {
                    return None;
                }
                header = bv.len() as u32;
                payload = bv;
                proof {
                    flag = false;
                }
            },
        }
        assert(payload@ == table@[i as int].payload());
        assert(flag == (table@[i as int] is Compressed));
        assert(header as int == payload@.len() + if flag {
            0x80000000int
        } else {
            0int
        });
        push_u32_be(&mut data, header);
        let ghost mid = data@;
        data.append(&mut payload);
        offsets.push(offset);
        proof {
            assert(mid.subrange(0, prev.len() as int) == prev);
            assert(data@.subrange(0, mid.len() as int) =~= mid);
            assert(data@.subrange(0, prev.len() as int) =~= prev);
            // The new record parses back to this entry.
            lemma_be_u32_stable(mid, data@, prev.len() as int);
            assert(be_u32_at(data@, offset as int) == header as int);
            let pl = table@[i as int].payload();
            assert(data@.len() == offset + 4 + pl.len());
            assert(data@.subrange(offset + 4, offset + 4 + pl.len()) =~= pl);
            assert(parse_record(data@, offset as int) == Some(
                (table@[i as int] is Compressed, pl),
            ));
            // Earlier records are undisturbed.
            assert forall|j: int| 0 <= j < i + 1 implies #[trigger] parse_record(
                data@,
                offsets@[j] as int,
            ) == Some((table@[j] is Compressed, table@[j].payload())) by {
                if j < i {
                    lemma_parse_stable(prev, data@, offsets@[j] as int);
                }
            }
            assert(data@.len() == record_offset(table@, i + 1));
        }
        i = i + 1;
    }
    let lookup = write_lookup_table(&offsets);
    proof {
        assert forall|j: int| 0 <= j < table@.len() implies #[trigger] lookup_at(lookup@, j)
            == record_offset(table@, j) by {
            assert(lookup_at(lookup@, j) == offsets@[j]);
        }
        assert forall|j: int| 0 <= j < table@.len() implies #[trigger] parse_record(
            data@,
            lookup_at(lookup@, j),
        ) == Some((table@[j] is Compressed, table@[j].payload())) by {
            assert(lookup_at(lookup@, j) == offsets@[j]);
            assert(parse_record(data@, offsets@[j] as int) == Some(
                (table@[j] is Compressed, table@[j].payload()),
            ));
        }
        assert forall|j: int| 0 <= j < table@.len() implies record_decoded(
            data@,
            lookup_at(lookup@, j),
        ) == (#[trigger] table@[j]).decoded() by {
            assert(parse_record(data@, lookup_at(lookup@, j)) == Some(
                (table@[j] is Compressed, table@[j].payload()),
            ));
            match table@[j] {
                Entry::Uncompressed(s) => {
                    assert(vstd::utf8::valid_utf8(vstd::utf8::encode_utf8(s@)));
                    assert(decode_utf8(vstd::utf8::encode_utf8(s@)) == s@);
                },
                Entry::Compressed(b) => {},
            }
        }
    }
    Some((data, lookup))
}

/// Serialize the entry pairs: two four-byte big-endian indices per pair.
#[verifier::loop_isolation(false)]
pub(crate) fn write_entries(entries: &Vec<(u32, u32)>) -> (r: Vec<u8>)
    ensures
        r@.len() == 8 * entries@.len(),
        entry_pairs(r@) == pair_view(entries@),
{
    let mut out: Vec<u8> = Vec::new();
    let mut i: usize = 0;
    while i < entries.len()
        invariant
            i <= entries@.len(),
            out@.len() == 8 * i,
            forall|j: int|
                0 <= j < i ==> #[trigger] entry_pairs(out@)[j] == pair_view(entries@)[j],
        decreases entries@.len() - i,
    {
        let ghost prev = out@;
        let p = entries[i];
        push_u32_be(&mut out, p.0);
        let ghost mid = out@;
        push_u32_be(&mut out, p.1);
        proof {
            assert(mid.subrange(0, prev.len() as int) == prev);
            assert(out@.subrange(0, prev.len() as int) =~= prev);
            lemma_be_u32_stable(mid, out@, prev.len() as int);
            assert forall|j: int| 0 <= j < i + 1 implies #[trigger] entry_pairs(out@)[j]
                == pair_view(entries@)[j] by {
                if j < i {
                    lemma_be_u32_stable(prev, out@, 8 * j);
                    lemma_be_u32_stable(prev, out@, 8 * j + 4);
                    assert(entry_pairs(prev)[j] == pair_view(entries@)[j]);
                } else {
                    assert(be_u32_at(out@, 8 * j) == p.0 as int);
                    assert(be_u32_at(out@, 8 * j + 4) == p.1 as int);
                    assert(pair_view(entries@)[j] == (p.0 as int, p.1 as int));
                }
            }
        }
        i = i + 1;
    }
    proof {
        assert(entry_pairs(out@) =~= pair_view(entries@));
    }
    out
}

/// Where the run of pairs carrying key index `ki` that begins at
/// `start` ends: the first position at or after `start` whose pair
/// carries another key.
pub open spec fn run_end(pv: Seq<(int, int)>, ki: int, start: int) -> int
    recommends
        0 <= start <= pv.len(),
    decreases pv.len() - start when 0 <= start <= pv.len()
{
    if start >= pv.len() {
        start
    } else if pv[start].0 == ki {
        run_end(pv, ki, start + 1)
    } else {
        start
    }
}

pub proof fn lemma_run_end(pv: Seq<(int, int)>, ki: int, start: int)
    requires
        0 <= start <= pv.len(),
    ensures
        start <= run_end(pv, ki, start) <= pv.len(),
        forall|j: int| start <= j < run_end(pv, ki, start) ==> (#[trigger] pv[j]).0 == ki,
        run_end(pv, ki, start) < pv.len() ==> pv[run_end(pv, ki, start)].0 != ki,
    decreases pv.len() - start,
{
    if start < pv.len() && pv[start].0 == ki {
        lemma_run_end(pv, ki, start + 1);
    }
}

pub proof fn lemma_run_end_exact(pv: Seq<(int, int)>, ki: int, start: int, stop: int)
    requires
        0 <= start <= stop <= pv.len(),
        forall|j: int| start <= j < stop ==> (#[trigger] pv[j]).0 == ki,
        stop < pv.len() ==> pv[stop].0 != ki,
    ensures
        run_end(pv, ki, start) == stop,
    decreases stop - start,
{
    if start < stop {
        lemma_run_end_exact(pv, ki, start + 1, stop);
    }
}

/// The reader over one data/lookup file pair: resolves a string to its
/// record index by binary search, and a record index to its string.
pub struct LinearMappedResolver {
    pub data: Vec<u8>,
    pub lookup: Vec<u8>,
    pub length: u64,
}

impl LinearMappedResolver {
    /// The recorded length matches the lookup file, every record
    /// decodes, and the record count fits a 32-bit index.
    pub open spec fn wf(&self) -> bool {
        &&& self.length == self.lookup@.len()
        &&& table_wf(self.data@, self.lookup@)
        &&& lookup_count(self.lookup@) <= 0xffffffff
    }

    /// The decoded strings of the table.
    pub open spec fn strings(&self) -> Seq<Seq<char>> {
        table_strings(self.data@, self.lookup@)
    }

    /// Binary search the table for a string: for a well-formed sorted
    /// table, its record index, or nothing when it is absent.
    #[verifier::loop_isolation(false)]
    pub fn map_to_index(&self, key: &str) -> (r: Result<Option<u32>, DiskResolutionError>)
        ensures
            (self.wf() && strictly_sorted(self.strings())) ==> match r {
                Ok(Some(i)) => i < lookup_count(self.lookup@) && self.strings()[i as int] == key@,
                Ok(None) => !self.strings().contains(key@),
                Err(_) => false,
            },
            self.length % 8 != 0 ==> r == Err::<Option<u32>, DiskResolutionError>(
                DiskResolutionError::LookupInvalidSize,
            ),
            // The invalid-size error comes exactly from a malformed
            // shape: a length not a multiple of eight, an offset table
            // beyond 32-bit indices, or a recorded length past the file.
            r == Err::<Option<u32>, DiskResolutionError>(DiskResolutionError::LookupInvalidSize)
                ==> (self.length % 8 != 0 || self.length / 8 > 0xffffffff || self.length
                > self.lookup@.len()),
            (self.length % 8 == 0 && self.length / 8 <= 0xffffffff && self.length
                == self.lookup@.len()) ==> r != Err::<Option<u32>, DiskResolutionError>(
                DiskResolutionError::LookupInvalidSize,
            ),
    {
        let ghost vs = self.strings();
        let ghost h = self.wf() && strictly_sorted(vs);
        if self.length % 8 != 0 {
            return Err(DiskResolutionError::LookupInvalidSize);
        }
        if self.length / 8 > 0xffffffff {
            return Err(DiskResolutionError::LookupInvalidSize);
        }
        let size = length(self.length, 8);
        assert(size as int == self.length as int / 8);
        proof {
            if h {
                assert(size as int == lookup_count(self.lookup@));
            }
        }
        let mut lo: u32 = 0;
        let mut hi: u32 = size;
        while lo < hi
            invariant
                lo <= hi <= size,
                h ==> forall|j: int| 0 <= j < vs.len() && vs[j] == key@ ==> lo <= j < hi,
            decreases hi - lo,
        {
            let mid = lo + (hi - lo) / 2;
            let off = convert(mid, 8);
            let entry_off = match read_offset(&self.lookup, off) {
                Ok(v) => v,
                Err(e) => {
                    proof {
                        // The offset read ran past the file: the
                        // recorded length overstates it.
                        assert(8 * (mid as int) + 8 <= self.length as int);
                        if h {
                            assert(false);
                        }
                    }
                    return Err(e);
                },
            };
            proof {
                if h {
                    assert(entry_off as int == lookup_at(self.lookup@, mid as int));
                }
            }
            let probe = match read_entry_within(&self.data, entry_off) {
                Ok(s) => s,
                Err(e) => {
                    proof {
                        if h {
                            assert(record_decoded(self.data@, lookup_at(self.lookup@, mid as int))
                                is Some);
                            assert(false);
                        }
                    }
                    return Err(e);
                },
            };
            assert(h ==> probe@ == vs[mid as int]);
            let c = str_compare(key, probe.as_str());
            if c == 0 {
                proof {
                    if h {
                        assert(vs[mid as int] == key@);
                    }
                }
                return Ok(Some(mid));
            }
            if c == -1 {
                proof {
                    if h {
                        assert forall|j: int| 0 <= j < vs.len() && vs[j] == key@ implies lo <= j
                            < mid by {
                            if j >= mid {
                                if j == mid {
                                    assert(false);
                                } else {
                                    assert(lex_lt(vs[mid as int], vs[j]));
                                    lemma_lex_trans(key@, vs[mid as int], key@);
                                    lemma_lex_irrefl(key@);
                                }
                            }
                        }
                    }
                }
                hi = mid;
            } else {
                proof {
                    if h {
                        assert forall|j: int| 0 <= j < vs.len() && vs[j] == key@ implies mid < j
                            < hi by {
                            if j <= mid {
                                if j == mid {
                                    assert(false);
                                } else {
                                    assert(lex_lt(vs[j], vs[mid as int]));
                                    lemma_lex_trans(vs[mid as int], key@, vs[mid as int]);
                                    lemma_lex_irrefl(vs[mid as int]);
                                }
                            }
                        }
                    }
                }
                lo = mid + 1;
            }
        }
        proof {
            if h && vs.contains(key@) {
                let j = choose|j: int| 0 <= j < vs.len() && vs[j] == key@;
                assert(lo <= j < hi);
            }
        }
        Ok(None)
    }

    /// Fetch and decode the record at an index.
    pub fn get_value_under(&self, index: u32) -> (r: Result<String, DiskResolutionError>)
        ensures
            (self.wf() && (index as int) < lookup_count(self.lookup@)) ==> match r {
                Ok(s) => s@ == self.strings()[index as int],
                Err(_) => false,
            },
            self.length % 8 != 0 ==> r == Err::<String, DiskResolutionError>(
                DiskResolutionError::LookupInvalidSize,
            ),
    {
        let ghost h = self.wf() && (index as int) < lookup_count(self.lookup@);
        if self.length % 8 != 0 {
            return Err(DiskResolutionError::LookupInvalidSize);
        }
        let off = convert(index, 8);
        let entry_off = match read_offset(&self.lookup, off) {
            Ok(v) => v,
            Err(e) => {
                proof {
                    if h {
                        assert(8 * (index as int) + 8 <= 8 * lookup_count(self.lookup@));
                        assert(false);
                    }
                }
                return Err(e);
            },
        };
        proof {
            if h {
                assert(entry_off as int == lookup_at(self.lookup@, index as int));
            }
        }
        match read_entry_within(&self.data, entry_off) {
            Ok(s) => {
                proof {
                    if h {
                        assert(s@ == self.strings()[index as int]);
                    }
                }
                Ok(s)
            },
            Err(e) => {
                proof {
                    if h {
                        assert(record_decoded(self.data@, lookup_at(self.lookup@, index as int))
                            is Some);
                        assert(false);
                    }
                }
                Err(e)
            },
        }
    }
}

/// The reader over the entries file and the values table: resolves a
/// key index to the values stored under it.
pub struct EntriesAndLinearMappedValueResolver {
    pub values: LinearMappedResolver,
    pub entries: Vec<u8>,
    pub length: u64,
}

impl EntriesAndLinearMappedValueResolver {
    /// The recorded length matches the entries file, the pairs are
    /// sorted, every value index is in range, and the values table is
    /// well formed.
    pub open spec fn wf(&self) -> bool {
        &&& self.length == self.entries@.len()
        &&& self.entries@.len() % 8 == 0
        &&& pairs_sorted(entry_pairs(self.entries@))
        &&& self.values.wf()
        &&& forall|i: int|
            0 <= i < entry_pairs(self.entries@).len() ==> 0 <= (#[trigger] entry_pairs(
                self.entries@,
            )[i]).1 < lookup_count(self.values.lookup@)
    }

    /// What resolving a key index returns: the values of its run of
    /// pairs, in pair order.
    pub open spec fn resolved(&self, ki: int) -> Seq<Seq<char>> {
        pairs_with_key(entry_pairs(self.entries@), ki).map_values(
            |e: (int, int)| self.values.strings()[e.1],
        )
    }

    /// Scan the run of pairs carrying `key` that begins at `start`,
    /// dereferencing each value index through the values table.
    #[verifier::loop_isolation(false)]
    fn read_sequential(&self, key: u32, start: usize) -> (r: Result<
        Vec<String>,
        DiskResolutionError,
    >)
        ensures
            (self.wf() && start <= entry_pairs(self.entries@).len()) ==> match r {
                Ok(items) => crate::order::views_of(items@) == entry_pairs(
                    self.entries@,
                ).subrange(
                    start as int,
                    run_end(entry_pairs(self.entries@), key as int, start as int),
                ).map_values(|e: (int, int)| self.values.strings()[e.1]),
                Err(_) => false,
            },
    {
        let ghost pv = entry_pairs(self.entries@);
        let ghost h = self.wf() && start <= pv.len();
        let ghost f = |e: (int, int)| self.values.strings()[e.1];
        let mut items: Vec<String> = Vec::new();
        let mut idx = start;
        let mut stopped = false;
        let count = self.entries.len() / 8;
        proof {
            if h {
                assert(count as int == pv.len());
            }
        }
        while idx < count && !stopped
            invariant
                start <= idx,
                h ==> idx <= pv.len(),
                h ==> forall|j: int| start <= j < idx ==> (#[trigger] pv[j]).0 == key as int,
                h && stopped ==> idx < pv.len() && pv[idx as int].0 != key as int,
                h ==> crate::order::views_of(items@) =~= pv.subrange(
                    start as int,
                    idx as int,
                ).map_values(f),
            decreases count - idx, (if stopped {
                0int
            } else {
                1int
            }),
        {
            let k = read_u32_at(&self.entries, 8 * idx);
            proof {
                if h {
                    assert(pv[idx as int] == (be_u32_at(self.entries@, 8 * (idx as int)), be_u32_at(
                        self.entries@,
                        8 * (idx as int) + 4,
                    )));
                }
            }
            if k != key {
                stopped = true;
                continue;
            }
            let vi = read_u32_at(&self.entries, 8 * idx + 4);
            let s = match self.values.get_value_under(vi) {
                Ok(s) => s,
                Err(e) => {
                    proof {
                        if h {
                            assert(pv[idx as int].1 == vi as int);
                            assert(false);
                        }
                    }
                    return Err(e);
                },
            };
            let ghost old_items = items@;
            items.push(s);
            proof {
                if h {
                    assert(s@ == f(pv[idx as int]));
                    assert(pv.subrange(start as int, idx + 1) =~= pv.subrange(
                        start as int,
                        idx as int,
                    ).push(pv[idx as int]));
                    assert(crate::order::views_of(items@) =~= crate::order::views_of(
                        old_items,
                    ).push(s@));
                    assert(pv.subrange(start as int, idx as int).push(pv[idx as int]).map_values(f)
                        =~= pv.subrange(start as int, idx as int).map_values(f).push(
                        f(pv[idx as int]),
                    ));
                }
            }
            idx = idx + 1;
        }
        proof {
            if h {
                lemma_run_end_exact(pv, key as int, start as int, idx as int);
            }
        }
        Ok(items)
    }

    /// Resolve a key index: binary-search the sorted entries file for
    /// its run of pairs, walk back to the run's start, and collect the
    /// run's values.
    #[verifier::loop_isolation(false)]
    pub fn resolve_entries_with_key(self, key: u32) -> (r: Result<
        Vec<String>,
        DiskResolutionError,
    >)
        ensures
            self.wf() ==> match r {
                Ok(items) => crate::order::views_of(items@) == self.resolved(key as int),
                Err(_) => false,
            },
            self.length % 8 != 0 ==> r == Err::<Vec<String>, DiskResolutionError>(
                DiskResolutionError::LookupInvalidSize,
            ),
    {
        let ghost pv = entry_pairs(self.entries@);
        let ghost h = self.wf();
        let ghost f = |e: (int, int)| self.values.strings()[e.1];
        if self.length % 8 != 0 {
            return Err(DiskResolutionError::LookupInvalidSize);
        }
        let size = self.length / 8;
        proof {
            if h {
                assert(size as int == pv.len());
            }
        }
        // Binary search for any pair carrying this key.
        let mut lo: u64 = 0;
        let mut hi: u64 = size;
        let mut found: u64 = 0;
        let mut hit = false;
        while lo < hi && !hit
            invariant
                lo <= hi <= size,
                h && !hit ==> forall|j: int|
                    0 <= j < pv.len() && (#[trigger] pv[j]).0 == key as int ==> lo <= j < hi,
                hit ==> found < size,
                h && hit ==> 8 * (found as int) + 8 <= self.entries@.len() && pv[found as int].0
                    == key as int,
            decreases hi - lo, (if hit {
                0int
            } else {
                1int
            }),
        {
            let mid = lo + (hi - lo) / 2;
            assert(8 * (mid as int) + 8 <= self.length as int);
            let off64 = mid * 8;
            if off64 + 4 > self.entries.len() as u64 {
                proof {
                    if h {
                        assert(false);
                    }
                }
                return Err(DiskResolutionError::LookupInvalidSize);
            }
            let k = read_u32_at(&self.entries, off64 as usize);
            proof {
                if h {
                    assert(pv[mid as int] == (be_u32_at(self.entries@, 8 * (mid as int)), be_u32_at(
                        self.entries@,
                        8 * (mid as int) + 4,
                    )));
                }
            }
            if k == key {
                found = mid;
                hit = true;
                proof {
                    if h {
                        assert(pv[mid as int].0 == key as int);
                        assert(8 * (mid as int) + 8 <= 8 * (size as int));
                    }
                }
            } else if key < k {
                proof {
                    if h {
                        assert forall|j: int|
                            0 <= j < pv.len() && (#[trigger] pv[j]).0 == key as int implies lo <= j
                            < mid by {
                            if j > mid {
                                assert(pair_lt(pv[mid as int], pv[j]));
                            }
                        }
                    }
                }
                hi = mid;
            } else {
                proof {
                    if h {
                        assert forall|j: int|
                            0 <= j < pv.len() && (#[trigger] pv[j]).0 == key as int implies mid < j
                            < hi by {
                            if j < mid {
                                assert(pair_lt(pv[j], pv[mid as int]));
                            }
                        }
                    }
                }
                lo = mid + 1;
            }
        }
        if !hit {
            proof {
                if h {
                    assert forall|j: int| 0 <= j < pv.len() implies (#[trigger] pv[j]).0
                        != key as int by {}
                    lemma_pwk_empty(pv, key as int);
                    assert(crate::order::views_of(Seq::<String>::empty()) =~= self.resolved(
                        key as int,
                    ));
                }
            }
            return Ok(Vec::new());
        }
        // Walk back to the start of the run.
        let mut start = found;
        let mut boundary = false;
        while start > 0 && !boundary
            invariant
                start <= found,
                h ==> forall|j: int|
                    start <= j <= found ==> (#[trigger] pv[j]).0 == key as int,
                h && boundary ==> start > 0 && pv[start - 1].0 != key as int,
            decreases start, (if boundary {
                0int
            } else {
                1int
            }),
        {
            assert(8 * (start - 1) + 8 <= self.length as int);
            let off = (start - 1) * 8;
            if off + 4 > self.entries.len() as u64 {
                proof {
                    if h {
                        assert(8 * (found as int) + 8 <= self.entries@.len());
                        assert(false);
                    }
                }
                boundary = true;
                continue;
            }
            let k = read_u32_at(&self.entries, off as usize);
            proof {
                if h {
                    assert(pv[start - 1] == (be_u32_at(self.entries@, 8 * (start - 1)), be_u32_at(
                        self.entries@,
                        8 * (start - 1) + 4,
                    )));
                }
            }
            if k != key {
                boundary = true;
            } else {
                start = start - 1;
            }
        }
        if start > self.entries.len() as u64 {
            proof {
                if h {
                    assert(false);
                }
            }
            return Err(DiskResolutionError::LookupInvalidSize);
        }
        let items = match self.read_sequential(key, start as usize) {
            Ok(v) => v,
            Err(e) => {
                proof {
                    if h {
                        assert(false);
                    }
                }
                return Err(e);
            },
        };
        proof {
            if h {
                let stop = run_end(pv, key as int, start as int);
                lemma_run_end(pv, key as int, start as int);
                assert(stop > start) by {
                    if stop == start {
                        assert(pv[start as int].0 == key as int);
                    }
                }
                assert forall|j: int| 0 <= j < start implies (#[trigger] pv[j]).0
                    != key as int by {
                    if start > 0 {
                        assert(pair_lt(pv[start - 1], pv[start as int]));
                        if j < start - 1 {
                            assert(pair_lt(pv[j], pv[start - 1]));
                        }
                    }
                }
                assert forall|j: int| stop <= j < pv.len() implies (#[trigger] pv[j]).0
                    != key as int by {
                    assert(pair_lt(pv[start as int], pv[stop]));
                    if j > stop {
                        assert(pair_lt(pv[stop], pv[j]));
                    }
                }
                lemma_pwk_run(pv, key as int, start as int, stop);
            }
        }
        Ok(items)
    }
}

/// The six byte images of a segment directory's files.
pub struct SegmentFiles {
    pub keys_data: Vec<u8>,
    pub keys_lookup: Vec<u8>,
    pub values_data: Vec<u8>,
    pub values_lookup: Vec<u8>,
    pub bloom: Vec<u8>,
    pub entries: Vec<u8>,
}

/// A sealed on-disk segment: the directory it lives in and the byte
/// images of its six files.
pub struct DiskSegment {
    pub directory: String,
    pub files: SegmentFiles,
}

/// The segment a set of files encodes.
pub open spec fn files_model(f: SegmentFiles) -> SegModel {
    SegModel {
        keys: table_strings(f.keys_data@, f.keys_lookup@),
        values: table_strings(f.values_data@, f.values_lookup@),
        entries: entry_pairs(f.entries@),
    }
}

/// The files parse, the model is a well-formed segment, and the bloom
/// filter covers every key.
pub open spec fn files_wf(f: SegmentFiles) -> bool {
    &&& table_wf(f.keys_data@, f.keys_lookup@)
    &&& table_wf(f.values_data@, f.values_lookup@)
    &&& f.entries@.len() % 8 == 0
    &&& model_wf(files_model(f))
    &&& files_model(f).keys.len() <= 0xffffffff
    &&& files_model(f).values.len() <= 0xffffffff
    &&& match bloom_parse_keys(f.bloom@) {
        Some(s) => forall|k: Seq<char>| #[trigger] files_model(f).keys.contains(k) ==> s.contains(
            k,
        ),
        None => false,
    }
}

impl DiskSegment {
    /// The segment these files encode.
    pub open spec fn model(&self) -> SegModel {
        files_model(self.files)
    }

    /// The files parse, the model is a well-formed segment, and the
    /// bloom filter covers every key.
    pub open spec fn wf(&self) -> bool {
        files_wf(self.files)
    }

    /// Adopt a segment directory's files as a segment.  Nothing is
    /// validated here; validation is lazy, at lookup time.
    pub fn open_or_create_segment(directory: String, files: SegmentFiles) -> (r: DiskSegment)
        ensures
            r.directory == directory,
            r.files.keys_data == files.keys_data,
            r.files.keys_lookup == files.keys_lookup,
            r.files.values_data == files.values_data,
            r.files.values_lookup == files.values_lookup,
            r.files.bloom == files.bloom,
            r.files.entries == files.entries,
    {
        DiskSegment { directory, files }
    }

    /// Serialize an in-memory segment into this segment's files.  For a
    /// well-formed segment the files always materialize, they are well
    /// formed, and they encode the same model, so lookups against them
    /// return what the in-memory segment returns.
    pub fn flush_memory_segment(&mut self, segment: &CachedSegment) -> (r: Result<
        (),
        DiskResolutionError,
    >)
        ensures
            segment.wf() ==> r is Ok,
            (segment.wf() && r is Ok) ==> {
                &&& final(self).wf()
                &&& final(self).model() == segment.model()
            },
            // The files follow the packed record format: each data file
            // is the records in table order, headers flagging
            // compression and giving payload lengths, with the lookup
            // files pointing at each record and the entries file holding
            // the index pairs.
            r is Ok ==> {
                &&& final(self).files.keys_lookup@.len() == 8 * segment.keys@.len()
                &&& forall|j: int|
                    0 <= j < segment.keys@.len() ==> #[trigger] parse_record(
                        final(self).files.keys_data@,
                        lookup_at(final(self).files.keys_lookup@, j),
                    ) == Some((segment.keys@[j] is Compressed, segment.keys@[j].payload()))
                &&& forall|j: int|
                    0 <= j < segment.keys@.len() ==> #[trigger] lookup_at(
                        final(self).files.keys_lookup@,
                        j,
                    ) == record_offset(segment.keys@, j)
                &&& final(self).files.keys_data@.len() == record_offset(
                    segment.keys@,
                    segment.keys@.len() as int,
                )
                &&& final(self).files.values_lookup@.len() == 8 * segment.values@.len()
                &&& forall|j: int|
                    0 <= j < segment.values@.len() ==> #[trigger] parse_record(
                        final(self).files.values_data@,
                        lookup_at(final(self).files.values_lookup@, j),
                    ) == Some((segment.values@[j] is Compressed, segment.values@[j].payload()))
                &&& forall|j: int|
                    0 <= j < segment.values@.len() ==> #[trigger] lookup_at(
                        final(self).files.values_lookup@,
                        j,
                    ) == record_offset(segment.values@, j)
                &&& final(self).files.values_data@.len() == record_offset(
                    segment.values@,
                    segment.values@.len() as int,
                )
                &&& final(self).files.entries@.len() == 8 * segment.entries@.len()
                &&& entry_pairs(final(self).files.entries@) == pair_view(segment.entries@)
            },
            final(self).directory == old(self).directory,
            r is Err ==> r->Err_0 == DiskResolutionError::DataInvalidSize && *final(self) == *old(
                self,
            ),
    {
        let keys_pair = match write_full_table(&segment.keys) {
            Some(p) => p,
            None => {
                return Err(DiskResolutionError::DataInvalidSize);
            },
        };
        let values_pair = match write_full_table(&segment.values) {
            Some(p) => p,
            None => {
                return Err(DiskResolutionError::DataInvalidSize);
            },
        };
        let bloom_bytes = bloom_to_bytes(&segment.bloom);
        let entries_bytes = write_entries(&segment.entries);
        self.files = SegmentFiles {
            keys_data: keys_pair.0,
            keys_lookup: keys_pair.1,
            values_data: values_pair.0,
            values_lookup: values_pair.1,
            bloom: bloom_bytes,
            entries: entries_bytes,
        };
        proof {
            if segment.wf() {
                let kd = self.files.keys_data@;
                let kl = self.files.keys_lookup@;
                let vd = self.files.values_data@;
                let vl = self.files.values_lookup@;
                assert(lookup_count(kl) == segment.keys@.len());
                assert(lookup_count(vl) == segment.values@.len());
                assert forall|i: int| 0 <= i < lookup_count(kl) implies record_decoded(
                    kd,
                    #[trigger] lookup_at(kl, i),
                ) is Some by {
                    assert(record_decoded(kd, lookup_at(kl, i)) == segment.keys@[i].decoded());
                    assert(segment.keys@[i].wf());
                }
                assert forall|i: int| 0 <= i < lookup_count(vl) implies record_decoded(
                    vd,
                    #[trigger] lookup_at(vl, i),
                ) is Some by {
                    assert(record_decoded(vd, lookup_at(vl, i)) == segment.values@[i].decoded());
                    assert(segment.values@[i].wf());
                }
                assert(table_wf(kd, kl));
                assert(table_wf(vd, vl));
                assert forall|i: int| 0 <= i < table_strings(kd, kl).len() implies #[trigger]
                table_strings(kd, kl)[i] == entry_views(segment.keys@)[i] by {
                    assert(record_decoded(kd, lookup_at(kl, i)) == segment.keys@[i].decoded());
                }
                assert(table_strings(kd, kl) =~= entry_views(segment.keys@));
                assert forall|i: int| 0 <= i < table_strings(vd, vl).len() implies #[trigger]
                table_strings(vd, vl)[i] == entry_views(segment.values@)[i] by {
                    assert(record_decoded(vd, lookup_at(vl, i)) == segment.values@[i].decoded());
                }
                assert(table_strings(vd, vl) =~= entry_views(segment.values@));
                assert(self.model() == segment.model());
                assert(model_wf(self.model()));
                assert(bloom_parse_keys(self.files.bloom@) == Some(bloom_keys(segment.bloom)));
                assert forall|k: Seq<char>| #[trigger] self.model().keys.contains(k) implies
                    bloom_keys(segment.bloom).contains(k) by {
                    assert(segment.model().keys.contains(k));
                }
                assert(self.wf());
            }
        }
        Ok(())
    }

    /// Look up the values stored under a key: consult the bloom gate,
    /// binary-search the key table, then resolve the key's entry pairs
    /// through the values table.  For a well-formed segment this returns
    /// exactly the model's results, in ascending text order.
    pub fn find(&self, key: &str) -> (r: Result<Vec<String>, DiskResolutionError>)
        ensures
            self.wf() ==> match r {
                Ok(items) => crate::order::views_of(items@) == seg_find(self.model(), key@),
                Err(_) => false,
            },
            // The bloom gate is checked first: an unusable filter file
            // always surfaces, for every key.
            bloom_parse_keys(self.files.bloom@) is None ==> r == Err::<
                Vec<String>,
                DiskResolutionError,
            >(DiskResolutionError::BloomLoadError),
    {
        let ghost m = self.model();
        let ghost h = self.wf();
        // Bloom gate: a rejected key is certainly absent.
        let bloom_bytes = copy_bytes(&self.files.bloom);
        let filter = match bloom_from_bytes(bloom_bytes) {
            Some(f) => f,
            None => {
                proof {
                    if h {
                        assert(false);
                    }
                }
                return Err(DiskResolutionError::BloomLoadError);
            },
        };
        if !bloom_check(&filter, key) {
            proof {
                if h {
                    assert(!m.keys.contains(key@));
                    assert(crate::order::views_of(Seq::<String>::empty()) =~= seg_find(m, key@));
                }
            }
            return Ok(Vec::new());
        }
        // Key resolution.
        let keys_lookup = copy_bytes(&self.files.keys_lookup);
        let resolver = LinearMappedResolver {
            data: copy_bytes(&self.files.keys_data),
            length: keys_lookup.len() as u64,
            lookup: keys_lookup,
        };
        proof {
            if h {
                assert(resolver.wf());
                assert(resolver.strings() == m.keys);
            }
        }
        let resolved = match resolver.map_to_index(key) {
            Ok(o) => o,
            Err(e) => {
                proof {
                    if h {
                        assert(false);
                    }
                }
                return Err(e);
            },
        };
        let key_index_found = match resolved {
            Some(i) => i,
            None => {
                proof {
                    if h {
                        assert(!m.keys.contains(key@));
                        assert(crate::order::views_of(Seq::<String>::empty()) =~= seg_find(
                            m,
                            key@,
                        ));
                    }
                }
                return Ok(Vec::new());
            },
        };
        // Entries search and value dereference.
        let values_lookup = copy_bytes(&self.files.values_lookup);
        let entries_bytes = copy_bytes(&self.files.entries);
        let eresolver = EntriesAndLinearMappedValueResolver {
            values: LinearMappedResolver {
                data: copy_bytes(&self.files.values_data),
                length: values_lookup.len() as u64,
                lookup: values_lookup,
            },
            length: entries_bytes.len() as u64,
            entries: entries_bytes,
        };
        proof {
            if h {
                assert(eresolver.wf());
            }
        }
        let ghost er = eresolver;
        let items = match eresolver.resolve_entries_with_key(key_index_found) {
            Ok(v) => v,
            Err(e) => {
                proof {
                    if h {
                        assert(false);
                    }
                }
                return Err(e);
            },
        };
        proof {
            if h {
                assert(m.keys[key_index_found as int] == key@);
                assert(m.keys.contains(key@));
                lemma_sorted_index_unique(
                    m.keys,
                    key_index_found as int,
                    key_index(m.keys, key@),
                );
                assert(er.resolved(key_index_found as int) == seg_find(m, key@));
            }
        }
        Ok(items)
    }
}

} // verus!
