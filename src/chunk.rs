//! One chunk: a length-prefixed, typed and checksummed record.

use vstd::prelude::*;
use vstd::slice::slice_to_vec;
use vstd::utf8::{decode_utf8, valid_utf8};
use crate::chunk_type::ChunkType;
use crate::chunk_type::utf8_to_string;

verus! {

/// The largest data length that a chunk may declare.
pub const MAXIMUM_LENGTH: u32 = 2147483647;

/// The CRC-32 (IEEE polynomial, all-ones start and final XOR) of a byte sequence.
pub uninterp spec fn crc32_ieee(bytes: Seq<u8>) -> u32;

/// Relies on crc::crc32::checksum_ieee: the CRC-32/IEEE of the bytes, which
/// depends on the bytes alone.
#[verifier::external_body]
fn checksum_ieee(bytes: &[u8]) -> (r: u32)
    ensures
        r == crc32_ieee(bytes@),
{
    crc::crc32::checksum_ieee(bytes)
}

/// Why a chunk could not be read, or its data not read as text.
#[derive(Debug, Clone, Copy, PartialEq, Eq, Structural)]
pub enum ChunkError {
    /// The bytes end before the record does.
    TruncatedInput,
    /// The declared length exceeds `MAXIMUM_LENGTH`.
    LengthOverflow,
    /// The checksum on the wire differs from the one computed.
    ChecksumMismatch,
    /// The data are not valid UTF-8.
    EncodingError,
}

/// The value of four bytes read big-endian.
pub open spec fn be_u32(b0: u8, b1: u8, b2: u8, b3: u8) -> u32 {
    ((b0 as u32) << 24u32) | ((b1 as u32) << 16u32) | ((b2 as u32) << 8u32) | (b3 as u32)
}

/// The value of the four bytes of `b` that start at `at`, read big-endian.
pub open spec fn be_value(b: Seq<u8>, at: int) -> u32 {
    be_u32(b[at], b[at + 1], b[at + 2], b[at + 3])
}

/// The four big-endian bytes of `n`.
pub open spec fn be_bytes(n: u32) -> Seq<u8> {
    seq![(n >> 24u32) as u8, (n >> 16u32) as u8, (n >> 8u32) as u8, n as u8]
}

/// What a chunk holds: its declared length, type bytes, data and checksum.
#[verifier::ext_equal]
pub struct ChunkView {
    pub length: u32,
    pub chunk_type: Seq<u8>,
    pub data: Seq<u8>,
    pub crc: u32,
}

/// A chunk is well formed when its length is that of its data and within bounds,
/// its type has four bytes, and its checksum is that of its type and data.
pub open spec fn chunk_wf(c: ChunkView) -> bool {
    &&& c.length <= MAXIMUM_LENGTH
    &&& c.data.len() == c.length
    &&& c.chunk_type.len() == 4
    &&& c.crc == crc32_ieee(c.chunk_type + c.data)
}

/// The chunk that a type and data make.
pub open spec fn new_chunk_view(chunk_type: Seq<u8>, data: Seq<u8>) -> ChunkView {
    ChunkView {
        length: data.len() as u32,
        chunk_type,
        data,
        crc: crc32_ieee(chunk_type + data),
    }
}

/// The wire form of a chunk: length, type, data, checksum.
pub open spec fn chunk_bytes(c: ChunkView) -> Seq<u8> {
    be_bytes(c.length) + c.chunk_type + c.data + be_bytes(c.crc)
}

/// What reading one chunk from the front of `b` gives; bytes after the record
/// are not read.
#[verifier::opaque]
pub open spec fn parse_chunk(b: Seq<u8>) -> Result<ChunkView, ChunkError> {
    if b.len() < 4 {
        Err(ChunkError::TruncatedInput)
    } else {
        let len = be_value(b, 0);
        if len > MAXIMUM_LENGTH {
            Err(ChunkError::LengthOverflow)
        } else if b.len() < 12 + len {
            Err(ChunkError::TruncatedInput)
        } else {
            let t = b.subrange(4, 8);
            let d = b.subrange(8, 8 + len);
            let crc = be_value(b, 8 + len);
            if crc != crc32_ieee(t + d) {
                Err(ChunkError::ChecksumMismatch)
            } else {
                Ok(ChunkView { length: len, chunk_type: t, data: d, crc })
            }
        }
    }
}

/// A chunk. Its fields are fixed when it is built, and its checksum always
/// matches its type and data.
#[derive(Debug, Clone)]
pub struct Chunk {
    length: u32,
    chunk_type: ChunkType,
    data: Vec<u8>,
    crc: u32,
}

impl View for Chunk {
    type V = ChunkView;

    closed spec fn view(&self) -> ChunkView {
        ChunkView {
            length: self.length,
            chunk_type: self.chunk_type@,
            data: self.data@,
            crc: self.crc,
        }
    }
}

pub(crate) fn read_be(b: &[u8], at: usize) -> (r: u32)
    requires
        at + 4 <= b@.len(),
    ensures
        r == be_value(b@, at as int),
{
    ((b[at] as u32) << 24u32) | ((b[at + 1] as u32) << 16u32) | ((b[at + 2] as u32) << 8u32) | (
    b[at + 3] as u32)
}

pub(crate) fn push_be(out: &mut Vec<u8>, n: u32)
    ensures
        final(out)@ == old(out)@ + be_bytes(n),
{
    out.push((n >> 24u32) as u8);
    out.push((n >> 16u32) as u8);
    out.push((n >> 8u32) as u8);
    out.push(n as u8);
    assert(out@ =~= old(out)@ + be_bytes(n));
}

pub(crate) fn push_all(out: &mut Vec<u8>, src: &[u8])
    ensures
        final(out)@ == old(out)@ + src@,
{
    out.extend_from_slice(src);
    assert(out@ =~= old(out)@ + src@);
}

/// The checksum of a type followed by data.
fn type_data_crc(chunk_type: &ChunkType, data: &[u8]) -> (r: u32)
    ensures
        r == crc32_ieee(chunk_type@ + data@),
{
    let mut input: Vec<u8> = Vec::new();
    push_all(&mut input, &chunk_type.arr);
    push_all(&mut input, data);
    checksum_ieee(input.as_slice())
}

impl Chunk {
    pub open spec fn wf(&self) -> bool {
        chunk_wf(self@)
    }

    /// Builds a chunk from a type and data, computing its checksum.
    pub fn new(chunk_type: ChunkType, data: Vec<u8>) -> (r: Chunk)
        requires
            data@.len() <= MAXIMUM_LENGTH,
        ensures
            r@ == new_chunk_view(chunk_type@, data@),
            r.wf(),
    {
        let crc = type_data_crc(&chunk_type, data.as_slice());
        let length = data.len() as u32;
        Chunk { length, chunk_type, data, crc }
    }

    /// Reads one chunk from the front of `value`; bytes after the record are
    /// not read.
    pub fn try_from(value: &[u8]) -> (r: Result<Chunk, ChunkError>)
        ensures
            match r {
                Ok(c) => parse_chunk(value@) == Ok::<ChunkView, ChunkError>(c@) && c.wf(),
                Err(e) => parse_chunk(value@) == Err::<ChunkView, ChunkError>(e),
            },
    {
        let ghost b = value@;
        proof {
            reveal(parse_chunk);
        }
        if value.len() < 4 {
            return Err(ChunkError::TruncatedInput);
        }
        let length = read_be(value, 0);
        if length > MAXIMUM_LENGTH {
            return Err(ChunkError::LengthOverflow);
        }
        if value.len() - 4 < length as usize + 8 {
            return Err(ChunkError::TruncatedInput);
        }
        let chunk_type = ChunkType { arr: [value[4], value[5], value[6], value[7]] };
        assert(chunk_type@ =~= b.subrange(4, 8));
        let data_end = 8 + length as usize;
        let data = slice_to_vec(&value[8..data_end]);
        let provided_crc = read_be(value, data_end);
        let actual_crc = type_data_crc(&chunk_type, data.as_slice());
        if provided_crc != actual_crc {
            return Err(ChunkError::ChecksumMismatch);
        }
        Ok(Chunk { length, chunk_type, data, crc: provided_crc })
    }

    pub fn length(&self) -> (r: u32)
        ensures
            r == self@.length,
    {
        self.length
    }

    pub fn chunk_type(&self) -> (r: &ChunkType)
        ensures
            r@ == self@.chunk_type,
    {
        &self.chunk_type
    }

    pub fn data(&self) -> (r: &[u8])
        ensures
            r@ == self@.data,
    {
        self.data.as_slice()
    }

    pub fn crc(&self) -> (r: u32)
        ensures
            r == self@.crc,
    {
        self.crc
    }

    /// The data read as UTF-8 text.
    pub fn data_as_string(&self) -> (r: Result<String, ChunkError>)
        ensures
            valid_utf8(self@.data) ==> (r matches Ok(s) && s@ == decode_utf8(self@.data)),
            !valid_utf8(self@.data) ==> r == Err::<String, ChunkError>(ChunkError::EncodingError),
    {
        match utf8_to_string(slice_to_vec(self.data.as_slice())) {
            Some(s) => Ok(s),
            None => Err(ChunkError::EncodingError),
        }
    }

    /// The wire form of the chunk.
    pub fn as_bytes(&self) -> (r: Vec<u8>)
        ensures
            r@ == chunk_bytes(self@),
    {
        let mut out: Vec<u8> = Vec::new();
        push_be(&mut out, self.length);
        push_all(&mut out, &self.chunk_type.arr);
        push_all(&mut out, self.data.as_slice());
        push_be(&mut out, self.crc);
        assert(out@ =~= chunk_bytes(self@));
        out
    }
}

/// Reading back the four big-endian bytes of `n` gives `n`.
pub proof fn lemma_be_round_trip(n: u32)
    ensures
        be_value(be_bytes(n), 0) == n,
{
    assert(((((n >> 24u32) as u8) as u32) << 24u32) | ((((n >> 16u32) as u8) as u32) << 16u32) | ((((
    n >> 8u32) as u8) as u32) << 8u32) | ((n as u8) as u32) == n) by (bit_vector);
}

/// Four bytes are determined by their big-endian value.
pub proof fn lemma_be_injective(b0: u8, b1: u8, b2: u8, b3: u8, c0: u8, c1: u8, c2: u8, c3: u8)
    requires
        be_u32(b0, b1, b2, b3) == be_u32(c0, c1, c2, c3),
    ensures
        b0 == c0 && b1 == c1 && b2 == c2 && b3 == c3,
{
    assert(((((b0 as u32) << 24u32) | ((b1 as u32) << 16u32) | ((b2 as u32) << 8u32) | (b3 as u32))
        == (((c0 as u32) << 24u32) | ((c1 as u32) << 16u32) | ((c2 as u32) << 8u32) | (c3 as u32)))
        ==> (b0 == c0 && b1 == c1 && b2 == c2 && b3 == c3)) by (bit_vector);
}

/// A well-formed chunk's wire form, followed by any bytes, reads back as that chunk.
pub proof fn lemma_chunk_round_trip(c: ChunkView, rest: Seq<u8>)
    requires
        chunk_wf(c),
    ensures
        parse_chunk(chunk_bytes(c) + rest) == Ok::<ChunkView, ChunkError>(c),
        parse_chunk(chunk_bytes(c)) == Ok::<ChunkView, ChunkError>(c),
        chunk_bytes(c).len() == 12 + c.length,
        be_value(chunk_bytes(c) + rest, 0) == c.length,
{
    reveal(parse_chunk);
    let len = c.length as int;
    let b = chunk_bytes(c) + rest;
    assert(chunk_bytes(c).len() == 12 + len);
    assert(b.subrange(0, 4) =~= be_bytes(c.length));
    assert(be_value(b, 0) == be_value(be_bytes(c.length), 0));
    lemma_be_round_trip(c.length);
    assert forall|x: Seq<u8>| x == b || x == chunk_bytes(c) implies parse_chunk(x) == Ok::<
        ChunkView,
        ChunkError,
    >(c) by {
        lemma_be_round_trip(c.length);
        lemma_be_round_trip(c.crc);
        assert(x.subrange(0, 4) =~= be_bytes(c.length));
        assert(be_value(x, 0) == be_value(be_bytes(c.length), 0));
        assert(x.subrange(4, 8) =~= c.chunk_type);
        assert(x.subrange(8, 8 + len) =~= c.data);
        assert(x.subrange(8 + len, 12 + len) =~= be_bytes(c.crc));
        assert(be_value(x, 8 + len) == be_value(be_bytes(c.crc), 0));
        assert(parse_chunk(x).unwrap() =~= c);
    }
}

/// A chunk built from a type and data serializes to bytes that read back as
/// the same chunk: length, type, data and checksum.
pub proof fn lemma_new_chunk_round_trip(chunk_type: ChunkType, data: Seq<u8>)
    requires
        data.len() <= MAXIMUM_LENGTH,
    ensures
        parse_chunk(chunk_bytes(new_chunk_view(chunk_type@, data))) == Ok::<ChunkView, ChunkError>(
            new_chunk_view(chunk_type@, data),
        ),
{
    lemma_chunk_round_trip(new_chunk_view(chunk_type@, data), Seq::empty());
}

/// The sequence `b` with bit `bit` of byte `k` flipped.
pub open spec fn flip_bit(b: Seq<u8>, k: int, bit: u8) -> Seq<u8> {
    b.update(k, b[k] ^ (1u8 << bit))
}

proof fn lemma_flip_changes_byte(x: u8, bit: u8)
    requires
        bit < 8,
    ensures
        x ^ (1u8 << bit) != x,
{
    assert(x ^ (1u8 << bit) != x) by (bit_vector)
        requires
            bit < 8,
    ;
}

/// Flipping any bit of a well-formed chunk's checksum field makes reading it
/// fail with a checksum mismatch.
pub proof fn lemma_crc_bit_flip_detected(c: ChunkView, k: int, bit: u8)
    requires
        chunk_wf(c),
        8 + c.length <= k < 12 + c.length,
        bit < 8,
    ensures
        parse_chunk(flip_bit(chunk_bytes(c), k, bit)) == Err::<ChunkView, ChunkError>(
            ChunkError::ChecksumMismatch,
        ),
{
    let len = c.length as int;
    let b = chunk_bytes(c);
    let f = flip_bit(b, k, bit);
    assert(b.len() == 12 + len);
    lemma_flip_changes_byte(b[k], bit);
    assert(f[k] != b[k]);
    assert(f.subrange(0, 4) =~= be_bytes(c.length));
    assert(be_value(f, 0) == c.length) by {
        lemma_be_round_trip(c.length);
        assert(be_value(f, 0) == be_value(be_bytes(c.length), 0));
    }
    assert(f.subrange(4, 8) =~= c.chunk_type);
    assert(f.subrange(8, 8 + len) =~= c.data);
    assert(be_value(f, 8 + len) != c.crc) by {
        let q = b.subrange(8 + len, 12 + len);
        assert(q =~= be_bytes(c.crc));
        lemma_be_round_trip(c.crc);
        if be_value(f, 8 + len) == be_value(q, 0) {
            lemma_be_injective(
                f[8 + len],
                f[9 + len],
                f[10 + len],
                f[11 + len],
                q[0],
                q[1],
                q[2],
                q[3],
            );
            assert(f[k] == q[k - 8 - len]);
        }
    }
    lemma_checksum_mismatch(f, c.crc);
}

/// Bytes whose record is complete but whose checksum field differs from the
/// checksum of their type and data fail with a checksum mismatch.
proof fn lemma_checksum_mismatch(f: Seq<u8>, expected: u32)
    requires
        f.len() >= 4,
        be_value(f, 0) <= MAXIMUM_LENGTH,
        f.len() >= 12 + be_value(f, 0),
        expected == crc32_ieee(f.subrange(4, 8) + f.subrange(8, 8 + be_value(f, 0))),
        be_value(f, 8 + be_value(f, 0)) != expected,
    ensures
        parse_chunk(f) == Err::<ChunkView, ChunkError>(ChunkError::ChecksumMismatch),
{
    reveal(parse_chunk);
}

/// A declared length above `MAXIMUM_LENGTH` fails with a length overflow,
/// however many bytes follow it.
pub proof fn lemma_length_overflow(b: Seq<u8>)
    requires
        b.len() >= 4,
        be_value(b, 0) > MAXIMUM_LENGTH,
    ensures
        parse_chunk(b) == Err::<ChunkView, ChunkError>(ChunkError::LengthOverflow),
{
    reveal(parse_chunk);
}

} // verus!
