//! The PNG container: the fixed signature followed by an ordered sequence of chunks.

use vstd::prelude::*;
use vstd::string::StringSliceAdditionalSpecFns;
use crate::chunk::{
    Chunk, ChunkError, ChunkView, be_value, chunk_bytes, chunk_wf, parse_chunk,
    push_all, read_be, lemma_chunk_round_trip,
};
use crate::chunk_type::{ChunkType, ChunkTypeError, type_from_text};

verus! {

/// The eight bytes that every PNG stream starts with.
pub const STANDARD_HEADER: [u8; 8] = [137, 80, 78, 71, 13, 10, 26, 10];

/// The signature as a sequence.
pub open spec fn signature() -> Seq<u8> {
    seq![137u8, 80u8, 78u8, 71u8, 13u8, 10u8, 26u8, 10u8]
}

/// Why a container could not be read, or a chunk not found or added.
#[derive(Debug, Clone, Copy, PartialEq, Eq, Structural)]
pub enum PngError {
    /// The bytes do not start with the PNG signature.
    BadSignature,
    /// The chunk at `index` could not be read, or its data not decoded.
    BadChunk { index: usize, error: ChunkError },
    /// No chunk has the requested type.
    NotFound,
    /// The requested type is not a valid type text.
    InvalidType(ChunkTypeError),
}

/// The chunks read from `b`, the bytes after the signature, the first of them
/// being chunk number `index`. Reading stops when fewer than four bytes remain.
pub open spec fn parse_chunks(b: Seq<u8>, index: nat) -> Result<Seq<ChunkView>, PngError>
    decreases b.len(),
{
    if b.len() < 4 {
        Ok(Seq::empty())
    } else {
        let len = be_value(b, 0);
        if b.len() < 12 + len {
            Err(PngError::BadChunk { index: index as usize, error: ChunkError::TruncatedInput })
        } else {
            match parse_chunk(b.subrange(0, 12 + len)) {
                Err(e) => Err(PngError::BadChunk { index: index as usize, error: e }),
                Ok(c) => match parse_chunks(b.subrange(12 + len, b.len() as int), index + 1) {
                    Ok(rest) => Ok(seq![c] + rest),
                    Err(e) => Err(e),
                },
            }
        }
    }
}

/// `r` with the chunks `cs` put in front of its chunks.
pub open spec fn prepend(cs: Seq<ChunkView>, r: Result<Seq<ChunkView>, PngError>) -> Result<
    Seq<ChunkView>,
    PngError,
> {
    match r {
        Ok(rest) => Ok(cs + rest),
        Err(e) => Err(e),
    }
}

/// What reading a whole container from `b` gives.
pub open spec fn parse_png(b: Seq<u8>) -> Result<Seq<ChunkView>, PngError> {
    if b.len() < 8 || b.subrange(0, 8) != signature() {
        Err(PngError::BadSignature)
    } else {
        parse_chunks(b.subrange(8, b.len() as int), 0)
    }
}

/// The wire forms of the chunks, one after another.
pub open spec fn chunks_bytes(cs: Seq<ChunkView>) -> Seq<u8>
    decreases cs.len(),
{
    if cs.len() == 0 {
        Seq::empty()
    } else {
        chunk_bytes(cs[0]) + chunks_bytes(cs.drop_first())
    }
}

/// The wire form of a container.
pub open spec fn png_bytes(cs: Seq<ChunkView>) -> Seq<u8> {
    signature() + chunks_bytes(cs)
}

/// Every chunk of the sequence is well formed.
pub open spec fn all_wf(cs: Seq<ChunkView>) -> bool {
    forall|i: int| 0 <= i < cs.len() ==> chunk_wf(#[trigger] cs[i])
}

/// `i` is the position of the first chunk of type `t`.
pub open spec fn is_first_of_type(cs: Seq<ChunkView>, t: Seq<u8>, i: int) -> bool {
    &&& 0 <= i < cs.len()
    &&& cs[i].chunk_type == t
    &&& forall|j: int| 0 <= j < i ==> (#[trigger] cs[j]).chunk_type != t
}

/// Some chunk has type `t`.
pub open spec fn has_type(cs: Seq<ChunkView>, t: Seq<u8>) -> bool {
    exists|i: int| 0 <= i < cs.len() && (#[trigger] cs[i]).chunk_type == t
}

/// A PNG container: its chunks in stream order. The signature is not stored.
pub struct Png {
    chunks: Vec<Chunk>,
}

impl View for Png {
    type V = Seq<ChunkView>;

    closed spec fn view(&self) -> Seq<ChunkView> {
        self.chunks@.map_values(|c: Chunk| c@)
    }
}

impl Png {
    pub open spec fn wf(&self) -> bool {
        all_wf(self@)
    }

    /// A container of the given chunks, in that order.
    pub fn from_chunks(chunks: Vec<Chunk>) -> (r: Png)
        requires
            forall|i: int| 0 <= i < chunks@.len() ==> (#[trigger] chunks@[i]).wf(),
        ensures
            r@ == chunks@.map_values(|c: Chunk| c@),
            r.wf(),
    {
        Png { chunks }
    }

    /// Adds a chunk at the end.
    pub fn append_chunk(&mut self, chunk: Chunk)
        requires
            old(self).wf(),
            chunk.wf(),
        ensures
            final(self)@ == old(self)@.push(chunk@),
            final(self).wf(),
    {
        self.chunks.push(chunk);
        assert(self.chunks@.map_values(|c: Chunk| c@) =~= old(self)@.push(chunk@));
    }

    /// The position of the first chunk of the given type, if any.
    pub(crate) fn position_of_type(&self, chunk_type: &ChunkType) -> (r: Option<usize>)
        ensures
            match r {
                Some(i) => is_first_of_type(self@, chunk_type@, i as int),
                None => !has_type(self@, chunk_type@),
            },
    {
        let mut i: usize = 0;
        while i < self.chunks.len()
            invariant
                0 <= i <= self.chunks@.len(),
                self@.len() == self.chunks@.len(),
                forall|j: int| 0 <= j < i ==> (#[trigger] self@[j]).chunk_type != chunk_type@,
            decreases self.chunks@.len() - i,
        {
            if *self.chunks[i].chunk_type() == *chunk_type {
                return Some(i);
            }
            i = i + 1;
        }
        None
    }

    /// Removes and returns the first chunk whose type is the given text.
    pub fn remove_chunk(&mut self, chunk_type: &str) -> (r: Result<Chunk, PngError>)
        requires
            old(self).wf(),
        ensures
            final(self).wf(),
            match type_from_text(chunk_type.spec_bytes()) {
                Err(e) => r == Err::<Chunk, PngError>(PngError::InvalidType(e)) && final(self)@
                    == old(self)@,
                Ok(t) => if has_type(old(self)@, t) {
                    exists|i: int|
                        is_first_of_type(old(self)@, t, i) && (r matches Ok(c) && c@ == old(
                            self,
                        )@[i]) && final(self)@ == old(self)@.remove(i)
                } else {
                    r == Err::<Chunk, PngError>(PngError::NotFound) && final(self)@ == old(self)@
                },
            },
    {
        let t = match ChunkType::from_str(chunk_type) {
            Ok(t) => t,
            Err(e) => return Err(PngError::InvalidType(e)),
        };
        match self.position_of_type(&t) {
            Some(i) => {
                let c = self.chunks.remove(i);
                assert(self.chunks@.map_values(|c: Chunk| c@) =~= old(self)@.remove(i as int));
                Ok(c)
            },
            None => Err(PngError::NotFound),
        }
    }

    /// The eight signature bytes.
    pub fn header(&self) -> (r: &[u8; 8])
        ensures
            r@ == signature(),
    {
        let r = &STANDARD_HEADER;
        assert(r@ =~= signature());
        r
    }

    /// The chunks, in order.
    pub fn chunks(&self) -> (r: &[Chunk])
        ensures
            r@.map_values(|c: Chunk| c@) == self@,
    {
        self.chunks.as_slice()
    }

    /// Reads a container: the signature, then chunks until fewer than four
    /// bytes remain.
    pub fn try_from(value: &[u8]) -> (r: Result<Png, PngError>)
        ensures
            match r {
                Ok(p) => parse_png(value@) == Ok::<Seq<ChunkView>, PngError>(p@) && p.wf(),
                Err(e) => parse_png(value@) == Err::<Seq<ChunkView>, PngError>(e),
            },
    {
        if value.len() < 8 {
            return Err(PngError::BadSignature);
        }
        let mut k: usize = 0;
        while k < 8
            invariant
                0 <= k <= 8,
                value@.len() >= 8,
                forall|j: int| 0 <= j < k ==> value@[j] == #[trigger] signature()[j],
            decreases 8 - k,
        {
            if value[k] != STANDARD_HEADER[k] {
                assert(value@.subrange(0, 8)[k as int] != signature()[k as int]);
                return Err(PngError::BadSignature);
            }
            k = k + 1;
        }
        assert(value@.subrange(0, 8) =~= signature());
        let mut chunks: Vec<Chunk> = Vec::new();
        let mut pos: usize = 8;
        assert(chunks@.map_values(|c: Chunk| c@) =~= Seq::<ChunkView>::empty());
        while value.len() - pos >= 4
            invariant
                8 <= pos <= value@.len(),
                forall|i: int| 0 <= i < chunks@.len() ==> (#[trigger] chunks@[i]).wf(),
                parse_png(value@) == prepend(
                    chunks@.map_values(|c: Chunk| c@),
                    parse_chunks(value@.subrange(pos as int, value@.len() as int), chunks@.len()),
                ),
            decreases value@.len() - pos,
        {
            let ghost b = value@.subrange(pos as int, value@.len() as int);
            let ghost seen = chunks@.map_values(|c: Chunk| c@);
            let length = read_be(value, pos);
            assert(be_value(b, 0) == length);
            if value.len() - pos < 12 || value.len() - pos - 12 < length as usize {
                return Err(PngError::BadChunk { index: chunks.len(), error: ChunkError::TruncatedInput });
            }
            let end = pos + 12 + length as usize;
            let record = &value[pos..end];
            assert(record@ =~= b.subrange(0, 12 + length));
            match Chunk::try_from(record) {
                Err(e) => {
                    return Err(PngError::BadChunk { index: chunks.len(), error: e });
                },
                Ok(c) => {
                    chunks.push(c);
                    pos = end;
                    assert(value@.subrange(pos as int, value@.len() as int) =~= b.subrange(
                        12 + length,
                        b.len() as int,
                    ));
                    assert(chunks@.map_values(|c: Chunk| c@) =~= seen + seq![c@]);
                    assert(seen + seq![c@] + Seq::<ChunkView>::empty() =~= seen + seq![c@]);
                    assert forall|rest: Seq<ChunkView>|
                        #![auto]
                        (seen + seq![c@]) + rest =~= seen + (seq![c@] + rest) by {}
                },
            }
        }
        assert(chunks@.map_values(|c: Chunk| c@) + Seq::<ChunkView>::empty() =~= chunks@.map_values(
            |c: Chunk| c@,
        ));
        Ok(Png { chunks })
    }

    /// The wire form: the signature, then each chunk in order.
    pub fn as_bytes(&self) -> (r: Vec<u8>)
        ensures
            r@ == png_bytes(self@),
    {
        let mut out: Vec<u8> = Vec::new();
        push_all(&mut out, &STANDARD_HEADER);
        assert(out@ =~= signature());
        let mut i: usize = 0;
        while i < self.chunks.len()
            invariant
                0 <= i <= self.chunks@.len(),
                self@.len() == self.chunks@.len(),
                out@ == signature() + chunks_bytes(self@.take(i as int)),
            decreases self.chunks@.len() - i,
        {
            let b = self.chunks[i].as_bytes();
            proof {
                lemma_chunks_bytes_push(self@.take(i as int), self@[i as int]);
                assert(self@.take(i as int).push(self@[i as int]) =~= self@.take(i + 1));
            }
            push_all(&mut out, b.as_slice());
            i = i + 1;
        }
        assert(self@.take(i as int) =~= self@);
        out
    }

    /// The first chunk whose type is the given text, if any.
    pub fn chunk_by_type(&self, chunk_type: &str) -> (r: Option<&Chunk>)
        ensures
            match type_from_text(chunk_type.spec_bytes()) {
                Err(_) => r is None,
                Ok(t) => if has_type(self@, t) {
                    exists|i: int| is_first_of_type(self@, t, i) && (r matches Some(c) && c@ == self@[i])
                } else {
                    r is None
                },
            },
    {
        let t = match ChunkType::from_str(chunk_type) {
            Ok(t) => t,
            Err(_) => return None,
        };
        match self.position_of_type(&t) {
            Some(i) => Some(&self.chunks[i]),
            None => None,
        }
    }
}

/// Adding a chunk at the end adds its wire form at the end.
pub proof fn lemma_chunks_bytes_push(cs: Seq<ChunkView>, c: ChunkView)
    ensures
        chunks_bytes(cs.push(c)) == chunks_bytes(cs) + chunk_bytes(c),
    decreases cs.len(),
{
    if cs.len() == 0 {
        assert(cs.push(c).drop_first() =~= Seq::<ChunkView>::empty());
        assert(chunks_bytes(cs.push(c).drop_first()) == Seq::<u8>::empty());
        assert(cs.push(c)[0] == c);
        assert(chunks_bytes(cs) == Seq::<u8>::empty());
        assert(chunks_bytes(cs.push(c)) =~= chunks_bytes(cs) + chunk_bytes(c));
    } else {
        lemma_chunks_bytes_push(cs.drop_first(), c);
        assert(cs.push(c).drop_first() =~= cs.drop_first().push(c));
        assert(chunks_bytes(cs.push(c)) =~= chunks_bytes(cs) + chunk_bytes(c));
    }
}

proof fn lemma_parse_chunks_step(
    b: Seq<u8>,
    index: nat,
    c: ChunkView,
    rest: Seq<ChunkView>,
)
    requires
        b.len() >= 4,
        b.len() >= 12 + be_value(b, 0),
        parse_chunk(b.subrange(0, 12 + be_value(b, 0))) == Ok::<ChunkView, ChunkError>(c),
        parse_chunks(b.subrange(12 + be_value(b, 0), b.len() as int), index + 1) == Ok::<
            Seq<ChunkView>,
            PngError,
        >(rest),
    ensures
        parse_chunks(b, index) == Ok::<Seq<ChunkView>, PngError>(seq![c] + rest),
{
}

/// The wire forms of well-formed chunks read back as those chunks, numbered
/// from `index`.
pub proof fn lemma_chunks_round_trip(cs: Seq<ChunkView>, index: nat)
    requires
        all_wf(cs),
    ensures
        parse_chunks(chunks_bytes(cs), index) == Ok::<Seq<ChunkView>, PngError>(cs),
    decreases cs.len(),
{
    if cs.len() == 0 {
        assert(chunks_bytes(cs).len() == 0);
        assert(cs =~= Seq::<ChunkView>::empty());
    } else {
        let c = cs[0];
        let rest = cs.drop_first();
        let b = chunks_bytes(cs);
        assert(chunk_wf(c));
        lemma_chunk_round_trip(c, chunks_bytes(rest));
        assert(b == chunk_bytes(c) + chunks_bytes(rest));
        let len = c.length as int;
        assert(be_value(b, 0) == len);
        assert(b.len() >= 12 + len);
        assert(b.subrange(0, 12 + len) =~= chunk_bytes(c));
        assert(b.subrange(12 + len, b.len() as int) =~= chunks_bytes(rest));
        assert(all_wf(rest)) by {
            assert forall|i: int| 0 <= i < rest.len() implies chunk_wf(#[trigger] rest[i]) by {
                assert(rest[i] == cs[i + 1]);
            }
        }
        lemma_chunks_round_trip(rest, index + 1);
        lemma_parse_chunks_step(b, index, c, rest);
        assert(seq![c] + rest =~= cs);
    }
}

/// Serializing a container of well-formed chunks and reading the bytes back
/// gives the same chunks, in the same order.
pub proof fn lemma_png_round_trip(cs: Seq<ChunkView>)
    requires
        all_wf(cs),
    ensures
        parse_png(png_bytes(cs)) == Ok::<Seq<ChunkView>, PngError>(cs),
{
    let b = png_bytes(cs);
    assert(b.subrange(0, 8) =~= signature());
    assert(b.subrange(8, b.len() as int) =~= chunks_bytes(cs));
    lemma_chunks_round_trip(cs, 0);
}

} // verus!
