//! The operations offered on a whole PNG stream: hide a message, recover it,
//! remove it.

use vstd::prelude::*;
use vstd::slice::slice_to_vec;
use vstd::string::StringSliceAdditionalSpecFns;
use vstd::utf8::{decode_utf8, valid_utf8};
use crate::chunk::{Chunk, ChunkError, MAXIMUM_LENGTH, new_chunk_view};
use crate::chunk_type::{ChunkType, type_from_text};
use crate::png::{Png, PngError, has_type, is_first_of_type, parse_png, png_bytes};

verus! {

/// The position of the first chunk of type `t`; meaningful when there is one.
pub open spec fn first_of_type(cs: Seq<crate::chunk::ChunkView>, t: Seq<u8>) -> int {
    choose|i: int| is_first_of_type(cs, t, i)
}

/// The stream `image` with a chunk of the given type and message added at the end.
pub open spec fn encode_spec(image: Seq<u8>, type_text: Seq<u8>, message: Seq<u8>) -> Result<
    Seq<u8>,
    PngError,
> {
    match parse_png(image) {
        Err(e) => Err(e),
        Ok(cs) => match type_from_text(type_text) {
            Err(e) => Err(PngError::InvalidType(e)),
            Ok(t) => if message.len() > MAXIMUM_LENGTH {
                Err(PngError::BadChunk { index: cs.len() as usize, error: ChunkError::LengthOverflow })
            } else {
                Ok(png_bytes(cs.push(new_chunk_view(t, message))))
            },
        },
    }
}

/// The stream `image` without its first chunk of the given type.
pub open spec fn remove_spec(image: Seq<u8>, type_text: Seq<u8>) -> Result<Seq<u8>, PngError> {
    match parse_png(image) {
        Err(e) => Err(e),
        Ok(cs) => match type_from_text(type_text) {
            Err(e) => Err(PngError::InvalidType(e)),
            Ok(t) => if has_type(cs, t) {
                Ok(png_bytes(cs.remove(first_of_type(cs, t))))
            } else {
                Err(PngError::NotFound)
            },
        },
    }
}

/// The text held by the first chunk of the given type in `image`.
pub open spec fn decode_spec(image: Seq<u8>, type_text: Seq<u8>) -> Result<Seq<char>, PngError> {
    match parse_png(image) {
        Err(e) => Err(e),
        Ok(cs) => match type_from_text(type_text) {
            Err(e) => Err(PngError::InvalidType(e)),
            Ok(t) => if has_type(cs, t) {
                let i = first_of_type(cs, t);
                if valid_utf8(cs[i].data) {
                    Ok(decode_utf8(cs[i].data))
                } else {
                    Err(PngError::BadChunk { index: i as usize, error: ChunkError::EncodingError })
                }
            } else {
                Err(PngError::NotFound)
            },
        },
    }
}

proof fn lemma_first_unique(cs: Seq<crate::chunk::ChunkView>, t: Seq<u8>, i: int)
    requires
        is_first_of_type(cs, t, i),
    ensures
        first_of_type(cs, t) == i,
{
    let j = first_of_type(cs, t);
    assert(is_first_of_type(cs, t, j));
    if j < i {
        assert(cs[j].chunk_type != t);
    } else if i < j {
        assert(cs[i].chunk_type != t);
    }
}

/// Hides `message` in a new chunk of type `chunk_type` at the end of the
/// stream `image`, and returns the new stream.
pub fn encode(image: &[u8], chunk_type: &str, message: &str) -> (r: Result<Vec<u8>, PngError>)
    ensures
        match (r, encode_spec(image@, chunk_type.spec_bytes(), message.spec_bytes())) {
            (Ok(v), Ok(w)) => v@ == w,
            (Err(e), Err(f)) => e == f,
            _ => false,
        },
{
    let mut png = match Png::try_from(image) {
        Ok(p) => p,
        Err(e) => return Err(e),
    };
    let t = match ChunkType::from_str(chunk_type) {
        Ok(t) => t,
        Err(e) => return Err(PngError::InvalidType(e)),
    };
    let data = slice_to_vec(message.as_bytes());
    if data.len() > MAXIMUM_LENGTH as usize {
        return Err(PngError::BadChunk { index: png.chunks().len(), error: ChunkError::LengthOverflow });
    }
    png.append_chunk(Chunk::new(t, data));
    Ok(png.as_bytes())
}

/// Removes the first chunk of type `chunk_type` from the stream `image`, and
/// returns the new stream.
pub fn remove(image: &[u8], chunk_type: &str) -> (r: Result<Vec<u8>, PngError>)
    ensures
        match (r, remove_spec(image@, chunk_type.spec_bytes())) {
            (Ok(v), Ok(w)) => v@ == w,
            (Err(e), Err(f)) => e == f,
            _ => false,
        },
{
    let mut png = match Png::try_from(image) {
        Ok(p) => p,
        Err(e) => return Err(e),
    };
    let ghost cs = png@;
    match png.remove_chunk(chunk_type) {
        Ok(_) => {
            proof {
                let t = type_from_text(chunk_type.spec_bytes())->Ok_0;
                let i = choose|i: int| is_first_of_type(cs, t, i) && png@ == cs.remove(i);
                lemma_first_unique(cs, t, i);
            }
            Ok(png.as_bytes())
        },
        Err(e) => Err(e),
    }
}

/// Recovers the text of the first chunk of type `chunk_type` in the stream `image`.
pub fn decode(image: &[u8], chunk_type: &str) -> (r: Result<String, PngError>)
    ensures
        match (r, decode_spec(image@, chunk_type.spec_bytes())) {
            (Ok(s), Ok(w)) => s@ == w,
            (Err(e), Err(f)) => e == f,
            _ => false,
        },
{
    let png = match Png::try_from(image) {
        Ok(p) => p,
        Err(e) => return Err(e),
    };
    let t = match ChunkType::from_str(chunk_type) {
        Ok(t) => t,
        Err(e) => return Err(PngError::InvalidType(e)),
    };
    match png.position_of_type(&t) {
        None => Err(PngError::NotFound),
        Some(i) => {
            proof {
                lemma_first_unique(png@, t@, i as int);
            }
            let chunks = png.chunks();
            assert(chunks@.map_values(|c: Chunk| c@)[i as int] == chunks@[i as int]@);
            match chunks[i].data_as_string() {
                Ok(s) => Ok(s),
                Err(_) => Err(PngError::BadChunk { index: i, error: ChunkError::EncodingError }),
            }
        },
    }
}

} // verus!
