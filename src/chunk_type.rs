//! The four-byte chunk type code and the flags that the case of its letters carries.

use vstd::prelude::*;
use vstd::utf8::{decode_utf8, encode_utf8, is_ascii_chars, valid_utf8};
use vstd::string::StringSliceAdditionalSpecFns;

verus! {

broadcast use vstd::utf8::group_utf8_lib;

/// A byte is an ASCII uppercase letter.
pub open spec fn is_upper(b: u8) -> bool {
    65 <= b && b <= 90
}

/// A byte is an ASCII lowercase letter.
pub open spec fn is_lower(b: u8) -> bool {
    97 <= b && b <= 122
}

/// A byte is ASCII.
pub open spec fn is_ascii_byte(b: u8) -> bool {
    b < 128
}

/// Every byte of the sequence is ASCII.
pub open spec fn all_ascii(b: Seq<u8>) -> bool {
    forall|i: int| 0 <= i < b.len() ==> is_ascii_byte(#[trigger] b[i])
}

/// The characters that ASCII bytes stand for, one for one.
pub open spec fn ascii_chars(b: Seq<u8>) -> Seq<char> {
    Seq::new(b.len(), |i: int| b[i] as char)
}

/// Why a chunk type code could not be read from text or rendered as text.
#[derive(Debug, Clone, Copy, PartialEq, Eq, Structural)]
pub enum ChunkTypeError {
    /// The text is not exactly four bytes long.
    WrongLength,
    /// A byte lies outside the ASCII range.
    NonAscii,
}

/// A chunk type code: four bytes, stored verbatim.
#[derive(Debug, Clone, Copy)]
pub struct ChunkType {
    pub arr: [u8; 4],
}

impl View for ChunkType {
    type V = Seq<u8>;

    open spec fn view(&self) -> Seq<u8> {
        self.arr@
    }
}

/// Two codes are equal when their four bytes are, case included.
impl PartialEq for ChunkType {
    fn eq(&self, o: &ChunkType) -> (r: bool)
        ensures
            r == (self@ == o@),
    {
        let same = self.arr[0] == o.arr[0] && self.arr[1] == o.arr[1] && self.arr[2] == o.arr[2]
            && self.arr[3] == o.arr[3];
        if same {
            assert(self@ =~= o@);
        }
        same
    }
}

impl vstd::std_specs::cmp::PartialEqSpecImpl for ChunkType {
    open spec fn obeys_eq_spec() -> bool {
        true
    }

    open spec fn eq_spec(&self, o: &ChunkType) -> bool {
        self@ == o@
    }
}

impl Eq for ChunkType {

}

/// What reading a chunk type code from text gives, over the text's UTF-8 bytes.
pub open spec fn type_from_text(bytes: Seq<u8>) -> Result<Seq<u8>, ChunkTypeError> {
    if bytes.len() != 4 {
        Err(ChunkTypeError::WrongLength)
    } else if !all_ascii(bytes) {
        Err(ChunkTypeError::NonAscii)
    } else {
        Ok(bytes)
    }
}

impl ChunkType {
    /// A chunk is critical when its first byte is uppercase.
    pub open spec fn spec_critical(&self) -> bool {
        is_upper(self@[0])
    }

    /// A chunk is public when its second byte is uppercase.
    pub open spec fn spec_public(&self) -> bool {
        is_upper(self@[1])
    }

    /// The reserved bit is valid when the third byte is uppercase.
    pub open spec fn spec_reserved_bit_valid(&self) -> bool {
        is_upper(self@[2])
    }

    /// A chunk is safe to copy when its fourth byte is lowercase.
    pub open spec fn spec_safe_to_copy(&self) -> bool {
        is_lower(self@[3])
    }

    /// A code is valid when all its bytes are ASCII and its reserved bit is valid.
    pub open spec fn spec_valid(&self) -> bool {
        all_ascii(self@) && self.spec_reserved_bit_valid()
    }

    /// Builds a code from four bytes; this never fails.
    pub fn try_from(value: [u8; 4]) -> (r: Result<ChunkType, ChunkTypeError>)
        ensures
            r == Ok::<ChunkType, ChunkTypeError>(ChunkType { arr: value }),
    {
        Ok(ChunkType { arr: value })
    }

    /// Reads a code from text of exactly four ASCII bytes.
    pub fn from_str(s: &str) -> (r: Result<ChunkType, ChunkTypeError>)
        ensures
            match (r, type_from_text(s.spec_bytes())) {
                (Ok(t), Ok(b)) => t@ == b,
                (Err(e), Err(f)) => e == f,
                _ => false,
            },
    {
        let b = s.as_bytes();
        if b.len() != 4 {
            return Err(ChunkTypeError::WrongLength);
        }
        let mut i: usize = 0;
        while i < 4
            invariant
                b@ == s.spec_bytes(),
                b@.len() == 4,
                0 <= i <= 4,
                forall|j: int| 0 <= j < i ==> is_ascii_byte(#[trigger] b@[j]),
            decreases 4 - i,
        {
            if !Self::is_valid_byte(b[i]) {
                return Err(ChunkTypeError::NonAscii);
            }
            i = i + 1;
        }
        let t = ChunkType { arr: [b[0], b[1], b[2], b[3]] };
        assert(t@ =~= b@);
        Ok(t)
    }

    /// The four bytes of the code.
    pub fn bytes(&self) -> (r: [u8; 4])
        ensures
            r == self.arr,
    {
        self.arr
    }

    pub fn is_valid(&self) -> (r: bool)
        ensures
            r == self.spec_valid(),
    {
        let mut i: usize = 0;
        while i < 4
            invariant
                0 <= i <= 4,
                self@.len() == 4,
                forall|j: int| 0 <= j < i ==> is_ascii_byte(#[trigger] self@[j]),
            decreases 4 - i,
        {
            if !Self::is_valid_byte(self.arr[i]) {
                return false;
            }
            i = i + 1;
        }
        self.is_reserved_bit_valid()
    }

    pub fn is_critical(&self) -> (r: bool)
        ensures
            r == self.spec_critical(),
    {
        is_ascii_uppercase(self.arr[0])
    }

    pub fn is_public(&self) -> (r: bool)
        ensures
            r == self.spec_public(),
    {
        is_ascii_uppercase(self.arr[1])
    }

    pub fn is_reserved_bit_valid(&self) -> (r: bool)
        ensures
            r == self.spec_reserved_bit_valid(),
    {
        is_ascii_uppercase(self.arr[2])
    }

    pub fn is_safe_to_copy(&self) -> (r: bool)
        ensures
            r == self.spec_safe_to_copy(),
    {
        is_ascii_lowercase(self.arr[3])
    }

    pub fn is_valid_byte(byte: u8) -> (r: bool)
        ensures
            r == is_ascii_byte(byte),
    {
        byte < 128
    }

    /// Renders the code as text; fails when a byte is not ASCII.
    pub fn as_text(&self) -> (r: Result<String, ChunkTypeError>)
        ensures
            all_ascii(self@) ==> (r matches Ok(s) && s@ == ascii_chars(self@)),
            !all_ascii(self@) ==> r == Err::<String, ChunkTypeError>(ChunkTypeError::NonAscii),
    {
        let mut v: Vec<u8> = Vec::new();
        let mut i: usize = 0;
        while i < 4
            invariant
                0 <= i <= 4,
                self@.len() == 4,
                v@ == self@.subrange(0, i as int),
                forall|j: int| 0 <= j < i ==> is_ascii_byte(#[trigger] self@[j]),
            decreases 4 - i,
        {
            if !Self::is_valid_byte(self.arr[i]) {
                return Err(ChunkTypeError::NonAscii);
            }
            v.push(self.arr[i]);
            i = i + 1;
        }
        assert(v@ =~= self@);
        proof {
            lemma_ascii_text(self@);
        }
        match utf8_to_string(v) {
            Some(s) => Ok(s),
            None => Err(ChunkTypeError::NonAscii),
        }
    }
}

fn is_ascii_uppercase(b: u8) -> (r: bool)
    ensures
        r == is_upper(b),
{
    65 <= b && b <= 90
}

fn is_ascii_lowercase(b: u8) -> (r: bool)
    ensures
        r == is_lower(b),
{
    97 <= b && b <= 122
}

/// ASCII bytes are valid UTF-8, and they decode to one character each.
pub proof fn lemma_ascii_text(b: Seq<u8>)
    requires
        all_ascii(b),
    ensures
        valid_utf8(b),
        decode_utf8(b) == ascii_chars(b),
{
    let c = ascii_chars(b);
    assert(is_ascii_chars(c));
    vstd::utf8::is_ascii_chars_encode_utf8(c);
    assert(encode_utf8(c) =~= b);
}

/// Reading four ASCII characters as a chunk type code, then rendering the code
/// as text, gives back the same characters.
pub proof fn lemma_text_round_trip(s: Seq<char>)
    requires
        s.len() == 4,
        is_ascii_chars(s),
    ensures
        type_from_text(encode_utf8(s)) == Ok::<Seq<u8>, ChunkTypeError>(encode_utf8(s)),
        all_ascii(encode_utf8(s)),
        ascii_chars(encode_utf8(s)) == s,
{
    let b = encode_utf8(s);
    vstd::utf8::is_ascii_chars_encode_utf8(s);
    vstd::utf8::is_ascii_chars_nat_bound(s);
    assert forall|i: int| 0 <= i < b.len() implies is_ascii_byte(#[trigger] b[i]) && b[i] as char
        == s[i] by {
        assert(s[i] as u8 == b[i]);
        assert((s[i] as nat) < 128);
    }
    assert(ascii_chars(b) =~= s);
}

/// Relies on String::from_utf8: it succeeds exactly on valid UTF-8, and then
/// holds the characters that the bytes encode.
#[verifier::external_body]
pub(crate) fn utf8_to_string(bytes: Vec<u8>) -> (r: Option<String>)
    ensures
        match r {
            Some(s) => valid_utf8(bytes@) && s@ == decode_utf8(bytes@),
            None => !valid_utf8(bytes@),
        },
{
    String::from_utf8(bytes).ok()
}

} // verus!
