use pngme::chunk_type::{ChunkType, ChunkTypeError};

#[test]
pub fn test_chunk_type_from_bytes() {
    let expected = [82, 117, 83, 116];
    let actual = ChunkType::try_from([82, 117, 83, 116]).unwrap();

    assert_eq!(expected, actual.bytes());
}

#[test]
pub fn test_chunk_type_from_str() {
    let expected = ChunkType::try_from([82, 117, 83, 116]).unwrap();
    let actual = ChunkType::from_str("RuSt").unwrap();
    assert_eq!(expected, actual);
}

#[test]
pub fn test_chunk_type_is_critical() {
    let chunk = ChunkType::from_str("RuSt").unwrap();
    assert!(chunk.is_critical());
}

#[test]
pub fn test_chunk_type_is_not_critical() {
    let chunk = ChunkType::from_str("ruSt").unwrap();
    assert!(!chunk.is_critical());
}

#[test]
pub fn test_chunk_type_is_public() {
    let chunk = ChunkType::from_str("RUSt").unwrap();
    assert!(chunk.is_public());
}

#[test]
pub fn test_chunk_type_is_not_public() {
    let chunk = ChunkType::from_str("RuSt").unwrap();
    assert!(!chunk.is_public());
}

#[test]
pub fn test_chunk_type_is_reserved_bit_valid() {
    let chunk = ChunkType::from_str("RuSt").unwrap();
    assert!(chunk.is_reserved_bit_valid());
}

#[test]
pub fn test_chunk_type_is_reserved_bit_invalid() {
    let chunk = ChunkType::from_str("Rust").unwrap();
    assert!(!chunk.is_reserved_bit_valid());
}

#[test]
pub fn test_chunk_type_is_safe_to_copy() {
    let chunk = ChunkType::from_str("RuSt").unwrap();
    assert!(chunk.is_safe_to_copy());
}

#[test]
pub fn test_chunk_type_is_unsafe_to_copy() {
    let chunk = ChunkType::from_str("RuST").unwrap();
    assert!(!chunk.is_safe_to_copy());
}

#[test]
pub fn test_valid_chunk_is_valid() {
    let chunk = ChunkType::from_str("RuSt").unwrap();
    assert!(chunk.is_valid());
}

#[test]
pub fn test_invalid_chunk_is_valid() {
    let chunk = ChunkType::from_str("Rust").unwrap();
    assert!(!chunk.is_valid());
}

#[test]
pub fn test_chunk_type_string() {
    let chunk = ChunkType::from_str("RuSt").unwrap();
    assert_eq!(&chunk.as_text().unwrap(), "RuSt");
}

#[test]
pub fn test_chunk_type_trait_impls() {
    let chunk_type_1: ChunkType = ChunkType::try_from([82, 117, 83, 116]).unwrap();
    let chunk_type_2: ChunkType = ChunkType::from_str("RuSt").unwrap();
    let _chunk_string = format!("{:?}", chunk_type_1);
    let _are_chunks_equal = chunk_type_1 == chunk_type_2;
}

#[test]
fn from_str_rejects_wrong_length() {
    assert_eq!(ChunkType::from_str("RuS"), Err(ChunkTypeError::WrongLength));
    assert_eq!(ChunkType::from_str("RuStx"), Err(ChunkTypeError::WrongLength));
    assert_eq!(ChunkType::from_str(""), Err(ChunkTypeError::WrongLength));
}

#[test]
fn from_str_rejects_non_ascii() {
    // two ASCII letters and one two-byte character: four bytes in all
    assert_eq!(ChunkType::from_str("Ru\u{e9}"), Err(ChunkTypeError::NonAscii));
}

#[test]
fn as_text_rejects_non_ascii_bytes() {
    let t = ChunkType::try_from([82, 200, 83, 116]).unwrap();
    assert_eq!(t.as_text(), Err(ChunkTypeError::NonAscii));
    assert!(!t.is_valid());
}

#[test]
fn text_round_trips_through_type() {
    for s in ["RuSt", "ruSt", "IHDR", "abCd", "12X4"] {
        let t = ChunkType::from_str(s).unwrap();
        assert_eq!(t.as_text().unwrap(), s);
    }
}

#[test]
fn flags_of_secret_chunk_type() {
    let t = ChunkType::from_str("RuSt").unwrap();
    assert!(t.is_critical());
    assert!(!t.is_public());
    assert!(t.is_reserved_bit_valid());
    assert!(t.is_safe_to_copy());
    assert!(t.is_valid());
}

#[test]
fn lowercase_reserved_byte_is_invalid() {
    let t = ChunkType::from_str("Rust").unwrap();
    assert!(!t.is_reserved_bit_valid());
    assert!(!t.is_valid());
}

#[test]
fn valid_byte_is_ascii() {
    assert!(ChunkType::is_valid_byte(0));
    assert!(ChunkType::is_valid_byte(127));
    assert!(!ChunkType::is_valid_byte(128));
    assert!(!ChunkType::is_valid_byte(255));
}

#[test]
fn equality_is_case_sensitive() {
    assert_ne!(ChunkType::from_str("RuSt").unwrap(), ChunkType::from_str("rust").unwrap());
}
