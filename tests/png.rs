use pngme::chunk::{Chunk, ChunkError};
use pngme::chunk_type::{ChunkType, ChunkTypeError};
use pngme::commands::{decode, encode, remove};
use pngme::png::{Png, PngError, STANDARD_HEADER};

fn chunk(type_text: &str, data: &str) -> Chunk {
    Chunk::new(ChunkType::from_str(type_text).unwrap(), data.as_bytes().to_vec())
}

fn sample_png() -> Png {
    Png::from_chunks(vec![
        chunk("FrSt", "I am the first chunk"),
        chunk("miDl", "I am another chunk"),
        chunk("LASt", "I am the last chunk"),
    ])
}

fn types_of(png: &Png) -> Vec<String> {
    png.chunks().iter().map(|c| c.chunk_type().as_text().unwrap()).collect()
}

#[test]
fn hidden_chunk_survives_serialize_and_parse() {
    let mut png = Png::from_chunks(Vec::new());
    png.append_chunk(chunk("ruSt", "hidden"));
    let bytes = png.as_bytes();
    let back = Png::try_from(&bytes[..]).unwrap();
    assert_eq!(back.chunks().len(), 1);
    assert_eq!(back.chunks()[0].data_as_string().unwrap(), "hidden");
}

#[test]
fn container_round_trips() {
    let png = sample_png();
    let bytes = png.as_bytes();
    assert_eq!(&bytes[..8], &STANDARD_HEADER[..]);
    let back = Png::try_from(&bytes[..]).unwrap();
    assert_eq!(back.chunks().len(), 3);
    for (a, b) in png.chunks().iter().zip(back.chunks().iter()) {
        assert_eq!(a.length(), b.length());
        assert_eq!(a.chunk_type(), b.chunk_type());
        assert_eq!(a.data(), b.data());
        assert_eq!(a.crc(), b.crc());
    }
    assert_eq!(back.as_bytes(), bytes);
}

#[test]
fn empty_container_is_only_the_signature() {
    let png = Png::from_chunks(Vec::new());
    assert_eq!(png.as_bytes(), STANDARD_HEADER.to_vec());
    assert_eq!(png.header(), &[137, 80, 78, 71, 13, 10, 26, 10]);
    let back = Png::try_from(&STANDARD_HEADER[..]).unwrap();
    assert_eq!(back.chunks().len(), 0);
}

#[test]
fn bad_signature_is_rejected() {
    let mut bytes = sample_png().as_bytes();
    bytes[0] = 13;
    assert_eq!(Png::try_from(&bytes[..]).err(), Some(PngError::BadSignature));
    assert_eq!(Png::try_from(&[137u8, 80, 78][..]).err(), Some(PngError::BadSignature));
}

#[test]
fn corrupt_chunk_reports_its_index() {
    let mut bytes = sample_png().as_bytes();
    let last = bytes.len() - 1;
    bytes[last] ^= 1;
    assert_eq!(
        Png::try_from(&bytes[..]).err(),
        Some(PngError::BadChunk { index: 2, error: ChunkError::ChecksumMismatch })
    );
}

#[test]
fn truncated_chunk_reports_its_index() {
    let bytes = sample_png().as_bytes();
    let cut = &bytes[..bytes.len() - 2];
    assert_eq!(
        Png::try_from(cut).err(),
        Some(PngError::BadChunk { index: 2, error: ChunkError::TruncatedInput })
    );
}

#[test]
fn fewer_than_four_trailing_bytes_end_the_stream() {
    let mut bytes = sample_png().as_bytes();
    bytes.extend_from_slice(&[0, 0, 0]);
    let back = Png::try_from(&bytes[..]).unwrap();
    assert_eq!(back.chunks().len(), 3);
}

#[test]
fn remove_takes_first_match_only() {
    let mut png = sample_png();
    png.append_chunk(chunk("miDl", "second of its type"));
    let removed = png.remove_chunk("miDl").unwrap();
    assert_eq!(removed.data_as_string().unwrap(), "I am another chunk");
    assert_eq!(types_of(&png), vec!["FrSt", "LASt", "miDl"]);
}

#[test]
fn remove_missing_type_is_not_found_and_keeps_container() {
    let mut png = sample_png();
    let before = png.as_bytes();
    assert_eq!(png.remove_chunk("ruSt").err(), Some(PngError::NotFound));
    assert_eq!(png.as_bytes(), before);
}

#[test]
fn remove_with_bad_type_text() {
    let mut png = sample_png();
    assert_eq!(
        png.remove_chunk("toolong").err(),
        Some(PngError::InvalidType(ChunkTypeError::WrongLength))
    );
    assert_eq!(png.chunks().len(), 3);
}

#[test]
fn chunk_by_type_finds_first_or_nothing() {
    let png = sample_png();
    let c = png.chunk_by_type("LASt").unwrap();
    assert_eq!(c.data_as_string().unwrap(), "I am the last chunk");
    assert!(png.chunk_by_type("last").is_none());
    assert!(png.chunk_by_type("LA").is_none());
}

#[test]
fn encode_then_decode_recovers_message() {
    let image = sample_png().as_bytes();
    let encoded = encode(&image, "ruSt", "hidden").unwrap();
    assert_eq!(&encoded[..image.len()], &image[..]);
    assert_eq!(encoded.len(), image.len() + 12 + 6);
    assert_eq!(decode(&encoded, "ruSt").unwrap(), "hidden");
}

#[test]
fn encode_then_remove_restores_image() {
    let image = sample_png().as_bytes();
    let encoded = encode(&image, "ruSt", "hidden").unwrap();
    assert_eq!(remove(&encoded, "ruSt").unwrap(), image);
}

#[test]
fn command_errors() {
    let image = sample_png().as_bytes();
    assert_eq!(decode(&image, "ruSt").err(), Some(PngError::NotFound));
    assert_eq!(remove(&image, "ruSt").err(), Some(PngError::NotFound));
    assert_eq!(
        encode(&image, "ru", "x").err(),
        Some(PngError::InvalidType(ChunkTypeError::WrongLength))
    );
    assert_eq!(encode(&image[1..], "ruSt", "x").err(), Some(PngError::BadSignature));
    let bad = encode(&image, "ruSt", "ok").unwrap();
    let mut png = Png::try_from(&bad[..]).unwrap();
    png.remove_chunk("ruSt").unwrap();
    png.append_chunk(Chunk::new(ChunkType::from_str("ruSt").unwrap(), vec![0xff]));
    assert_eq!(
        decode(&png.as_bytes(), "ruSt").err(),
        Some(PngError::BadChunk { index: 3, error: ChunkError::EncodingError })
    );
}
