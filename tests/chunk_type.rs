use pngme::chunk_type::{ChunkType, Error};
use std::convert::TryFrom;
use std::str::FromStr;

#[test]
pub fn test_chunk_type_from_bytes() {
    let expected = [82, 117, 83, 116];
    let actual = ChunkType::try_from([82, 117, 83, 116]).unwrap();

    assert_eq!(expected, actual.bytes());
}

#[test]
pub fn test_chunk_type_from_str() {
    let expected = ChunkType::try_from([82, 117, 83, 116]).unwrap();
    let actual = ChunkType::from_str("RuSt").unwrap();
    assert_eq!(expected, actual);
}

#[test]
pub fn test_chunk_type_is_critical() {
    let chunk = ChunkType::from_str("RuSt").unwrap();
    assert!(chunk.is_critical());
}

#[test]
pub fn test_chunk_type_is_not_critical() {
    let chunk = ChunkType::from_str("ruSt").unwrap();
    assert!(!chunk.is_critical());
}

#[test]
pub fn test_chunk_type_is_public() {
    let chunk = ChunkType::from_str("RUSt").unwrap();
    assert!(chunk.is_public());
}

#[test]
pub fn test_chunk_type_is_not_public() {
    let chunk = ChunkType::from_str("RuSt").unwrap();
    assert!(!chunk.is_public());
}

#[test]
pub fn test_chunk_type_is_reserved_bit_valid() {
    let chunk = ChunkType::from_str("RuSt").unwrap();
    assert!(chunk.is_reserved_bit_valid());
}

#[test]
pub fn test_chunk_type_is_reserved_bit_invalid() {
    let chunk = ChunkType::from_str("Rust").unwrap();
    assert!(!chunk.is_reserved_bit_valid());
}

#[test]
pub fn test_chunk_type_is_safe_to_copy() {
    let chunk = ChunkType::from_str("RuSt").unwrap();
    assert!(chunk.is_safe_to_copy());
}

#[test]
pub fn test_chunk_type_is_unsafe_to_copy() {
    let chunk = ChunkType::from_str("RuST").unwrap();
    assert!(!chunk.is_safe_to_copy());
}

#[test]
pub fn test_valid_chunk_is_valid() {
    let chunk = ChunkType::from_str("RuSt").unwrap();
    assert!(chunk.is_valid());
}

#[test]
pub fn test_invalid_chunk_is_valid() {
    let chunk = ChunkType::from_str("Rust").unwrap();
    assert!(!chunk.is_valid());

    let chunk = ChunkType::from_str("Ru1t");
    assert!(chunk.is_err());
}

#[test]
pub fn test_chunk_type_string() {
    let chunk = ChunkType::from_str("RuSt").unwrap();
    assert_eq!(&chunk.to_string(), "RuSt");
}

#[test]
pub fn test_chunk_type_trait_impls() {
    let chunk_type_1: ChunkType = TryFrom::try_from([82, 117, 83, 116]).unwrap();
    let chunk_type_2: ChunkType = FromStr::from_str("RuSt").unwrap();
    let _chunk_string = chunk_type_1.to_string();
    let _are_chunks_equal = chunk_type_1 == chunk_type_2;
}

#[test]
fn wrong_length_text_is_too_many_bytes() {
    assert!(matches!(ChunkType::from_str("RuS"), Err(Error::TooManyBytes(3))));
    assert!(matches!(ChunkType::from_str("RuStx"), Err(Error::TooManyBytes(5))));
    assert!(matches!(ChunkType::from_str(""), Err(Error::TooManyBytes(0))));
}

#[test]
fn non_letter_text_is_must_be_alphabetic() {
    assert!(matches!(ChunkType::from_str("Ru1t"), Err(Error::MustBeAlphabetic('1'))));
    assert!(matches!(ChunkType::from_str("R__t"), Err(Error::MustBeAlphabetic('_'))));
    assert!(matches!(ChunkType::from_str("RuS "), Err(Error::MustBeAlphabetic(' '))));
}

#[test]
fn raw_bytes_are_kept_even_when_not_letters() {
    let t = ChunkType::from_bytes([82, 49, 83, 116]);
    assert_eq!(t.bytes(), [82, 49, 83, 116]);
    assert!(!t.is_valid());
    assert_eq!(t.to_string(), "R1St");
}

#[test]
fn validity_needs_letters_and_uppercase_reserved_byte() {
    assert!(ChunkType::from_str("IHDR").unwrap().is_valid());
    assert!(ChunkType::from_str("tEXt").unwrap().is_valid());
    assert!(!ChunkType::from_str("tExt").unwrap().is_valid());
    assert!(!ChunkType::from_bytes([82, 117, 83, 0]).is_valid());
}
