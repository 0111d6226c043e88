use png_info::{ChunkType, ChunkTypeError};
use std::convert::TryFrom;
use std::str::FromStr;

#[test]
pub fn test_chunk_type_from_bytes() {
    let expected = [82, 117, 83, 116];
    let actual = ChunkType::try_from([82, 117, 83, 116]).unwrap();

    assert_eq!(expected, actual.bytes());
}

#[test]
pub fn test_chunk_type_from_str() {
    let expected = ChunkType::try_from([82, 117, 83, 116]).unwrap();
    let actual = ChunkType::from_str("RuSt").unwrap();
    assert_eq!(expected, actual);
}

#[test]
pub fn test_chunk_type_is_critical() {
    let chunk = ChunkType::from_str("RuSt").unwrap();
    assert!(chunk.is_critical());
}

#[test]
pub fn test_chunk_type_is_not_critical() {
    let chunk = ChunkType::from_str("ruSt").unwrap();
    assert!(!chunk.is_critical());
}

#[test]
pub fn test_chunk_type_is_public() {
    let chunk = ChunkType::from_str("RUSt").unwrap();
    assert!(chunk.is_public());
}

#[test]
pub fn test_chunk_type_is_not_public() {
    let chunk = ChunkType::from_str("RuSt").unwrap();
    assert!(!chunk.is_public());
}

#[test]
pub fn test_chunk_type_is_reserved_bit_valid() {
    let chunk = ChunkType::from_str("RuSt").unwrap();
    assert!(chunk.is_reserved_bit_valid());
}

#[test]
pub fn test_chunk_type_is_reserved_bit_invalid() {
    let chunk = ChunkType::from_str("Rust").unwrap();
    assert!(!chunk.is_reserved_bit_valid());
}

#[test]
pub fn test_chunk_type_is_safe_to_copy() {
    let chunk = ChunkType::from_str("RuSt").unwrap();
    assert!(chunk.is_safe_to_copy());
}

#[test]
pub fn test_chunk_type_is_unsafe_to_copy() {
    let chunk = ChunkType::from_str("RuST").unwrap();
    assert!(!chunk.is_safe_to_copy());
}

#[test]
pub fn test_valid_chunk_is_valid() {
    let chunk = ChunkType::from_str("RuSt").unwrap();
    assert!(chunk.is_valid());
}

#[test]
pub fn test_invalid_chunk_is_valid() {
    let chunk = ChunkType::from_str("Rust").unwrap();
    assert!(!chunk.is_valid());

    let chunk = ChunkType::from_str("Ru1t");
    assert!(chunk.is_err());
}

#[test]
pub fn test_chunk_type_string() {
    let chunk = ChunkType::from_str("RuSt").unwrap();
    assert_eq!(&chunk.to_string(), "RuSt");
}

#[test]
pub fn test_chunk_type_trait_impls() {
    let chunk_type_1: ChunkType = TryFrom::try_from([82, 117, 83, 116]).unwrap();
    let chunk_type_2: ChunkType = FromStr::from_str("RuSt").unwrap();
    let _chunk_string = chunk_type_1.to_string();
    let _are_chunks_equal = chunk_type_1 == chunk_type_2;
}

#[test]
fn digit_is_reported_as_the_invalid_byte() {
    assert_eq!(ChunkType::from_text("Ru1t"), Err(ChunkTypeError::InvalidByte(b'1')));
    assert_eq!(ChunkType::from_bytes([82, 117, 49, 116]), Err(ChunkTypeError::InvalidByte(49)));
}

#[test]
fn first_non_letter_is_reported() {
    assert_eq!(ChunkType::from_bytes([b'A', b'@', b'[', b'z']), Err(ChunkTypeError::InvalidByte(b'@')));
    assert_eq!(ChunkType::from_bytes([0x80, b'a', b'b', b'c']), Err(ChunkTypeError::InvalidByte(0x80)));
    assert_eq!(ChunkType::from_text("ab c"), Err(ChunkTypeError::InvalidByte(b' ')));
}

#[test]
fn text_of_wrong_length_is_refused() {
    assert_eq!(ChunkType::from_text("RuS"), Err(ChunkTypeError::InvalidLength));
    assert_eq!(ChunkType::from_text("RuStx"), Err(ChunkTypeError::InvalidLength));
    assert_eq!(ChunkType::from_text(""), Err(ChunkTypeError::InvalidLength));
    // four characters, five bytes
    assert_eq!(ChunkType::from_text("Ru\u{e9}t"), Err(ChunkTypeError::InvalidLength));
    // three characters, four bytes
    assert_eq!(ChunkType::from_text("Ru\u{e9}"), Err(ChunkTypeError::InvalidByte(0xc3)));
}

#[test]
fn letter_text_round_trips() {
    for text in ["IHDR", "IEND", "tEXt", "zzzz", "AAAA", "aZaZ"] {
        let t = ChunkType::from_text(text).unwrap();
        assert_eq!(t.to_string(), text);
        assert_eq!(&t.bytes(), text.as_bytes());
    }
}

#[test]
fn validity_follows_reserved_bit() {
    for text in ["RuSt", "Rust", "abCd", "abcd", "ABCD", "ABcD"] {
        let t = ChunkType::from_text(text).unwrap();
        assert_eq!(t.is_valid(), t.is_reserved_bit_valid());
    }
    assert!(ChunkType::from_text("ABCD").unwrap().is_valid());
    assert!(!ChunkType::from_text("ABcD").unwrap().is_valid());
}

#[test]
fn trait_constructors_agree_with_inherent_ones() {
    assert_eq!(<ChunkType as FromStr>::from_str("Ru1t"), Err(ChunkTypeError::InvalidByte(49)));
    assert_eq!(<ChunkType as TryFrom<[u8; 4]>>::try_from([82, 117, 49, 116]), Err(ChunkTypeError::InvalidByte(49)));
    assert_eq!(<ChunkType as FromStr>::from_str("\u{e9}ab"), Err(ChunkTypeError::InvalidByte(0xc3)));
    assert_eq!(<ChunkType as FromStr>::from_str("RuSt"), ChunkType::from_bytes([82, 117, 83, 116]));
}
