use png_info::{Chunk, ChunkType, ChunkTypeError, Error};
use std::str::FromStr;

fn testing_chunk() -> Chunk {
    let data_length: u32 = 42;
    let chunk_type = "RuSt".as_bytes();
    let message_bytes = "This is where your secret message will be!".as_bytes();
    let crc: u32 = 2882656334;

    let chunk_data: Vec<u8> = data_length
        .to_be_bytes()
        .iter()
        .chain(chunk_type.iter())
        .chain(message_bytes.iter())
        .chain(crc.to_be_bytes().iter())
        .copied()
        .collect();

    Chunk::decode(chunk_data.as_ref()).unwrap()
}

fn frame(length: u32, chunk_type: &[u8], data: &[u8], crc: u32) -> Vec<u8> {
    length
        .to_be_bytes()
        .iter()
        .chain(chunk_type.iter())
        .chain(data.iter())
        .chain(crc.to_be_bytes().iter())
        .copied()
        .collect()
}

#[test]
fn test_new_chunk() {
    let chunk_type = ChunkType::from_str("RuSt").unwrap();
    let data = "This is where your secret message will be!"
        .as_bytes()
        .to_vec();
    let chunk = Chunk::new(chunk_type, data);
    assert_eq!(chunk.length(), 42);
    assert_eq!(chunk.crc(), 2882656334);
}

#[test]
fn test_chunk_length() {
    let chunk = testing_chunk();
    assert_eq!(chunk.length(), 42);
}

#[test]
fn test_chunk_type() {
    let chunk = testing_chunk();
    assert_eq!(chunk.chunk_type().to_string(), String::from("RuSt"));
}

#[test]
fn test_chunk_string() {
    let chunk = testing_chunk();
    let chunk_string = chunk.data_as_string().unwrap();
    let expected_chunk_string = String::from("This is where your secret message will be!");
    assert_eq!(chunk_string, expected_chunk_string);
}

#[test]
fn test_chunk_crc() {
    let chunk = testing_chunk();
    assert_eq!(chunk.crc(), 2882656334);
}

#[test]
fn test_valid_chunk_from_bytes() {
    let data_length: u32 = 42;
    let chunk_type = "RuSt".as_bytes();
    let message_bytes = "This is where your secret message will be!".as_bytes();
    let crc: u32 = 2882656334;

    let chunk_data: Vec<u8> = data_length
        .to_be_bytes()
        .iter()
        .chain(chunk_type.iter())
        .chain(message_bytes.iter())
        .chain(crc.to_be_bytes().iter())
        .copied()
        .collect();

    let chunk = Chunk::decode(chunk_data.as_ref()).unwrap();

    let chunk_string = chunk.data_as_string().unwrap();
    let expected_chunk_string = String::from("This is where your secret message will be!");

    assert_eq!(chunk.length(), 42);
    assert_eq!(chunk.chunk_type().to_string(), String::from("RuSt"));
    assert_eq!(chunk_string, expected_chunk_string);
    assert_eq!(chunk.crc(), 2882656334);
}

#[test]
fn test_invalid_chunk_from_bytes() {
    let data_length: u32 = 42;
    let chunk_type = "RuSt".as_bytes();
    let message_bytes = "This is where your secret message will be!".as_bytes();
    let crc: u32 = 2882656333;

    let chunk_data: Vec<u8> = data_length
        .to_be_bytes()
        .iter()
        .chain(chunk_type.iter())
        .chain(message_bytes.iter())
        .chain(crc.to_be_bytes().iter())
        .copied()
        .collect();

    let chunk = Chunk::decode(chunk_data.as_ref());

    assert!(chunk.is_err());
}

#[test]
pub fn test_chunk_trait_impls() {
    let data_length: u32 = 42;
    let chunk_type = "RuSt".as_bytes();
    let message_bytes = "This is where your secret message will be!".as_bytes();
    let crc: u32 = 2882656334;

    let chunk_data: Vec<u8> = data_length
        .to_be_bytes()
        .iter()
        .chain(chunk_type.iter())
        .chain(message_bytes.iter())
        .chain(crc.to_be_bytes().iter())
        .copied()
        .collect();

    let chunk: Chunk = Chunk::decode(chunk_data.as_ref()).unwrap();

    let _chunk_string = format!("{:?}", chunk);
}

#[test]
fn wrong_checksum_is_a_mismatch() {
    let bytes = frame(42, b"RuSt", b"This is where your secret message will be!", 2882656333);
    assert_eq!(Chunk::decode(&bytes).unwrap_err(), Error::ChecksumMismatch);
}

#[test]
fn encoded_chunk_has_the_documented_layout() {
    let chunk = Chunk::new(
        ChunkType::from_text("RuSt").unwrap(),
        b"This is where your secret message will be!".to_vec(),
    );
    let bytes = chunk.as_bytes();
    assert_eq!(&bytes[0..4], &[0, 0, 0, 0x2a]);
    assert_eq!(&bytes[4..8], b"RuSt");
    assert_eq!(&bytes[bytes.len() - 4..], &2882656334u32.to_be_bytes());
    assert_eq!(bytes.len(), 54);
}

#[test]
fn decode_of_encode_gives_the_chunk_back() {
    for (t, data) in [("RuSt", &b""[..]), ("IEND", &b""[..]), ("tEXt", &b"\x00\x01\xff hello"[..])] {
        let chunk = Chunk::new(ChunkType::from_text(t).unwrap(), data.to_vec());
        let again = Chunk::decode(&chunk.as_bytes()).unwrap();
        assert_eq!(again.chunk_type(), chunk.chunk_type());
        assert_eq!(again.data(), data);
        assert_eq!(again.crc(), chunk.crc());
        assert_eq!(again.as_bytes(), chunk.as_bytes());
    }
}

#[test]
fn empty_iend_chunk_has_the_known_checksum() {
    let chunk = Chunk::new(ChunkType::from_text("IEND").unwrap(), Vec::new());
    assert_eq!(chunk.crc(), 0xAE42_6082);
    assert_eq!(chunk.as_bytes(), vec![0, 0, 0, 0, 73, 69, 78, 68, 0xAE, 0x42, 0x60, 0x82]);
}

#[test]
fn flipping_any_checksum_bit_is_detected() {
    let chunk = Chunk::new(ChunkType::from_text("RuSt").unwrap(), b"payload".to_vec());
    let bytes = chunk.as_bytes();
    let n = bytes.len();
    for i in 0..4 {
        for k in 0..8 {
            let mut tampered = bytes.clone();
            tampered[n - 4 + i] ^= 1u8 << k;
            assert_eq!(Chunk::decode(&tampered).unwrap_err(), Error::ChecksumMismatch);
        }
    }
}

#[test]
fn length_field_disagreeing_with_size_is_malformed() {
    let good = frame(3, b"RuSt", b"abc", 0);
    let short = &good[..good.len() - 1];
    assert_eq!(Chunk::decode(short).unwrap_err(), Error::MalformedLength);
    let mut longer = good.clone();
    longer.push(0);
    assert_eq!(Chunk::decode(&longer).unwrap_err(), Error::MalformedLength);
    assert_eq!(Chunk::decode(&[0, 0, 0]).unwrap_err(), Error::MalformedLength);
    assert_eq!(Chunk::decode(&[]).unwrap_err(), Error::MalformedLength);
}

#[test]
fn bad_type_byte_in_chunk_is_reported() {
    let bytes = frame(0, b"Ru1t", b"", 0);
    assert_eq!(
        Chunk::decode(&bytes).unwrap_err(),
        Error::InvalidType(ChunkTypeError::InvalidByte(b'1'))
    );
}

#[test]
fn decode_with_given_checksum() {
    let bytes = frame(2, b"abCd", b"hi", 7);
    let chunk = Chunk::decode_with_checksum(&bytes, 7).unwrap();
    assert_eq!(chunk.crc(), 7);
    assert_eq!(chunk.data(), b"hi");
    assert_eq!(Chunk::decode_with_checksum(&bytes, 8).unwrap_err(), Error::ChecksumMismatch);
}

#[test]
fn non_utf8_payload_is_refused_as_text() {
    let chunk = Chunk::new(ChunkType::from_text("RuSt").unwrap(), vec![0xff, 0xfe]);
    assert_eq!(chunk.data_as_string().unwrap_err(), Error::InvalidUtf8);
    let chunk = Chunk::new(ChunkType::from_text("RuSt").unwrap(), "h\u{e9}llo".as_bytes().to_vec());
    assert_eq!(chunk.data_as_string().unwrap(), "h\u{e9}llo");
}
