use pngme::chunk::Chunk;
use pngme::chunk_type::ChunkType;
use pngme::error::PngError;
use std::convert::TryFrom;

fn chunk_bytes(data_length: u32, chunk_type: &[u8], message_bytes: &[u8], crc: u32) -> Vec<u8> {
    data_length
        .to_be_bytes()
        .iter()
        .chain(chunk_type.iter())
        .chain(message_bytes.iter())
        .chain(crc.to_be_bytes().iter())
        .copied()
        .collect()
}

fn testing_chunk() -> Chunk {
    let chunk_data = chunk_bytes(
        42,
        "RuSt".as_bytes(),
        "This is where your secret message will be!".as_bytes(),
        2882656334,
    );
    Chunk::try_from(chunk_data.as_ref()).unwrap()
}

#[test]
fn test_new_chunk() {
    let chunk_type = ChunkType::from_str("RuSt").unwrap();
    let data = "This is where your secret message will be!"
        .as_bytes()
        .to_vec();
    let chunk = Chunk::new(chunk_type, data);
    assert_eq!(chunk.length(), 42);
    assert_eq!(chunk.crc(), 2882656334);
}

#[test]
fn test_chunk_length() {
    let chunk = testing_chunk();
    assert_eq!(chunk.length(), 42);
}

#[test]
fn test_chunk_type() {
    let chunk = testing_chunk();
    assert_eq!(chunk.chunk_type().to_string(), String::from("RuSt"));
}

#[test]
fn test_chunk_string() {
    let chunk = testing_chunk();
    let chunk_string = chunk.data_as_string().unwrap();
    let expected_chunk_string = String::from("This is where your secret message will be!");
    assert_eq!(chunk_string, expected_chunk_string);
}

#[test]
fn test_chunk_crc() {
    let chunk = testing_chunk();
    assert_eq!(chunk.crc(), 2882656334);
}

#[test]
fn test_valid_chunk_from_bytes() {
    let chunk_data = chunk_bytes(
        42,
        "RuSt".as_bytes(),
        "This is where your secret message will be!".as_bytes(),
        2882656334,
    );

    let chunk = Chunk::try_from(chunk_data.as_ref()).unwrap();

    let chunk_string = chunk.data_as_string().unwrap();
    let expected_chunk_string = String::from("This is where your secret message will be!");

    assert_eq!(chunk.length(), 42);
    assert_eq!(chunk.chunk_type().to_string(), String::from("RuSt"));
    assert_eq!(chunk_string, expected_chunk_string);
    assert_eq!(chunk.crc(), 2882656334);
}

#[test]
fn test_invalid_chunk_from_bytes() {
    let chunk_data = chunk_bytes(
        42,
        "RuSt".as_bytes(),
        "This is where your secret message will be!".as_bytes(),
        2882656333,
    );

    let chunk = Chunk::try_from(chunk_data.as_ref());

    assert!(chunk.is_err());
}

#[test]
pub fn test_chunk_trait_impls() {
    let chunk_data = chunk_bytes(
        42,
        "RuSt".as_bytes(),
        "This is where your secret message will be!".as_bytes(),
        2882656334,
    );

    let chunk: Chunk = TryFrom::try_from(chunk_data.as_ref()).unwrap();

    let _chunk_string = chunk.to_string();
}

#[test]
fn chunk_encodes_to_header_data_and_crc() {
    let chunk = testing_chunk();
    let expected = chunk_bytes(
        42,
        "RuSt".as_bytes(),
        "This is where your secret message will be!".as_bytes(),
        2882656334,
    );
    assert_eq!(chunk.as_bytes(), expected);
    assert_eq!(chunk.as_bytes().len(), 12 + 42);
}

#[test]
fn created_chunk_round_trips() {
    let t = ChunkType::from_str("teSt").unwrap();
    let chunk = Chunk::new(t, vec![0, 1, 2, 255, 128]);
    let back = Chunk::decode(&chunk.as_bytes()).unwrap();
    assert_eq!(back.length(), 5);
    assert_eq!(back.chunk_type(), &t);
    assert_eq!(back.data(), &[0, 1, 2, 255, 128]);
    assert_eq!(back.crc(), chunk.crc());
}

#[test]
fn empty_chunk_round_trips() {
    let t = ChunkType::from_str("IEND").unwrap();
    let chunk = Chunk::new(t, Vec::new());
    assert_eq!(chunk.length(), 0);
    // The standard checksum of an IEND chunk.
    assert_eq!(chunk.crc(), 0xAE42_6082);
    let back = Chunk::decode(&chunk.as_bytes()).unwrap();
    assert_eq!(back.data(), &[] as &[u8]);
}

#[test]
fn invalid_crc_is_reported() {
    let chunk_data = chunk_bytes(
        42,
        "RuSt".as_bytes(),
        "This is where your secret message will be!".as_bytes(),
        2882656333,
    );
    assert!(matches!(Chunk::decode(&chunk_data), Err(PngError::InvalidCrc)));
}

#[test]
fn any_other_stored_crc_fails() {
    for crc in [0u32, 1, 2882656335, u32::MAX, 2882656334 ^ 0x8000_0000] {
        let chunk_data = chunk_bytes(
            42,
            "RuSt".as_bytes(),
            "This is where your secret message will be!".as_bytes(),
            crc,
        );
        assert!(matches!(Chunk::decode(&chunk_data), Err(PngError::InvalidCrc)));
    }
}

#[test]
fn single_bit_flips_in_type_data_or_crc_fail() {
    let t = ChunkType::from_str("RuSt").unwrap();
    let chunk = Chunk::new(t, "This is where your secret message will be!".as_bytes().to_vec());
    let bytes = chunk.as_bytes();
    for index in 4..bytes.len() {
        for bit in 0..8 {
            let mut flipped = bytes.clone();
            flipped[index] ^= 1 << bit;
            assert!(matches!(Chunk::decode(&flipped), Err(PngError::InvalidCrc)));
        }
    }
}

#[test]
fn short_input_is_truncated() {
    assert!(matches!(Chunk::decode(&[]), Err(PngError::TruncatedInput)));
    assert!(matches!(Chunk::decode(&[0, 0, 0, 0, 82, 117, 83, 116, 1, 2, 3]), Err(PngError::TruncatedInput)));
    let mut bytes = testing_chunk().as_bytes();
    bytes.pop();
    assert!(matches!(Chunk::decode(&bytes), Err(PngError::TruncatedInput)));
}

#[test]
fn decode_at_reads_a_chunk_inside_a_buffer() {
    let mut buffer = vec![9u8, 9, 9];
    buffer.extend(testing_chunk().as_bytes());
    buffer.extend([1u8, 2, 3]);
    let chunk = Chunk::decode_at(&buffer, 3).unwrap();
    assert_eq!(chunk.length(), 42);
    assert_eq!(chunk.crc(), 2882656334);
}

#[test]
fn data_as_string_replaces_invalid_utf8() {
    let t = ChunkType::from_str("RuSt").unwrap();
    let chunk = Chunk::new(t, vec![104, 105, 0xFF]);
    assert_eq!(chunk.data_as_string().unwrap(), "hi\u{FFFD}");
}

#[test]
fn chunk_text_joins_length_type_data_and_crc() {
    let chunk = testing_chunk();
    assert_eq!(
        chunk.to_string(),
        "42RuStThis is where your secret message will be!2882656334"
    );
}
