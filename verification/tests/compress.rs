use mismall::compress::validate_chunk_size;
use mismall::decompress::{decompress_stream, DecompressionResult};
use mismall::error::{CompressionError, DecompressionError, MismallError};
use mismall::huffman::encoder::encode;

#[test]
fn test_validate_chunk_size() {
    assert!(validate_chunk_size(1024 * 1024).is_ok()); // 1MB
    assert!(validate_chunk_size(64 * 1024).is_ok()); // 64KB min
    assert!(validate_chunk_size(1024 * 1024 * 1024).is_ok()); // 1GB max

    assert!(validate_chunk_size(32 * 1024).is_err()); // Too small
    assert!(validate_chunk_size(2 * 1024 * 1024 * 1024).is_err()); // Too large
}

#[test]
fn test_decompression_result_creation() {
    let result = DecompressionResult::new("document.txt".to_string(), 1000, 0x12345678, false);

    assert_eq!(result.original_filename, "document.txt");
    assert_eq!(result.original_size, 1000);
    assert_eq!(result.checksum, 0x12345678);
    assert!(!result.encrypted);
}

#[test]
fn test_decompress_stream() {
    let reader = b"dummy_compressed_data";
    let mut writer = Vec::new();

    let result = decompress_stream(reader, None, &mut writer, 1024 * 1024);

    assert!(result.is_err());
}

#[test]
fn invalid_chunk_size_is_reported_with_its_value() {
    match validate_chunk_size(65535) {
        Err(MismallError::Compression { error: CompressionError::InvalidChunkSize(n), .. }) => assert_eq!(n, 65535),
        other => panic!("unexpected {:?}", other),
    }
    let mut out = Vec::new();
    match decompress_stream(b"", None, &mut out, 10) {
        Err(MismallError::Compression { error: CompressionError::InvalidChunkSize(10), .. }) => {}
        other => panic!("unexpected {:?}", other),
    }
}

#[test]
fn dummy_data_fails_while_reading_the_header() {
    let mut writer = Vec::new();
    match decompress_stream(b"dummy_compressed_data", None, &mut writer, 1024 * 1024) {
        Err(MismallError::Decompression { error: DecompressionError::InvalidFormat(m), .. }) => {
            assert_eq!(m, "Failed to read headers: failed to fill whole buffer")
        }
        other => panic!("unexpected {:?}", other),
    }
    assert!(writer.is_empty());
}

fn roundtrip(data: &[u8], name: &str, password: Option<&str>) {
    let mut compressed = Vec::new();
    let info = encode(data, name, password, &mut compressed, 1024 * 1024).unwrap();
    assert_eq!(info.original_size, data.len() as u64);
    let mut restored = Vec::new();
    let decoded = decompress_stream(&compressed, password, &mut restored, 1024 * 1024).unwrap();
    assert_eq!(restored, data);
    assert_eq!(decoded.original_file_name, name);
    assert_eq!(decoded.original_size, data.len() as u64);
    assert_eq!(decoded.checksum, mismall::checksum::adler32(data));
}

#[test]
fn roundtrip_text() {
    roundtrip(b"Hello, world! This is test data for compression.", "test.txt", None);
}

#[test]
fn roundtrip_empty_and_single_symbol() {
    roundtrip(b"", "empty.txt", None);
    roundtrip(b"aaaaaaaaaaaaaaaaaaaaaaaaaaaaaaaaaaaaaaaa", "a.txt", None);
    roundtrip(b"x", "x.txt", None);
}

#[test]
fn roundtrip_all_byte_values() {
    let data: Vec<u8> = (0..5000u32).map(|i| ((i * 7919) % 256) as u8).collect();
    roundtrip(&data, "bytes.bin", None);
}

#[test]
fn roundtrip_encrypted() {
    roundtrip(b"Secret data that needs encryption", "secret.txt", Some("password123"));
}

#[test]
fn compressible_data_shrinks_and_is_huffman_coded() {
    let data = vec![b'a'; 1000];
    let mut compressed = Vec::new();
    let info = encode(&data, "a.txt", None, &mut compressed, 1024 * 1024).unwrap();
    assert!(info.compressed_size < 1000);
    let (header, _) = mismall::headers::Headers::from_reader(&compressed).unwrap();
    assert!(!mismall::flags::is_stored_raw(header.flags));
    assert_eq!(header.compressed_size, 125);
    assert_eq!(header.padding_bits, 0);
}

#[test]
fn incompressible_data_is_stored_raw() {
    let data: Vec<u8> = (0..=255u8).collect();
    let mut compressed = Vec::new();
    let info = encode(&data, "raw.bin", None, &mut compressed, 1024 * 1024).unwrap();
    assert_eq!(info.compressed_size, 256);
    assert_eq!(info.padding_bits, 0);
    let (header, len) = mismall::headers::Headers::from_reader(&compressed).unwrap();
    assert!(mismall::flags::is_stored_raw(header.flags));
    assert_eq!(&compressed[len..], &data[..]);
}

#[test]
fn wrong_password_fails_to_decrypt() {
    let mut compressed = Vec::new();
    encode(b"top secret", "s.txt", Some("right"), &mut compressed, 1024 * 1024).unwrap();
    let mut out = Vec::new();
    match decompress_stream(&compressed, Some("wrong"), &mut out, 1024 * 1024) {
        Err(MismallError::Decompression { error: DecompressionError::CorruptedData(m), .. }) => {
            assert_eq!(m, "Failed to decode: Decryption error: aead::Error")
        }
        other => panic!("unexpected {:?}", other),
    }
    match decompress_stream(&compressed, None, &mut out, 1024 * 1024) {
        Err(MismallError::Decompression { error: DecompressionError::CorruptedData(m), .. }) => {
            assert_eq!(m, "Failed to decode: Error: File is encrypted, password required.")
        }
        other => panic!("unexpected {:?}", other),
    }
    assert!(out.is_empty());
}
