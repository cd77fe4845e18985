use mismall::crypto::{decrypt_stream, derive_key, encrypt_stream, generate_random_bytes, CryptoError};
use mismall::headers::{write_header, HeaderError, Headers};
use mismall::huffman::decoder::{decode, DecodeError};
use mismall::huffman::encoder::{encode, encode_with};
use mismall::huffman::tree::{build_huffman_tree, Node};
use mismall::huffman::compute_frequencies;
use mismall::{MAGIC_BYTES, VERSION};

#[test]
fn header_round_trips() {
    let mut h = write_header(1234, 0xDEAD_BEEF, "näme.txt");
    h.flags = 5;
    h.compressed_size = 77;
    h.payload_actual_size = 66;
    h.salt = [3u8; 16];
    h.iv = [4u8; 12];
    h.tag = [5u8; 16];
    h.padding_bits = 6;
    h.tree = build_huffman_tree(&compute_frequencies(b"aab")).unwrap();
    let mut bytes = h.clone().to_bytes();
    let header_len = bytes.len();
    bytes.extend_from_slice(b"payload");
    let (back, n) = Headers::from_reader(&bytes).unwrap();
    assert_eq!(n, header_len);
    assert_eq!(back.magic_bytes, MAGIC_BYTES);
    assert_eq!(back.version, VERSION);
    assert_eq!(back.flags, 5);
    assert_eq!(back.original_size, 1234);
    assert_eq!(back.original_file_name, "näme.txt");
    assert_eq!(back.compressed_size, 77);
    assert_eq!(back.payload_actual_size, 66);
    assert_eq!(back.salt, [3u8; 16]);
    assert_eq!(back.iv, [4u8; 12]);
    assert_eq!(back.tag, [5u8; 16]);
    assert_eq!(back.padding_bits, 6);
    assert_eq!(back.checksum, 0xDEAD_BEEF);
    assert_eq!(back.tree.weight, 0);
}

#[test]
fn new_header_is_empty() {
    let h = Headers::new();
    assert_eq!(h.magic_bytes, *b"SMAL");
    assert_eq!(h.version, 1);
    assert_eq!(h.original_file_name, "");
    assert_eq!(h.to_bytes().len(), 83);
}

#[test]
fn header_errors() {
    assert_eq!(Headers::from_reader(b"SMAL").unwrap_err(), HeaderError::UnexpectedEof);
    let mut h = write_header(0, 0, "ab");
    h.tree = Node { weight: 0, symbol: None, left: None, right: None };
    let mut bytes = h.to_bytes();
    bytes[16] = 0xFF;
    assert_eq!(Headers::from_reader(&bytes).unwrap_err(), HeaderError::InvalidFileName);
    let mut bytes = write_header(0, 0, "ab").to_bytes();
    let n = bytes.len();
    bytes[n - 2] = 1;
    bytes.push(7);
    assert_eq!(Headers::from_reader(&bytes).unwrap_err(), HeaderError::InvalidTree);
    assert_eq!(HeaderError::InvalidTree.message(), "Invalid or corrupted tree data");
}

#[test]
fn derived_keys_depend_on_password_and_salt() {
    let k1 = derive_key(b"password", b"saltsaltsaltsalt");
    let k2 = derive_key(b"password", b"saltsaltsaltsalt");
    let k3 = derive_key(b"password", b"SALTsaltsaltsalt");
    let k4 = derive_key(b"passw0rd", b"saltsaltsaltsalt");
    assert_eq!(k1, k2);
    assert_ne!(k1, k3);
    assert_ne!(k1, k4);
    assert_ne!(k1, [0u8; 32]);
}

#[test]
fn random_bytes_differ() {
    let a: [u8; 16] = generate_random_bytes().unwrap();
    let b: [u8; 16] = generate_random_bytes().unwrap();
    assert_ne!(a, b);
}

#[test]
fn chunked_encryption_round_trips_and_authenticates() {
    let key = [7u8; 32];
    let iv = [1u8, 2, 3, 4, 0xFF, 0xFF, 0xFF, 0xFF, 0xFF, 0xFF, 0xFF, 0xFF];
    let data: Vec<u8> = (0..1000u32).map(|i| (i % 256) as u8).collect();
    let mut sealed = Vec::new();
    let written = encrypt_stream(&data, &mut sealed, &key, &iv, &[], 300).unwrap();
    assert_eq!(written, 1000 + 4 * 16);
    assert_eq!(sealed.len(), written);
    assert_ne!(&sealed[..300], &data[..300]);
    let mut plain = Vec::new();
    assert_eq!(decrypt_stream(&sealed, &mut plain, &key, &iv, &[], 300), Ok(1000));
    assert_eq!(plain, data);
    let mut tampered = sealed.clone();
    tampered[400] ^= 1;
    let mut plain = Vec::new();
    assert_eq!(decrypt_stream(&tampered, &mut plain, &key, &iv, &[], 300), Err(CryptoError::DecryptionFailed));
    assert_eq!(plain, data[..300].to_vec());
    let mut plain = Vec::new();
    assert_eq!(decrypt_stream(&sealed[..sealed.len() - 110], &mut plain, &key, &iv, &[], 300), Err(CryptoError::Truncated));
    let mut plain = Vec::new();
    assert_eq!(decrypt_stream(&sealed, &mut plain, &[8u8; 32], &iv, &[], 300), Err(CryptoError::DecryptionFailed));
    let mut nothing = Vec::new();
    assert_eq!(encrypt_stream(&data, &mut nothing, &key, &iv, &[], 0), Ok(0));
    assert!(nothing.is_empty());
}

#[test]
fn same_salt_and_nonce_give_the_same_file_and_fresh_ones_differ() {
    let mut a = Vec::new();
    let mut b = Vec::new();
    encode_with(b"data", "d", Some("pw"), [1; 16], [2; 12], &mut a, 1024).unwrap();
    encode_with(b"data", "d", Some("pw"), [1; 16], [2; 12], &mut b, 1024).unwrap();
    assert_eq!(a, b);
    let mut c = Vec::new();
    let mut d = Vec::new();
    encode(b"data", "d", Some("pw"), &mut c, 1024).unwrap();
    encode(b"data", "d", Some("pw"), &mut d, 1024).unwrap();
    assert_ne!(c, d);
}

#[test]
fn decode_checks_magic_version_and_password() {
    let mut file = Vec::new();
    encode(b"hello hello", "h.txt", None, &mut file, 65536).unwrap();
    let (header, n) = Headers::from_reader(&file).unwrap();
    let mut bad = header.clone();
    bad.magic_bytes = *b"NOPE";
    let mut out = Vec::new();
    assert_eq!(decode(bad, &file[n..], None, &mut out, 65536).unwrap_err(), DecodeError::NotSmallFile);
    let mut bad = header.clone();
    bad.version = 2;
    assert_eq!(decode(bad, &file[n..], None, &mut out, 65536).unwrap_err(), DecodeError::IncorrectVersion);
    let mut bad = header.clone();
    bad.flags |= 1;
    assert_eq!(decode(bad, &file[n..], None, &mut out, 65536).unwrap_err(), DecodeError::PasswordRequired);
    let mut bad = header.clone();
    bad.flags |= 1;
    assert_eq!(decode(bad, &[], Some("x"), &mut out, 65536).unwrap_err(), DecodeError::TruncatedPayload);
    assert!(out.is_empty());
    let info = decode(header, &file[n..], None, &mut out, 65536).unwrap();
    assert_eq!(out, b"hello hello".to_vec());
    assert_eq!(info.original_file_name, "h.txt");
    assert_eq!(DecodeError::IncorrectVersion.message(), "Error: Incorrect version");
}
