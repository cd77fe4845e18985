use vstd::prelude::*;
use vstd::slice::slice_to_vec;
use super::tree::Node;
use super::codec::{Corruption, decode_huffman, decode_symbols};
use crate::checksum::slice_range;
use crate::constants::{MAGIC_BYTES, VERSION};
use crate::crypto::{CryptoError, PBKDF2_ROUNDS, PIECE_MAX, decrypt_stream, derive_key, open_chunks, pbkdf2_sha256_key};
use crate::flags::{is_encrypted, is_stored_raw};
use crate::headers::{Headers, utf8_bytes};
use crate::io::bytes_bits;
use crate::constants::{ENCRYPTED, STORED_RAW};

verus! {

/// What a decoded file was: its stored name, checksum and size.
#[derive(Debug)]
pub struct DecodeInfo {
    pub original_file_name: String,
    pub checksum: u32,
    pub original_size: u64,
}

/// Why a payload could not be decoded.
#[derive(Debug, PartialEq, Eq, Structural)]
pub enum DecodeError {
    /// The header does not start with the magic bytes.
    NotSmallFile,
    /// The header has another format version.
    IncorrectVersion,
    /// The payload is encrypted and no password was given.
    PasswordRequired,
    /// The input ends before the encrypted payload does.
    TruncatedPayload,
    /// The encrypted payload could not be decrypted.
    Decryption(CryptoError),
    /// The compressed size and padding give no valid bit count.
    InvalidSizes,
    /// The Huffman payload is corrupted.
    Corrupted(Corruption),
}

/// The text of each decoding error.
pub open spec fn decode_error_text(e: DecodeError) -> Seq<char> {
    match e {
        DecodeError::NotSmallFile => "Error: Not a valid .small file"@,
        DecodeError::IncorrectVersion => "Error: Incorrect version"@,
        DecodeError::PasswordRequired => "Error: File is encrypted, password required."@,
        DecodeError::TruncatedPayload => "failed to fill whole buffer"@,
        DecodeError::Decryption(CryptoError::Truncated) => "Truncated data: encrypted chunk too short to contain a tag"@,
        DecodeError::Decryption(_) => "Decryption error: aead::Error"@,
        DecodeError::InvalidSizes => "Corrupted: Invalid compressed size or padding"@,
        DecodeError::Corrupted(Corruption::PastPadding) => "Corrupted: Unexpected end of compressed data (read past padding)"@,
        DecodeError::Corrupted(Corruption::EndOfData) => "Corrupted: Unexpected end of file (BitReader returned None)"@,
        DecodeError::Corrupted(Corruption::MissingLeft) => "Corrupted: Missing left node"@,
        DecodeError::Corrupted(Corruption::MissingRight) => "Corrupted: Missing right node"@,
    }
}

impl DecodeError {
    /// The text of the error.
    pub fn message(&self) -> (s: String)
        ensures
            s@ == decode_error_text(*self),
    {
        match self {
            DecodeError::NotSmallFile => String::from_str("Error: Not a valid .small file"),
            DecodeError::IncorrectVersion => String::from_str("Error: Incorrect version"),
            DecodeError::PasswordRequired => String::from_str("Error: File is encrypted, password required."),
            DecodeError::TruncatedPayload => String::from_str("failed to fill whole buffer"),
            DecodeError::Decryption(CryptoError::Truncated) => String::from_str(
                "Truncated data: encrypted chunk too short to contain a tag",
            ),
            DecodeError::Decryption(_) => String::from_str("Decryption error: aead::Error"),
            DecodeError::InvalidSizes => String::from_str("Corrupted: Invalid compressed size or padding"),
            DecodeError::Corrupted(Corruption::PastPadding) => String::from_str(
                "Corrupted: Unexpected end of compressed data (read past padding)",
            ),
            DecodeError::Corrupted(Corruption::EndOfData) => String::from_str(
                "Corrupted: Unexpected end of file (BitReader returned None)",
            ),
            DecodeError::Corrupted(Corruption::MissingLeft) => String::from_str("Corrupted: Missing left node"),
            DecodeError::Corrupted(Corruption::MissingRight) => String::from_str("Corrupted: Missing right node"),
        }
    }
}

/// The UTF-8 bytes of an optional password.
pub open spec fn password_bytes(password: Option<&str>) -> Option<Seq<u8>> {
    match password {
        Some(p) => Some(utf8_bytes(p@)),
        None => None,
    }
}

/// The payload of a file whose fields after the header are `body`: the first
/// `compressed_size` bytes, decrypted when the file is encrypted.
pub open spec fn payload_of(
    flags: u8,
    compressed_size: u64,
    salt: Seq<u8>,
    iv: Seq<u8>,
    body: Seq<u8>,
    password: Option<Seq<u8>>,
    chunk: nat,
) -> Result<Seq<u8>, DecodeError> {
    if flags & ENCRYPTED != 0 {
        match password {
            None => Err(DecodeError::PasswordRequired),
            Some(pw) => if body.len() < compressed_size {
                Err(DecodeError::TruncatedPayload)
            } else {
                let key = pbkdf2_sha256_key(pw, salt, PBKDF2_ROUNDS);
                let (plain, e) = open_chunks(key, iv, Seq::empty(), body.take(compressed_size as int), chunk, 0);
                match e {
                    None => Ok(plain),
                    Some(c) => Err(DecodeError::Decryption(c)),
                }
            },
        }
    } else if body.len() < compressed_size {
        Ok(body)
    } else {
        Ok(body.take(compressed_size as int))
    }
}

/// Decoding a file from its header fields and the bytes after its header:
/// the bytes written out, and the error that stopped decoding if one did.
pub open spec fn decode_fields(
    magic: Seq<u8>,
    version: u8,
    flags: u8,
    original_size: u64,
    compressed_size: u64,
    salt: Seq<u8>,
    iv: Seq<u8>,
    padding_bits: u8,
    tree: Node,
    body: Seq<u8>,
    password: Option<Seq<u8>>,
    chunk: nat,
) -> (Seq<u8>, Option<DecodeError>) {
    if magic != MAGIC_BYTES@ {
        (Seq::empty(), Some(DecodeError::NotSmallFile))
    } else if version != VERSION {
        (Seq::empty(), Some(DecodeError::IncorrectVersion))
    } else {
        match payload_of(flags, compressed_size, salt, iv, body, password, chunk) {
            Err(e) => (Seq::empty(), Some(e)),
            Ok(payload) => if flags & STORED_RAW != 0 {
                if payload.len() < original_size {
                    (payload, None)
                } else {
                    (payload.take(original_size as int), None)
                }
            } else if compressed_size * 8 > u64::MAX || compressed_size * 8 < padding_bits {
                (Seq::empty(), Some(DecodeError::InvalidSizes))
            } else {
                let (out, e) = decode_symbols(
                    tree,
                    bytes_bits(payload),
                    0,
                    (compressed_size * 8 - padding_bits) as nat,
                    original_size as nat,
                );
                match e {
                    None => (out, None),
                    Some(c) => (out, Some(DecodeError::Corrupted(c))),
                }
            },
        }
    }
}

/// Decoding with a parsed header.
pub open spec fn decode_spec(h: Headers, body: Seq<u8>, password: Option<Seq<u8>>, chunk: nat) -> (Seq<u8>, Option<DecodeError>) {
    decode_fields(
        h.magic_bytes@,
        h.version,
        h.flags,
        h.original_size,
        h.compressed_size,
        h.salt@,
        h.iv@,
        h.padding_bits,
        h.tree,
        body,
        password,
        chunk,
    )
}

/// Decodes the file described by `header` whose bytes after the header are
/// `reader`, appending the original data to `writer`: checks magic and
/// version, takes `compressed_size` bytes of payload, decrypts them with a key
/// derived from the password when the file is encrypted, then copies a stored
/// payload or decodes a Huffman one. On a corrupted Huffman payload the bytes
/// decoded before the fault stay written. An encrypted payload decrypts only
/// with the chunk size it was encrypted with, which the file does not record.
pub fn decode(
    header: Headers,
    reader: &[u8],
    decrypt_password: Option<&str>,
    writer: &mut Vec<u8>,
    chunk_size: usize,
) -> (r: Result<DecodeInfo, DecodeError>)
    requires
        chunk_size <= PIECE_MAX,
    ensures
        final(writer)@ == old(writer)@ + decode_spec(header, reader@, password_bytes(decrypt_password), chunk_size as nat).0,
        match decode_spec(header, reader@, password_bytes(decrypt_password), chunk_size as nat).1 {
            None => r matches Ok(info) && info.original_file_name@ == header.original_file_name@
                && info.checksum == header.checksum && info.original_size == header.original_size,
            Some(e) => r == Err::<DecodeInfo, DecodeError>(e),
        },
{
    let ghost pw = password_bytes(decrypt_password);
    if header.magic_bytes[0] != MAGIC_BYTES[0] || header.magic_bytes[1] != MAGIC_BYTES[1]
        || header.magic_bytes[2] != MAGIC_BYTES[2] || header.magic_bytes[3] != MAGIC_BYTES[3] {
        assert(header.magic_bytes@ != MAGIC_BYTES@) by {
            if header.magic_bytes@ == MAGIC_BYTES@ {
                assert(header.magic_bytes@[0] == MAGIC_BYTES@[0]);
                assert(header.magic_bytes@[1] == MAGIC_BYTES@[1]);
                assert(header.magic_bytes@[2] == MAGIC_BYTES@[2]);
                assert(header.magic_bytes@[3] == MAGIC_BYTES@[3]);
            }
        }
        assert(old(writer)@ + Seq::<u8>::empty() =~= old(writer)@);
        return Err(DecodeError::NotSmallFile);
    }
    assert(header.magic_bytes@ =~= MAGIC_BYTES@);
    if header.version != VERSION {
        assert(old(writer)@ + Seq::<u8>::empty() =~= old(writer)@);
        return Err(DecodeError::IncorrectVersion);
    }
    let compressed = header.compressed_size;
    let avail: usize = if (reader.len() as u64) < compressed { reader.len() } else { compressed as usize };
    let payload: Vec<u8> = if is_encrypted(header.flags) {
        let password = match decrypt_password {
            Some(p) => p,
            None => {
                assert(old(writer)@ + Seq::<u8>::empty() =~= old(writer)@);
                return Err(DecodeError::PasswordRequired);
            },
        };
        if (reader.len() as u64) < compressed {
            assert(old(writer)@ + Seq::<u8>::empty() =~= old(writer)@);
            return Err(DecodeError::TruncatedPayload);
        }
        let encrypted = slice_range(reader, 0, avail);
        let key = derive_key(password.as_bytes(), &header.salt);
        let aad: Vec<u8> = Vec::new();
        let mut plain: Vec<u8> = Vec::new();
        proof {
            assert(encrypted@ =~= reader@.take(compressed as int));
        }
        match decrypt_stream(encrypted, &mut plain, &key, &header.iv, aad.as_slice(), chunk_size) {
            Ok(_) => {},
            Err(e) => {
                assert(old(writer)@ + Seq::<u8>::empty() =~= old(writer)@);
                return Err(DecodeError::Decryption(e));
            },
        }
        assert(plain@ =~= Seq::<u8>::empty() + plain@);
        plain
    } else {
        let v = slice_to_vec(slice_range(reader, 0, avail));
        assert(reader@.len() < compressed ==> v@ =~= reader@);
        assert(reader@.len() >= compressed ==> v@ =~= reader@.take(compressed as int));
        v
    };
    assert(payload_of(header.flags, compressed, header.salt@, header.iv@, reader@, pw, chunk_size as nat) == Ok::<
        Seq<u8>,
        DecodeError,
    >(payload@));
    if is_stored_raw(header.flags) {
        let n: usize = if (payload.len() as u64) < header.original_size {
            payload.len()
        } else {
            header.original_size as usize
        };
        let mut i: usize = 0;
        while i < n
            invariant
                0 <= i <= n <= payload.len(),
                writer@ == old(writer)@ + payload@.take(i as int),
            decreases n - i,
        {
            writer.push(payload[i]);
            i = i + 1;
            assert(writer@ =~= old(writer)@ + payload@.take(i as int));
        }
        assert(payload@.len() < header.original_size ==> payload@.take(i as int) =~= payload@);
    } else {
        if compressed > 2305843009213693951u64 || compressed * 8 < header.padding_bits as u64 {
            assert(old(writer)@ + Seq::<u8>::empty() =~= old(writer)@);
            return Err(DecodeError::InvalidSizes);
        }
        let total_data_bits = compressed * 8 - header.padding_bits as u64;
        match decode_huffman(&header.tree, payload, total_data_bits, header.original_size, writer) {
            Ok(()) => {},
            Err(c) => {
                return Err(DecodeError::Corrupted(c));
            },
        }
    }
    Ok(
        DecodeInfo {
            original_file_name: header.original_file_name,
            checksum: header.checksum,
            original_size: header.original_size,
        },
    )
}

} // verus!
