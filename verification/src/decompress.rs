use vstd::prelude::*;
use vstd::bytes::{spec_u64_from_le_bytes, spec_u32_from_le_bytes};
use vstd::utf8::decode_utf8;
use crate::checksum::slice_range;
use crate::compress::{valid_chunk_size, validate_chunk_size};
use crate::error::{DecompressionError, MismallError};
use crate::headers::{Headers, HeaderError, after_name, header_error_text, header_len_of, header_parse_error,
    parsed_from, tree_of};
use crate::huffman::decoder::{DecodeError, DecodeInfo, decode, decode_error_text, decode_fields, decode_spec,
    password_bytes};

verus! {

/// What decompressing a file gave: its stored name, size and checksum, and
/// whether it was encrypted.
#[derive(Debug)]
pub struct DecompressionResult {
    pub original_filename: String,
    pub original_size: u64,
    pub checksum: u32,
    pub encrypted: bool,
}

impl DecompressionResult {
    /// A result with the given fields.
    pub fn new(original_filename: String, original_size: u64, checksum: u32, encrypted: bool) -> (r: DecompressionResult)
        ensures
            r.original_filename == original_filename,
            r.original_size == original_size,
            r.checksum == checksum,
            r.encrypted == encrypted,
    {
        DecompressionResult { original_filename, original_size, checksum, encrypted }
    }
}

/// Decompressing the bytes `s` of a `.small` file whose header reads without
/// error: the bytes written out and the error that stopped decoding if one did.
pub open spec fn decompress_spec(s: Seq<u8>, password: Option<Seq<u8>>, chunk: nat) -> (Seq<u8>, Option<DecodeError>) {
    let b = after_name(s);
    decode_fields(
        s.subrange(0, 4),
        s[4],
        s[5],
        spec_u64_from_le_bytes(s.subrange(6, 14)),
        spec_u64_from_le_bytes(s.subrange(b, b + 8)),
        s.subrange(b + 16, b + 32),
        s.subrange(b + 32, b + 44),
        s[b + 60],
        tree_of(s),
        s.skip(header_len_of(s) as int),
        password,
        chunk,
    )
}

/// The file name stored in the header at the front of `s`.
pub open spec fn stored_name(s: Seq<u8>) -> Seq<char> {
    decode_utf8(s.subrange(16, after_name(s)))
}

/// The original size stored in the header at the front of `s`.
pub open spec fn stored_size(s: Seq<u8>) -> u64 {
    spec_u64_from_le_bytes(s.subrange(6, 14))
}

/// The compressed size stored in the header at the front of `s`.
pub open spec fn stored_compressed_size(s: Seq<u8>) -> u64 {
    spec_u64_from_le_bytes(s.subrange(after_name(s), after_name(s) + 8))
}

/// The checksum stored in the header at the front of `s`.
pub open spec fn stored_checksum(s: Seq<u8>) -> u32 {
    spec_u32_from_le_bytes(s.subrange(after_name(s) + 61, after_name(s) + 65))
}

/// Decompresses the `.small` file in `reader`, appending the original data to
/// `writer`: checks the chunk size, reads the header, then decodes the
/// payload after it (decrypting with `password` when the file is encrypted).
/// Returns the stored name, checksum and size. An encrypted file decrypts
/// only with the chunk size it was encrypted with: the file does not record
/// it, so the caller must pass the same one.
pub fn decompress_stream(
    reader: &[u8],
    password: Option<&str>,
    writer: &mut Vec<u8>,
    chunk_size: usize,
) -> (r: Result<DecodeInfo, MismallError>)
    ensures
        !valid_chunk_size(chunk_size) ==> final(writer)@ == old(writer)@ && (r matches Err(
            MismallError::Compression { error: crate::error::CompressionError::InvalidChunkSize(c), context: None, suggestion: None },
        ) && c == chunk_size),
        valid_chunk_size(chunk_size) && header_parse_error(reader@) is Some ==> final(writer)@ == old(writer)@ && (
        r matches Err(
            MismallError::Decompression { error: DecompressionError::InvalidFormat(m), context: None, suggestion: None },
        ) && m@ == "Failed to read headers: "@ + header_error_text(header_parse_error(reader@)->0)),
        valid_chunk_size(chunk_size) && header_parse_error(reader@) is None ==> {
            let (out, e) = decompress_spec(reader@, password_bytes(password), chunk_size as nat);
            &&& final(writer)@ == old(writer)@ + out
            &&& match e {
                None => r matches Ok(info) && info.original_file_name@ == stored_name(reader@)
                    && info.checksum == stored_checksum(reader@) && info.original_size == stored_size(reader@),
                Some(d) => r matches Err(
                    MismallError::Decompression {
                        error: DecompressionError::CorruptedData(m),
                        context: None,
                        suggestion: None,
                    },
                ) && m@ == "Failed to decode: "@ + decode_error_text(d),
            }
        },
{
    validate_chunk_size(chunk_size)?;
    let (header, header_len) = match Headers::from_reader(reader) {
        Ok(parsed) => parsed,
        Err(e) => {
            let mut message = String::from_str("Failed to read headers: ");
            message.append(e.message().as_str());
            return Err(
                MismallError::Decompression {
                    error: DecompressionError::InvalidFormat(message),
                    context: None,
                    suggestion: None,
                },
            );
        },
    };
    let ghost s = reader@;
    let ghost h = header;
    let ghost pw = password_bytes(password);
    let body = slice_range(reader, header_len, reader.len());
    proof {
        assert(body@ =~= s.skip(header_len as int));
        assert(decode_spec(h, body@, pw, chunk_size as nat) == decompress_spec(s, pw, chunk_size as nat));
    }
    match decode(header, body, password, writer, chunk_size) {
        Ok(info) => Ok(info),
        Err(e) => {
            let mut message = String::from_str("Failed to decode: ");
            message.append(e.message().as_str());
            Err(
                MismallError::Decompression {
                    error: DecompressionError::CorruptedData(message),
                    context: None,
                    suggestion: None,
                },
            )
        },
    }
}

} // verus!
