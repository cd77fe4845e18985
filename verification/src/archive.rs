use vstd::prelude::*;
use vstd::string::StringSliceAdditionalSpecFns;
use vstd::utf8::encode_utf8_decode_utf8;
use vstd::bytes::spec_u64_from_le_bytes;
use crate::checksum::slice_range;
use crate::constants::{ENCRYPTED, IS_ARCHIVE, MAGIC_BYTES, VERSION};
use crate::crypto::{DEFAULT_CHUNK_SIZE, PIECE_MAX};
use crate::decompress::{decompress_spec, stored_compressed_size, stored_name};
use crate::error::{ArchiveError, DecompressionError, MismallError};
use crate::error::context::Suggestion;
use crate::flags::{flip_encrypted, flip_is_archive};
use crate::headers::{HeaderError, Headers, after_name, header_bytes, header_error_text, header_len_of,
    header_parse_error, parsed_from};
use crate::huffman::decoder::{decode, decode_error_text, decode_spec, password_bytes};
use crate::huffman::encoder::{EncodeError, encode, encoded_layout, stored_payload_size, roundtrip_premise, stored_flags, stored_padding,
    stored_payload};
use crate::headers::tree_of;
use self::builder::files_size;
use crate::decompress::{stored_checksum, stored_size};
use crate::huffman::decoder::DecodeError;
use crate::io::write_all;

pub mod builder;

verus! {

/// Whether the header marks an archive.
pub fn is_archive(headers: &Headers) -> (r: bool)
    ensures
        r == (headers.flags & crate::constants::IS_ARCHIVE != 0),
{
    crate::flags::is_archive(headers.flags)
}

/// Whether the header marks an encrypted payload.
pub fn is_encrypted(headers: &Headers) -> (r: bool)
    ensures
        r == (headers.flags & crate::constants::ENCRYPTED != 0),
{
    crate::flags::is_encrypted(headers.flags)
}

/// Whether two texts are equal, compared byte by byte.
pub fn same_text(a: &str, b: &str) -> (r: bool)
    ensures
        r == (a@ == b@),
{
    let x = a.as_bytes();
    let y = b.as_bytes();
    proof {
        encode_utf8_decode_utf8(a@);
        encode_utf8_decode_utf8(b@);
    }
    if x.len() != y.len() {
        return false;
    }
    let mut i: usize = 0;
    while i < x.len()
        invariant
            x@ == a.spec_bytes(),
            y@ == b.spec_bytes(),
            x.len() == y.len(),
            0 <= i <= x.len(),
            forall|k: int| 0 <= k < i ==> x@[k] == y@[k],
        decreases x.len() - i,
    {
        if x[i] != y[i] {
            return false;
        }
        i = i + 1;
    }
    assert(x@ =~= y@);
    true
}

/// Checks what is known of an archive path: it must exist, be a file that
/// can be read, and have the extension `small` if it has one. `path` is the
/// path as shown in messages; `exists`, `is_file`, `readable` and
/// `extension` describe it.
pub fn validate_archive_path(
    path: &str,
    exists: bool,
    is_file: bool,
    readable: bool,
    extension: Option<&str>,
) -> (r: Result<(), MismallError>)
    ensures
        !exists ==> (r matches Err(MismallError::InvalidInput { message: m, context: None, suggestion: None })
            && m@ == "Archive file does not exist: "@ + path@),
        exists && !is_file ==> (r matches Err(MismallError::InvalidInput { message: m, context: None, suggestion: None })
            && m@ == "Path is not a file: "@ + path@),
        exists && is_file && !readable ==> (r matches Err(
            MismallError::InvalidInput { message: m, context: None, suggestion: None },
        ) && m@ == "Archive file cannot be read: "@ + path@),
        exists && is_file && readable && (extension matches Some(e) && e@ != "small"@) ==> (r matches Err(
            MismallError::InvalidInput { message: m, context: None, suggestion: Some(s) },
        ) && m@ == "Invalid archive extension: \""@ + extension->0@ + "\". Expected '.small'"@
            && s.action@ == "Use .small extension"@ && s.reason@ == "Archive files must have a .small extension"@
            && s.code is None && s.documentation_url is None),
        exists && is_file && readable && !(extension matches Some(e) && e@ != "small"@) ==> r is Ok,
{
    if !exists {
        let mut message = String::from_str("Archive file does not exist: ");
        message.append(path);
        return Err(MismallError::InvalidInput { message, context: None, suggestion: None });
    }
    if !is_file {
        let mut message = String::from_str("Path is not a file: ");
        message.append(path);
        return Err(MismallError::InvalidInput { message, context: None, suggestion: None });
    }
    if !readable {
        let mut message = String::from_str("Archive file cannot be read: ");
        message.append(path);
        return Err(MismallError::InvalidInput { message, context: None, suggestion: None });
    }
    if let Some(ext) = extension {
        if !same_text(ext, "small") {
            let mut message = String::from_str("Invalid archive extension: \"");
            message.append(ext);
            message.append("\". Expected '.small'");
            return Err(
                MismallError::InvalidInput {
                    message,
                    context: None,
                    suggestion: Some(
                        Suggestion::new("Use .small extension", "Archive files must have a .small extension"),
                    ),
                },
            );
        }
    }
    Ok(())
}

/// The compressed size stored in the header at the front of `s`.
pub open spec fn compressed_size_of(s: Seq<u8>) -> nat {
    stored_compressed_size(s) as nat
}

/// Where the embedded files of an archive start: from `pos`, each embedded
/// file is a header followed by its payload; the walk stops at `end`, at the
/// end of the bytes, or at the first header that does not read.
pub open spec fn entry_starts(s: Seq<u8>, pos: nat, end: nat) -> Seq<nat>
    decreases (if pos < end { end - pos } else { 0 }),
{
    if pos >= end || pos >= s.len() || header_parse_error(s.skip(pos as int)) is Some {
        Seq::empty()
    } else {
        let t = s.skip(pos as int);
        seq![pos] + entry_starts(s, pos + header_len_of(t) + compressed_size_of(t), end)
    }
}

/// The embedded files of the archive `s`: where their headers start.
pub open spec fn archive_entries(s: Seq<u8>) -> Seq<nat> {
    entry_starts(s, header_len_of(s), header_len_of(s) + compressed_size_of(s))
}

/// The error for an archive whose master header does not read, or that is
/// not an archive; `None` for a readable archive.
pub open spec fn master_header_fault(s: Seq<u8>) -> Option<Seq<char>> {
    match header_parse_error(s) {
        Some(e) => Some("Failed to parse master header: "@ + header_error_text(e)),
        None => if s[5] & IS_ARCHIVE == 0 {
            Some("Input file is not an archive"@)
        } else {
            None
        },
    }
}

/// Reads the master header of the archive in `reader` and the header of every
/// embedded file, with the offset where each embedded payload starts.
pub fn read_archive_entries(reader: &[u8]) -> (r: Result<Vec<(Headers, usize)>, MismallError>)
    ensures
        master_header_fault(reader@) matches Some(m) ==> (r matches Err(
            MismallError::Decompression { error: DecompressionError::InvalidFormat(x), context: None, suggestion: None },
        ) && x@ == m),
        master_header_fault(reader@) is None ==> (r matches Ok(entries) && entries.len()
            == archive_entries(reader@).len() && forall|k: int|
            0 <= k < entries.len() ==> {
                let p = #[trigger] archive_entries(reader@)[k];
                &&& p < reader@.len()
                &&& header_parse_error(reader@.skip(p as int)) is None
                &&& parsed_from(reader@.skip(p as int), entries@[k].0)
                &&& entries@[k].1 == p + header_len_of(reader@.skip(p as int))
            }),
{
    let ghost s = reader@;
    let (master, master_len) = match Headers::from_reader(reader) {
        Ok(parsed) => parsed,
        Err(e) => {
            let mut message = String::from_str("Failed to parse master header: ");
            message.append(e.message().as_str());
            return Err(
                MismallError::Decompression {
                    error: DecompressionError::InvalidFormat(message),
                    context: None,
                    suggestion: None,
                },
            );
        },
    };
    if !crate::flags::is_archive(master.flags) {
        return Err(
            MismallError::Decompression {
                error: DecompressionError::InvalidFormat(String::from_str("Input file is not an archive")),
                context: None,
                suggestion: None,
            },
        );
    }
    let end: u128 = master_len as u128 + master.compressed_size as u128;
    let ghost end_n = end as nat;
    proof {
        assert(end_n == header_len_of(s) + compressed_size_of(s));
    }
    let mut entries: Vec<(Headers, usize)> = Vec::new();
    let ghost mut visited: Seq<nat> = Seq::empty();
    let mut pos: usize = master_len;
    let ghost all = entry_starts(s, header_len_of(s), end_n);
    proof {
        assert(all == visited + entry_starts(s, pos as nat, end_n));
    }
    loop
        invariant_except_break
            s == reader@,
            end_n == end as nat,
            all == entry_starts(s, header_len_of(s), end_n),
            all == visited + entry_starts(s, pos as nat, end_n),
            entries.len() == visited.len(),
            forall|k: int|
                0 <= k < entries.len() ==> {
                    let p = #[trigger] visited[k];
                    &&& p < s.len()
                    &&& header_parse_error(s.skip(p as int)) is None
                    &&& parsed_from(s.skip(p as int), entries@[k].0)
                    &&& entries@[k].1 == p + header_len_of(s.skip(p as int))
                },
        ensures
            all == visited,
            entries.len() == visited.len(),
            forall|k: int|
                0 <= k < entries.len() ==> {
                    let p = #[trigger] visited[k];
                    &&& p < s.len()
                    &&& header_parse_error(s.skip(p as int)) is None
                    &&& parsed_from(s.skip(p as int), entries@[k].0)
                    &&& entries@[k].1 == p + header_len_of(s.skip(p as int))
                },
        decreases reader.len() - pos,
    {
        if pos as u128 >= end || pos >= reader.len() {
            proof {
                assert(visited + Seq::<nat>::empty() =~= visited);
            }
            break;
        }
        let rest = slice_range(reader, pos, reader.len());
        assert(rest@ =~= s.skip(pos as int));
        let (header, header_len) = match Headers::from_reader(rest) {
            Ok(parsed) => parsed,
            Err(_) => {
                proof {
                    assert(visited + Seq::<nat>::empty() =~= visited);
                }
                break;
            },
        };
        let ghost t = s.skip(pos as int);
        proof {
            assert(header.compressed_size == compressed_size_of(t));
            assert(header_len_of(t) >= 83);
        }
        let payload_start = pos + header_len;
        let next: u128 = payload_start as u128 + header.compressed_size as u128;
        proof {
            let old_visited = visited;
            assert(entry_starts(s, pos as nat, end_n) == seq![pos as nat] + entry_starts(s, next as nat, end_n));
            visited = visited.push(pos as nat);
            assert(all == visited + entry_starts(s, next as nat, end_n)) by {
                assert(old_visited + (seq![pos as nat] + entry_starts(s, next as nat, end_n)) =~= old_visited.push(
                    pos as nat,
                ) + entry_starts(s, next as nat, end_n));
            }
        }
        entries.push((header, payload_start));
        if next >= reader.len() as u128 {
            proof {
                assert(entry_starts(s, next as nat, end_n) =~= Seq::<nat>::empty());
                assert(visited + Seq::<nat>::empty() =~= visited);
            }
            break;
        }
        pos = next as usize;
    }
    Ok(entries)
}

/// The first embedded file, from index `i` on, whose stored name is `name`.
pub open spec fn first_named(s: Seq<u8>, starts: Seq<nat>, name: Seq<char>, i: nat) -> Option<int>
    decreases starts.len() - i,
{
    if i >= starts.len() {
        None
    } else if stored_name(s.skip(starts[i as int] as int)) == name {
        Some(i as int)
    } else {
        first_named(s, starts, name, i + 1)
    }
}

/// `first_named` finds the first start, from the `i`-th on, of an embedded
/// file whose stored name is exactly `name`, and `None` only when no such
/// file is there.
pub proof fn lemma_first_named(s: Seq<u8>, starts: Seq<nat>, name: Seq<char>, i: nat)
    ensures
        first_named(s, starts, name, i) matches Some(k) ==> {
            &&& i <= k < starts.len()
            &&& stored_name(s.skip(starts[k] as int)) == name
            &&& forall|j: int| i <= j < k ==> stored_name(s.skip(#[trigger] starts[j] as int)) != name
        },
        first_named(s, starts, name, i) is None ==> forall|j: int|
            i <= j < starts.len() ==> stored_name(s.skip(#[trigger] starts[j] as int)) != name,
    decreases starts.len() - i,
{
    if i < starts.len() {
        lemma_first_named(s, starts, name, i + 1);
    }
}

/// Extracts the first embedded file named `file_path` from the archive in
/// `reader`, appending its original data to `writer`. An encrypted file is
/// decrypted with the default chunk size, the one it must have been written
/// with.
pub fn extract_file(reader: &[u8], file_path: &str, password: Option<&str>, writer: &mut Vec<u8>) -> (r: Result<(), MismallError>)
    ensures
        master_header_fault(reader@) matches Some(m) ==> final(writer)@ == old(writer)@ && (r matches Err(
            MismallError::Decompression { error: DecompressionError::InvalidFormat(x), context: None, suggestion: None },
        ) && x@ == m),
        master_header_fault(reader@) is None ==> match first_named(reader@, archive_entries(reader@), file_path@, 0) {
            None => final(writer)@ == old(writer)@ && (r matches Err(
                MismallError::Archive { error: ArchiveError::FileNotFound(x), context: None, suggestion: None },
            ) && x@ == file_path@),
            Some(k) => {
                let (out, e) = decompress_spec(
                    reader@.skip(archive_entries(reader@)[k] as int),
                    password_bytes(password),
                    DEFAULT_CHUNK_SIZE as nat,
                );
                &&& final(writer)@ == old(writer)@ + out
                &&& match e {
                    None => r is Ok,
                    Some(d) => r matches Err(
                        MismallError::Decompression {
                            error: DecompressionError::DecompressionFailed(x),
                            context: None,
                            suggestion: None,
                        },
                    ) && x@ == decode_error_text(d),
                }
            },
        },
        master_header_fault(reader@) is None && (forall|k: int|
            0 <= k < archive_entries(reader@).len() ==> stored_name(reader@.skip(#[trigger] archive_entries(reader@)[k] as int))
                != file_path@) ==> final(writer)@ == old(writer)@ && (r matches Err(
            MismallError::Archive { error: ArchiveError::FileNotFound(x), context: None, suggestion: None },
        ) && x@ == file_path@),
        r is Ok ==> master_header_fault(reader@) is None && exists|k: int|
            {
                &&& 0 <= k < archive_entries(reader@).len()
                &&& stored_name(reader@.skip(#[trigger] archive_entries(reader@)[k] as int)) == file_path@
                &&& forall|j: int| 0 <= j < k ==> stored_name(reader@.skip(#[trigger] archive_entries(reader@)[j] as int))
                    != file_path@
                &&& final(writer)@ == old(writer)@ + decompress_spec(
                    reader@.skip(archive_entries(reader@)[k] as int),
                    password_bytes(password),
                    DEFAULT_CHUNK_SIZE as nat,
                ).0
            },
{
    let ghost s = reader@;
    let mut entries = read_archive_entries(reader)?;
    let ghost starts = archive_entries(s);
    let ghost entries0 = entries@;
    let mut i: usize = 0;
    while i < entries.len()
        invariant
            entries@ == entries0,
            master_header_fault(s) is None,
            writer@ == old(writer)@,
            entries0.len() == starts.len(),
            starts == archive_entries(s),
            s == reader@,
            0 <= i <= entries.len(),
            forall|k: int|
                0 <= k < entries0.len() ==> {
                    let p = #[trigger] starts[k];
                    &&& p < s.len()
                    &&& header_parse_error(s.skip(p as int)) is None
                    &&& parsed_from(s.skip(p as int), entries0[k].0)
                    &&& entries0[k].1 == p + header_len_of(s.skip(p as int))
                },
            first_named(s, starts, file_path@, 0) == first_named(s, starts, file_path@, i as nat),
        decreases entries.len() - i,
    {
        if same_text(entries[i].0.original_file_name.as_str(), file_path) {
            let (header, payload_start) = entries.remove(i);
            let ghost p = starts[i as int];
            let ghost t = s.skip(p as int);
            let body = slice_range(reader, payload_start, reader.len());
            proof {
                assert(entries0[i as int].0 == header);
                assert(t.len() >= header_len_of(t));
                assert(body@ =~= t.skip(header_len_of(t) as int));
                assert(decode_spec(header, body@, password_bytes(password), DEFAULT_CHUNK_SIZE as nat)
                    == decompress_spec(t, password_bytes(password), DEFAULT_CHUNK_SIZE as nat));
                lemma_first_named(s, starts, file_path@, 0);
                assert(first_named(s, starts, file_path@, i as nat) == Some(i as int));
                assert(stored_name(s.skip(starts[i as int] as int)) == file_path@);
            }
            match decode(header, body, password, writer, DEFAULT_CHUNK_SIZE) {
                Ok(_) => {
                    return Ok(());
                },
                Err(e) => {
                    return Err(
                        MismallError::Decompression {
                            error: DecompressionError::DecompressionFailed(e.message()),
                            context: None,
                            suggestion: None,
                        },
                    );
                },
            }
        }
        i = i + 1;
    }
    Err(
        MismallError::Archive {
            error: ArchiveError::FileNotFound(file_path.to_owned()),
            context: None,
            suggestion: None,
        },
    )
}

/// `first_failure` finds the first embedded file, from the `i`-th on, that
/// does not decompress, and `None` only when every one of them does.
pub proof fn lemma_first_failure(s: Seq<u8>, starts: Seq<nat>, password: Option<Seq<u8>>, chunk: nat, i: nat)
    ensures
        first_failure(s, starts, password, chunk, i) matches Some(k) ==> {
            &&& i <= k < starts.len()
            &&& decompress_spec(s.skip(starts[k] as int), password, chunk).1 is Some
            &&& forall|j: int| i <= j < k ==> (#[trigger] decompress_spec(s.skip(starts[j] as int), password, chunk)).1 is None
        },
        first_failure(s, starts, password, chunk, i) is None ==> forall|j: int|
            i <= j < starts.len() ==> (#[trigger] decompress_spec(s.skip(starts[j] as int), password, chunk)).1 is None,
    decreases starts.len() - i,
{
    if i < starts.len() {
        lemma_first_failure(s, starts, password, chunk, i + 1);
    }
}

/// The original sizes of the headers in `e`, summed.
pub open spec fn entries_original_size(e: Seq<(Headers, usize)>) -> int
    decreases e.len(),
{
    if e.len() == 0 {
        0
    } else {
        entries_original_size(e.drop_last()) + e.last().0.original_size
    }
}

/// The compressed sizes of the headers in `e`, summed.
pub open spec fn entries_compressed_size(e: Seq<(Headers, usize)>) -> int
    decreases e.len(),
{
    if e.len() == 0 {
        0
    } else {
        entries_compressed_size(e.drop_last()) + e.last().0.compressed_size
    }
}

/// The totals of the embedded files listed in `entries` (as
/// [`read_archive_entries`] gives them): their number, their original sizes
/// and their compressed sizes summed (modulo 2^64), and whether any of them is
/// encrypted.
pub fn archive_totals(entries: &[(Headers, usize)]) -> (r: (usize, u64, u64, bool))
    ensures
        r.0 == entries.len(),
        r.1 == entries_original_size(entries@) % 0x1_0000_0000_0000_0000,
        r.2 == entries_compressed_size(entries@) % 0x1_0000_0000_0000_0000,
        r.3 == exists|k: int| 0 <= k < entries.len() && (#[trigger] entries@[k]).0.flags & ENCRYPTED != 0,
{
    let mut original: u64 = 0;
    let mut compressed: u64 = 0;
    let mut encrypted = false;
    let mut i: usize = 0;
    while i < entries.len()
        invariant
            0 <= i <= entries.len(),
            original == entries_original_size(entries@.take(i as int)) % 0x1_0000_0000_0000_0000,
            compressed == entries_compressed_size(entries@.take(i as int)) % 0x1_0000_0000_0000_0000,
            encrypted == exists|k: int| 0 <= k < i && (#[trigger] entries@[k]).0.flags & ENCRYPTED != 0,
        decreases entries.len() - i,
    {
        let ghost t = entries@.take(i as int);
        proof {
            assert(entries@.take(i + 1).drop_last() =~= t);
            assert(entries@.take(i + 1).last() == entries@[i as int]);
            vstd::arithmetic::div_mod::lemma_add_mod_noop(
                entries_original_size(t),
                entries@[i as int].0.original_size as int,
                0x1_0000_0000_0000_0000,
            );
            vstd::arithmetic::div_mod::lemma_add_mod_noop(
                entries_compressed_size(t),
                entries@[i as int].0.compressed_size as int,
                0x1_0000_0000_0000_0000,
            );
            vstd::arithmetic::div_mod::lemma_small_mod(entries@[i as int].0.original_size as nat, 0x1_0000_0000_0000_0000);
            vstd::arithmetic::div_mod::lemma_small_mod(entries@[i as int].0.compressed_size as nat, 0x1_0000_0000_0000_0000);
        }
        original = original.wrapping_add(entries[i].0.original_size);
        compressed = compressed.wrapping_add(entries[i].0.compressed_size);
        if entries[i].0.flags & ENCRYPTED != 0 {
            encrypted = true;
        }
        i = i + 1;
    }
    proof {
        assert(entries@.take(i as int) =~= entries@);
    }
    (i, original, compressed, encrypted)
}

/// The first embedded file, from the `i`-th on, that does not decompress.
pub open spec fn first_failure(s: Seq<u8>, starts: Seq<nat>, password: Option<Seq<u8>>, chunk: nat, i: nat) -> Option<int>
    decreases starts.len() - i,
{
    if i >= starts.len() {
        None
    } else if decompress_spec(s.skip(starts[i as int] as int), password, chunk).1 is Some {
        Some(i as int)
    } else {
        first_failure(s, starts, password, chunk, i + 1)
    }
}

/// Decompresses every embedded file of the archive in `reader`: the name and
/// original data of each, in order. Fails at the first file that does not
/// decompress. An encrypted file decrypts only with the chunk size it was
/// encrypted with; the file does not record it.
pub fn extract_all(reader: &[u8], password: Option<&str>, chunk_size: usize) -> (r: Result<Vec<(String, Vec<u8>)>, MismallError>)
    requires
        chunk_size <= PIECE_MAX,
    ensures
        master_header_fault(reader@) matches Some(m) ==> (r matches Err(
            MismallError::Decompression { error: DecompressionError::InvalidFormat(x), context: None, suggestion: None },
        ) && x@ == m),
        master_header_fault(reader@) is None ==> match first_failure(
            reader@,
            archive_entries(reader@),
            password_bytes(password),
            chunk_size as nat,
            0,
        ) {
            None => r matches Ok(files) && files.len() == archive_entries(reader@).len() && forall|k: int|
                0 <= k < files.len() ==> {
                    let t = reader@.skip(#[trigger] archive_entries(reader@)[k] as int);
                    &&& files@[k].0@ == stored_name(t)
                    &&& files@[k].1@ == decompress_spec(t, password_bytes(password), chunk_size as nat).0
                },
            Some(k) => r matches Err(
                MismallError::Decompression {
                    error: DecompressionError::DecompressionFailed(x),
                    context: None,
                    suggestion: None,
                },
            ) && x@ == decode_error_text(
                decompress_spec(
                    reader@.skip(archive_entries(reader@)[k] as int),
                    password_bytes(password),
                    chunk_size as nat,
                ).1->0,
            ),
        },
        r is Ok ==> master_header_fault(reader@) is None && forall|k: int|
            0 <= k < archive_entries(reader@).len() ==> (#[trigger] decompress_spec(
                reader@.skip(archive_entries(reader@)[k] as int),
                password_bytes(password),
                chunk_size as nat,
            )).1 is None,
        master_header_fault(reader@) is None && (exists|k: int|
            0 <= k < archive_entries(reader@).len() && (#[trigger] decompress_spec(
                reader@.skip(archive_entries(reader@)[k] as int),
                password_bytes(password),
                chunk_size as nat,
            )).1 is Some) ==> exists|k: int|
            {
                &&& 0 <= k < archive_entries(reader@).len()
                &&& forall|j: int| 0 <= j < k ==> (#[trigger] decompress_spec(
                    reader@.skip(archive_entries(reader@)[j] as int),
                    password_bytes(password),
                    chunk_size as nat,
                )).1 is None
                &&& decompress_spec(reader@.skip(#[trigger] archive_entries(reader@)[k] as int), password_bytes(password), chunk_size as nat).1
                    matches Some(d)
                &&& r matches Err(
                    MismallError::Decompression {
                        error: DecompressionError::DecompressionFailed(x),
                        context: None,
                        suggestion: None,
                    },
                ) && x@ == decode_error_text(d)
            },
{
    let ghost s = reader@;
    let ghost pw = password_bytes(password);
    let mut entries = read_archive_entries(reader)?;
    let ghost starts = archive_entries(s);
    let ghost entries0 = entries@;
    let n = entries.len();
    let mut files: Vec<(String, Vec<u8>)> = Vec::new();
    let mut i: usize = 0;
    while i < n
        invariant
            n == entries0.len(),
            entries@ == entries0.skip(i as int),
            master_header_fault(s) is None,
            entries0.len() == starts.len(),
            starts == archive_entries(s),
            s == reader@,
            pw == password_bytes(password),
            0 <= i <= n,
            files.len() == i,
            forall|k: int|
                0 <= k < entries0.len() ==> {
                    let p = #[trigger] starts[k];
                    &&& p < s.len()
                    &&& header_parse_error(s.skip(p as int)) is None
                    &&& parsed_from(s.skip(p as int), entries0[k].0)
                    &&& entries0[k].1 == p + header_len_of(s.skip(p as int))
                },
            first_failure(s, starts, pw, chunk_size as nat, 0) == first_failure(s, starts, pw, chunk_size as nat, i as nat),
            chunk_size <= PIECE_MAX,
            forall|k: int|
                0 <= k < i ==> {
                    let t = s.skip(#[trigger] starts[k] as int);
                    &&& files@[k].0@ == stored_name(t)
                    &&& files@[k].1@ == decompress_spec(t, pw, chunk_size as nat).0
                },
        decreases n - i,
    {
        let ghost old_entries = entries@;
        let (header, payload_start) = entries.remove(0);
        proof {
            assert(old_entries[0] == entries0[i as int]);
            assert(entries@ =~= entries0.skip(i + 1));
        }
        let ghost p = starts[i as int];
        let ghost t = s.skip(p as int);
        let body = slice_range(reader, payload_start, reader.len());
        let name = header.original_file_name.clone();
        proof {
            assert(t.len() >= header_len_of(t));
            assert(body@ =~= t.skip(header_len_of(t) as int));
            assert(decode_spec(header, body@, pw, chunk_size as nat)
                == decompress_spec(t, pw, chunk_size as nat));
        }
        let mut content: Vec<u8> = Vec::new();
        match decode(header, body, password, &mut content, chunk_size) {
            Ok(_) => {},
            Err(e) => {
                proof {
                    lemma_first_failure(s, starts, pw, chunk_size as nat, 0);
                    assert(first_failure(s, starts, pw, chunk_size as nat, i as nat) == Some(i as int));
                }
                return Err(
                    MismallError::Decompression {
                        error: DecompressionError::DecompressionFailed(e.message()),
                        context: None,
                        suggestion: None,
                    },
                );
            },
        }
        proof {
            assert(content@ =~= decompress_spec(t, pw, chunk_size as nat).0);
        }
        files.push((name, content));
        i = i + 1;
    }
    proof {
        lemma_first_failure(s, starts, pw, chunk_size as nat, 0);
    }
    Ok(files)
}

/// A complete `.small` file: its header reads and its payload runs exactly to
/// its end.
pub open spec fn complete_file(e: Seq<u8>) -> bool {
    &&& header_parse_error(e) is None
    &&& e.len() == header_len_of(e) + compressed_size_of(e)
}

/// Bytes after a complete file change nothing of how it reads: its header,
/// its name and what it decompresses to stay the same.
pub proof fn lemma_complete_file_prefix(e: Seq<u8>, r: Seq<u8>, password: Option<Seq<u8>>, chunk: nat)
    requires
        complete_file(e),
    ensures
        header_parse_error(e + r) is None,
        header_len_of(e + r) == header_len_of(e),
        compressed_size_of(e + r) == compressed_size_of(e),
        stored_name(e + r) == stored_name(e),
        (e + r)[5] == e[5],
        decompress_spec(e + r, password, chunk) == decompress_spec(e, password, chunk),
        tree_of(e + r) == tree_of(e),
        stored_padding(e + r) == stored_padding(e),
        stored_payload(e + r) == stored_payload(e),
        stored_payload_size(e + r) == stored_payload_size(e),
        stored_size(e + r) == stored_size(e),
{
    let s = e + r;
    let hl = header_len_of(e);
    assert forall|a: int, b: int| 0 <= a <= b <= hl implies #[trigger] s.subrange(a, b) == e.subrange(a, b) by {
        assert(s.subrange(a, b) =~= e.subrange(a, b));
    }
    assert(s.subrange(14, 16) == e.subrange(14, 16));
    let b = after_name(e);
    assert(after_name(s) == b);
    assert(s.subrange(b + 65, b + 67) == e.subrange(b + 65, b + 67));
    assert(header_len_of(s) == hl);
    assert(s.subrange(16, b) == e.subrange(16, b));
    assert(s.subrange(b, b + 8) == e.subrange(b, b + 8));
    assert(tree_bytes_of_eq(s, e));
    assert(s.skip(hl as int).take(compressed_size_of(e) as int) =~= e.skip(hl as int));
    assert(e.skip(hl as int).take(compressed_size_of(e) as int) =~= e.skip(hl as int));
    assert(s.subrange(0, 4) == e.subrange(0, 4));
    assert(s.subrange(6, 14) == e.subrange(6, 14));
    assert(s.subrange(b + 16, b + 32) == e.subrange(b + 16, b + 32));
    assert(s.subrange(b + 32, b + 44) == e.subrange(b + 32, b + 44));
    assert(s[4] == e[4] && s[5] == e[5] && s[b + 60] == e[b + 60]);
    assert(stored_payload(s) =~= stored_payload(e));
    assert(s.subrange(b + 8, b + 16) == e.subrange(b + 8, b + 16));
}

/// Decoding a complete file after reading its header, whatever bytes follow
/// it, gives what decompressing the file gives: `decode` reads no further
/// than the payload its header announces. With the round trip of `encode`,
/// decoding what `encode` wrote gives the data back.
pub proof fn lemma_decode_after_header(e: Seq<u8>, rest: Seq<u8>, h: Headers, password: Option<Seq<u8>>, chunk: nat)
    requires
        complete_file(e),
        parsed_from(e + rest, h),
    ensures
        decode_spec(h, (e + rest).skip(header_len_of(e) as int), password, chunk) == decompress_spec(e, password, chunk),
{
    lemma_complete_file_prefix(e, rest, password, chunk);
    let s = e + rest;
    assert(s.len() >= header_len_of(s));
    assert(decode_spec(h, s.skip(header_len_of(s) as int), password, chunk) == decompress_spec(s, password, chunk));
}

/// The stored tree bytes of two headers agree.
pub open spec fn tree_bytes_of_eq(s: Seq<u8>, e: Seq<u8>) -> bool {
    crate::headers::tree_bytes_of(s) == crate::headers::tree_bytes_of(e)
}

/// The bytes of a list of byte strings, one after the other.
pub open spec fn concat(parts: Seq<Seq<u8>>) -> Seq<u8>
    decreases parts.len(),
{
    if parts.len() == 0 {
        Seq::empty()
    } else {
        parts[0] + concat(parts.skip(1))
    }
}

/// Where each part starts when the parts are laid out from `pos` on.
pub open spec fn part_starts(parts: Seq<Seq<u8>>, pos: nat) -> Seq<nat>
    decreases parts.len(),
{
    if parts.len() == 0 {
        Seq::empty()
    } else {
        seq![pos] + part_starts(parts.skip(1), pos + parts[0].len())
    }
}

/// There is one start per part.
pub proof fn lemma_part_starts_len(parts: Seq<Seq<u8>>, pos: nat)
    ensures
        part_starts(parts, pos).len() == parts.len(),
    decreases parts.len(),
{
    if parts.len() > 0 {
        lemma_part_starts_len(parts.skip(1), pos + parts[0].len());
    }
}

/// Walking complete files laid out one after the other finds each of them.
pub proof fn lemma_walk_complete_files(s: Seq<u8>, parts: Seq<Seq<u8>>, pos: nat)
    requires
        forall|k: int| 0 <= k < parts.len() ==> complete_file(#[trigger] parts[k]),
        pos + concat(parts).len() == s.len(),
        s.skip(pos as int) == concat(parts),
    ensures
        entry_starts(s, pos, s.len()) == part_starts(parts, pos),
        forall|k: int| 0 <= k < parts.len() ==> #[trigger] part_starts(parts, pos)[k] + parts[k].len() <= s.len()
            && s.subrange(part_starts(parts, pos)[k] as int, part_starts(parts, pos)[k] + parts[k].len() as int) == parts[k],
    decreases parts.len(),
{
    if parts.len() == 0 {
        assert(s.len() == pos);
    } else {
        let e = parts[0];
        let rest = concat(parts.skip(1));
        assert(complete_file(e));
        lemma_complete_file_prefix(e, rest, None, 0);
        assert(s.skip(pos as int) == e + rest);
        let next = pos + e.len();
        assert(s.skip(next as int) =~= rest) by {
            assert(s.skip(next as int) =~= (e + rest).skip(e.len() as int));
        }
        assert forall|k: int| 0 <= k < parts.skip(1).len() implies complete_file(#[trigger] parts.skip(1)[k]) by {
            assert(parts.skip(1)[k] == parts[k + 1]);
        }
        lemma_walk_complete_files(s, parts.skip(1), next);
        lemma_part_starts_len(parts.skip(1), next);
        assert(header_len_of(e) > 0);
        assert(pos < s.len());
        assert forall|k: int| 0 <= k < parts.len() implies #[trigger] part_starts(parts, pos)[k] + parts[k].len() <= s.len()
            && s.subrange(part_starts(parts, pos)[k] as int, part_starts(parts, pos)[k] + parts[k].len() as int) == parts[k] by {
            if k == 0 {
                assert(s.subrange(pos as int, pos + e.len() as int) =~= (e + rest).subrange(0, e.len() as int));
            } else {
                assert(part_starts(parts, pos)[k] == part_starts(parts.skip(1), next)[k - 1]);
                assert(parts[k] == parts.skip(1)[k - 1]);
            }
        }
    }
}

/// Adding a part at the end adds its bytes at the end.
pub proof fn lemma_concat_push(parts: Seq<Seq<u8>>, x: Seq<u8>)
    ensures
        concat(parts.push(x)) == concat(parts) + x,
    decreases parts.len(),
{
    if parts.len() == 0 {
        assert(parts.push(x).skip(1) =~= Seq::<Seq<u8>>::empty());
        assert(parts.push(x)[0] == x);
        assert(concat(parts.push(x).skip(1)) == Seq::<u8>::empty());
        assert(x + Seq::<u8>::empty() =~= x);
        assert(concat(parts.push(x)) =~= x);
    } else {
        assert(parts.push(x).skip(1) =~= parts.skip(1).push(x));
        lemma_concat_push(parts.skip(1), x);
        assert(concat(parts.push(x)) =~= concat(parts) + x);
    }
}

/// An archive laid out by [`create_archive`] reads back: its master header,
/// one embedded file per part, each with its name and content.
#[verifier::spinoff_prover]
proof fn lemma_archive_reads_back(
    h: Headers,
    body: Seq<u8>,
    parts: Seq<Seq<u8>>,
    files: Seq<(String, Vec<u8>)>,
    encrypt_password: Option<&str>,
    chunk_size: usize,
)
    requires
        crate::headers::utf8_bytes(h.original_file_name@).len() <= 65535,
        h.tree == crate::huffman::tree::Node::empty_node(),
        h.flags & IS_ARCHIVE != 0,
        h.compressed_size == body.len(),
        body == concat(parts),
        parts.len() == files.len(),
        forall|k: int|
            0 <= k < parts.len() ==> {
                &&& complete_file(#[trigger] parts[k])
                &&& stored_name(parts[k]) == files[k].0@
                &&& decompress_spec(parts[k], password_bytes(encrypt_password), chunk_size as nat) == (
                    files[k].1@,
                    Option::<DecodeError>::None,
                )
                &&& encoded_layout(parts[k], files[k].1@, encrypt_password is Some, stored_padding(parts[k]))
            },
    ensures
        ({
            let out = header_bytes(h) + body;
            &&& master_header_fault(out) is None
            &&& stored_name(out) == h.original_file_name@
            &&& stored_flags(out) == h.flags
            &&& stored_size(out) == h.original_size
            &&& out.len() == header_len_of(out) + compressed_size_of(out)
            &&& (h.magic_bytes == MAGIC_BYTES && h.version == VERSION && h.payload_actual_size == 0
                && h.salt@ == Seq::new(16, |i: int| 0u8) && h.iv@ == Seq::new(12, |i: int| 0u8)
                && h.tag@ == Seq::new(16, |i: int| 0u8) && h.padding_bits == 0 && h.checksum == 0)
                ==> plain_master_fields(out)
            &&& archive_entries(out).len() == files.len()
            &&& forall|k: int|
                0 <= k < files.len() ==> {
                    let e = out.skip(#[trigger] archive_entries(out)[k] as int);
                    &&& stored_name(e) == files[k].0@
                    &&& decompress_spec(e, password_bytes(encrypt_password), chunk_size as nat) == (
                        files[k].1@,
                        Option::<DecodeError>::None,
                    )
                    &&& encoded_layout(e, files[k].1@, encrypt_password is Some, stored_padding(e))
                }
        }),
{
    let out = header_bytes(h) + body;
    crate::huffman::tree::lemma_serialize_roundtrip_empty();
    assert(crate::headers::storable(h));
    crate::headers::lemma_header_roundtrip(h, body);
    assert(compressed_size_of(out) == body.len());
    lemma_archive_lists_parts(out, parts, password_bytes(encrypt_password), chunk_size as nat);
    assert forall|k: int| 0 <= k < files.len() implies {
        let e = out.skip(#[trigger] archive_entries(out)[k] as int);
        encoded_layout(e, files[k].1@, encrypt_password is Some, stored_padding(e))
    } by {
        let e = out.skip(archive_entries(out)[k] as int);
        let pad = stored_padding(parts[k]);
        assert(encoded_layout(parts[k], files[k].1@, encrypt_password is Some, pad));
        assert(encoded_layout(e, files[k].1@, encrypt_password is Some, pad));
        assert(stored_padding(e) == pad);
    }
}

/// Writes an archive of `files` (name and content of each) named
/// `archive_name` to `writer`: a master header marking an archive (and
/// encryption when a password is given) whose payload is the encoded files
/// one after the other. Each file is encoded as [`encode`] does, encrypted in
/// pieces of `chunk_size` bytes when a password is given. Every embedded file of the written archive reads back
/// with its name and decompresses to its content. It fails only when a file
/// holds 2^45 bytes or more, too many for its codes to fit 64 bits, or when
/// the random source gives no salt or nonce for an encrypted file.
#[verifier::spinoff_prover]
#[verifier::rlimit(30)]
pub fn create_archive(
    files: &[(String, Vec<u8>)],
    archive_name: &str,
    encrypt_password: Option<&str>,
    writer: &mut Vec<u8>,
    chunk_size: usize,
) -> (r: Result<(), EncodeError>)
    requires
        encrypt_password is Some ==> chunk_size <= PIECE_MAX,
    ensures
        r is Err ==> final(writer)@ == old(writer)@,
        r matches Err(e) ==> (e == EncodeError::CodeTooLong && exists|k: int| 0 <= k < files.len() && (#[trigger] files[k]).1@.len() >= 0x2000_0000_0000)
            || (e == EncodeError::RandomSourceFailed && encrypt_password is Some),
        r is Ok ==> {
            let out = final(writer)@.skip(old(writer)@.len() as int);
            &&& final(writer)@ == old(writer)@ + out
            &&& (crate::headers::utf8_bytes(archive_name@).len() <= 65535 && forall|k: int|
                0 <= k < files.len() ==> roundtrip_premise(
                    (#[trigger] files[k]).1@.len(),
                    files[k].0@,
                    encrypt_password is Some,
                    chunk_size,
                )) ==> {
                &&& master_header_fault(out) is None
                &&& stored_name(out) == archive_name@
                &&& stored_flags(out) == (if encrypt_password is Some { IS_ARCHIVE | ENCRYPTED } else { IS_ARCHIVE })
                &&& plain_master_fields(out)
                &&& files_size(files@) <= u64::MAX ==> stored_size(out) == files_size(files@)
                &&& out.len() == header_len_of(out) + compressed_size_of(out)
                &&& archive_entries(out).len() == files.len()
                &&& forall|k: int|
                    0 <= k < files.len() ==> {
                        let e = out.skip(#[trigger] archive_entries(out)[k] as int);
                        &&& stored_name(e) == files[k].0@
                        &&& decompress_spec(e, password_bytes(encrypt_password), chunk_size as nat) == (
                            files[k].1@,
                            Option::<DecodeError>::None,
                        )
                        &&& encoded_layout(e, files[k].1@, encrypt_password is Some, stored_padding(e))
                    }
            }
        },
{
    let ghost premise = forall|k: int|
        0 <= k < files.len() ==> roundtrip_premise(
            (#[trigger] files[k]).1@.len(),
            files[k].0@,
            encrypt_password is Some,
            chunk_size,
        );
    let mut body: Vec<u8> = Vec::new();
    let mut total_original_size: u64 = 0;
    let ghost mut parts: Seq<Seq<u8>> = Seq::empty();
    let mut i: usize = 0;
    while i < files.len()
        invariant
            0 <= i <= files.len(),
            parts.len() == i,
            body@ == concat(parts),
            encrypt_password is Some ==> chunk_size <= PIECE_MAX,
            premise == (forall|k: int|
                0 <= k < files.len() ==> roundtrip_premise(
                    (#[trigger] files[k]).1@.len(),
                    files[k].0@,
                    encrypt_password is Some,
                    chunk_size,
                )),
            premise ==> forall|k: int|
                0 <= k < i ==> {
                    &&& complete_file(#[trigger] parts[k])
                    &&& stored_name(parts[k]) == files[k].0@
                    &&& decompress_spec(parts[k], password_bytes(encrypt_password), chunk_size as nat) == (
                        files[k].1@,
                        Option::<DecodeError>::None,
                    )
                    &&& encoded_layout(parts[k], files[k].1@, encrypt_password is Some, stored_padding(parts[k]))
                },
            files_size(files@.take(i as int)) <= u64::MAX ==> total_original_size == files_size(files@.take(i as int)),
        decreases files.len() - i,
    {
        let mut encoded: Vec<u8> = Vec::new();
        match encode(files[i].1.as_slice(), files[i].0.as_str(), encrypt_password, &mut encoded, chunk_size) {
            Ok(info) => {
                proof {
                    assert(files@.take(i + 1).drop_last() =~= files@.take(i as int));
                    assert(files@.take(i + 1).last() == files@[i as int]);
                }
                total_original_size = total_original_size.wrapping_add(info.original_size);
            },
            Err(e) => {
                proof {
                    if e == EncodeError::CodeTooLong {
                        assert(files[i as int].1@.len() >= 0x2000_0000_0000);
                    }
                }
                return Err(e);
            },
        }
        proof {
            assert(encoded@.skip(0) =~= encoded@);
            assert(Seq::<u8>::empty() + encoded@ =~= encoded@);
            lemma_concat_push(parts, encoded@);
            let old_parts = parts;
            parts = parts.push(encoded@);
            if premise {
                assert(roundtrip_premise(files[i as int].1@.len(), files[i as int].0@, encrypt_password is Some, chunk_size));
                assert forall|k: int| 0 <= k < i + 1 implies {
                    &&& complete_file(#[trigger] parts[k])
                    &&& stored_name(parts[k]) == files[k].0@
                    &&& decompress_spec(parts[k], password_bytes(encrypt_password), chunk_size as nat) == (
                        files[k].1@,
                        Option::<DecodeError>::None,
                    )
                    &&& encoded_layout(parts[k], files[k].1@, encrypt_password is Some, stored_padding(parts[k]))
                } by {
                    if k < i {
                        assert(parts[k] == old_parts[k]);
                    }
                }
            }
        }
        write_all(&mut body, encoded.as_slice());
        i = i + 1;
    }
    let mut master = Headers::new();
    flip_is_archive(&mut master.flags);
    if encrypt_password.is_some() {
        flip_encrypted(&mut master.flags);
    }
    master.original_size = total_original_size;
    master.compressed_size = body.len() as u64;
    master.original_file_name = archive_name.to_owned();
    let ghost h = master;
    proof {
        crate::flags::lemma_flags_independent(0u8);
        crate::flags::lemma_flags_independent(0u8 | IS_ARCHIVE);
    }
    let header = master.to_bytes();
    write_all(writer, header.as_slice());
    write_all(writer, body.as_slice());
    proof {
        let out = header_bytes(h) + body@;
        assert(writer@ =~= old(writer)@ + out);
        assert(writer@.skip(old(writer)@.len() as int) =~= out);
        if crate::headers::utf8_bytes(archive_name@).len() <= 65535 && premise {
            lemma_archive_reads_back(h, body@, parts, files@, encrypt_password, chunk_size);
            assert(files@.take(files.len() as int) =~= files@);
            assert(0u8 | IS_ARCHIVE == IS_ARCHIVE) by (bit_vector);
        }
    }
    Ok(())
}

/// The header at the front of `s` is a fresh one in all the fields a master
/// header leaves alone: current magic and version, no payload size, a zero
/// salt, nonce and tag, no padding, no checksum and no tree.
pub open spec fn plain_master_fields(s: Seq<u8>) -> bool {
    let b = after_name(s);
    &&& s.subrange(0, 4) == MAGIC_BYTES@
    &&& s[4] == VERSION
    &&& spec_u64_from_le_bytes(s.subrange(b + 8, b + 16)) == 0
    &&& s.subrange(b + 16, b + 32) == Seq::new(16, |i: int| 0u8)
    &&& s.subrange(b + 32, b + 44) == Seq::new(12, |i: int| 0u8)
    &&& s.subrange(b + 44, b + 60) == Seq::new(16, |i: int| 0u8)
    &&& stored_padding(s) == 0
    &&& stored_checksum(s) == 0
    &&& tree_of(s) == crate::huffman::tree::Node::empty_node()
}

/// The payload of the archive that [`add_to_archive`] makes of `existing`
/// and `new`: the embedded files of `existing` when it is an archive, or
/// `existing` itself, followed by `new`.
pub open spec fn appended_body(existing: Seq<u8>, new: Seq<u8>) -> Seq<u8> {
    if existing[5] & IS_ARCHIVE != 0 {
        existing.skip(header_len_of(existing) as int) + new
    } else {
        existing + new
    }
}

/// An archive whose payload is complete files laid out one after the other
/// lists exactly those files, in order, each with its name and content.
pub proof fn lemma_archive_lists_parts(out: Seq<u8>, parts: Seq<Seq<u8>>, password: Option<Seq<u8>>, chunk: nat)
    requires
        master_header_fault(out) is None,
        out.len() == header_len_of(out) + compressed_size_of(out),
        out.skip(header_len_of(out) as int) == concat(parts),
        forall|k: int| 0 <= k < parts.len() ==> complete_file(#[trigger] parts[k]),
    ensures
        archive_entries(out).len() == parts.len(),
        forall|k: int|
            0 <= k < parts.len() ==> {
                let e = out.skip(#[trigger] archive_entries(out)[k] as int);
                &&& stored_name(e) == stored_name(parts[k])
                &&& decompress_spec(e, password, chunk) == decompress_spec(parts[k], password, chunk)
                &&& forall|d: Seq<u8>, enc: bool, pad: u8| #[trigger] encoded_layout(e, d, enc, pad)
                    == encoded_layout(parts[k], d, enc, pad)
            },
{
    let hl = header_len_of(out);
    lemma_walk_complete_files(out, parts, hl);
    lemma_part_starts_len(parts, hl);
    assert forall|k: int| 0 <= k < parts.len() implies {
        let e = out.skip(#[trigger] archive_entries(out)[k] as int);
        &&& stored_name(e) == stored_name(parts[k])
        &&& decompress_spec(e, password, chunk) == decompress_spec(parts[k], password, chunk)
        &&& forall|d: Seq<u8>, enc: bool, pad: u8| #[trigger] encoded_layout(e, d, enc, pad)
            == encoded_layout(parts[k], d, enc, pad)
    } by {
        let p = part_starts(parts, hl)[k];
        let e = out.skip(p as int);
        let rest = out.skip(p + parts[k].len() as int);
        assert(e =~= parts[k] + rest) by {
            assert(out.subrange(p as int, p + parts[k].len() as int) == parts[k]);
        }
        lemma_complete_file_prefix(parts[k], rest, password, chunk);
    }
}

/// Adding a complete file to an archive whose payload is complete files lists
/// the archive's files and then the added one.
pub proof fn lemma_added_file_listed_last(out: Seq<u8>, existing: Seq<u8>, new: Seq<u8>, parts: Seq<Seq<u8>>, password: Option<Seq<u8>>, chunk: nat)
    requires
        master_header_fault(out) is None,
        out.len() == header_len_of(out) + compressed_size_of(out),
        out.skip(header_len_of(out) as int) == appended_body(existing, new),
        master_header_fault(existing) is None,
        existing.skip(header_len_of(existing) as int) == concat(parts),
        forall|k: int| 0 <= k < parts.len() ==> complete_file(#[trigger] parts[k]),
        complete_file(new),
    ensures
        archive_entries(out).len() == parts.len() + 1,
        forall|k: int|
            0 <= k < parts.len() ==> {
                let e = out.skip(#[trigger] archive_entries(out)[k] as int);
                &&& stored_name(e) == stored_name(parts[k])
                &&& decompress_spec(e, password, chunk) == decompress_spec(parts[k], password, chunk)
            },
        stored_name(out.skip(archive_entries(out)[parts.len() as int] as int)) == stored_name(new),
        decompress_spec(out.skip(archive_entries(out)[parts.len() as int] as int), password, chunk)
            == decompress_spec(new, password, chunk),
{
    lemma_concat_push(parts, new);
    let all = parts.push(new);
    assert forall|k: int| 0 <= k < all.len() implies complete_file(#[trigger] all[k]) by {
        if k < parts.len() {
            assert(all[k] == parts[k]);
        }
    }
    lemma_archive_lists_parts(out, all, password, chunk);
    assert forall|k: int| 0 <= k < parts.len() implies {
        let e = out.skip(#[trigger] archive_entries(out)[k] as int);
        &&& stored_name(e) == stored_name(parts[k])
        &&& decompress_spec(e, password, chunk) == decompress_spec(parts[k], password, chunk)
        &&& forall|d: Seq<u8>, enc: bool, pad: u8| #[trigger] encoded_layout(e, d, enc, pad)
            == encoded_layout(parts[k], d, enc, pad)
    } by {
        assert(all[k] == parts[k]);
    }
    assert(all[parts.len() as int] == new);
}

/// Adds the `.small` file `new_bytes` to `existing_bytes`: to its embedded
/// files when it is an archive, or next to it as a second file when it is a
/// single file. The result is an archive named as `existing_bytes`, encrypted
/// when either input is, whose size is the sum of both sizes (wrapping at
/// 2^64).
pub fn add_to_archive(existing_bytes: Vec<u8>, new_bytes: Vec<u8>) -> (r: Result<Vec<u8>, MismallError>)
    ensures
        header_parse_error(existing_bytes@) matches Some(e) ==> (r matches Err(
            MismallError::Decompression { error: DecompressionError::InvalidFormat(x), context: None, suggestion: None },
        ) && x@ == "Failed to parse header of existing file: "@ + header_error_text(e)),
        header_parse_error(existing_bytes@) is None && header_parse_error(new_bytes@) is Some ==> (r matches Err(
            MismallError::Decompression { error: DecompressionError::InvalidFormat(x), context: None, suggestion: None },
        ) && x@ == "Failed to parse header of new content: "@ + header_error_text(header_parse_error(new_bytes@)->0)),
        header_parse_error(existing_bytes@) is None && header_parse_error(new_bytes@) is None ==> (r matches Ok(out) && {
            &&& master_header_fault(out@) is None
            &&& out@.len() == header_len_of(out@) + compressed_size_of(out@)
            &&& out@.skip(header_len_of(out@) as int) == appended_body(existing_bytes@, new_bytes@)
            &&& stored_name(out@) == stored_name(existing_bytes@)
            &&& crate::decompress::stored_size(out@) as int == (crate::decompress::stored_size(existing_bytes@)
                + crate::decompress::stored_size(new_bytes@)) % 0x1_0000_0000_0000_0000
            &&& stored_flags(out@) == (if existing_bytes@[5] & ENCRYPTED != 0 || new_bytes@[5] & ENCRYPTED != 0 {
                IS_ARCHIVE | ENCRYPTED
            } else {
                IS_ARCHIVE
            })
            &&& plain_master_fields(out@)
        }),
{
    let (master, master_len) = match Headers::from_reader(existing_bytes.as_slice()) {
        Ok(parsed) => parsed,
        Err(e) => {
            let mut message = String::from_str("Failed to parse header of existing file: ");
            message.append(e.message().as_str());
            return Err(
                MismallError::Decompression {
                    error: DecompressionError::InvalidFormat(message),
                    context: None,
                    suggestion: None,
                },
            );
        },
    };
    let (added, _) = match Headers::from_reader(new_bytes.as_slice()) {
        Ok(parsed) => parsed,
        Err(e) => {
            let mut message = String::from_str("Failed to parse header of new content: ");
            message.append(e.message().as_str());
            return Err(
                MismallError::Decompression {
                    error: DecompressionError::InvalidFormat(message),
                    context: None,
                    suggestion: None,
                },
            );
        },
    };
    let mut header = Headers::new();
    flip_is_archive(&mut header.flags);
    if crate::flags::is_encrypted(master.flags) || crate::flags::is_encrypted(added.flags) {
        flip_encrypted(&mut header.flags);
    }
    let mut body: Vec<u8> = Vec::new();
    if crate::flags::is_archive(master.flags) {
        write_all(&mut body, slice_range(existing_bytes.as_slice(), master_len, existing_bytes.len()));
    } else {
        write_all(&mut body, existing_bytes.as_slice());
    }
    write_all(&mut body, new_bytes.as_slice());
    header.original_size = master.original_size.wrapping_add(added.original_size);
    header.compressed_size = body.len() as u64;
    header.original_file_name = master.original_file_name;
    let ghost h = header;
    proof {
        crate::flags::lemma_flags_independent(0u8);
        crate::flags::lemma_flags_independent(0u8 | IS_ARCHIVE);
        let eb = existing_bytes@;
        vstd::utf8::decode_utf8_encode_utf8(eb.subrange(16, after_name(eb)));
        assert(crate::headers::utf8_bytes(h.original_file_name@) == eb.subrange(16, after_name(eb)));
        crate::huffman::tree::lemma_serialize_roundtrip_empty();
        assert(crate::headers::storable(h));
        crate::headers::lemma_header_roundtrip(h, body@);
        assert(body@ =~= appended_body(existing_bytes@, new_bytes@));
        assert(0u8 | IS_ARCHIVE == IS_ARCHIVE) by (bit_vector);
    }
    let mut out = header.to_bytes();
    write_all(&mut out, body.as_slice());
    Ok(out)
}

/// The names of the embedded files from `pos` on, reading header after header
/// until the bytes run out; an error for a header that is present but does
/// not read.
pub open spec fn names_from(s: Seq<u8>, pos: nat) -> Result<Seq<Seq<char>>, HeaderError>
    decreases (if pos < s.len() { s.len() - pos } else { 0 }),
{
    if pos >= s.len() {
        Ok(Seq::empty())
    } else {
        let t = s.skip(pos as int);
        match header_parse_error(t) {
            Some(HeaderError::UnexpectedEof) => Ok(Seq::empty()),
            Some(e) => Err(e),
            None => match names_from(s, pos + header_len_of(t) + compressed_size_of(t)) {
                Ok(rest) => Ok(seq![stored_name(t)] + rest),
                Err(e) => Err(e),
            },
        }
    }
}

/// The names in a `.small` file: of every embedded file of an archive, or the
/// one name of a single file.
pub fn list_contents(reader: &[u8]) -> (r: Result<Vec<String>, MismallError>)
    ensures
        header_parse_error(reader@) matches Some(e) ==> (r matches Err(
            MismallError::Decompression { error: DecompressionError::InvalidFormat(x), context: None, suggestion: None },
        ) && x@ == "Failed to parse master header: "@ + header_error_text(e)),
        header_parse_error(reader@) is None && reader@[5] & IS_ARCHIVE == 0 ==> (r matches Ok(names) && names.len() == 1
            && names[0]@ == stored_name(reader@)),
        header_parse_error(reader@) is None && reader@[5] & IS_ARCHIVE != 0 ==> match names_from(
            reader@,
            header_len_of(reader@),
        ) {
            Ok(ns) => r matches Ok(names) && names.len() == ns.len() && forall|k: int|
                0 <= k < ns.len() ==> (#[trigger] names[k])@ == ns[k],
            Err(e) => r matches Err(
                MismallError::Decompression { error: DecompressionError::InvalidFormat(x), context: None, suggestion: None },
            ) && x@ == "Failed to parse embedded header: "@ + header_error_text(e),
        },
{
    let ghost s = reader@;
    let (master, master_len) = match Headers::from_reader(reader) {
        Ok(parsed) => parsed,
        Err(e) => {
            let mut message = String::from_str("Failed to parse master header: ");
            message.append(e.message().as_str());
            return Err(
                MismallError::Decompression {
                    error: DecompressionError::InvalidFormat(message),
                    context: None,
                    suggestion: None,
                },
            );
        },
    };
    let mut names: Vec<String> = Vec::new();
    if !crate::flags::is_archive(master.flags) {
        names.push(master.original_file_name);
        return Ok(names);
    }
    let ghost total = names_from(s, master_len as nat);
    let ghost mut listed: Seq<Seq<char>> = Seq::empty();
    let mut pos: usize = master_len;
    proof {
        assert(listed + Seq::<Seq<char>>::empty() =~= listed);
    }
    loop
        invariant_except_break
            s == reader@,
            header_parse_error(s) is None,
            s[5] & IS_ARCHIVE != 0,
            header_len_of(s) == master_len,
            total == names_from(s, master_len as nat),
            names.len() == listed.len(),
            forall|k: int| 0 <= k < listed.len() ==> (#[trigger] names@[k])@ == listed[k],
            match names_from(s, pos as nat) {
                Ok(rest) => total == Ok::<Seq<Seq<char>>, HeaderError>(listed + rest),
                Err(e) => total == Err::<Seq<Seq<char>>, HeaderError>(e),
            },
        ensures
            total == Ok::<Seq<Seq<char>>, HeaderError>(listed),
            names.len() == listed.len(),
            forall|k: int| 0 <= k < listed.len() ==> (#[trigger] names@[k])@ == listed[k],
        decreases reader.len() - pos,
    {
        if pos >= reader.len() {
            assert(listed + Seq::<Seq<char>>::empty() =~= listed);
            break;
        }
        let rest = slice_range(reader, pos, reader.len());
        assert(rest@ =~= s.skip(pos as int));
        let (header, header_len) = match Headers::from_reader(rest) {
            Ok(parsed) => parsed,
            Err(HeaderError::UnexpectedEof) => {
                assert(listed + Seq::<Seq<char>>::empty() =~= listed);
                break;
            },
            Err(e) => {
                let mut message = String::from_str("Failed to parse embedded header: ");
                message.append(e.message().as_str());
                return Err(
                    MismallError::Decompression {
                        error: DecompressionError::InvalidFormat(message),
                        context: None,
                        suggestion: None,
                    },
                );
            },
        };
        let ghost t = s.skip(pos as int);
        let next: u128 = pos as u128 + header_len as u128 + header.compressed_size as u128;
        proof {
            assert(header_len_of(t) >= 83);
            let old_listed = listed;
            listed = listed.push(stored_name(t));
            match names_from(s, next as nat) {
                Ok(r) => {
                    assert(old_listed + (seq![stored_name(t)] + r) =~= listed + r);
                },
                Err(_) => {},
            }
        }
        names.push(header.original_file_name);
        if next >= reader.len() as u128 {
            proof {
                assert(names_from(s, next as nat) == Ok::<Seq<Seq<char>>, HeaderError>(Seq::empty()));
                assert(listed + Seq::<Seq<char>>::empty() =~= listed);
            }
            break;
        }
        pos = next as usize;
    }
    Ok(names)
}

} // verus!
