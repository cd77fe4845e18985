use vstd::prelude::*;
use vstd::string::StringSliceAdditionalSpecFns;
use crate::headers::utf8_bytes;

verus! {

/// Errors with a user-facing message and suggestions on how to resolve them.
#[derive(Debug)]
pub enum MismallError {
    /// A file I/O error, with what was being done.
    IoError(String, std::io::Error),
    /// An encryption or decryption error.
    EncryptionError(String),
    /// An invalid file format.
    InvalidFormat(String),
    /// A memory or chunk-size problem.
    MemoryError(String),
    /// A compression or decompression error.
    CompressionError(String),
    /// An archive error.
    ArchiveError(String),
}

/// An I/O error `err` that happened while doing `context`.
pub fn io_error(context: &str, err: std::io::Error) -> (e: MismallError)
    ensures
        e matches MismallError::IoError(c, x) && c@ == context@ && x == err,
{
    MismallError::IoError(context.to_owned(), err)
}

/// An encryption error with message `msg`.
pub fn encryption_error(msg: &str) -> (e: MismallError)
    ensures
        e matches MismallError::EncryptionError(m) && m@ == msg@,
{
    MismallError::EncryptionError(msg.to_owned())
}

/// A format error with message `msg`.
pub fn format_error(msg: &str) -> (e: MismallError)
    ensures
        e matches MismallError::InvalidFormat(m) && m@ == msg@,
{
    MismallError::InvalidFormat(msg.to_owned())
}

/// A memory error with message `msg`.
pub fn memory_error(msg: &str) -> (e: MismallError)
    ensures
        e matches MismallError::MemoryError(m) && m@ == msg@,
{
    MismallError::MemoryError(msg.to_owned())
}

/// A compression error with message `msg`.
pub fn compression_error(msg: &str) -> (e: MismallError)
    ensures
        e matches MismallError::CompressionError(m) && m@ == msg@,
{
    MismallError::CompressionError(msg.to_owned())
}

/// An archive error with message `msg`.
pub fn archive_error(msg: &str) -> (e: MismallError)
    ensures
        e matches MismallError::ArchiveError(m) && m@ == msg@,
{
    MismallError::ArchiveError(msg.to_owned())
}

/// `needle` occurs in `haystack`.
pub open spec fn occurs_in(haystack: Seq<u8>, needle: Seq<u8>) -> bool {
    exists|i: int| 0 <= i <= haystack.len() - needle.len() && #[trigger] haystack.subrange(i, i + needle.len()) == needle
}

/// Whether the text `needle` occurs in the text `haystack`, compared byte by
/// byte.
pub fn contains(haystack: &str, needle: &str) -> (r: bool)
    ensures
        r == occurs_in(haystack.spec_bytes(), needle.spec_bytes()),
{
    let h = haystack.as_bytes();
    let n = needle.as_bytes();
    if n.len() > h.len() {
        return false;
    }
    let mut i: usize = 0;
    while i <= h.len() - n.len()
        invariant
            h@ == haystack.spec_bytes(),
            n@ == needle.spec_bytes(),
            n.len() <= h.len(),
            i <= h.len() - n.len() + 1,
            forall|k: int| 0 <= k < i ==> #[trigger] h@.subrange(k, k + n@.len()) != n@,
        decreases h.len() - n.len() + 1 - i,
    {
        let mut j: usize = 0;
        while j < n.len() && h[i + j] == n[j]
            invariant
                n.len() <= h.len(),
                i <= h.len() - n.len(),
                j <= n.len(),
                forall|m: int| 0 <= m < j ==> h@[i + m] == n@[m],
            decreases n.len() - j,
        {
            j = j + 1;
        }
        if j == n.len() {
            assert(h@.subrange(i as int, i + n@.len()) =~= n@);
            assert(occurs_in(h@, n@));
            return true;
        }
        assert(h@.subrange(i as int, i + n@.len())[j as int] != n@[j as int]);
        i = i + 1;
    }
    false
}

/// What kind of I/O failure an error is, as far as the suggestions tell apart.
#[derive(Debug, PartialEq, Eq, Structural)]
pub enum IoFailure {
    NotFound,
    PermissionDenied,
    StorageFull,
    UnexpectedEof,
    Other,
}

/// `std::io::Error::kind`, sorted into the kinds the suggestions tell apart.
/// Nothing is claimed of which kind an error has.
#[verifier::external_body]
fn io_failure(err: &std::io::Error) -> IoFailure {
    match err.kind() {
        std::io::ErrorKind::NotFound => IoFailure::NotFound,
        std::io::ErrorKind::PermissionDenied => IoFailure::PermissionDenied,
        std::io::ErrorKind::StorageFull => IoFailure::StorageFull,
        std::io::ErrorKind::UnexpectedEof => IoFailure::UnexpectedEof,
        _ => IoFailure::Other,
    }
}

/// Suggestions for an I/O failure of kind `kind`.
pub open spec fn io_suggestion_text(kind: IoFailure) -> Seq<char> {
    match kind {
        IoFailure::NotFound => "• Check if the file path is correct\n• Ensure the file exists and is accessible\n• Verify you have read permissions\n• Try using absolute paths if using relative paths"@,
        IoFailure::PermissionDenied => "• Check file/directory permissions\n• Try running with appropriate privileges\n• Ensure the file is not in use by another program\n• Verify the target directory is writable"@,
        IoFailure::StorageFull => "• Free up disk space on the target drive\n• Check available space before large operations\n• Consider using a different drive/partition\n• Clean temporary files in /tmp"@,
        IoFailure::UnexpectedEof => "• The file may be corrupted or truncated\n• Verify the file integrity if downloaded\n• Check if the operation was interrupted\n• Try decompressing a different copy if available"@,
        IoFailure::Other => "• Ensure the file is not locked by another program\n• Check available disk space\n• Verify network connection if accessing remote files\n• Try the operation again"@,
    }
}

/// Suggestions for an I/O failure of kind `kind`.
pub fn io_suggestions(kind: IoFailure) -> (s: String)
    ensures
        s@ == io_suggestion_text(kind),
{
    match kind {
        IoFailure::NotFound => String::from_str(
            "• Check if the file path is correct\n• Ensure the file exists and is accessible\n• Verify you have read permissions\n• Try using absolute paths if using relative paths",
        ),
        IoFailure::PermissionDenied => String::from_str(
            "• Check file/directory permissions\n• Try running with appropriate privileges\n• Ensure the file is not in use by another program\n• Verify the target directory is writable",
        ),
        IoFailure::StorageFull => String::from_str(
            "• Free up disk space on the target drive\n• Check available space before large operations\n• Consider using a different drive/partition\n• Clean temporary files in /tmp",
        ),
        IoFailure::UnexpectedEof => String::from_str(
            "• The file may be corrupted or truncated\n• Verify the file integrity if downloaded\n• Check if the operation was interrupted\n• Try decompressing a different copy if available",
        ),
        IoFailure::Other => String::from_str(
            "• Ensure the file is not locked by another program\n• Check available disk space\n• Verify network connection if accessing remote files\n• Try the operation again",
        ),
    }
}

/// Suggestions for the I/O error `io_err`, by its kind.
pub fn get_io_suggestions(io_err: &std::io::Error) -> (s: String)
    ensures
        exists|k: IoFailure| s@ == io_suggestion_text(k),
{
    let kind = io_failure(io_err);
    let s = io_suggestions(kind);
    assert(s@ == io_suggestion_text(kind));
    s
}

/// Suggestions for an encryption error with message `msg`, chosen by the words it contains.
pub open spec fn encryption_suggestion_text(msg: Seq<u8>) -> Seq<char> {
    if occurs_in(msg, utf8_bytes("password"@)) || occurs_in(msg, utf8_bytes("decrypt"@)) {
        "• Double-check the password - it's case-sensitive\n• Try copying and pasting the password to avoid typos\n• Ensure you're using the correct password for this file\n• Check if the file was encrypted with a different password"@
    } else if occurs_in(msg, utf8_bytes("corrupted"@)) || occurs_in(msg, utf8_bytes("tag"@)) {
        "• The file may be corrupted during transfer\n• Verify the file integrity with checksum if available\n• Try re-downloading or re-transferring the file\n• Check if the file was partially encrypted/decrypted"@
    } else {
        "• Ensure the file was actually encrypted\n• Check if AES-256-GCM is supported on your system\n• Verify the file is not corrupted\n• Try processing a different file to test encryption"@
    }
}

/// Suggestions for an encryption error with message `msg`, chosen by the words it contains.
pub fn get_encryption_suggestions(msg: &str) -> (s: String)
    ensures
        s@ == encryption_suggestion_text(msg.spec_bytes()),
{
    if contains(msg, "password") || contains(msg, "decrypt") {
        String::from_str("• Double-check the password - it's case-sensitive\n• Try copying and pasting the password to avoid typos\n• Ensure you're using the correct password for this file\n• Check if the file was encrypted with a different password")
    } else if contains(msg, "corrupted") || contains(msg, "tag") {
        String::from_str("• The file may be corrupted during transfer\n• Verify the file integrity with checksum if available\n• Try re-downloading or re-transferring the file\n• Check if the file was partially encrypted/decrypted")
    } else {
        String::from_str("• Ensure the file was actually encrypted\n• Check if AES-256-GCM is supported on your system\n• Verify the file is not corrupted\n• Try processing a different file to test encryption")
    }
}

/// Suggestions for a format error with message `msg`, chosen by the words it contains.
pub open spec fn format_suggestion_text(msg: Seq<u8>) -> Seq<char> {
    if occurs_in(msg, utf8_bytes(".small"@)) {
        "• Ensure you're decompressing a valid .small file\n• Check if the file was created by this version of mismall\n• Try decompressing with the --verbose flag for more details\n• Verify the file header is not corrupted"@
    } else {
        "• Check if the file type is supported\n• Ensure the file is not corrupted\n• Try using a different file to test the operation\n• Verify the file has a valid format"@
    }
}

/// Suggestions for a format error with message `msg`, chosen by the words it contains.
pub fn get_format_suggestions(msg: &str) -> (s: String)
    ensures
        s@ == format_suggestion_text(msg.spec_bytes()),
{
    if contains(msg, ".small") {
        String::from_str("• Ensure you're decompressing a valid .small file\n• Check if the file was created by this version of mismall\n• Try decompressing with the --verbose flag for more details\n• Verify the file header is not corrupted")
    } else {
        String::from_str("• Check if the file type is supported\n• Ensure the file is not corrupted\n• Try using a different file to test the operation\n• Verify the file has a valid format")
    }
}

/// Suggestions for a memory error with message `msg`, chosen by the words it contains.
pub open spec fn memory_suggestion_text(msg: Seq<u8>) -> Seq<char> {
    if occurs_in(msg, utf8_bytes("chunk"@)) || occurs_in(msg, utf8_bytes("memory"@)) {
        "• Reduce the --chunk-size parameter (try 8MB or 4MB)\n• Close other applications to free up memory\n• Check available RAM before large operations\n• Try processing smaller files first"@
    } else {
        "• Increase available memory by closing other programs\n• Use smaller chunk sizes with --chunk-size flag\n• Check system memory usage\n• Restart the application to clear memory leaks"@
    }
}

/// Suggestions for a memory error with message `msg`, chosen by the words it contains.
pub fn get_memory_suggestions(msg: &str) -> (s: String)
    ensures
        s@ == memory_suggestion_text(msg.spec_bytes()),
{
    if contains(msg, "chunk") || contains(msg, "memory") {
        String::from_str("• Reduce the --chunk-size parameter (try 8MB or 4MB)\n• Close other applications to free up memory\n• Check available RAM before large operations\n• Try processing smaller files first")
    } else {
        String::from_str("• Increase available memory by closing other programs\n• Use smaller chunk sizes with --chunk-size flag\n• Check system memory usage\n• Restart the application to clear memory leaks")
    }
}

/// Suggestions for a compression error with message `msg`, chosen by the words it contains.
pub open spec fn compression_suggestion_text(msg: Seq<u8>) -> Seq<char> {
    if occurs_in(msg, utf8_bytes("tree"@)) || occurs_in(msg, utf8_bytes("frequency"@)) {
        "• Check if the input file is empty or corrupted\n• Try compressing a different file to test the algorithm\n• Ensure the file contains compressible data\n• Verify file permissions are correct"@
    } else if occurs_in(msg, utf8_bytes("buffer"@)) || occurs_in(msg, utf8_bytes("overflow"@)) {
        "• Reduce the --chunk-size parameter\n• Try processing a smaller file\n• Check for corrupted input data\n• Ensure adequate system resources"@
    } else {
        "• Verify the input file is valid and readable\n• Try with a smaller chunk size\n• Check available disk space\n• Ensure the file is not locked"@
    }
}

/// Suggestions for a compression error with message `msg`, chosen by the words it contains.
pub fn get_compression_suggestions(msg: &str) -> (s: String)
    ensures
        s@ == compression_suggestion_text(msg.spec_bytes()),
{
    if contains(msg, "tree") || contains(msg, "frequency") {
        String::from_str("• Check if the input file is empty or corrupted\n• Try compressing a different file to test the algorithm\n• Ensure the file contains compressible data\n• Verify file permissions are correct")
    } else if contains(msg, "buffer") || contains(msg, "overflow") {
        String::from_str("• Reduce the --chunk-size parameter\n• Try processing a smaller file\n• Check for corrupted input data\n• Ensure adequate system resources")
    } else {
        String::from_str("• Verify the input file is valid and readable\n• Try with a smaller chunk size\n• Check available disk space\n• Ensure the file is not locked")
    }
}

/// Suggestions for an archive error with message `msg`, chosen by the words it contains.
pub open spec fn archive_suggestion_text(msg: Seq<u8>) -> Seq<char> {
    if occurs_in(msg, utf8_bytes("extract"@)) || occurs_in(msg, utf8_bytes("not found"@)) {
        "• List archive contents with 'mismall list' command\n• Check exact filename (case-sensitive)\n• Verify the file exists in the archive\n• Try extracting with a different filename"@
    } else if occurs_in(msg, utf8_bytes("corrupted"@)) {
        "• Verify the archive file is not corrupted\n• Try re-creating the archive\n• Check if the archive transfer was complete\n• Test with a backup copy if available"@
    } else {
        "• Ensure you have sufficient permissions for archive operations\n• Check available disk space\n• Verify the archive file is valid\n• Try listing archive contents first"@
    }
}

/// Suggestions for an archive error with message `msg`, chosen by the words it contains.
pub fn get_archive_suggestions(msg: &str) -> (s: String)
    ensures
        s@ == archive_suggestion_text(msg.spec_bytes()),
{
    if contains(msg, "extract") || contains(msg, "not found") {
        String::from_str("• List archive contents with 'mismall list' command\n• Check exact filename (case-sensitive)\n• Verify the file exists in the archive\n• Try extracting with a different filename")
    } else if contains(msg, "corrupted") {
        String::from_str("• Verify the archive file is not corrupted\n• Try re-creating the archive\n• Check if the archive transfer was complete\n• Test with a backup copy if available")
    } else {
        String::from_str("• Ensure you have sufficient permissions for archive operations\n• Check available disk space\n• Verify the archive file is valid\n• Try listing archive contents first")
    }
}

/// The message of an error followed by the suggestions for it; an I/O
/// error's suggestions depend on its kind `io_kind`.
pub open spec fn legacy_error_text(e: MismallError, io_kind: IoFailure) -> Seq<char> {
    let header = "\n\n💡 Suggestions:\n"@;
    match e {
        MismallError::IoError(context, _) => context@ + header + io_suggestion_text(io_kind),
        MismallError::EncryptionError(msg) => msg@ + header + encryption_suggestion_text(utf8_bytes(msg@)),
        MismallError::InvalidFormat(msg) => msg@ + header + format_suggestion_text(utf8_bytes(msg@)),
        MismallError::MemoryError(msg) => msg@ + header + memory_suggestion_text(utf8_bytes(msg@)),
        MismallError::CompressionError(msg) => msg@ + header + compression_suggestion_text(utf8_bytes(msg@)),
        MismallError::ArchiveError(msg) => msg@ + header + archive_suggestion_text(utf8_bytes(msg@)),
    }
}

impl MismallError {
    /// The message of the error, then a blank line, a suggestions heading and
    /// the suggestions chosen for it.
    pub fn to_string(&self) -> (s: String)
        ensures
            exists|k: IoFailure| s@ == legacy_error_text(*self, k),
            !(*self is IoError) ==> s@ == legacy_error_text(*self, IoFailure::Other),
    {
        let mut text = String::new();
        match self {
            MismallError::IoError(context, err) => {
                text.append(context.as_str());
                text.append("\n\n💡 Suggestions:\n");
                let kind = io_failure(err);
                text.append(io_suggestions(kind).as_str());
                assert(text@ == legacy_error_text(*self, kind));
            },
            MismallError::EncryptionError(msg) => {
                text.append(msg.as_str());
                text.append("\n\n💡 Suggestions:\n");
                text.append(get_encryption_suggestions(msg.as_str()).as_str());
                assert(text@ == legacy_error_text(*self, IoFailure::Other));
            },
            MismallError::InvalidFormat(msg) => {
                text.append(msg.as_str());
                text.append("\n\n💡 Suggestions:\n");
                text.append(get_format_suggestions(msg.as_str()).as_str());
                assert(text@ == legacy_error_text(*self, IoFailure::Other));
            },
            MismallError::MemoryError(msg) => {
                text.append(msg.as_str());
                text.append("\n\n💡 Suggestions:\n");
                text.append(get_memory_suggestions(msg.as_str()).as_str());
                assert(text@ == legacy_error_text(*self, IoFailure::Other));
            },
            MismallError::CompressionError(msg) => {
                text.append(msg.as_str());
                text.append("\n\n💡 Suggestions:\n");
                text.append(get_compression_suggestions(msg.as_str()).as_str());
                assert(text@ == legacy_error_text(*self, IoFailure::Other));
            },
            MismallError::ArchiveError(msg) => {
                text.append(msg.as_str());
                text.append("\n\n💡 Suggestions:\n");
                text.append(get_archive_suggestions(msg.as_str()).as_str());
                assert(text@ == legacy_error_text(*self, IoFailure::Other));
            },
        }
        text
    }
}

} // verus!
