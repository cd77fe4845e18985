pub mod context;

use vstd::prelude::*;
use vstd::std_specs::convert::FromSpecImpl;
use self::context::{ErrorContext, Suggestion};

verus! {

#[verifier::external_type_specification]
#[verifier::external_body]
pub struct ExIoError(std::io::Error);

/// What went wrong while compressing.
#[derive(Debug)]
pub enum CompressionError {
    /// The chunk size is outside the accepted range.
    InvalidChunkSize(usize),
    /// The input could not be read.
    InputRead(String),
    /// The output could not be written.
    OutputWrite(String),
    /// The compression itself failed.
    CompressionFailed(String),
    /// Encrypting the payload failed.
    Encryption(String),
}

/// What went wrong while decompressing.
#[derive(Debug)]
pub enum DecompressionError {
    /// The chunk size is outside the accepted range.
    InvalidChunkSize(usize),
    /// The input could not be read.
    InputRead(String),
    /// The output could not be written.
    OutputWrite(String),
    /// The decompression itself failed.
    DecompressionFailed(String),
    /// The input is not a valid `.small` file.
    InvalidFormat(String),
    /// The payload is corrupted.
    CorruptedData(String),
    /// Decrypting the payload failed.
    DecryptionError(String),
}

/// What went wrong in an archive operation.
#[derive(Debug)]
pub enum ArchiveError {
    /// The archive could not be created.
    Creation(String),
    /// More files than an archive holds.
    TooManyFiles(usize),
    /// The archive would be too large.
    TooLarge(u64),
    /// A file could not be extracted.
    Extraction(String),
    /// The input is not a valid archive.
    InvalidFormat(String),
    /// The requested file is not in the archive.
    FileNotFound(String),
}

/// Any error of the library, with optional context and suggestion.
#[derive(Debug)]
#[allow(inconsistent_fields)]
pub enum MismallError {
    /// Errors while compressing.
    Compression { error: CompressionError, context: Option<ErrorContext>, suggestion: Option<Suggestion> },
    /// Errors while decompressing.
    Decompression { error: DecompressionError, context: Option<ErrorContext>, suggestion: Option<Suggestion> },
    /// Errors in archive operations.
    Archive { error: ArchiveError, context: Option<ErrorContext>, suggestion: Option<Suggestion> },
    /// Input/output errors.
    Io { error: std::io::Error, context: Option<ErrorContext>, suggestion: Option<Suggestion> },
    /// Invalid parameters.
    InvalidInput { message: String, context: Option<ErrorContext>, suggestion: Option<Suggestion> },
    /// Unsupported operations.
    Unsupported { operation: String, context: Option<ErrorContext>, suggestion: Option<Suggestion> },
}

/// The error with `context` attached and any suggestion removed.
pub open spec fn attach_context(e: MismallError, context: ErrorContext) -> MismallError {
    match e {
        MismallError::Compression { error, .. } => MismallError::Compression {
            error,
            context: Some(context),
            suggestion: None,
        },
        MismallError::Decompression { error, .. } => MismallError::Decompression {
            error,
            context: Some(context),
            suggestion: None,
        },
        MismallError::Archive { error, .. } => MismallError::Archive {
            error,
            context: Some(context),
            suggestion: None,
        },
        MismallError::Io { error, .. } => MismallError::Io { error, context: Some(context), suggestion: None },
        MismallError::InvalidInput { message, .. } => MismallError::InvalidInput {
            message,
            context: Some(context),
            suggestion: None,
        },
        MismallError::Unsupported { operation, .. } => MismallError::Unsupported {
            operation,
            context: Some(context),
            suggestion: None,
        },
    }
}

/// The error with `suggestion` attached and any context removed.
pub open spec fn attach_suggestion(e: MismallError, suggestion: Suggestion) -> MismallError {
    match e {
        MismallError::Compression { error, .. } => MismallError::Compression {
            error,
            context: None,
            suggestion: Some(suggestion),
        },
        MismallError::Decompression { error, .. } => MismallError::Decompression {
            error,
            context: None,
            suggestion: Some(suggestion),
        },
        MismallError::Archive { error, .. } => MismallError::Archive {
            error,
            context: None,
            suggestion: Some(suggestion),
        },
        MismallError::Io { error, .. } => MismallError::Io { error, context: None, suggestion: Some(suggestion) },
        MismallError::InvalidInput { message, .. } => MismallError::InvalidInput {
            message,
            context: None,
            suggestion: Some(suggestion),
        },
        MismallError::Unsupported { operation, .. } => MismallError::Unsupported {
            operation,
            context: None,
            suggestion: Some(suggestion),
        },
    }
}

/// Attaching context or a suggestion to the error of a result.
pub trait ErrorExt {
    /// The result with `context` attached to its error.
    fn with_context(self, context: ErrorContext) -> Self;

    /// The result with `suggestion` attached to its error.
    fn with_suggestion(self, suggestion: Suggestion) -> Self;
}

impl ErrorExt for Result<(), MismallError> {
    /// An `Ok` stays as it is; an error keeps its kind and payload, gets
    /// `context` and loses any suggestion.
    fn with_context(self, context: ErrorContext) -> (r: Result<(), MismallError>)
        ensures
            match self {
                Ok(()) => r == Ok::<(), MismallError>(()),
                Err(e) => r == Err::<(), MismallError>(attach_context(e, context)),
            },
    {
        match self {
            Ok(()) => Ok(()),
            Err(e) => Err(
                match e {
                    MismallError::Compression { error, .. } => MismallError::Compression {
                        error,
                        context: Some(context),
                        suggestion: None,
                    },
                    MismallError::Decompression { error, .. } => MismallError::Decompression {
                        error,
                        context: Some(context),
                        suggestion: None,
                    },
                    MismallError::Archive { error, .. } => MismallError::Archive {
                        error,
                        context: Some(context),
                        suggestion: None,
                    },
                    MismallError::Io { error, .. } => MismallError::Io {
                        error,
                        context: Some(context),
                        suggestion: None,
                    },
                    MismallError::InvalidInput { message, .. } => MismallError::InvalidInput {
                        message,
                        context: Some(context),
                        suggestion: None,
                    },
                    MismallError::Unsupported { operation, .. } => MismallError::Unsupported {
                        operation,
                        context: Some(context),
                        suggestion: None,
                    },
                },
            ),
        }
    }

    /// An `Ok` stays as it is; an error keeps its kind and payload, gets
    /// `suggestion` and loses any context.
    fn with_suggestion(self, suggestion: Suggestion) -> (r: Result<(), MismallError>)
        ensures
            match self {
                Ok(()) => r == Ok::<(), MismallError>(()),
                Err(e) => r == Err::<(), MismallError>(attach_suggestion(e, suggestion)),
            },
    {
        match self {
            Ok(()) => Ok(()),
            Err(e) => Err(
                match e {
                    MismallError::Compression { error, .. } => MismallError::Compression {
                        error,
                        context: None,
                        suggestion: Some(suggestion),
                    },
                    MismallError::Decompression { error, .. } => MismallError::Decompression {
                        error,
                        context: None,
                        suggestion: Some(suggestion),
                    },
                    MismallError::Archive { error, .. } => MismallError::Archive {
                        error,
                        context: None,
                        suggestion: Some(suggestion),
                    },
                    MismallError::Io { error, .. } => MismallError::Io {
                        error,
                        context: None,
                        suggestion: Some(suggestion),
                    },
                    MismallError::InvalidInput { message, .. } => MismallError::InvalidInput {
                        message,
                        context: None,
                        suggestion: Some(suggestion),
                    },
                    MismallError::Unsupported { operation, .. } => MismallError::Unsupported {
                        operation,
                        context: None,
                        suggestion: Some(suggestion),
                    },
                },
            ),
        }
    }
}

/// Attaching a suggestion discards context attached before, and attaching
/// context discards a suggestion attached before: only the last one stays.
pub proof fn lemma_last_attachment_wins(e: MismallError, context: ErrorContext, suggestion: Suggestion)
    ensures
        attach_suggestion(attach_context(e, context), suggestion) == attach_suggestion(e, suggestion),
        attach_context(attach_suggestion(e, suggestion), context) == attach_context(e, context),
{
}

/// An error together with optional context and suggestion.
#[derive(Debug)]
pub struct EnhancedError<T> {
    /// The error that occurred.
    pub original: T,
    /// Where and when it occurred.
    pub context: Option<ErrorContext>,
    /// How to resolve it.
    pub suggestion: Option<Suggestion>,
}

impl<T> EnhancedError<T> {
    /// `original` with neither context nor suggestion.
    pub fn new(original: T) -> (e: EnhancedError<T>)
        ensures
            e.original == original,
            e.context is None,
            e.suggestion is None,
    {
        EnhancedError { original, context: None, suggestion: None }
    }

    /// `original` with `context`.
    pub fn new_with_context(original: T, context: ErrorContext) -> (e: EnhancedError<T>)
        ensures
            e.original == original,
            e.context == Some(context),
            e.suggestion is None,
    {
        EnhancedError { original, context: Some(context), suggestion: None }
    }

    /// `original` with `suggestion`.
    pub fn new_with_suggestion(original: T, suggestion: Suggestion) -> (e: EnhancedError<T>)
        ensures
            e.original == original,
            e.context is None,
            e.suggestion == Some(suggestion),
    {
        EnhancedError { original, context: None, suggestion: Some(suggestion) }
    }
}

impl From<CompressionError> for MismallError {
    fn from(err: CompressionError) -> (r: MismallError) {
        MismallError::Compression { error: err, context: None, suggestion: None }
    }
}

impl FromSpecImpl<CompressionError> for MismallError {
    open spec fn obeys_from_spec() -> bool {
        true
    }

    open spec fn from_spec(err: CompressionError) -> MismallError {
        MismallError::Compression { error: err, context: None, suggestion: None }
    }
}

impl From<DecompressionError> for MismallError {
    fn from(err: DecompressionError) -> (r: MismallError) {
        MismallError::Decompression { error: err, context: None, suggestion: None }
    }
}

impl FromSpecImpl<DecompressionError> for MismallError {
    open spec fn obeys_from_spec() -> bool {
        true
    }

    open spec fn from_spec(err: DecompressionError) -> MismallError {
        MismallError::Decompression { error: err, context: None, suggestion: None }
    }
}

impl From<ArchiveError> for MismallError {
    fn from(err: ArchiveError) -> (r: MismallError) {
        MismallError::Archive { error: err, context: None, suggestion: None }
    }
}

impl FromSpecImpl<ArchiveError> for MismallError {
    open spec fn obeys_from_spec() -> bool {
        true
    }

    open spec fn from_spec(err: ArchiveError) -> MismallError {
        MismallError::Archive { error: err, context: None, suggestion: None }
    }
}

impl From<std::io::Error> for MismallError {
    fn from(err: std::io::Error) -> (r: MismallError) {
        MismallError::Io { error: err, context: None, suggestion: None }
    }
}

impl FromSpecImpl<std::io::Error> for MismallError {
    open spec fn obeys_from_spec() -> bool {
        true
    }

    open spec fn from_spec(err: std::io::Error) -> MismallError {
        MismallError::Io { error: err, context: None, suggestion: None }
    }
}

impl From<String> for MismallError {
    fn from(err: String) -> (r: MismallError) {
        MismallError::InvalidInput { message: err, context: None, suggestion: None }
    }
}

impl FromSpecImpl<String> for MismallError {
    open spec fn obeys_from_spec() -> bool {
        true
    }

    open spec fn from_spec(err: String) -> MismallError {
        MismallError::InvalidInput { message: err, context: None, suggestion: None }
    }
}

/// The decimal digits of `n`, most significant first.
pub open spec fn decimal_text(n: nat) -> Seq<char>
    decreases n,
{
    if n < 10 {
        seq![digit_char(n)]
    } else {
        decimal_text(n / 10) + seq![digit_char(n % 10)]
    }
}

/// The character of a decimal digit.
pub open spec fn digit_char(d: nat) -> char {
    if d == 0 { '0' } else if d == 1 { '1' } else if d == 2 { '2' } else if d == 3 { '3' } else if d == 4 { '4' }
    else if d == 5 { '5' } else if d == 6 { '6' } else if d == 7 { '7' } else if d == 8 { '8' } else { '9' }
}

/// The text of one decimal digit.
fn digit(d: u64) -> (s: &'static str)
    requires
        d < 10,
    ensures
        s@ == seq![digit_char(d as nat)],
{
    proof {
        reveal_strlit("0");
        reveal_strlit("1");
        reveal_strlit("2");
        reveal_strlit("3");
        reveal_strlit("4");
        reveal_strlit("5");
        reveal_strlit("6");
        reveal_strlit("7");
        reveal_strlit("8");
        reveal_strlit("9");
    }
    if d == 0 { "0" } else if d == 1 { "1" } else if d == 2 { "2" } else if d == 3 { "3" } else if d == 4 { "4" }
    else if d == 5 { "5" } else if d == 6 { "6" } else if d == 7 { "7" } else if d == 8 { "8" } else { "9" }
}

/// `n` written in decimal.
fn decimal(n: u64) -> (s: String)
    ensures
        s@ == decimal_text(n as nat),
    decreases n,
{
    if n < 10 {
        String::from_str(digit(n))
    } else {
        let mut s = decimal(n / 10);
        s.append(digit(n % 10));
        s
    }
}

/// `std::io::Error`'s `Display` text. Nothing is claimed of the text.
#[verifier::external_body]
fn io_error_text(error: &std::io::Error) -> String {
    format!("{}", error)
}

/// The message of each compression error.
pub open spec fn compression_error_text(e: CompressionError) -> Seq<char> {
    match e {
        CompressionError::InvalidChunkSize(size) => "Invalid chunk size: "@ + decimal_text(size as nat)
            + " (must be between 1KB and 100MB)"@,
        CompressionError::InputRead(msg) => "Failed to read input: "@ + msg@,
        CompressionError::OutputWrite(msg) => "Failed to write output: "@ + msg@,
        CompressionError::CompressionFailed(msg) => "Compression failed: "@ + msg@,
        CompressionError::Encryption(msg) => "Encryption error: "@ + msg@,
    }
}

impl CompressionError {
    /// The message of the error.
    pub fn to_string(&self) -> (s: String)
        ensures
            s@ == compression_error_text(*self),
    {
        match self {
            CompressionError::InvalidChunkSize(size) => {
                let mut s = String::from_str("Invalid chunk size: ");
                s.append(decimal(*size as u64).as_str());
                s.append(" (must be between 1KB and 100MB)");
                s
            },
            CompressionError::InputRead(msg) => String::from_str("Failed to read input: ").concat(msg.as_str()),
            CompressionError::OutputWrite(msg) => String::from_str("Failed to write output: ").concat(msg.as_str()),
            CompressionError::CompressionFailed(msg) => String::from_str("Compression failed: ").concat(msg.as_str()),
            CompressionError::Encryption(msg) => String::from_str("Encryption error: ").concat(msg.as_str()),
        }
    }
}

/// The message of each decompression error.
pub open spec fn decompression_error_text(e: DecompressionError) -> Seq<char> {
    match e {
        DecompressionError::InvalidChunkSize(size) => "Invalid chunk size: "@ + decimal_text(size as nat)
            + " (must be between 1KB and 100MB)"@,
        DecompressionError::InputRead(msg) => "Failed to read input: "@ + msg@,
        DecompressionError::OutputWrite(msg) => "Failed to write output: "@ + msg@,
        DecompressionError::DecompressionFailed(msg) => "Decompression failed: "@ + msg@,
        DecompressionError::InvalidFormat(msg) => "Invalid file format: "@ + msg@,
        DecompressionError::CorruptedData(msg) => "Corrupted data: "@ + msg@,
        DecompressionError::DecryptionError(msg) => "Decryption error: "@ + msg@,
    }
}

impl DecompressionError {
    /// The message of the error.
    pub fn to_string(&self) -> (s: String)
        ensures
            s@ == decompression_error_text(*self),
    {
        match self {
            DecompressionError::InvalidChunkSize(size) => {
                let mut s = String::from_str("Invalid chunk size: ");
                s.append(decimal(*size as u64).as_str());
                s.append(" (must be between 1KB and 100MB)");
                s
            },
            DecompressionError::InputRead(msg) => String::from_str("Failed to read input: ").concat(msg.as_str()),
            DecompressionError::OutputWrite(msg) => String::from_str("Failed to write output: ").concat(msg.as_str()),
            DecompressionError::DecompressionFailed(msg) => String::from_str("Decompression failed: ").concat(
                msg.as_str(),
            ),
            DecompressionError::InvalidFormat(msg) => String::from_str("Invalid file format: ").concat(msg.as_str()),
            DecompressionError::CorruptedData(msg) => String::from_str("Corrupted data: ").concat(msg.as_str()),
            DecompressionError::DecryptionError(msg) => String::from_str("Decryption error: ").concat(msg.as_str()),
        }
    }
}

/// The message of each archive error.
pub open spec fn archive_error_text(e: ArchiveError) -> Seq<char> {
    match e {
        ArchiveError::Creation(msg) => "Archive creation failed: "@ + msg@,
        ArchiveError::TooManyFiles(count) => "Too many files in archive: "@ + decimal_text(count as nat) + " (max 65535)"@,
        ArchiveError::TooLarge(size) => "Archive too large: "@ + decimal_text(size as nat) + " bytes (max 4GB)"@,
        ArchiveError::Extraction(msg) => "Archive extraction failed: "@ + msg@,
        ArchiveError::InvalidFormat(msg) => "Invalid archive format: "@ + msg@,
        ArchiveError::FileNotFound(name) => "File not found in archive: "@ + name@,
    }
}

impl ArchiveError {
    /// The message of the error.
    pub fn to_string(&self) -> (s: String)
        ensures
            s@ == archive_error_text(*self),
    {
        match self {
            ArchiveError::Creation(msg) => String::from_str("Archive creation failed: ").concat(msg.as_str()),
            ArchiveError::TooManyFiles(count) => {
                let mut s = String::from_str("Too many files in archive: ");
                s.append(decimal(*count as u64).as_str());
                s.append(" (max 65535)");
                s
            },
            ArchiveError::TooLarge(size) => {
                let mut s = String::from_str("Archive too large: ");
                s.append(decimal(*size).as_str());
                s.append(" bytes (max 4GB)");
                s
            },
            ArchiveError::Extraction(msg) => String::from_str("Archive extraction failed: ").concat(msg.as_str()),
            ArchiveError::InvalidFormat(msg) => String::from_str("Invalid archive format: ").concat(msg.as_str()),
            ArchiveError::FileNotFound(name) => String::from_str("File not found in archive: ").concat(name.as_str()),
        }
    }
}

impl MismallError {
    /// The message of the error: its kind, then the message of what went
    /// wrong. The text of an I/O error is the operating system's.
    pub fn to_string(&self) -> (s: String)
        ensures
            match self {
                MismallError::Compression { error, .. } => s@ == "Compression error: "@ + compression_error_text(*error),
                MismallError::Decompression { error, .. } => s@ == "Decompression error: "@
                    + decompression_error_text(*error),
                MismallError::Archive { error, .. } => s@ == "Archive error: "@ + archive_error_text(*error),
                MismallError::Io { .. } => s@.take(11) == "I/O error: "@,
                MismallError::InvalidInput { message, .. } => s@ == "Invalid input: "@ + message@,
                MismallError::Unsupported { operation, .. } => s@ == "Unsupported operation: "@ + operation@,
            },
    {
        match self {
            MismallError::Compression { error, .. } => String::from_str("Compression error: ").concat(
                error.to_string().as_str(),
            ),
            MismallError::Decompression { error, .. } => String::from_str("Decompression error: ").concat(
                error.to_string().as_str(),
            ),
            MismallError::Archive { error, .. } => String::from_str("Archive error: ").concat(
                error.to_string().as_str(),
            ),
            MismallError::Io { error, .. } => {
                let s = String::from_str("I/O error: ").concat(io_error_text(error).as_str());
                proof {
                    reveal_strlit("I/O error: ");
                }
                assert(s@.take(11) =~= "I/O error: "@);
                s
            },
            MismallError::InvalidInput { message, .. } => String::from_str("Invalid input: ").concat(message.as_str()),
            MismallError::Unsupported { operation, .. } => String::from_str("Unsupported operation: ").concat(
                operation.as_str(),
            ),
        }
    }
}

} // verus!
