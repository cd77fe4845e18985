use vstd::prelude::*;
use std::path::PathBuf;
use std::time::SystemTime;

verus! {

#[verifier::external_type_specification]
#[verifier::external_body]
pub struct ExPathBuf(std::path::PathBuf);

#[verifier::external_type_specification]
#[verifier::external_body]
pub struct ExSystemTime(std::time::SystemTime);

/// `Clone` of `std::time::SystemTime`, a `Copy` type: the same time.
pub assume_specification[ <std::time::SystemTime as std::clone::Clone>::clone ](t: &std::time::SystemTime) -> (r: std::time::SystemTime)
    ensures
        r == *t,
;

/// `Clone` of `std::path::PathBuf`. Nothing is claimed of the copy.
pub assume_specification[ <std::path::PathBuf as std::clone::Clone>::clone ](p: &std::path::PathBuf) -> std::path::PathBuf;

/// `std::time::SystemTime::now`. Nothing is claimed of the time it reads.
#[verifier::external_body]
fn system_time_now() -> SystemTime {
    SystemTime::now()
}

/// The path `std::path::PathBuf::from` makes of the text `text`.
pub uninterp spec fn path_from_text(text: Seq<char>) -> PathBuf;

/// `std::path::PathBuf::from` on a string: claimed, that the path is the one
/// named for that text, so the same text gives the same path. What the path
/// holds is opaque here.
#[verifier::external_body]
fn path_buf_from(path: &str) -> (p: PathBuf)
    ensures
        p == path_from_text(path@),
{
    PathBuf::from(path)
}

/// Where and when an error happened.
#[derive(Debug, Clone)]
pub struct ErrorContext {
    /// The operation being performed.
    pub operation: String,
    /// The file being processed, if any.
    pub file_path: Option<PathBuf>,
    /// Byte position in the file or stream, if known.
    pub position: Option<u64>,
    /// Chunk size in use, if relevant.
    pub chunk_size: Option<usize>,
    /// When the context was created.
    pub timestamp: SystemTime,
    /// Free-form extra information.
    pub custom_context: Option<String>,
}

impl ErrorContext {
    /// Context for `operation`, with no other information yet.
    pub fn new(operation: &str) -> (c: ErrorContext)
        ensures
            c.operation@ == operation@,
            c.file_path is None,
            c.position is None,
            c.chunk_size is None,
            c.custom_context is None,
    {
        ErrorContext {
            operation: operation.to_owned(),
            file_path: None,
            position: None,
            chunk_size: None,
            timestamp: system_time_now(),
            custom_context: None,
        }
    }

    /// The same context with the file path set to `path`.
    pub fn with_file_path(self, path: &str) -> (c: ErrorContext)
        ensures
            c.file_path == Some(path_from_text(path@)),
            c.operation == self.operation,
            c.position == self.position,
            c.chunk_size == self.chunk_size,
            c.timestamp == self.timestamp,
            c.custom_context == self.custom_context,
    {
        let mut c = self;
        c.file_path = Some(path_buf_from(path));
        c
    }

    /// The same context with the position set to `position`.
    pub fn with_position(self, position: u64) -> (c: ErrorContext)
        ensures
            c.position == Some(position),
            c.operation == self.operation,
            c.file_path == self.file_path,
            c.chunk_size == self.chunk_size,
            c.timestamp == self.timestamp,
            c.custom_context == self.custom_context,
    {
        let mut c = self;
        c.position = Some(position);
        c
    }

    /// The same context with the chunk size set to `chunk_size`.
    pub fn with_chunk_size(self, chunk_size: usize) -> (c: ErrorContext)
        ensures
            c.chunk_size == Some(chunk_size),
            c.operation == self.operation,
            c.file_path == self.file_path,
            c.position == self.position,
            c.timestamp == self.timestamp,
            c.custom_context == self.custom_context,
    {
        let mut c = self;
        c.chunk_size = Some(chunk_size);
        c
    }

    /// The same context with the custom information set to `context`.
    pub fn with_custom_context(self, context: &str) -> (c: ErrorContext)
        ensures
            c.custom_context matches Some(s) && s@ == context@,
            c.operation == self.operation,
            c.file_path == self.file_path,
            c.position == self.position,
            c.chunk_size == self.chunk_size,
            c.timestamp == self.timestamp,
    {
        let mut c = self;
        c.custom_context = Some(context.to_owned());
        c
    }
}

/// Advice on how to resolve an error.
#[derive(Debug, Clone)]
pub struct Suggestion {
    /// What to do.
    pub action: String,
    /// Why it may help.
    pub reason: String,
    /// An error code, if any.
    pub code: Option<String>,
    /// A link to documentation, if any.
    pub documentation_url: Option<String>,
}

impl Suggestion {
    /// A suggestion to do `action` because of `reason`.
    pub fn new(action: &str, reason: &str) -> (s: Suggestion)
        ensures
            s.action@ == action@,
            s.reason@ == reason@,
            s.code is None,
            s.documentation_url is None,
    {
        Suggestion {
            action: action.to_owned(),
            reason: reason.to_owned(),
            code: None,
            documentation_url: None,
        }
    }

    /// The same suggestion with the error code set to `code`.
    pub fn with_code(self, code: &str) -> (s: Suggestion)
        ensures
            s.code matches Some(c) && c@ == code@,
            s.action == self.action,
            s.reason == self.reason,
            s.documentation_url == self.documentation_url,
    {
        let mut s = self;
        s.code = Some(code.to_owned());
        s
    }

    /// The same suggestion with the documentation link set to `url`.
    pub fn with_documentation(self, url: &str) -> (s: Suggestion)
        ensures
            s.documentation_url matches Some(u) && u@ == url@,
            s.action == self.action,
            s.reason == self.reason,
            s.code == self.code,
    {
        let mut s = self;
        s.documentation_url = Some(url.to_owned());
        s
    }
}

/// Attaching context or a suggestion to an error value.
pub trait ErrorExt<T> {
    /// The error with `context` attached.
    fn with_context(self, context: ErrorContext) -> EnhancedError<T>;

    /// The error with `suggestion` attached.
    fn with_suggestion(self, suggestion: Suggestion) -> EnhancedError<T>;
}

/// An error together with optional context and suggestion.
#[derive(Debug)]
pub struct EnhancedError<T> {
    /// The error that occurred.
    pub original: T,
    /// Where and when it occurred.
    pub context: Option<ErrorContext>,
    /// How to resolve it.
    pub suggestion: Option<Suggestion>,
}

impl<T> EnhancedError<T> {
    /// `original` with neither context nor suggestion.
    pub fn new(original: T) -> (e: EnhancedError<T>)
        ensures
            e.original == original,
            e.context is None,
            e.suggestion is None,
    {
        EnhancedError { original, context: None, suggestion: None }
    }

    /// `original` with `context`.
    pub fn new_with_context(original: T, context: ErrorContext) -> (e: EnhancedError<T>)
        ensures
            e.original == original,
            e.context == Some(context),
            e.suggestion is None,
    {
        EnhancedError { original, context: Some(context), suggestion: None }
    }

    /// `original` with `suggestion`.
    pub fn new_with_suggestion(original: T, suggestion: Suggestion) -> (e: EnhancedError<T>)
        ensures
            e.original == original,
            e.context is None,
            e.suggestion == Some(suggestion),
    {
        EnhancedError { original, context: None, suggestion: Some(suggestion) }
    }
}

} // verus!
