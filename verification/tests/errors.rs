use mismall::error::context::{EnhancedError, ErrorContext, Suggestion};
use mismall::error::{CompressionError, ErrorExt, MismallError};
use mismall::errors::{self, MismallError as Legacy};
use std::path::PathBuf;

#[test]
fn test_error_context_builder() {
    let context = ErrorContext::new("test_operation")
        .with_file_path("/test/file.txt")
        .with_position(1024)
        .with_chunk_size(4096);

    assert_eq!(context.operation, "test_operation");
    assert_eq!(context.file_path, Some(PathBuf::from("/test/file.txt")));
    assert_eq!(context.position, Some(1024));
    assert_eq!(context.chunk_size, Some(4096));
}

#[test]
fn test_suggestion_builder() {
    let suggestion = Suggestion::new("Check permissions", "Directory not writable")
        .with_code("ERR_PERMISSIONS")
        .with_documentation("https://docs.example.com/permissions");

    assert_eq!(suggestion.action, "Check permissions");
    assert_eq!(suggestion.reason, "Directory not writable");
    assert_eq!(suggestion.code, Some("ERR_PERMISSIONS".to_string()));
    assert_eq!(
        suggestion.documentation_url,
        Some("https://docs.example.com/permissions".to_string())
    );
}

#[test]
fn test_enhanced_error() {
    let io_error = std::io::Error::new(std::io::ErrorKind::NotFound, "file not found");
    let context = ErrorContext::new("read_file").with_position(100);
    let enhanced = EnhancedError::new_with_context(io_error, context);

    assert!(enhanced.context.is_some());
    assert_eq!(enhanced.context.unwrap().position, Some(100));
}

#[test]
fn custom_context_is_kept() {
    let context = ErrorContext::new("decrypt_file").with_custom_context("Using AES-256-GCM encryption");
    assert_eq!(context.custom_context, Some("Using AES-256-GCM encryption".to_string()));
    assert_eq!(context.file_path, None);
    assert_eq!(context.position, None);
}

#[test]
fn enhanced_error_constructors() {
    let plain = EnhancedError::new(7u32);
    assert_eq!(plain.original, 7);
    assert!(plain.context.is_none() && plain.suggestion.is_none());
    let with_suggestion = EnhancedError::new_with_suggestion(8u32, Suggestion::new("Try again", "Temporary issue"));
    assert!(with_suggestion.context.is_none());
    assert_eq!(with_suggestion.suggestion.unwrap().action, "Try again");
    let other = mismall::error::EnhancedError::new_with_context(9u32, ErrorContext::new("op"));
    assert_eq!(other.original, 9);
    assert_eq!(other.context.unwrap().operation, "op");
}

#[test]
fn context_then_suggestion_keeps_only_the_suggestion() {
    let failed: Result<(), MismallError> = Err(MismallError::Compression {
        error: CompressionError::InvalidChunkSize(5),
        context: None,
        suggestion: None,
    });
    let with_context = failed.with_context(ErrorContext::new("compress"));
    match &with_context {
        Err(MismallError::Compression { error: CompressionError::InvalidChunkSize(5), context: Some(c), suggestion: None }) => {
            assert_eq!(c.operation, "compress")
        }
        other => panic!("unexpected {:?}", other),
    }
    let with_suggestion = with_context.with_suggestion(Suggestion::new("Use 1MB", "Too small"));
    match with_suggestion {
        Err(MismallError::Compression { error: CompressionError::InvalidChunkSize(5), context: None, suggestion: Some(s) }) => {
            assert_eq!(s.reason, "Too small")
        }
        other => panic!("unexpected {:?}", other),
    }
    let fine: Result<(), MismallError> = Ok(());
    assert!(fine.with_context(ErrorContext::new("x")).is_ok());
}

#[test]
fn conversions_into_the_main_error() {
    let e: MismallError = CompressionError::InputRead("gone".to_string()).into();
    assert!(matches!(e, MismallError::Compression { error: CompressionError::InputRead(_), context: None, suggestion: None }));
    let e: MismallError = std::io::Error::new(std::io::ErrorKind::Other, "x").into();
    assert!(matches!(e, MismallError::Io { context: None, suggestion: None, .. }));
    let e: MismallError = "bad".to_string().into();
    match e {
        MismallError::InvalidInput { message, .. } => assert_eq!(message, "bad"),
        other => panic!("unexpected {:?}", other),
    }
}

#[test]
fn legacy_error_constructors_and_suggestions() {
    assert!(matches!(errors::encryption_error("bad password"), Legacy::EncryptionError(m) if m == "bad password"));
    assert!(matches!(errors::format_error("x"), Legacy::InvalidFormat(m) if m == "x"));
    assert!(matches!(errors::memory_error("y"), Legacy::MemoryError(m) if m == "y"));
    assert!(matches!(errors::compression_error("z"), Legacy::CompressionError(m) if m == "z"));
    assert!(matches!(errors::archive_error("w"), Legacy::ArchiveError(m) if m == "w"));
    let io = errors::io_error("reading", std::io::Error::new(std::io::ErrorKind::NotFound, "nope"));
    match io {
        Legacy::IoError(c, e) => {
            assert_eq!(c, "reading");
            assert!(errors::get_io_suggestions(&e).starts_with("• Check if the file path is correct"));
        }
        other => panic!("unexpected {:?}", other),
    }
    assert!(errors::get_encryption_suggestions("wrong password").starts_with("• Double-check the password"));
    assert!(errors::get_encryption_suggestions("bad tag").starts_with("• The file may be corrupted during transfer"));
    assert!(errors::get_encryption_suggestions("other").starts_with("• Ensure the file was actually encrypted"));
    assert!(errors::get_format_suggestions("not a .small file").starts_with("• Ensure you're decompressing"));
    assert!(errors::get_format_suggestions("bad").starts_with("• Check if the file type is supported"));
    assert!(errors::get_memory_suggestions("chunk too big").starts_with("• Reduce the --chunk-size parameter (try 8MB or 4MB)"));
    assert!(errors::get_compression_suggestions("buffer overflow").starts_with("• Reduce the --chunk-size parameter\n"));
    assert!(errors::get_compression_suggestions("empty tree").starts_with("• Check if the input file is empty"));
    assert!(errors::get_archive_suggestions("file not found").starts_with("• List archive contents"));
    assert!(errors::get_archive_suggestions("archive corrupted").starts_with("• Verify the archive file is not corrupted"));
    assert!(errors::get_archive_suggestions("denied").starts_with("• Ensure you have sufficient permissions"));
    assert!(errors::contains("hello world", "lo w"));
    assert!(!errors::contains("hello", "hello!"));
    assert!(errors::contains("abc", ""));
}

#[test]
fn error_messages_render_numbers_in_decimal() {
    assert_eq!(
        CompressionError::InvalidChunkSize(32768).to_string(),
        "Invalid chunk size: 32768 (must be between 1KB and 100MB)"
    );
    assert_eq!(mismall::error::ArchiveError::TooManyFiles(0).to_string(), "Too many files in archive: 0 (max 65535)");
    assert_eq!(
        mismall::error::ArchiveError::TooLarge(18446744073709551615).to_string(),
        "Archive too large: 18446744073709551615 bytes (max 4GB)"
    );
    let e = MismallError::Decompression {
        error: mismall::error::DecompressionError::CorruptedData("bad".to_string()),
        context: None,
        suggestion: None,
    };
    assert_eq!(e.to_string(), "Decompression error: Corrupted data: bad");
    let io = MismallError::Io { error: std::io::Error::new(std::io::ErrorKind::Other, "disk"), context: None, suggestion: None };
    assert_eq!(io.to_string(), "I/O error: disk");
}

#[test]
fn legacy_errors_render_with_suggestions() {
    let e = errors::encryption_error("wrong password");
    assert_eq!(
        e.to_string(),
        "wrong password\n\n💡 Suggestions:\n• Double-check the password - it's case-sensitive\n• Try copying and pasting the password to avoid typos\n• Ensure you're using the correct password for this file\n• Check if the file was encrypted with a different password"
    );
    let io = errors::io_error("Reading input", std::io::Error::new(std::io::ErrorKind::PermissionDenied, "no"));
    assert!(io.to_string().starts_with("Reading input\n\n💡 Suggestions:\n• Check file/directory permissions"));
}
