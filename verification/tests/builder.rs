use mismall::archive::builder::ArchiveBuilder;
use mismall::crypto::DEFAULT_CHUNK_SIZE;
use mismall::error::{ArchiveError, CompressionError, MismallError};

#[test]
fn builder_test_builder_creation() {
    let builder = ArchiveBuilder::new();
    assert_eq!(builder.file_count(), 0);
    assert!(builder.password().is_none());
    assert_eq!(builder.chunk_size(), DEFAULT_CHUNK_SIZE);
}

#[test]
fn test_add_file() {
    let builder = ArchiveBuilder::new().add_file("test.txt".to_string(), b"Hello, world!".to_vec()).unwrap();
    assert_eq!(builder.file_count(), 1);
    assert_eq!(builder.file(0).0, "test.txt");
    assert_eq!(builder.file(0).1, b"Hello, world!");
}

#[test]
fn test_add_file_validation() {
    // Empty path
    let result = ArchiveBuilder::new().add_file(String::new(), b"data".to_vec());
    assert!(result.is_err());

    // Path too long
    let long_path = "a".repeat(256);
    let result = ArchiveBuilder::new().add_file(long_path, b"data".to_vec());
    assert!(result.is_err());
}

#[test]
fn builder_test_builder_chain() {
    let builder = ArchiveBuilder::new().with_password("secret".to_string()).with_chunk_size(1024 * 1024);
    assert_eq!(builder.password(), Some("secret"));
    assert_eq!(builder.chunk_size(), 1024 * 1024);
}

#[test]
fn test_build_empty_archive() {
    let builder = ArchiveBuilder::new();
    let result = builder.build();
    assert!(result.is_err());
}

#[test]
fn test_build_archive() {
    let result = ArchiveBuilder::new().add_file("test.txt".to_string(), b"Hello".to_vec()).unwrap().build();
    assert_eq!(result.unwrap(), (1, 5, false));
}

#[test]
fn test_file_limits() {
    let mut builder = ArchiveBuilder::new();
    for i in 0..1000 {
        builder = builder.add_file(format!("file{}.txt", i), b"data".to_vec()).unwrap();
    }
    let result = builder.add_file("file1001.txt".to_string(), b"data".to_vec());
    assert!(result.is_err());
}

#[test]
fn builder_errors_name_the_rule_broken() {
    match ArchiveBuilder::new().add_file(String::new(), vec![1]) {
        Err(MismallError::Archive { error: ArchiveError::Creation(m), context: None, suggestion: None }) => {
            assert_eq!(m, "File path cannot be empty")
        }
        _ => panic!("expected a creation error"),
    }
    // 255 bytes is the longest path taken; a two-byte character counts twice.
    assert!(ArchiveBuilder::new().add_file("a".repeat(255), vec![]).is_ok());
    match ArchiveBuilder::new().add_file("é".repeat(128), vec![]) {
        Err(MismallError::Archive { error: ArchiveError::Creation(m), .. }) => {
            assert_eq!(m, "File path too long (max 255 characters)")
        }
        _ => panic!("expected a creation error"),
    }
    let mut builder = ArchiveBuilder::new();
    for i in 0..1000 {
        builder = builder.add_file(format!("f{}", i), vec![]).unwrap();
    }
    match builder.add_file("one more".to_string(), vec![]) {
        Err(MismallError::Archive { error: ArchiveError::TooManyFiles(n), .. }) => assert_eq!(n, 1001),
        _ => panic!("expected too many files"),
    }
}

#[test]
fn builder_build_reports_totals_and_checks_the_chunk_size() {
    let b = ArchiveBuilder::new()
        .add_file("a".to_string(), vec![0; 10])
        .unwrap()
        .add_file("b".to_string(), vec![0; 32])
        .unwrap()
        .with_password("pw".to_string());
    assert_eq!(b.build().unwrap(), (2, 42, true));
    let small = ArchiveBuilder::new().add_file("a".to_string(), vec![1]).unwrap().with_chunk_size(1024);
    match small.build() {
        Err(MismallError::Compression { error: CompressionError::InvalidChunkSize(c), .. }) => assert_eq!(c, 1024),
        _ => panic!("expected an invalid chunk size"),
    }
    match ArchiveBuilder::new().build() {
        Err(MismallError::Archive { error: ArchiveError::Creation(m), .. }) => {
            assert_eq!(m, "Cannot create archive with no files")
        }
        _ => panic!("expected a creation error"),
    }
}
