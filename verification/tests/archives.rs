use mismall::archive::{add_to_archive, archive_totals, create_archive, extract_all, extract_file, is_archive, is_encrypted, list_contents,
    read_archive_entries, same_text, validate_archive_path};
use mismall::error::{ArchiveError, DecompressionError, MismallError};
use mismall::headers::Headers;
use mismall::huffman::encoder::encode;

fn sample_files() -> Vec<(String, Vec<u8>)> {
    vec![
        ("a.txt".to_string(), b"first file, first file".to_vec()),
        ("dir/b.bin".to_string(), (0..=255u8).collect()),
        ("empty".to_string(), Vec::new()),
    ]
}

#[test]
fn archive_lists_and_extracts_every_file() {
    let files = sample_files();
    let mut archive = Vec::new();
    create_archive(&files, "bundle", None, &mut archive, 1 << 24).unwrap();
    let (master, _) = Headers::from_reader(&archive).unwrap();
    assert!(is_archive(&master));
    assert!(!is_encrypted(&master));
    assert_eq!(master.original_file_name, "bundle");
    assert_eq!(master.original_size, 22 + 256);
    let names = list_contents(&archive).unwrap();
    assert_eq!(names, vec!["a.txt", "dir/b.bin", "empty"]);
    let entries = read_archive_entries(&archive).unwrap();
    assert_eq!(entries.len(), 3);
    for (name, content) in &files {
        let mut out = Vec::new();
        extract_file(&archive, name, None, &mut out).unwrap();
        assert_eq!(&out, content);
    }
    let mut out = Vec::new();
    match extract_file(&archive, "missing", None, &mut out) {
        Err(MismallError::Archive { error: ArchiveError::FileNotFound(n), .. }) => assert_eq!(n, "missing"),
        other => panic!("unexpected {:?}", other),
    }
}

#[test]
fn encrypted_archive_needs_the_password() {
    let files = sample_files();
    let mut archive = Vec::new();
    create_archive(&files, "secret", Some("pw"), &mut archive, 1 << 24).unwrap();
    let (master, _) = Headers::from_reader(&archive).unwrap();
    assert!(is_encrypted(&master));
    let mut out = Vec::new();
    extract_file(&archive, "a.txt", Some("pw"), &mut out).unwrap();
    assert_eq!(out, b"first file, first file".to_vec());
    let mut out = Vec::new();
    match extract_file(&archive, "a.txt", None, &mut out) {
        Err(MismallError::Decompression { error: DecompressionError::DecompressionFailed(m), .. }) => {
            assert_eq!(m, "Error: File is encrypted, password required.")
        }
        other => panic!("unexpected {:?}", other),
    }
}

#[test]
fn adding_files_appends_them() {
    let mut one = Vec::new();
    encode(b"one", "one.txt", None, &mut one, 65536).unwrap();
    let mut two = Vec::new();
    encode(b"two", "two.txt", Some("pw"), &mut two, 65536).unwrap();
    let both = add_to_archive(one.clone(), two.clone()).unwrap();
    assert_eq!(list_contents(&both).unwrap(), vec!["one.txt", "two.txt"]);
    let (master, _) = Headers::from_reader(&both).unwrap();
    assert!(is_archive(&master) && is_encrypted(&master));
    assert_eq!(master.original_file_name, "one.txt");
    assert_eq!(master.original_size, 6);
    let mut three = Vec::new();
    encode(b"three", "three.txt", None, &mut three, 65536).unwrap();
    let all = add_to_archive(both, three).unwrap();
    assert_eq!(list_contents(&all).unwrap(), vec!["one.txt", "two.txt", "three.txt"]);
    let mut out = Vec::new();
    extract_file(&all, "three.txt", None, &mut out).unwrap();
    assert_eq!(out, b"three".to_vec());
    assert!(add_to_archive(b"junk".to_vec(), one).is_err());
}

#[test]
fn single_files_list_their_own_name_and_are_not_archives() {
    let mut one = Vec::new();
    encode(b"one", "one.txt", None, &mut one, 65536).unwrap();
    assert_eq!(list_contents(&one).unwrap(), vec!["one.txt"]);
    match read_archive_entries(&one) {
        Err(MismallError::Decompression { error: DecompressionError::InvalidFormat(m), .. }) => {
            assert_eq!(m, "Input file is not an archive")
        }
        other => panic!("unexpected {:?}", other),
    }
}

#[test]
fn archive_paths_are_checked() {
    assert!(validate_archive_path("a.small", true, true, true, Some("small")).is_ok());
    assert!(validate_archive_path("a", true, true, true, None).is_ok());
    match validate_archive_path("x.small", false, false, false, Some("small")) {
        Err(MismallError::InvalidInput { message, .. }) => assert_eq!(message, "Archive file does not exist: x.small"),
        other => panic!("unexpected {:?}", other),
    }
    match validate_archive_path("d", true, false, false, None) {
        Err(MismallError::InvalidInput { message, .. }) => assert_eq!(message, "Path is not a file: d"),
        other => panic!("unexpected {:?}", other),
    }
    match validate_archive_path("a.zip", true, true, true, Some("zip")) {
        Err(MismallError::InvalidInput { message, suggestion: Some(s), .. }) => {
            assert_eq!(message, "Invalid archive extension: \"zip\". Expected '.small'");
            assert_eq!(s.action, "Use .small extension");
        }
        other => panic!("unexpected {:?}", other),
    }
    match validate_archive_path("locked.small", true, true, false, Some("small")) {
        Err(MismallError::InvalidInput { message, suggestion: None, .. }) => {
            assert_eq!(message, "Archive file cannot be read: locked.small")
        }
        other => panic!("unexpected {:?}", other),
    }
    assert!(same_text("small", "small") && !same_text("small", "smalL"));
}

#[test]
fn extract_all_gives_every_file_in_order() {
    let files = sample_files();
    let mut archive = Vec::new();
    create_archive(&files, "bundle", Some("pw"), &mut archive, 1 << 24).unwrap();
    let (master, _) = Headers::from_reader(&archive).unwrap();
    assert_eq!(master.flags, 0x08 | 0x01);
    assert_eq!(master.checksum, 0);
    assert_eq!(master.padding_bits, 0);
    assert_eq!(extract_all(&archive, Some("pw"), 1 << 24).unwrap(), files);
    match extract_all(&archive, None, 1 << 24) {
        Err(MismallError::Decompression { error: DecompressionError::DecompressionFailed(m), .. }) => {
            assert_eq!(m, "Error: File is encrypted, password required.")
        }
        other => panic!("unexpected {:?}", other),
    }
    let mut single = Vec::new();
    encode(b"x", "x", None, &mut single, 1 << 16).unwrap();
    match extract_all(&single, None, 1 << 24) {
        Err(MismallError::Decompression { error: DecompressionError::InvalidFormat(m), .. }) => {
            assert_eq!(m, "Input file is not an archive")
        }
        other => panic!("unexpected {:?}", other),
    }
}

#[test]
fn added_files_get_a_fresh_master_header() {
    let mut a = Vec::new();
    encode(b"aaaa", "a", None, &mut a, 1 << 16).unwrap();
    let mut b = Vec::new();
    encode(b"bb", "b", Some("pw"), &mut b, 1 << 16).unwrap();
    let out = add_to_archive(a, b).unwrap();
    let (master, _) = Headers::from_reader(&out).unwrap();
    assert_eq!(master.flags, 0x08 | 0x01);
    assert_eq!(master.original_size, 6);
    assert_eq!(master.original_file_name, "a");
    assert_eq!(master.checksum, 0);
    assert_eq!(master.salt, [0u8; 16]);
}

#[test]
fn archives_keep_the_chunk_size_they_were_made_with() {
    let files = vec![("big.bin".to_string(), (0..200_000u32).map(|i| (i % 251) as u8).collect::<Vec<u8>>())];
    let mut archive = Vec::new();
    create_archive(&files, "chunks", Some("pw"), &mut archive, 1 << 16).unwrap();
    assert_eq!(extract_all(&archive, Some("pw"), 1 << 16).unwrap(), files);
    assert!(extract_all(&archive, Some("pw"), 1 << 24).is_err());
}

#[test]
fn archive_totals_count_and_sum_the_entries() {
    let files = sample_files();
    let mut archive = Vec::new();
    create_archive(&files, "bundle", None, &mut archive, 1 << 24).unwrap();
    let entries = read_archive_entries(&archive).unwrap();
    let (count, original, compressed, encrypted) = archive_totals(&entries);
    assert_eq!((count, original, encrypted), (3, 22 + 256, false));
    assert_eq!(compressed, entries.iter().map(|(h, _)| h.compressed_size).sum::<u64>());
    assert_eq!(archive_totals(&[]), (0, 0, 0, false));
}
