use snapstore::snapshot::{build_snapshots, BinSet, FolderData, SnapError};

fn folder(name: &str, files: Option<Vec<Vec<u8>>>) -> FolderData {
    FolderData { name: String::from(name), files }
}

#[test]
fn fingerprint_is_deterministic() {
    let f = folder(
        "1700000000",
        Some(vec![b"hello".to_vec(), b"world".to_vec()]),
    );
    let a = BinSet::from_folder(&f).unwrap();
    let b = BinSet::from_folder(&f).unwrap();
    assert_eq!(a, b);
    assert_eq!(a.timestamp, 1700000000);
    assert_eq!(a.size, 10);
    assert_eq!(a.document_count, 2);
}

#[test]
fn fingerprint_matches_streaming_digest_of_all_files() {
    let f = folder(
        "1700000000",
        Some(vec![b"hello".to_vec(), b"world".to_vec()]),
    );
    let s = BinSet::from_folder(&f).unwrap();
    let expected = blake3::hash(b"helloworld");
    assert_eq!(&s.data_hash, expected.as_bytes());
}

#[test]
fn fingerprint_of_empty_folder() {
    let f = folder("7", Some(vec![]));
    let s = BinSet::from_folder(&f).unwrap();
    assert_eq!(s.timestamp, 7);
    assert_eq!(s.size, 0);
    assert_eq!(s.document_count, 0);
    assert_eq!(&s.data_hash, blake3::hash(b"").as_bytes());
}

#[test]
fn malformed_folder_name_is_rejected() {
    let f = folder("not-a-number", Some(vec![b"x".to_vec()]));
    assert_eq!(
        BinSet::from_folder(&f),
        Err(SnapError::MalformedSnapshot)
    );
    let empty = folder("", Some(vec![]));
    assert_eq!(
        BinSet::from_folder(&empty),
        Err(SnapError::MalformedSnapshot)
    );
}

#[test]
fn unreadable_folder_is_an_io_error() {
    let f = folder("123", None);
    assert_eq!(BinSet::from_folder(&f), Err(SnapError::Io));
}

#[test]
fn name_with_plus_sign_parses_like_str_parse() {
    let f = folder("+123", Some(vec![]));
    let s = BinSet::from_folder(&f).unwrap();
    assert_eq!(s.timestamp, 123);
}

#[test]
fn build_snapshots_skips_bad_folders_and_keeps_order() {
    let folders = vec![
        folder("30", Some(vec![b"c".to_vec()])),
        folder("not-a-number", Some(vec![b"zzz".to_vec()])),
        folder("10", Some(vec![b"a".to_vec()])),
        folder("20", None),
        folder("40", Some(vec![b"d".to_vec()])),
    ];
    let snaps = build_snapshots(&folders);
    let stamps: Vec<u64> = snaps.iter().map(|s| s.timestamp).collect();
    assert_eq!(stamps, vec![30, 10, 40]);
}
