use rusgit::codec::{content_digest, ObjectKind};
use rusgit::error::Error;
use rusgit::index::{Index, IndexEntry};

fn paths(index: &Index) -> Vec<Vec<u8>> {
    index.entries().iter().map(|e| e.path.clone()).collect()
}

fn fields(index: &Index) -> Vec<(u32, [u8; 20], Vec<u8>)> {
    index.entries().iter().map(|e| (e.mode, e.hash, e.path.clone())).collect()
}

fn one_entry_file() -> Vec<u8> {
    let mut index = Index::new();
    index.add(b"a.txt".to_vec(), content_digest(ObjectKind::Blob, b"hi\n"), 0o100644);
    index.write().unwrap()
}

#[test]
fn load_without_a_file_gives_an_empty_index() {
    let index = Index::from_path(None).unwrap();
    assert!(index.is_empty());
    assert!(index.entries().is_empty());
}

#[test]
fn new_and_default_index_are_empty() {
    assert!(Index::new().is_empty());
    assert!(Index::default().is_empty());
}

#[test]
fn add_keeps_the_entries_sorted_by_path() {
    let mut index = Index::new();
    index.add(b"src/main.rs".to_vec(), [1; 20], 0o100644);
    index.add(b"README".to_vec(), [2; 20], 0o100644);
    index.add(b"src/lib.rs".to_vec(), [3; 20], 0o100644);
    index.add(b"a".to_vec(), [4; 20], 0o100755);
    assert_eq!(
        paths(&index),
        vec![b"README".to_vec(), b"a".to_vec(), b"src/lib.rs".to_vec(), b"src/main.rs".to_vec()]
    );
    assert!(!index.is_empty());
}

#[test]
fn add_orders_paths_by_bytes() {
    let mut index = Index::new();
    index.add(b"a/b".to_vec(), [1; 20], 0o100644);
    index.add(b"a.b".to_vec(), [2; 20], 0o100644);
    index.add(b"a".to_vec(), [3; 20], 0o100644);
    assert_eq!(paths(&index), vec![b"a".to_vec(), b"a.b".to_vec(), b"a/b".to_vec()]);
}

#[test]
fn add_replaces_the_entry_of_the_same_path() {
    let mut index = Index::new();
    index.add(b"b".to_vec(), [1; 20], 0o100644);
    index.add(b"a".to_vec(), [2; 20], 0o100644);
    index.add(b"c".to_vec(), [3; 20], 0o100644);
    index.add(b"b".to_vec(), [9; 20], 0o100755);
    assert_eq!(
        fields(&index),
        vec![
            (0o100644, [2; 20], b"a".to_vec()),
            (0o100755, [9; 20], b"b".to_vec()),
            (0o100644, [3; 20], b"c".to_vec()),
        ]
    );
}

#[test]
fn bytes_of_an_index_with_one_entry() {
    let digest = content_digest(ObjectKind::Blob, b"hi\n");
    let mut expected = b"DIRC".to_vec();
    expected.extend_from_slice(&[0, 0, 0, 2]);
    expected.extend_from_slice(&[0, 0, 0, 1]);
    expected.extend_from_slice(&[0u8; 24]);
    expected.extend_from_slice(&[0x00, 0x00, 0x81, 0xa4]);
    expected.extend_from_slice(&[0u8; 12]);
    expected.extend_from_slice(&digest);
    expected.extend_from_slice(&[0x00, 0x05]);
    expected.extend_from_slice(b"a.txt");
    expected.extend_from_slice(&[0u8; 5]);
    assert_eq!(expected.len(), 84);
    let checksum = [
        0xbf, 0x95, 0xfb, 0x80, 0x76, 0x6d, 0xd8, 0xd4, 0x8b, 0xd1, 0x7f, 0x67, 0x1e, 0x4d, 0x85,
        0x15, 0xbe, 0x58, 0x99, 0x6b,
    ];
    expected.extend_from_slice(&checksum);
    assert_eq!(one_entry_file(), expected);
}

#[test]
fn bytes_of_an_empty_index() {
    let mut expected = b"DIRC".to_vec();
    expected.extend_from_slice(&[0, 0, 0, 2, 0, 0, 0, 0]);
    let checksum = [
        0x39, 0xd8, 0x90, 0x13, 0x9e, 0xe5, 0x35, 0x6c, 0x7e, 0xf5, 0x72, 0x21, 0x6c, 0xeb, 0xcd,
        0x27, 0xaa, 0x41, 0xf9, 0xdf,
    ];
    expected.extend_from_slice(&checksum);
    assert_eq!(Index::new().write().unwrap(), expected);
}

#[test]
fn every_entry_is_padded_to_a_multiple_of_eight() {
    for len in 0..20usize {
        let mut index = Index::new();
        index.add(vec![b'p'; len], [0; 20], 0o100644);
        let bytes = index.write().unwrap();
        let entry_len = bytes.len() - 12 - 20;
        assert_eq!(entry_len % 8, 0);
        assert!(entry_len >= 62 + len);
        assert!(entry_len < 62 + len + 8);
    }
}

#[test]
fn path_of_two_bytes_needs_no_padding() {
    let mut index = Index::new();
    index.add(b"ab".to_vec(), [0; 20], 0o100644);
    assert_eq!(index.write().unwrap().len(), 12 + 64 + 20);
}

#[test]
fn written_index_is_loaded_as_it_was() {
    let mut index = Index::new();
    index.add(b"src/main.rs".to_vec(), [1; 20], 0o100644);
    index.add(b"README".to_vec(), [2; 20], 0o100755);
    index.add("caf\u{e9}/menu".as_bytes().to_vec(), [3; 20], 0o120000);
    index.add(b"".to_vec(), [4; 20], 0);
    index.add(b"x".to_vec(), [5; 20], u32::MAX);
    let bytes = index.write().unwrap();
    let loaded = Index::from_path(Some(&bytes)).unwrap();
    assert_eq!(fields(&loaded), fields(&index));
    assert_eq!(loaded.write().unwrap(), bytes);
}

#[test]
fn adds_then_save_then_load_give_the_last_write_of_each_path_in_order() {
    let mut index = Index::new();
    index.add(b"b.txt".to_vec(), [1; 20], 0o100644);
    index.add(b"a.txt".to_vec(), [2; 20], 0o100644);
    index.add(b"c.txt".to_vec(), [3; 20], 0o100644);
    index.add(b"a.txt".to_vec(), [4; 20], 0o100644);
    index.add(b"b.txt".to_vec(), [5; 20], 0o100755);
    index.add(b"a.txt".to_vec(), [6; 20], 0o100644);
    let loaded = Index::from_path(Some(&index.write().unwrap())).unwrap();
    assert_eq!(
        fields(&loaded),
        vec![
            (0o100644, [6; 20], b"a.txt".to_vec()),
            (0o100755, [5; 20], b"b.txt".to_vec()),
            (0o100644, [3; 20], b"c.txt".to_vec()),
        ]
    );
}

#[test]
fn longest_path_is_written_and_read() {
    let mut index = Index::new();
    index.add(vec![b'x'; 4095], [7; 20], 0o100644);
    let bytes = index.write().unwrap();
    let loaded = Index::from_path(Some(&bytes)).unwrap();
    assert_eq!(paths(&loaded), vec![vec![b'x'; 4095]]);
}

#[test]
fn path_beyond_the_length_field_is_too_long() {
    let mut index = Index::new();
    index.add(b"fine".to_vec(), [0; 20], 0o100644);
    index.add(vec![b'x'; 4096], [7; 20], 0o100644);
    assert_eq!(index.write(), Err(Error::PathTooLong));
}

#[test]
fn path_that_is_not_text_is_an_encoding_error() {
    let mut index = Index::new();
    index.add(b"bad\xff".to_vec(), [0; 20], 0o100644);
    assert_eq!(index.write(), Err(Error::EncodingError));
}

#[test]
fn first_faulty_entry_decides_the_error() {
    let mut index = Index::new();
    index.add(vec![b'a'; 5000], [0; 20], 0o100644);
    index.add(b"b\xff".to_vec(), [0; 20], 0o100644);
    assert_eq!(index.write(), Err(Error::PathTooLong));
    let mut index = Index::new();
    index.add(vec![0xff; 5000], [0; 20], 0o100644);
    assert_eq!(index.write(), Err(Error::EncodingError));
}

#[test]
fn wrong_signature_is_refused() {
    let mut bytes = one_entry_file();
    bytes[3] = b'X';
    assert_eq!(Index::from_path(Some(&bytes)).err(), Some(Error::BadSignature));
    assert_eq!(Index::from_path(Some(b"")).err(), Some(Error::BadSignature));
    assert_eq!(Index::from_path(Some(b"DIR")).err(), Some(Error::BadSignature));
}

#[test]
fn other_version_is_refused() {
    let mut bytes = one_entry_file();
    bytes[7] = 3;
    assert_eq!(Index::from_path(Some(&bytes)).err(), Some(Error::UnsupportedVersion));
    assert_eq!(Index::from_path(Some(b"DIRC")).err(), Some(Error::UnsupportedVersion));
    assert_eq!(Index::from_path(Some(b"DIRC\0\0\0")).err(), Some(Error::UnsupportedVersion));
}

#[test]
fn file_that_ends_early_is_truncated() {
    let bytes = one_entry_file();
    assert_eq!(Index::from_path(Some(b"DIRC\0\0\0\x02")).err(), Some(Error::Truncated));
    assert_eq!(Index::from_path(Some(&bytes[..12])).err(), Some(Error::Truncated));
    assert_eq!(Index::from_path(Some(&bytes[..12 + 61])).err(), Some(Error::Truncated));
    assert_eq!(Index::from_path(Some(&bytes[..12 + 64])).err(), Some(Error::Truncated));
    assert_eq!(Index::from_path(Some(&bytes[..12 + 71])).err(), Some(Error::Truncated));
    assert!(Index::from_path(Some(&bytes[..12 + 72])).is_ok());
}

#[test]
fn checksum_is_not_needed_to_load() {
    let bytes = one_entry_file();
    let index = Index::from_path(Some(&bytes[..bytes.len() - 20])).unwrap();
    assert_eq!(paths(&index), vec![b"a.txt".to_vec()]);
}

#[test]
fn stored_path_that_is_not_text_is_an_encoding_error() {
    let mut bytes = one_entry_file();
    bytes[12 + 62] = 0xff;
    assert_eq!(Index::from_path(Some(&bytes)).err(), Some(Error::EncodingError));
}

#[test]
fn only_the_low_twelve_bits_of_the_length_are_read() {
    let mut bytes = one_entry_file();
    bytes[12 + 60] = 0xf0;
    let index = Index::from_path(Some(&bytes)).unwrap();
    assert_eq!(paths(&index), vec![b"a.txt".to_vec()]);
}

#[test]
fn metadata_other_than_mode_is_not_kept() {
    let mut bytes = one_entry_file();
    for b in bytes[12..12 + 24].iter_mut() {
        *b = 0x11;
    }
    for b in bytes[12 + 28..12 + 40].iter_mut() {
        *b = 0x22;
    }
    let index = Index::from_path(Some(&bytes)).unwrap();
    assert_eq!(
        fields(&index),
        vec![(0o100644, content_digest(ObjectKind::Blob, b"hi\n"), b"a.txt".to_vec())]
    );
}

#[test]
fn unsorted_file_is_loaded_in_path_order_with_the_last_entry_of_each_path() {
    let entry = |path: &[u8], fill: u8| {
        let mut e = vec![0u8; 24];
        e.extend_from_slice(&[0, 0, 0x81, 0xa4]);
        e.extend_from_slice(&[0u8; 12]);
        e.extend_from_slice(&[fill; 20]);
        e.extend_from_slice(&[0, path.len() as u8]);
        e.extend_from_slice(path);
        let pad = (8 - (62 + path.len()) % 8) % 8;
        e.extend_from_slice(&vec![0u8; pad]);
        e
    };
    let mut bytes = b"DIRC\0\0\0\x02\0\0\0\x03".to_vec();
    bytes.extend_from_slice(&entry(b"z", 1));
    bytes.extend_from_slice(&entry(b"a", 2));
    bytes.extend_from_slice(&entry(b"z", 3));
    let index = Index::from_path(Some(&bytes)).unwrap();
    assert_eq!(
        fields(&index),
        vec![(0o100644, [2; 20], b"a".to_vec()), (0o100644, [3; 20], b"z".to_vec())]
    );
}

#[test]
fn index_entry_is_a_plain_value() {
    let entry = IndexEntry { mode: 0o100644, hash: [1; 20], path: b"p".to_vec() };
    let copy = entry.clone();
    assert_eq!(copy.mode, entry.mode);
    assert_eq!(copy.hash, entry.hash);
    assert_eq!(copy.path, entry.path);
}

#[test]
fn clear_unstages_everything() {
    let mut index = Index::new();
    index.add(b"a".to_vec(), [1; 20], 0o100644);
    index.add(b"b".to_vec(), [2; 20], 0o100644);
    index.clear();
    assert!(index.is_empty());
    assert_eq!(index.write().unwrap(), Index::new().write().unwrap());
}
