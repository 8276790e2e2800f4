use rusgit::bytes::{bytes_eq, bytes_lt, push_decimal};
use rusgit::codec::{
    content_digest, copy_range, digest_hex, envelope, find_byte, parse_digest, split_envelope,
    ObjectKind,
};
use rusgit::error::Error;

#[test]
fn envelope_of_small_blob() {
    assert_eq!(envelope(ObjectKind::Blob, b"hi\n"), b"blob 3\0hi\n".to_vec());
}

#[test]
fn envelope_of_empty_tree_and_commit() {
    assert_eq!(envelope(ObjectKind::Tree, b""), b"tree 0\0".to_vec());
    assert_eq!(envelope(ObjectKind::Commit, b"0123456789ab"), b"commit 12\x000123456789ab".to_vec());
}

#[test]
fn digest_of_small_blob_is_the_known_sha1() {
    let digest = content_digest(ObjectKind::Blob, b"hi\n");
    assert_eq!(digest_hex(&digest), "45b983be36b73c0788dc9cbcb76cbb80fc7bb057");
}

#[test]
fn digest_of_empty_tree_is_the_known_sha1() {
    let digest = content_digest(ObjectKind::Tree, b"");
    assert_eq!(digest_hex(&digest), "4b825dc642cb6eb9a060e54bf8d69288fbee4904");
}

#[test]
fn digest_is_stable_across_calls() {
    let body = vec![0u8, 1, 2, 255, 10, 0];
    let first = content_digest(ObjectKind::Blob, &body);
    let second = content_digest(ObjectKind::Blob, &body.clone());
    assert_eq!(first, second);
}

#[test]
fn kinds_with_one_body_have_different_digests() {
    let blob = content_digest(ObjectKind::Blob, b"same");
    let tree = content_digest(ObjectKind::Tree, b"same");
    let commit = content_digest(ObjectKind::Commit, b"same");
    assert_ne!(blob, tree);
    assert_ne!(blob, commit);
    assert_ne!(tree, commit);
}

#[test]
fn digest_differs_from_its_input() {
    let body = [7u8; 20];
    let digest = content_digest(ObjectKind::Blob, &body);
    assert_ne!(digest, body);
}

#[test]
fn hex_notation_of_a_digest() {
    let mut digest = [0u8; 20];
    digest[0] = 0x01;
    digest[1] = 0xab;
    digest[19] = 0xf0;
    assert_eq!(digest_hex(&digest), "01ab0000000000000000000000000000000000f0");
}

#[test]
fn parse_digest_reads_what_digest_hex_writes() {
    let digest = content_digest(ObjectKind::Blob, b"round trip");
    assert_eq!(parse_digest(&digest_hex(&digest)), Some(digest));
}

#[test]
fn parse_digest_refuses_other_texts() {
    assert_eq!(parse_digest(""), None);
    assert_eq!(parse_digest("45b983be36b73c0788dc9cbcb76cbb80fc7bb05"), None);
    assert_eq!(parse_digest("45b983be36b73c0788dc9cbcb76cbb80fc7bb0577"), None);
    assert_eq!(parse_digest("45B983BE36B73C0788DC9CBCB76CBB80FC7BB057"), None);
    assert_eq!(parse_digest("g5b983be36b73c0788dc9cbcb76cbb80fc7bb057"), None);
    assert_eq!(parse_digest("45b983be36b73c0788dc9cbcb76cbb80fc7bb05\u{e9}"), None);
}

#[test]
fn tags_name_their_kinds() {
    assert_eq!(ObjectKind::from_tag(b"blob"), Some(ObjectKind::Blob));
    assert_eq!(ObjectKind::from_tag(b"tree"), Some(ObjectKind::Tree));
    assert_eq!(ObjectKind::from_tag(b"commit"), Some(ObjectKind::Commit));
    assert_eq!(ObjectKind::from_tag(b"tag"), None);
    assert_eq!(ObjectKind::from_tag(b""), None);
    assert_eq!(ObjectKind::from_tag(b"blobs"), None);
    let mut out = Vec::new();
    ObjectKind::Commit.push_tag(&mut out);
    assert_eq!(out, b"commit".to_vec());
}

#[test]
fn split_envelope_gives_tag_and_body() {
    let (tag, body) = split_envelope(b"blob 3\0hi\n").unwrap();
    assert_eq!(tag, b"blob".to_vec());
    assert_eq!(body, b"hi\n".to_vec());
}

#[test]
fn split_envelope_splits_at_the_first_nul() {
    let (tag, body) = split_envelope(b"tree 4\0a\0b\0").unwrap();
    assert_eq!(tag, b"tree".to_vec());
    assert_eq!(body, b"a\0b\0".to_vec());
}

#[test]
fn split_envelope_accepts_any_word_as_tag() {
    let (tag, body) = split_envelope(b"tag_2 10\0").unwrap();
    assert_eq!(tag, b"tag_2".to_vec());
    assert_eq!(body, Vec::<u8>::new());
}

#[test]
fn split_envelope_round_trip_for_each_kind() {
    for kind in [ObjectKind::Blob, ObjectKind::Tree, ObjectKind::Commit] {
        let body = b"some\0body with spaces\n".to_vec();
        let (tag, back) = split_envelope(&envelope(kind, &body)).unwrap();
        assert_eq!(ObjectKind::from_tag(&tag), Some(kind));
        assert_eq!(back, body);
    }
}

#[test]
fn envelope_without_nul_is_corrupt() {
    assert_eq!(split_envelope(b"blob 3hi"), Err(Error::CorruptObject));
    assert_eq!(split_envelope(b""), Err(Error::CorruptObject));
}

#[test]
fn header_that_is_not_word_space_digits_is_malformed() {
    assert_eq!(split_envelope(b"blob\0hi"), Err(Error::MalformedHeader));
    assert_eq!(split_envelope(b"blob \0hi"), Err(Error::MalformedHeader));
    assert_eq!(split_envelope(b" 3\0hi"), Err(Error::MalformedHeader));
    assert_eq!(split_envelope(b"blob 3x\0hi"), Err(Error::MalformedHeader));
    assert_eq!(split_envelope(b"blob 3 \0hi"), Err(Error::MalformedHeader));
    assert_eq!(split_envelope(b"bl-ob 3\0hi"), Err(Error::MalformedHeader));
    assert_eq!(split_envelope(b"\0"), Err(Error::MalformedHeader));
}

#[test]
fn decimal_notation() {
    let mut out = b"n=".to_vec();
    push_decimal(&mut out, 0);
    out.push(b',');
    push_decimal(&mut out, 7);
    out.push(b',');
    push_decimal(&mut out, 10);
    out.push(b',');
    push_decimal(&mut out, 1234567890);
    out.push(b',');
    push_decimal(&mut out, u64::MAX);
    assert_eq!(out, b"n=0,7,10,1234567890,18446744073709551615".to_vec());
}

#[test]
fn lexicographic_order_of_bytes() {
    assert!(bytes_lt(b"a", b"b"));
    assert!(bytes_lt(b"", b"a"));
    assert!(bytes_lt(b"a", b"ab"));
    assert!(bytes_lt(b"a.b", b"a/b"));
    assert!(bytes_lt(b"Z", b"a"));
    assert!(bytes_lt(b"a", b"\xc3\xa9"));
    assert!(!bytes_lt(b"a", b"a"));
    assert!(!bytes_lt(b"b", b"a"));
    assert!(!bytes_lt(b"ab", b"a"));
    assert!(!bytes_lt(b"", b""));
    assert!(bytes_eq(b"abc", b"abc"));
    assert!(bytes_eq(b"", b""));
    assert!(!bytes_eq(b"abc", b"abd"));
    assert!(!bytes_eq(b"abc", b"ab"));
}

#[test]
fn find_byte_and_copy_range() {
    assert_eq!(find_byte(b"ab\0cd\0", 0), 2);
    assert_eq!(find_byte(b"abcd", 0), 4);
    assert_eq!(find_byte(b"", 0), 0);
    assert_eq!(copy_range(b"abcdef", 2, 5), b"cde".to_vec());
    assert_eq!(copy_range(b"abcdef", 3, 3), Vec::<u8>::new());
}

#[test]
fn every_error_has_its_message() {
    let all = [
        Error::NotFound,
        Error::CorruptObject,
        Error::MalformedHeader,
        Error::BadSignature,
        Error::UnsupportedVersion,
        Error::EncodingError,
        Error::PathTooLong,
        Error::UnsupportedState,
        Error::Truncated,
        Error::TooManyEntries,
        Error::CompressionFailed,
    ];
    for (i, a) in all.iter().enumerate() {
        assert!(!a.message().is_empty());
        for b in all.iter().skip(i + 1) {
            assert_ne!(a.message(), b.message());
        }
    }
    assert_eq!(Error::UnsupportedState.message(), "detached HEAD state is not supported");
}
