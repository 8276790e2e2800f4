use rusgit::codec::{content_digest, digest_hex, parse_digest, ObjectKind};
use rusgit::commands::add::{add, WorkFile, FILE_MODE};
use rusgit::commands::cat_file::cat_file;
use rusgit::commands::commit::{commit, CommitOutcome};
use rusgit::commands::commit_tree::{commit_tree, new_commit};
use rusgit::commands::hash_object::hash_object;
use rusgit::commands::init::init;
use rusgit::repository::head_ref_path;
use rusgit::commands::write_tree::{check_names, write_tree, WorkEntry};
use rusgit::error::Error;
use rusgit::index::Index;
use rusgit::objects::Tree;
use rusgit::store::ObjectStore;

const HEAD: &str = "ref: refs/heads/main\n";

fn file(name: &str, content: &[u8]) -> WorkEntry {
    WorkEntry::File { name: name.as_bytes().to_vec(), content: content.to_vec() }
}

fn dir(name: &str, children: Vec<WorkEntry>) -> WorkEntry {
    WorkEntry::Directory { name: name.as_bytes().to_vec(), children }
}

fn body_of(store: &ObjectStore, digest: &[u8; 20]) -> (Vec<u8>, Vec<u8>) {
    store.read_typed(digest).unwrap()
}

fn staged_index() -> Index {
    let mut index = Index::new();
    index.add(b"a.txt".to_vec(), [1; 20], FILE_MODE);
    index
}

#[test]
fn hash_object_gives_the_known_digest_of_hi() {
    let mut store = ObjectStore::new();
    assert_eq!(
        hash_object(b"hi\n", false, &mut store),
        Ok("45b983be36b73c0788dc9cbcb76cbb80fc7bb057".to_string())
    );
    assert!(store.objects().is_empty());
}

#[test]
fn hash_object_with_write_stores_the_blob() {
    let mut store = ObjectStore::new();
    let hash = hash_object(b"hi\n", true, &mut store).unwrap();
    assert_eq!(hash, "45b983be36b73c0788dc9cbcb76cbb80fc7bb057");
    let digest = parse_digest(&hash).unwrap();
    assert_eq!(store.read_raw(&digest).unwrap(), b"blob 3\0hi\n".to_vec());
    assert_eq!(store.objects().len(), 1);
}

#[test]
fn hash_object_hashes_the_raw_bytes() {
    let mut store = ObjectStore::new();
    let hash = hash_object(b"\xff\xfe", true, &mut store).unwrap();
    assert_eq!(hash, digest_hex(&content_digest(ObjectKind::Blob, b"\xff\xfe")));
    let digest = parse_digest(&hash).unwrap();
    assert_eq!(body_of(&store, &digest).1, b"\xff\xfe".to_vec());
}

#[test]
fn tree_lists_a_before_b_whatever_the_listing_order() {
    let x = content_digest(ObjectKind::Blob, b"X");
    let y = content_digest(ObjectKind::Blob, b"Y");
    let mut expected = b"100644 a.txt\0".to_vec();
    expected.extend_from_slice(&y);
    expected.extend_from_slice(b"100644 b.txt\0");
    expected.extend_from_slice(&x);
    for list in [
        vec![file("b.txt", b"X"), file("a.txt", b"Y")],
        vec![file("a.txt", b"Y"), file("b.txt", b"X")],
    ] {
        let mut store = ObjectStore::new();
        let digest = write_tree(&list, &mut store).unwrap();
        assert_eq!(digest_hex(&digest), "52830aedf861cf11053da25e7b0837e1c57b88e6");
        let (tag, body) = body_of(&store, &digest);
        assert_eq!(tag, b"tree".to_vec());
        assert_eq!(body, expected);
    }
}

#[test]
fn write_tree_writes_one_object_for_each_file_and_directory() {
    let list = vec![dir("sub", vec![file("c", b"Z")]), file("a.txt", b"Y")];
    let mut store = ObjectStore::new();
    let digest = write_tree(&list, &mut store).unwrap();
    assert_eq!(digest_hex(&digest), "051086b637ade735db924484c326b8c63d4be062");
    assert_eq!(store.objects().len(), 4);
    let sub = parse_digest("0749061f2f749f7059339d045edddb1ec31edcb6").unwrap();
    let z = content_digest(ObjectKind::Blob, b"Z");
    let y = content_digest(ObjectKind::Blob, b"Y");
    assert_eq!(body_of(&store, &z), (b"blob".to_vec(), b"Z".to_vec()));
    assert_eq!(body_of(&store, &y), (b"blob".to_vec(), b"Y".to_vec()));
    let mut sub_body = b"100644 c\0".to_vec();
    sub_body.extend_from_slice(&z);
    assert_eq!(body_of(&store, &sub), (b"tree".to_vec(), sub_body));
    let mut root_body = b"100644 a.txt\0".to_vec();
    root_body.extend_from_slice(&y);
    root_body.extend_from_slice(b"40000 sub\0");
    root_body.extend_from_slice(&sub);
    assert_eq!(body_of(&store, &digest), (b"tree".to_vec(), root_body));
}

#[test]
fn write_tree_of_an_empty_directory() {
    let mut store = ObjectStore::new();
    let digest = write_tree(&Vec::new(), &mut store).unwrap();
    assert_eq!(digest_hex(&digest), "4b825dc642cb6eb9a060e54bf8d69288fbee4904");
    assert_eq!(store.objects().len(), 1);
}

#[test]
fn write_tree_skips_the_metadata_directory_and_other_kinds() {
    let plain = vec![file("a.txt", b"Y"), file("b.txt", b"X")];
    let noisy = vec![
        dir(".git", vec![file("HEAD", b"ref: refs/heads/main\n"), file("\u{0}bad", b"")]),
        file("b.txt", b"X"),
        WorkEntry::Other { name: b"link".to_vec() },
        file("a.txt", b"Y"),
    ];
    let mut first = ObjectStore::new();
    let mut second = ObjectStore::new();
    let expected = write_tree(&plain, &mut first).unwrap();
    assert_eq!(write_tree(&noisy, &mut second), Ok(expected));
    assert_eq!(second.objects().len(), 3);
}

#[test]
fn write_tree_skips_a_file_named_like_the_metadata_directory() {
    let mut store = ObjectStore::new();
    let digest = write_tree(&vec![file(".git", b"gitdir: elsewhere")], &mut store).unwrap();
    assert_eq!(digest_hex(&digest), "4b825dc642cb6eb9a060e54bf8d69288fbee4904");
    assert_eq!(store.objects().len(), 1);
}

#[test]
fn write_tree_skips_the_metadata_directory_at_every_level() {
    let with = vec![dir("sub", vec![dir(".git", vec![file("x", b"x")]), file("c", b"Z")])];
    let without = vec![dir("sub", vec![file("c", b"Z")])];
    let mut first = ObjectStore::new();
    let mut second = ObjectStore::new();
    assert_eq!(write_tree(&with, &mut first), write_tree(&without, &mut second));
}

#[test]
fn write_tree_does_not_read_names_inside_the_metadata_directory() {
    let list = vec![WorkEntry::Directory {
        name: b".git".to_vec(),
        children: vec![WorkEntry::File { name: b"\xff".to_vec(), content: Vec::new() }],
    }];
    assert!(check_names(&list));
    let mut store = ObjectStore::new();
    assert!(write_tree(&list, &mut store).is_ok());
}

#[test]
fn name_that_is_not_text_is_an_encoding_error_and_nothing_is_written() {
    for bad in [
        WorkEntry::File { name: b"bad\xff".to_vec(), content: b"x".to_vec() },
        WorkEntry::Other { name: b"\xc3".to_vec() },
        WorkEntry::Directory { name: b"\xff".to_vec(), children: Vec::new() },
        dir("deep", vec![dir("er", vec![WorkEntry::Other { name: b"\x80".to_vec() }])]),
    ] {
        let list = vec![file("a.txt", b"Y"), bad];
        assert!(!check_names(&list));
        let mut store = ObjectStore::new();
        store.put([9; 20], b"kept".to_vec());
        assert_eq!(write_tree(&list, &mut store), Err(Error::EncodingError));
        assert_eq!(store.objects().len(), 1);
        assert_eq!(store.objects()[0].digest, [9; 20]);
    }
}

#[test]
fn write_tree_adds_to_what_the_store_holds() {
    let mut store = ObjectStore::new();
    let blob = store.write(ObjectKind::Blob, b"unrelated").unwrap();
    write_tree(&vec![file("a.txt", b"Y")], &mut store).unwrap();
    assert_eq!(store.objects().len(), 3);
    assert_eq!(body_of(&store, &blob).1, b"unrelated".to_vec());
    write_tree(&vec![file("a.txt", b"Y")], &mut store).unwrap();
    assert_eq!(store.objects().len(), 3);
}

#[test]
fn tree_of_write_tree_is_read_back_in_order() {
    let list = vec![file("z", b"1"), dir("m", Vec::new()), file("a", b"2")];
    let mut store = ObjectStore::new();
    let digest = write_tree(&list, &mut store).unwrap();
    let entries = rusgit::objects::parse::read_tree_entries(&body_of(&store, &digest).1).unwrap();
    let got: Vec<(String, String)> =
        entries.iter().map(|e| (e.mode.clone(), e.name.clone())).collect();
    assert_eq!(
        got,
        vec![
            ("100644".to_string(), "a".to_string()),
            ("40000".to_string(), "m".to_string()),
            ("100644".to_string(), "z".to_string()),
        ]
    );
    assert_eq!(Tree::new(entries).as_bytes(), body_of(&store, &digest).1);
}

#[test]
fn new_commit_has_fixed_identities_with_the_time() {
    let commit = new_commit("abc".to_string(), None, "msg".to_string(), 1700000000);
    assert_eq!(commit.tree_hash, "abc");
    assert!(commit.parents.is_empty());
    assert_eq!(commit.author, "Rusgit Author <author@example.com> 1700000000 +0000");
    assert_eq!(commit.committer, "Rusgit Committer <committer@example.com> 1700000000 +0000");
    assert_eq!(commit.message, "msg");
    let commit = new_commit("abc".to_string(), Some("def".to_string()), String::new(), 0);
    assert_eq!(commit.parents, vec!["def".to_string()]);
    assert_eq!(commit.author, "Rusgit Author <author@example.com> 0 +0000");
}

#[test]
fn commit_tree_writes_the_commit_object() {
    let mut store = ObjectStore::new();
    let digest = commit_tree(
        "52830aedf861cf11053da25e7b0837e1c57b88e6".to_string(),
        None,
        "first\n".to_string(),
        1700000000,
        &mut store,
    )
    .unwrap();
    assert_eq!(digest_hex(&digest), "3fa1addd0191120e33bcc03ced4282a8ee58fe96");
    let (tag, body) = body_of(&store, &digest);
    assert_eq!(tag, b"commit".to_vec());
    assert_eq!(
        body,
        b"tree 52830aedf861cf11053da25e7b0837e1c57b88e6\n\
          author Rusgit Author <author@example.com> 1700000000 +0000\n\
          committer Rusgit Committer <committer@example.com> 1700000000 +0000\n\
          \n\
          first\n"
            .to_vec()
    );
}

#[test]
fn commit_tree_with_a_parent() {
    let mut store = ObjectStore::new();
    let digest = commit_tree(
        "52830aedf861cf11053da25e7b0837e1c57b88e6".to_string(),
        Some("3fa1addd0191120e33bcc03ced4282a8ee58fe96".to_string()),
        "second".to_string(),
        1700000001,
        &mut store,
    )
    .unwrap();
    assert_eq!(digest_hex(&digest), "9adcd5a23175b7ebedaba25150dc3cf58befe53a");
    let text = String::from_utf8(body_of(&store, &digest).1).unwrap();
    assert_eq!(text.matches("parent ").count(), 1);
    assert!(text.contains("\nparent 3fa1addd0191120e33bcc03ced4282a8ee58fe96\n"));
}

#[test]
fn add_stages_files_and_writes_their_blobs() {
    let mut index = Index::new();
    let mut store = ObjectStore::new();
    let files = vec![
        WorkFile { path: b"b.txt".to_vec(), content: b"X".to_vec() },
        WorkFile { path: b"a.txt".to_vec(), content: b"hi\n".to_vec() },
    ];
    assert_eq!(add(&files, &mut index, &mut store), Ok(()));
    let got: Vec<(u32, String, Vec<u8>)> = index
        .entries()
        .iter()
        .map(|e| (e.mode, digest_hex(&e.hash), e.path.clone()))
        .collect();
    assert_eq!(
        got,
        vec![
            (0o100644, "45b983be36b73c0788dc9cbcb76cbb80fc7bb057".to_string(), b"a.txt".to_vec()),
            (0o100644, "500c0709ca24338426091ca19777e13a1920ebdf".to_string(), b"b.txt".to_vec()),
        ]
    );
    assert_eq!(store.objects().len(), 2);
    let hi = parse_digest("45b983be36b73c0788dc9cbcb76cbb80fc7bb057").unwrap();
    assert_eq!(store.read_raw(&hi).unwrap(), b"blob 3\0hi\n".to_vec());
}

#[test]
fn add_of_one_path_twice_keeps_the_last_contents() {
    let mut index = Index::new();
    let mut store = ObjectStore::new();
    index.add(b"a.txt".to_vec(), [7; 20], 0o100755);
    let files = vec![
        WorkFile { path: b"a.txt".to_vec(), content: b"old".to_vec() },
        WorkFile { path: b"a.txt".to_vec(), content: b"new".to_vec() },
    ];
    add(&files, &mut index, &mut store).unwrap();
    assert_eq!(index.entries().len(), 1);
    assert_eq!(index.entries()[0].hash, content_digest(ObjectKind::Blob, b"new"));
    assert_eq!(index.entries()[0].mode, 0o100644);
    assert_eq!(store.objects().len(), 2);
}

#[test]
fn add_of_nothing_changes_nothing() {
    let mut index = staged_index();
    let mut store = ObjectStore::new();
    assert_eq!(add(&Vec::new(), &mut index, &mut store), Ok(()));
    assert_eq!(index.entries().len(), 1);
    assert!(store.objects().is_empty());
}

#[test]
fn cat_file_shows_a_blob() {
    let mut store = ObjectStore::new();
    let hash = hash_object(b"hi\n", true, &mut store).unwrap();
    assert_eq!(cat_file(&hash, &store), Ok("hi\n".to_string()));
}

#[test]
fn cat_file_shows_a_tree_and_a_commit() {
    let mut store = ObjectStore::new();
    let tree = write_tree(&vec![file("b.txt", b"X"), file("a.txt", b"Y")], &mut store).unwrap();
    assert_eq!(
        cat_file(&digest_hex(&tree), &store),
        Ok("100644 24de910c13bb1e60fc5ec37a1058d356b1f2fa4d a.txt\n\
            100644 500c0709ca24338426091ca19777e13a1920ebdf b.txt\n"
            .to_string())
    );
    let commit =
        commit_tree(digest_hex(&tree), None, "first".to_string(), 5, &mut store).unwrap();
    assert_eq!(
        cat_file(&digest_hex(&commit), &store),
        Ok("tree 52830aedf861cf11053da25e7b0837e1c57b88e6\n\
            author Rusgit Author <author@example.com> 5 +0000\n\
            committer Rusgit Committer <committer@example.com> 5 +0000\n\
            \n\
            first\n"
            .to_string())
    );
}

#[test]
fn cat_file_of_an_unknown_digest_is_not_found() {
    let mut store = ObjectStore::new();
    hash_object(b"hi\n", true, &mut store).unwrap();
    assert_eq!(
        cat_file("0000000000000000000000000000000000000000", &store),
        Err(Error::NotFound)
    );
    assert_eq!(cat_file("45b9", &store), Err(Error::NotFound));
    assert_eq!(cat_file("", &store), Err(Error::NotFound));
    assert_eq!(
        cat_file("45B983BE36B73C0788DC9CBCB76CBB80FC7BB057", &store),
        Err(Error::NotFound)
    );
}

#[test]
fn cat_file_reports_what_reading_and_decoding_report() {
    let mut store = ObjectStore::new();
    store.put([1; 20], b"garbage".to_vec());
    assert_eq!(cat_file(&digest_hex(&[1; 20]), &store), Err(Error::CorruptObject));
    let bad_tree = store.write(ObjectKind::Tree, b"100644 cut").unwrap();
    assert_eq!(cat_file(&digest_hex(&bad_tree), &store), Err(Error::CorruptObject));
    let bad_commit = store.write(ObjectKind::Commit, b"tree t\nauthor \xff\ncommitter c\n\n").unwrap();
    assert_eq!(cat_file(&digest_hex(&bad_commit), &store), Err(Error::EncodingError));
}

#[test]
fn nothing_staged_means_nothing_to_commit() {
    let mut store = ObjectStore::new();
    let mut index = Index::new();
    let outcome = commit(
        &mut index,
        Some("not a symbolic ref"),
        None,
        &vec![file("a.txt", b"Y")],
        "msg".to_string(),
        1,
        &mut store,
    )
    .unwrap();
    assert!(matches!(outcome, CommitOutcome::NothingToCommit));
    assert!(store.objects().is_empty());
}

#[test]
fn first_commit_has_no_parent_and_second_has_the_first() {
    let list = vec![file("b.txt", b"X"), file("a.txt", b"Y")];
    let mut store = ObjectStore::new();
    let mut index = staged_index();
    let first = commit(
        &mut index,
        Some(HEAD),
        None,
        &list,
        "first\n".to_string(),
        1700000000,
        &mut store,
    )
    .unwrap();
    let (first_hash, update) = match first {
        CommitOutcome::Committed { hash, update } => (hash, update),
        other => panic!("no commit: {:?}", other),
    };
    assert_eq!(first_hash, "3fa1addd0191120e33bcc03ced4282a8ee58fe96");
    assert_eq!(update.path, "refs/heads/main");
    assert_eq!(update.content, "3fa1addd0191120e33bcc03ced4282a8ee58fe96\n");
    let body = body_of(&store, &parse_digest(&first_hash).unwrap()).1;
    let text = String::from_utf8(body).unwrap();
    assert_eq!(text.matches("parent ").count(), 0);
    assert!(text.starts_with("tree 52830aedf861cf11053da25e7b0837e1c57b88e6\nauthor "));
    assert_eq!(store.objects().len(), 4);
    assert!(index.is_empty());

    let mut index = staged_index();
    let second = commit(
        &mut index,
        Some(HEAD),
        Some(&update.content),
        &list,
        "second".to_string(),
        1700000001,
        &mut store,
    )
    .unwrap();
    let second_hash = match second {
        CommitOutcome::Committed { hash, .. } => hash,
        other => panic!("no commit: {:?}", other),
    };
    assert_eq!(second_hash, "9adcd5a23175b7ebedaba25150dc3cf58befe53a");
    let body = body_of(&store, &parse_digest(&second_hash).unwrap()).1;
    let text = String::from_utf8(body).unwrap();
    let parents: Vec<&str> = text.lines().filter(|l| l.starts_with("parent ")).collect();
    assert_eq!(parents, vec!["parent 3fa1addd0191120e33bcc03ced4282a8ee58fe96"]);
    assert_eq!(store.objects().len(), 5);
}

#[test]
fn commit_on_a_detached_head_fails_and_writes_nothing() {
    let mut store = ObjectStore::new();
    let mut index = staged_index();
    let res = commit(
        &mut index,
        Some("45b983be36b73c0788dc9cbcb76cbb80fc7bb057\n"),
        None,
        &vec![file("a.txt", b"Y")],
        "msg".to_string(),
        1,
        &mut store,
    );
    assert_eq!(res.err(), Some(Error::UnsupportedState));
    assert!(store.objects().is_empty());
    assert_eq!(index.entries().len(), 1);
}

#[test]
fn commit_without_head_fails_and_writes_nothing() {
    let mut store = ObjectStore::new();
    let mut index = staged_index();
    let res = commit(
        &mut index,
        None,
        None,
        &vec![file("a.txt", b"Y")],
        "msg".to_string(),
        1,
        &mut store,
    );
    assert_eq!(res.err(), Some(Error::NotFound));
    assert!(store.objects().is_empty());
}

#[test]
fn commit_with_a_name_that_is_not_text_fails_and_writes_nothing() {
    let mut store = ObjectStore::new();
    let list = vec![WorkEntry::File { name: b"\xff".to_vec(), content: Vec::new() }];
    let mut index = staged_index();
    let res = commit(&mut index, Some(HEAD), None, &list, "msg".to_string(), 1, &mut store);
    assert_eq!(res.err(), Some(Error::EncodingError));
    assert!(store.objects().is_empty());
}

#[test]
fn second_commit_with_nothing_staged_does_nothing() {
    let list = vec![file("a.txt", b"Y")];
    let mut store = ObjectStore::new();
    let mut index = staged_index();
    let first =
        commit(&mut index, Some(HEAD), None, &list, "one".to_string(), 1, &mut store).unwrap();
    assert!(matches!(first, CommitOutcome::Committed { .. }));
    let held = store.objects().len();
    let again =
        commit(&mut index, Some(HEAD), None, &list, "two".to_string(), 2, &mut store).unwrap();
    assert!(matches!(again, CommitOutcome::NothingToCommit));
    assert_eq!(store.objects().len(), held);
}

#[test]
fn layout_of_a_fresh_repository() {
    let layout = init();
    assert_eq!(layout.metadata, ".git");
    assert_eq!(layout.directories, vec!["objects", "refs", "refs/heads"]);
    assert_eq!(layout.head, "ref: refs/heads/main\n");
    assert_eq!(head_ref_path(&layout.head), Ok("refs/heads/main".to_string()));
    assert!(rusgit::commands::write_tree::is_metadata_name(layout.metadata.as_bytes()));
    assert!(!rusgit::commands::write_tree::is_metadata_name(b".gitignore"));
}
