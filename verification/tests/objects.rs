use rusgit::codec::{content_digest, parse_digest, ObjectKind};
use rusgit::error::Error;
use rusgit::objects::parse::{read_commit, read_tree_entries};
use rusgit::objects::{entry_precedes, sort_entries, Blob, Commit, GitObject, Tree, TreeEntry};

fn entry(mode: &str, name: &str, fill: u8) -> TreeEntry {
    TreeEntry { mode: mode.to_string(), name: name.to_string(), hash: [fill; 20] }
}

fn names(entries: &[TreeEntry]) -> Vec<String> {
    entries.iter().map(|e| e.name.clone()).collect()
}

fn sample_commit() -> Commit {
    Commit {
        tree_hash: "52830aedf861cf11053da25e7b0837e1c57b88e6".to_string(),
        parents: vec![
            "3fa1addd0191120e33bcc03ced4282a8ee58fe96".to_string(),
            "9adcd5a23175b7ebedaba25150dc3cf58befe53a".to_string(),
        ],
        author: "A U Thor <a@example.com> 1 +0000".to_string(),
        committer: "C O Mitter <c@example.com> 2 +0000".to_string(),
        message: "subject\n\nbody line\n".to_string(),
    }
}

#[test]
fn tree_entries_are_sorted_by_name() {
    let tree = Tree::new(vec![
        entry("100644", "c", 1),
        entry("100644", "b", 2),
        entry("100644", "a", 3),
    ]);
    assert_eq!(names(tree.entries()), vec!["a", "b", "c"]);
}

#[test]
fn tree_order_is_by_name_not_by_mode() {
    let tree = Tree::new(vec![
        entry("40000", "a-dir", 1),
        entry("100644", "z-file", 2),
        entry("100644", "b-file", 3),
    ]);
    assert_eq!(names(tree.entries()), vec!["a-dir", "b-file", "z-file"]);
}

#[test]
fn tree_order_is_by_bytes() {
    let tree = Tree::new(vec![
        entry("100644", "\u{e9}", 1),
        entry("100644", "a", 2),
        entry("100644", "Z", 3),
        entry("100644", "ab", 4),
        entry("100644", "a.b", 5),
    ]);
    assert_eq!(names(tree.entries()), vec!["Z", "a", "a.b", "ab", "\u{e9}"]);
}

#[test]
fn every_permutation_gives_the_same_tree_bytes() {
    let items = [entry("100644", "a.txt", 1), entry("40000", "lib", 2), entry("100644", "b.txt", 3)];
    let orders = [[0, 1, 2], [0, 2, 1], [1, 0, 2], [1, 2, 0], [2, 0, 1], [2, 1, 0]];
    let expected = Tree::new(items.to_vec()).as_bytes();
    for order in orders {
        let list: Vec<TreeEntry> = order.iter().map(|&i| items[i].clone()).collect();
        assert_eq!(Tree::new(list).as_bytes(), expected);
    }
}

#[test]
fn equal_names_are_ordered_by_mode_and_digest() {
    let first = Tree::new(vec![
        entry("40000", "x", 9),
        entry("100644", "x", 9),
        entry("100644", "x", 1),
    ]);
    let second = Tree::new(vec![
        entry("100644", "x", 1),
        entry("40000", "x", 9),
        entry("100644", "x", 9),
    ]);
    assert_eq!(first.as_bytes(), second.as_bytes());
    let got: Vec<(String, u8)> =
        first.entries().iter().map(|e| (e.mode.clone(), e.hash[0])).collect();
    assert_eq!(
        got,
        vec![("100644".to_string(), 1), ("100644".to_string(), 9), ("40000".to_string(), 9)]
    );
}

#[test]
fn entry_precedes_is_a_strict_order() {
    let a = entry("100644", "a", 1);
    let b = entry("100644", "b", 0);
    assert!(entry_precedes(&a, &b));
    assert!(!entry_precedes(&b, &a));
    assert!(!entry_precedes(&a, &a));
}

#[test]
fn sort_entries_keeps_every_entry() {
    let sorted = sort_entries(vec![
        entry("100644", "b", 1),
        entry("100644", "a", 2),
        entry("100644", "b", 1),
    ]);
    assert_eq!(names(&sorted), vec!["a", "b", "b"]);
    assert!(sort_entries(Vec::new()).is_empty());
}

#[test]
fn tree_bytes_of_two_files() {
    let x = content_digest(ObjectKind::Blob, b"X");
    let y = content_digest(ObjectKind::Blob, b"Y");
    let tree = Tree::new(vec![
        TreeEntry { mode: "100644".to_string(), name: "b.txt".to_string(), hash: x },
        TreeEntry { mode: "100644".to_string(), name: "a.txt".to_string(), hash: y },
    ]);
    let mut expected = b"100644 a.txt\0".to_vec();
    expected.extend_from_slice(&y);
    expected.extend_from_slice(b"100644 b.txt\0");
    expected.extend_from_slice(&x);
    assert_eq!(tree.as_bytes(), expected);
    assert_eq!(
        content_digest(ObjectKind::Tree, &tree.as_bytes()),
        parse_digest("52830aedf861cf11053da25e7b0837e1c57b88e6").unwrap()
    );
}

#[test]
fn empty_tree_has_an_empty_body() {
    assert_eq!(Tree::new(Vec::new()).as_bytes(), Vec::<u8>::new());
}

#[test]
fn commit_bytes_with_parents() {
    let expected = "tree 52830aedf861cf11053da25e7b0837e1c57b88e6\n\
                    parent 3fa1addd0191120e33bcc03ced4282a8ee58fe96\n\
                    parent 9adcd5a23175b7ebedaba25150dc3cf58befe53a\n\
                    author A U Thor <a@example.com> 1 +0000\n\
                    committer C O Mitter <c@example.com> 2 +0000\n\
                    \n\
                    subject\n\nbody line\n";
    assert_eq!(sample_commit().as_bytes(), expected.as_bytes().to_vec());
}

#[test]
fn commit_bytes_without_parent() {
    let commit = Commit {
        tree_hash: "t".to_string(),
        parents: Vec::new(),
        author: "a".to_string(),
        committer: "c".to_string(),
        message: String::new(),
    };
    assert_eq!(commit.as_bytes(), b"tree t\nauthor a\ncommitter c\n\n".to_vec());
}

#[test]
fn object_kind_and_body() {
    let blob = GitObject::Blob(Blob { content: b"\x00\xffraw".to_vec() });
    assert_eq!(blob.kind(), ObjectKind::Blob);
    assert_eq!(blob.as_bytes(), b"\x00\xffraw".to_vec());
    let tree = GitObject::Tree(Tree::new(vec![entry("100644", "f", 7)]));
    assert_eq!(tree.kind(), ObjectKind::Tree);
    let mut expected = b"100644 f\0".to_vec();
    expected.extend_from_slice(&[7u8; 20]);
    assert_eq!(tree.as_bytes(), expected);
    let commit = GitObject::Commit(sample_commit());
    assert_eq!(commit.kind(), ObjectKind::Commit);
    assert_eq!(commit.as_bytes(), sample_commit().as_bytes());
}

#[test]
fn blob_is_shown_as_text() {
    let blob = GitObject::Blob(Blob { content: "h\u{e9}llo\n".as_bytes().to_vec() });
    assert_eq!(blob.to_text(), "h\u{e9}llo\n");
}

#[test]
fn invalid_bytes_of_a_blob_are_shown_as_replacement_characters() {
    let blob = GitObject::Blob(Blob { content: b"a\xffb".to_vec() });
    assert_eq!(blob.to_text(), "a\u{fffd}b");
}

#[test]
fn tree_is_shown_line_by_line() {
    let tree = GitObject::Tree(Tree::new(vec![
        entry("40000", "src", 0xab),
        entry("100644", "README", 0x01),
    ]));
    assert_eq!(
        tree.to_text(),
        "100644 0101010101010101010101010101010101010101 README\n\
         40000 abababababababababababababababababababab src\n"
    );
}

#[test]
fn commit_is_shown_with_a_final_line_feed() {
    let commit = GitObject::Commit(Commit {
        tree_hash: "abc".to_string(),
        parents: vec!["def".to_string()],
        author: "me".to_string(),
        committer: "you".to_string(),
        message: "msg".to_string(),
    });
    assert_eq!(commit.to_text(), "tree abc\nparent def\nauthor me\ncommitter you\n\nmsg\n");
}

#[test]
fn tree_entries_are_read_back() {
    let list = vec![entry("100644", "a b", 1), entry("40000", "dir", 2), entry("100644", "z", 3)];
    let body = Tree::new(list.clone()).as_bytes();
    assert_eq!(read_tree_entries(&body), Ok(list));
    assert_eq!(read_tree_entries(b""), Ok(Vec::new()));
}

#[test]
fn tree_entries_are_read_in_the_order_of_the_body() {
    let mut body = Vec::new();
    for e in [entry("100644", "z", 1), entry("100644", "a", 2)] {
        body.extend_from_slice(e.mode.as_bytes());
        body.push(b' ');
        body.extend_from_slice(e.name.as_bytes());
        body.push(0);
        body.extend_from_slice(&e.hash);
    }
    assert_eq!(names(&read_tree_entries(&body).unwrap()), vec!["z", "a"]);
    match GitObject::decode(ObjectKind::Tree, body).unwrap() {
        GitObject::Tree(tree) => assert_eq!(names(tree.entries()), vec!["a", "z"]),
        other => panic!("not a tree: {:?}", other),
    }
}

#[test]
fn cut_tree_body_is_corrupt() {
    let body = Tree::new(vec![entry("100644", "a", 1)]).as_bytes();
    assert_eq!(read_tree_entries(&body[..body.len() - 1]), Err(Error::CorruptObject));
    assert_eq!(read_tree_entries(b"100644"), Err(Error::CorruptObject));
    assert_eq!(read_tree_entries(b"100644 name-without-nul"), Err(Error::CorruptObject));
    assert_eq!(read_tree_entries(b"100644 a\0short"), Err(Error::CorruptObject));
}

#[test]
fn tree_name_that_is_not_text_is_an_encoding_error() {
    let mut body = b"100644 \xff\xfe\0".to_vec();
    body.extend_from_slice(&[0u8; 20]);
    assert_eq!(read_tree_entries(&body), Err(Error::EncodingError));
}

#[test]
fn commit_is_read_back() {
    let commit = sample_commit();
    let back = read_commit(&commit.as_bytes()).unwrap();
    assert_eq!(back.tree_hash, commit.tree_hash);
    assert_eq!(back.parents, commit.parents);
    assert_eq!(back.author, commit.author);
    assert_eq!(back.committer, commit.committer);
    assert_eq!(back.message, commit.message);
}

#[test]
fn commit_without_parent_and_message_is_read_back() {
    let back = read_commit(b"tree t\nauthor a\ncommitter c\n\n").unwrap();
    assert_eq!(back.tree_hash, "t");
    assert!(back.parents.is_empty());
    assert_eq!(back.author, "a");
    assert_eq!(back.committer, "c");
    assert_eq!(back.message, "");
}

#[test]
fn commit_body_that_is_not_built_as_one_is_corrupt() {
    for body in [
        &b""[..],
        b"tree t",
        b"author a\ncommitter c\n\n",
        b"tree t\ncommitter c\n\n",
        b"tree t\nauthor a\n\n",
        b"tree t\nauthor a\ncommitter c\n",
        b"tree t\nauthor a\ncommitter c\nmessage",
        b"tree t\nauthor a\nparent p\ncommitter c\n\n",
        b"tree\nauthor a\ncommitter c\n\n",
    ] {
        assert_eq!(read_commit(body).err(), Some(Error::CorruptObject));
    }
}

#[test]
fn commit_field_that_is_not_text_is_an_encoding_error() {
    assert_eq!(
        read_commit(b"tree t\nauthor \xff\ncommitter c\n\nm").err(),
        Some(Error::EncodingError)
    );
    assert_eq!(
        read_commit(b"tree t\nparent ok\nparent \xc3\nauthor a\ncommitter c\n\nm").err(),
        Some(Error::EncodingError)
    );
    assert_eq!(
        read_commit(b"tree t\nauthor a\ncommitter c\n\n\xff").err(),
        Some(Error::EncodingError)
    );
}

#[test]
fn decode_of_a_blob_keeps_any_bytes() {
    match GitObject::decode(ObjectKind::Blob, b"\0\xff".to_vec()).unwrap() {
        GitObject::Blob(blob) => assert_eq!(blob.content, b"\0\xff".to_vec()),
        other => panic!("not a blob: {:?}", other),
    }
}

#[test]
fn decode_of_a_commit() {
    match GitObject::decode(ObjectKind::Commit, sample_commit().as_bytes()).unwrap() {
        GitObject::Commit(commit) => assert_eq!(commit.parents.len(), 2),
        other => panic!("not a commit: {:?}", other),
    }
    assert_eq!(
        GitObject::decode(ObjectKind::Commit, b"nonsense".to_vec()).err(),
        Some(Error::CorruptObject)
    );
}

#[test]
fn clone_of_a_tree_has_the_same_entries() {
    let tree = Tree::new(vec![entry("100644", "b", 1), entry("40000", "a", 2)]);
    let copy = tree.clone();
    assert_eq!(copy.entries(), tree.entries());
    assert_eq!(copy.as_bytes(), tree.as_bytes());
}
