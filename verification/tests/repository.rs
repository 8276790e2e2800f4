use rusgit::error::Error;
use rusgit::repository::{get_head_commit_hash, head_ref_path, trim, update_head};

#[test]
fn trim_removes_white_space_at_both_ends() {
    assert_eq!(trim("  a b \n"), "a b");
    assert_eq!(trim("\t\r\nx"), "x");
    assert_eq!(trim("x"), "x");
    assert_eq!(trim(""), "");
    assert_eq!(trim(" \n\t "), "");
    assert_eq!(trim("\u{a0}\u{3000}h\u{e9}\u{2028}"), "h\u{e9}");
}

#[test]
fn head_names_a_branch_ref() {
    assert_eq!(head_ref_path("ref: refs/heads/main\n"), Ok("refs/heads/main".to_string()));
    assert_eq!(head_ref_path("  ref: refs/heads/dev  "), Ok("refs/heads/dev".to_string()));
    assert_eq!(head_ref_path("ref: "), Err(Error::UnsupportedState));
    assert_eq!(head_ref_path("ref: x"), Ok("x".to_string()));
}

#[test]
fn detached_head_is_unsupported() {
    assert_eq!(
        head_ref_path("45b983be36b73c0788dc9cbcb76cbb80fc7bb057\n"),
        Err(Error::UnsupportedState)
    );
    assert_eq!(head_ref_path(""), Err(Error::UnsupportedState));
    assert_eq!(head_ref_path("ref:refs/heads/main"), Err(Error::UnsupportedState));
    assert_eq!(head_ref_path("Ref: refs/heads/main"), Err(Error::UnsupportedState));
    assert_eq!(head_ref_path("ref"), Err(Error::UnsupportedState));
}

#[test]
fn no_commit_without_head_or_branch_file() {
    assert_eq!(get_head_commit_hash(None, None), Ok(None));
    assert_eq!(get_head_commit_hash(None, Some("abc\n")), Ok(None));
    assert_eq!(get_head_commit_hash(Some("ref: refs/heads/main\n"), None), Ok(None));
}

#[test]
fn head_commit_is_the_trimmed_text_of_the_branch_ref() {
    assert_eq!(
        get_head_commit_hash(
            Some("ref: refs/heads/main\n"),
            Some("45b983be36b73c0788dc9cbcb76cbb80fc7bb057\n")
        ),
        Ok(Some("45b983be36b73c0788dc9cbcb76cbb80fc7bb057".to_string()))
    );
    assert_eq!(
        get_head_commit_hash(Some("ref: refs/heads/main"), Some("abc")),
        Ok(Some("abc".to_string()))
    );
}

#[test]
fn head_commit_of_a_detached_head_fails() {
    assert_eq!(
        get_head_commit_hash(Some("45b983be36b73c0788dc9cbcb76cbb80fc7bb057\n"), None),
        Err(Error::UnsupportedState)
    );
    assert_eq!(
        get_head_commit_hash(Some("45b983be36b73c0788dc9cbcb76cbb80fc7bb057\n"), Some("abc")),
        Err(Error::UnsupportedState)
    );
}

#[test]
fn update_head_names_the_ref_and_its_new_text() {
    let update = update_head(Some("ref: refs/heads/main\n"), "abc123").unwrap();
    assert_eq!(update.path, "refs/heads/main");
    assert_eq!(update.content, "abc123\n");
}

#[test]
fn update_head_fails_without_a_symbolic_head() {
    assert_eq!(update_head(None, "abc").err(), Some(Error::NotFound));
    assert_eq!(update_head(Some("abc\n"), "abc").err(), Some(Error::UnsupportedState));
}

#[test]
fn what_update_head_writes_is_what_get_head_commit_hash_reads() {
    let head = "ref: refs/heads/main\n";
    let update = update_head(Some(head), "45b983be36b73c0788dc9cbcb76cbb80fc7bb057").unwrap();
    assert_eq!(
        get_head_commit_hash(Some(head), Some(&update.content)),
        Ok(Some("45b983be36b73c0788dc9cbcb76cbb80fc7bb057".to_string()))
    );
}
