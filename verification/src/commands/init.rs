//! The layout of a fresh repository.

use vstd::prelude::*;
use vstd::string::StringExecFns;
use vstd::utf8::encode_utf8;
use crate::commands::write_tree::metadata_name;
use crate::objects::text_views;

verus! {

/// What is to be created to start a repository.
#[derive(Debug)]
pub struct Layout {
    /// The name of the metadata directory, relative to the root.
    pub metadata: String,
    /// The directories to create in the metadata directory, parents first.
    pub directories: Vec<String>,
    /// The text of the file `HEAD` in the metadata directory.
    pub head: String,
}

/// The layout of a fresh repository: the metadata directory `.git` with the
/// directories `objects`, `refs` and `refs/heads`, and a `HEAD` that names
/// the branch `main`, which has no commit yet.
pub fn init() -> (layout: Layout)
    ensures
        layout.metadata@ == ".git"@,
        encode_utf8(layout.metadata@) == metadata_name(),
        text_views(layout.directories@) == seq!["objects"@, "refs"@, "refs/heads"@],
        layout.head@ == "ref: refs/heads/main\n"@,
{
    let mut directories: Vec<String> = Vec::new();
    directories.push(String::from_str("objects"));
    directories.push(String::from_str("refs"));
    directories.push(String::from_str("refs/heads"));
    assert(text_views(directories@) =~= seq!["objects"@, "refs"@, "refs/heads"@]);
    proof {
        reveal_strlit(".git");
        vstd::utf8::is_ascii_chars_encode_utf8(".git"@);
        assert(encode_utf8(".git"@) =~= metadata_name());
    }
    Layout {
        metadata: String::from_str(".git"),
        directories,
        head: String::from_str("ref: refs/heads/main\n"),
    }
}

} // verus!
