//! Writing a commit object for a tree.

use vstd::prelude::*;
use vstd::string::StringExecFns;
use crate::bytes::{append_decimal, decimal_text};
use crate::codec::{digest_of, ObjectKind};
use crate::error::Error;
use crate::objects::{commit_bytes, text_views, Commit, CommitView};
use crate::store::{stored_form, written, ObjectStore};

verus! {

/// An identity line: a name with its address, the time in seconds since the
/// epoch, and the time zone `+0000`.
pub open spec fn identity(who: Seq<char>, now: u64) -> Seq<char> {
    who + decimal_text(now as nat) + " +0000"@
}

/// The commit that is made of a tree, at most one parent and a message at
/// the time `now`.
pub open spec fn commit_of(
    tree_hash: Seq<char>,
    parent_hash: Option<Seq<char>>,
    message: Seq<char>,
    now: u64,
) -> CommitView {
    CommitView {
        tree_hash: tree_hash,
        parents: match parent_hash {
            Some(parent) => seq![parent],
            None => Seq::<Seq<char>>::empty(),
        },
        author: identity("Rusgit Author <author@example.com> "@, now),
        committer: identity("Rusgit Committer <committer@example.com> "@, now),
        message: message,
    }
}

/// A text as a mathematical value, where there is one.
pub open spec fn owned_text_view(text: Option<String>) -> Option<Seq<char>> {
    match text {
        Some(t) => Some(t@),
        None => None,
    }
}

/// Builds an identity line.
fn identity_line(who: &str, now: u64) -> (line: String)
    ensures
        line@ == identity(who@, now),
{
    let mut line = String::from_str(who);
    append_decimal(&mut line, now);
    line.append(" +0000");
    line
}

/// Builds the commit of `commit_of`.
pub fn new_commit(tree_hash: String, parent_hash: Option<String>, message: String, now: u64) -> (commit:
    Commit)
    ensures
        commit@ == commit_of(tree_hash@, owned_text_view(parent_hash), message@, now),
{
    let author = identity_line("Rusgit Author <author@example.com> ", now);
    let committer = identity_line("Rusgit Committer <committer@example.com> ", now);
    let mut parents: Vec<String> = Vec::new();
    let ghost parent_view = owned_text_view(parent_hash);
    match parent_hash {
        Some(parent) => {
            parents.push(parent);
            assert(text_views(parents@) =~= seq![parent@]);
        },
        None => {
            assert(text_views(parents@) =~= Seq::<Seq<char>>::empty());
        },
    }
    Commit { tree_hash, parents, author, committer, message }
}

/// Writes the commit of a tree to `store` and returns its digest.
///
/// `tree_hash` and `parent_hash` are digests in hexadecimal; `now` is the
/// time in seconds since the epoch, which stands in the author and committer
/// lines. The caller moves the branch ref.
///
/// Fails with `CompressionFailed` when the compressor refuses the commit;
/// `store` is then left as it was.
pub fn commit_tree(
    tree_hash: String,
    parent_hash: Option<String>,
    message: String,
    now: u64,
    store: &mut ObjectStore,
) -> (res: Result<[u8; 20], Error>)
    ensures
        final(store)@ == written(
            old(store)@,
            ObjectKind::Commit,
            commit_bytes(commit_of(tree_hash@, owned_text_view(parent_hash), message@, now)),
        ),
        match res {
            Ok(digest) => digest@ == digest_of(
                ObjectKind::Commit,
                commit_bytes(commit_of(tree_hash@, owned_text_view(parent_hash), message@, now)),
            ) && stored_form(
                ObjectKind::Commit,
                commit_bytes(commit_of(tree_hash@, owned_text_view(parent_hash), message@, now)),
            ) is Some,
            Err(e) => e == Error::CompressionFailed && stored_form(
                ObjectKind::Commit,
                commit_bytes(commit_of(tree_hash@, owned_text_view(parent_hash), message@, now)),
            ) is None,
        },
{
    let commit = new_commit(tree_hash, parent_hash, message, now);
    let body = commit.as_bytes();
    store.write(ObjectKind::Commit, body.as_slice())
}

} // verus!
