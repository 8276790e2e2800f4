//! Making a commit of the working tree on the current branch.

use vstd::prelude::*;
use crate::codec::{digest_hex, digest_of, hex_of, ObjectKind};
use crate::commands::commit_tree::{commit_of, commit_tree};
use crate::commands::write_tree::{
    all_names_valid, tree_digest, tree_objects, tree_storable, write_tree, WorkEntry,
};
use crate::error::Error;
use crate::index::{Index, IndexEntryView};
use crate::objects::commit_bytes;
use crate::repository::{
    get_head_commit_hash, head_commit, head_update, text_view, update_head, RefUpdate,
};
use crate::store::{stored_form, written, ObjectStore};

verus! {

/// How a commit ended.
#[derive(Debug)]
pub enum CommitOutcome {
    /// Nothing is staged, so nothing was written.
    NothingToCommit,
    /// A commit was written.
    Committed {
        /// The digest of the commit, in hexadecimal.
        hash: String,
        /// The update of the branch ref that makes the commit the newest.
        update: RefUpdate,
    },
}

/// The body of the commit of a working tree on top of `parent`.
pub open spec fn commit_body(
    list: Seq<WorkEntry>,
    parent: Option<Seq<char>>,
    message: Seq<char>,
    now: u64,
) -> Seq<u8> {
    commit_bytes(commit_of(hex_of(tree_digest(list)), parent, message, now))
}

/// What a commit returns: `None` when nothing is staged, and otherwise the
/// digest of the commit in hexadecimal with the path and the new text of the
/// branch ref. The steps fail in this order: finding the parent, reading
/// the names of the working tree, compressing its objects, compressing the
/// commit, and naming the branch ref.
pub open spec fn commit_result(
    staged: nat,
    head: Option<Seq<char>>,
    branch: Option<Seq<char>>,
    list: Seq<WorkEntry>,
    message: Seq<char>,
    now: u64,
) -> Result<Option<(Seq<char>, Seq<char>, Seq<char>)>, Error> {
    if staged == 0 {
        Ok(None)
    } else {
        match head_commit(head, branch) {
            Err(e) => Err(e),
            Ok(parent) => if !all_names_valid(list, list.len() as int) {
                Err(Error::EncodingError)
            } else if !tree_storable(list) || stored_form(
                ObjectKind::Commit,
                commit_body(list, parent, message, now),
            ) is None {
                Err(Error::CompressionFailed)
            } else {
                let hash = hex_of(
                    digest_of(ObjectKind::Commit, commit_body(list, parent, message, now)),
                );
                match head_update(head, hash) {
                    Err(e) => Err(e),
                    Ok((path, content)) => Ok(Some((hash, path, content))),
                }
            },
        }
    }
}

/// The objects that a commit adds to the store: those of the working tree,
/// and then the commit itself.
pub open spec fn commit_objects(
    list: Seq<WorkEntry>,
    parent: Option<Seq<char>>,
    message: Seq<char>,
    now: u64,
) -> Map<Seq<u8>, Seq<u8>> {
    written(tree_objects(list), ObjectKind::Commit, commit_body(list, parent, message, now))
}

/// Commits the working tree on the current branch.
///
/// With nothing staged in `index` nothing happens. Otherwise the parent is
/// the newest commit of the branch that `head` names, if there is one; the
/// tree of `list` is written; the commit is written with `message` and the
/// time `now`; and the update of the branch ref is returned for the caller
/// to carry out. `store` and `index` change only when the commit succeeds:
/// `store` then gains the objects of the tree and the commit, and `index` is
/// left with nothing staged.
pub fn commit(
    index: &mut Index,
    head: Option<&str>,
    branch: Option<&str>,
    list: &Vec<WorkEntry>,
    message: String,
    now: u64,
    store: &mut ObjectStore,
) -> (res: Result<CommitOutcome, Error>)
    ensures
        match res {
            Ok(CommitOutcome::NothingToCommit) => {
                &&& final(index)@ == old(index)@
                &&& commit_result(
                    old(index)@.len(),
                    text_view(head),
                    text_view(branch),
                    list@,
                    message@,
                    now,
                ) == Ok::<Option<(Seq<char>, Seq<char>, Seq<char>)>, Error>(None)
                &&& final(store)@ == old(store)@
            },
            Ok(CommitOutcome::Committed { hash, update }) => {
                &&& final(index)@ == Seq::<IndexEntryView>::empty()
                &&& commit_result(
                    old(index)@.len(),
                    text_view(head),
                    text_view(branch),
                    list@,
                    message@,
                    now,
                ) == Ok::<Option<(Seq<char>, Seq<char>, Seq<char>)>, Error>(
                    Some((hash@, update.path@, update.content@)),
                )
                &&& head_commit(text_view(head), text_view(branch)) matches Ok(parent)
                    && final(store)@ == old(store)@.union_prefer_right(
                    commit_objects(list@, parent, message@, now),
                )
            },
            Err(e) => {
                &&& final(index)@ == old(index)@
                &&& commit_result(
                    old(index)@.len(),
                    text_view(head),
                    text_view(branch),
                    list@,
                    message@,
                    now,
                ) == Err::<Option<(Seq<char>, Seq<char>, Seq<char>)>, Error>(e)
                &&& final(store)@ == old(store)@
            },
        },
{
    if index.is_empty() {
        return Ok(CommitOutcome::NothingToCommit);
    }
    let parent = match get_head_commit_hash(head, branch) {
        Ok(parent) => parent,
        Err(e) => { return Err(e); },
    };
    let ghost parent_view = head_commit(text_view(head), text_view(branch))->Ok_0;
    let mut fresh = ObjectStore::new();
    let tree = match write_tree(list, &mut fresh) {
        Ok(tree) => tree,
        Err(e) => { return Err(e); },
    };
    assert(fresh@ =~= tree_objects(list@));
    let tree_hash = digest_hex(&tree);
    let digest = match commit_tree(tree_hash, parent, message, now, &mut fresh) {
        Ok(digest) => digest,
        Err(e) => { return Err(e); },
    };
    let hash = digest_hex(&digest);
    let update = match update_head(head, hash.as_str()) {
        Ok(update) => update,
        Err(e) => { return Err(e); },
    };
    store.absorb(fresh);
    index.clear();
    Ok(CommitOutcome::Committed { hash, update })
}

} // verus!
