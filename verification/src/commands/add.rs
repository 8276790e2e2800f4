//! Staging files: each file becomes a blob in the store and an entry of the
//! index.

use vstd::prelude::*;
use crate::codec::{copy_range, digest_of, ObjectKind};
use crate::error::Error;
use crate::index::{staged, Index, IndexEntryView};
use crate::store::{stored_form, written, ObjectStore};

verus! {

/// The mode under which a regular file is staged.
pub const FILE_MODE: u32 = 0o100644;

/// A file of the working tree: its path and its contents.
#[derive(Debug)]
pub struct WorkFile {
    /// The path, relative to the root of the working tree.
    pub path: Vec<u8>,
    /// The bytes of the file.
    pub content: Vec<u8>,
}

/// The index entry under which a file is staged.
pub open spec fn entry_for(file: WorkFile) -> IndexEntryView {
    IndexEntryView {
        mode: FILE_MODE,
        hash: digest_of(ObjectKind::Blob, file.content@),
        path: file.path@,
    }
}

/// The index after the first `n` files were staged, one after the other.
pub open spec fn staged_files(entries: Seq<IndexEntryView>, files: Seq<WorkFile>, n: int) -> Seq<
    IndexEntryView,
>
    decreases n,
{
    if n <= 0 {
        entries
    } else {
        staged(staged_files(entries, files, n - 1), entry_for(files[n - 1]))
    }
}

/// The blobs of the first `n` files, by digest.
pub open spec fn blobs_of(files: Seq<WorkFile>, n: int) -> Map<Seq<u8>, Seq<u8>>
    decreases n,
{
    if n <= 0 {
        Map::empty()
    } else {
        written(blobs_of(files, n - 1), ObjectKind::Blob, files[n - 1].content@)
    }
}

/// Whether the compressor accepts the blob of each of the first `n` files.
pub open spec fn blobs_storable(files: Seq<WorkFile>, n: int) -> bool
    decreases n,
{
    if n <= 0 {
        true
    } else {
        blobs_storable(files, n - 1) && stored_form(
            ObjectKind::Blob,
            files[n - 1].content@,
        ) is Some
    }
}

/// A blob that the compressor refuses among the first `n` files is refused
/// among more.
proof fn lemma_refused_stays(files: Seq<WorkFile>, n: int, m: int)
    requires
        0 <= n <= m,
        !blobs_storable(files, n),
    ensures
        !blobs_storable(files, m),
    decreases m - n,
{
    if n < m {
        lemma_refused_stays(files, n, m - 1);
    }
}

/// Stages `files` in their order: the contents of each are written to `store`
/// as a blob, and its path is staged in `index` with the digest of that
/// blob and the mode of a regular file. A path that occurs twice keeps what
/// was staged last.
///
/// Fails with `CompressionFailed` when the compressor refuses one of the
/// blobs; `index` and `store` are then left as they were.
pub fn add(files: &Vec<WorkFile>, index: &mut Index, store: &mut ObjectStore) -> (res: Result<
    (),
    Error,
>)
    ensures
        match res {
            Ok(()) => {
                &&& blobs_storable(files@, files@.len() as int)
                &&& final(index)@ == staged_files(old(index)@, files@, files@.len() as int)
                &&& final(store)@ == old(store)@.union_prefer_right(
                    blobs_of(files@, files@.len() as int),
                )
            },
            Err(e) => {
                &&& e == Error::CompressionFailed
                &&& !blobs_storable(files@, files@.len() as int)
                &&& final(index)@ == old(index)@
                &&& final(store)@ == old(store)@
            },
        },
{
    let n = files.len();
    let mut fresh = ObjectStore::new();
    let mut digests: Vec<[u8; 20]> = Vec::new();
    let mut i: usize = 0;
    while i < n
        invariant
            i <= n == files@.len(),
            blobs_storable(files@, i as int),
            fresh@ == blobs_of(files@, i as int),
            digests@.len() == i,
            forall|j: int|
                0 <= j < i ==> (#[trigger] digests@[j])@ == digest_of(
                    ObjectKind::Blob,
                    files@[j].content@,
                ),
        decreases n - i,
    {
        match fresh.write(ObjectKind::Blob, files[i].content.as_slice()) {
            Ok(digest) => {
                digests.push(digest);
            },
            Err(e) => {
                proof {
                    assert(!blobs_storable(files@, i + 1));
                    lemma_refused_stays(files@, i + 1, n as int);
                }
                return Err(e);
            },
        }
        i = i + 1;
    }
    store.absorb(fresh);
    let mut k: usize = 0;
    while k < n
        invariant
            k <= n == files@.len(),
            digests@.len() == n,
            forall|j: int|
                0 <= j < n ==> (#[trigger] digests@[j])@ == digest_of(
                    ObjectKind::Blob,
                    files@[j].content@,
                ),
            index@ == staged_files(old(index)@, files@, k as int),
        decreases n - k,
    {
        let file = &files[k];
        let path = copy_range(file.path.as_slice(), 0, file.path.len());
        assert(path@ =~= file.path@);
        index.add(path, digests[k], FILE_MODE);
        k = k + 1;
    }
    Ok(())
}

} // verus!
