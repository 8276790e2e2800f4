//! Building the tree objects of a directory.
//!
//! The caller lists the directory; this module hashes every regular file as a
//! blob and every subdirectory as a tree, children before parents, and writes
//! one object for each of them.

use vstd::prelude::*;
use vstd::string::StringExecFns;
use vstd::utf8::{decode_utf8, valid_utf8};
use crate::bytes::text_of;
use crate::codec::{digest_of, ObjectKind};
use crate::error::Error;
use crate::objects::{canonical, entry_views, tree_bytes, Tree, TreeEntry, TreeEntryView};
use crate::store::{stored_form, written, ObjectStore};

verus! {

/// One child of a directory, as it was found in the working tree.
#[derive(Debug)]
pub enum WorkEntry {
    /// A regular file with its contents.
    File { name: Vec<u8>, content: Vec<u8> },
    /// A directory with its own children.
    Directory { name: Vec<u8>, children: Vec<WorkEntry> },
    /// Anything else: a symbolic link, a device, a socket.
    Other { name: Vec<u8> },
}

impl WorkEntry {
    /// The name of the child, as the bytes that the file system gave.
    pub open spec fn name(self) -> Seq<u8> {
        match self {
            WorkEntry::File { name, .. } => name@,
            WorkEntry::Directory { name, .. } => name@,
            WorkEntry::Other { name } => name@,
        }
    }
}

/// The name of the directory in which the store keeps its own data: `.git`.
pub open spec fn metadata_name() -> Seq<u8> {
    seq![0x2eu8, 0x67, 0x69, 0x74]
}

/// Whether every name that the walk reads is valid UTF-8. The walk reads the
/// name of every child, and does not enter a directory that it skips.
pub open spec fn names_valid(e: WorkEntry) -> bool
    decreases e,
{
    valid_utf8(e.name()) && match e {
        WorkEntry::Directory { name, children } => name@ == metadata_name() || all_names_valid(
            children@,
            children@.len() as int,
        ),
        _ => true,
    }
}

/// `names_valid` of the first `n` entries of `list`.
pub open spec fn all_names_valid(list: Seq<WorkEntry>, n: int) -> bool
    decreases list, n,
{
    if n <= 0 || n > list.len() {
        true
    } else {
        all_names_valid(list, n - 1) && names_valid(list[n - 1])
    }
}

/// The tree entry that stands for a child: none for the metadata directory
/// and for what is neither a regular file nor a directory.
pub open spec fn entry_of(e: WorkEntry) -> Option<TreeEntryView>
    decreases e, 0int,
{
    if e.name() == metadata_name() {
        None
    } else {
        match e {
            WorkEntry::File { name, content } => Some(
                TreeEntryView {
                    mode: "100644"@,
                    name: decode_utf8(name@),
                    hash: digest_of(ObjectKind::Blob, content@),
                },
            ),
            WorkEntry::Directory { name, children } => Some(
                TreeEntryView {
                    mode: "40000"@,
                    name: decode_utf8(name@),
                    hash: tree_digest(children@),
                },
            ),
            WorkEntry::Other { .. } => None,
        }
    }
}

/// The entries of the first `n` children of a directory, in listing order.
pub open spec fn listed(list: Seq<WorkEntry>, n: int) -> Seq<TreeEntryView>
    decreases list, n,
{
    if n <= 0 || n > list.len() {
        Seq::<TreeEntryView>::empty()
    } else {
        match entry_of(list[n - 1]) {
            Some(entry) => listed(list, n - 1).push(entry),
            None => listed(list, n - 1),
        }
    }
}

/// The tree of a directory: the entries of its children in canonical order.
pub open spec fn tree_of(list: Seq<WorkEntry>) -> Seq<TreeEntryView>
    decreases list, list.len() + 1,
{
    canonical(listed(list, list.len() as int))
}

/// The digest of the tree of a directory.
pub open spec fn tree_digest(list: Seq<WorkEntry>) -> Seq<u8>
    decreases list, list.len() + 2,
{
    digest_of(ObjectKind::Tree, tree_bytes(tree_of(list)))
}

/// Whether the compressor accepts every object of a child.
pub open spec fn storable(e: WorkEntry) -> bool
    decreases e,
{
    e.name() == metadata_name() || match e {
        WorkEntry::File { name, content } => stored_form(ObjectKind::Blob, content@) is Some,
        WorkEntry::Directory { name, children } => tree_storable(children@),
        WorkEntry::Other { .. } => true,
    }
}

/// `storable` of the first `n` entries of `list`.
pub open spec fn all_storable(list: Seq<WorkEntry>, n: int) -> bool
    decreases list, n,
{
    if n <= 0 || n > list.len() {
        true
    } else {
        all_storable(list, n - 1) && storable(list[n - 1])
    }
}

/// Whether the compressor accepts every object of a directory, its own tree
/// included.
pub open spec fn tree_storable(list: Seq<WorkEntry>) -> bool
    decreases list, list.len() + 1,
{
    all_storable(list, list.len() as int) && stored_form(
        ObjectKind::Tree,
        tree_bytes(tree_of(list)),
    ) is Some
}

/// The objects that the walk writes for a child, by digest.
pub open spec fn objects_of(e: WorkEntry) -> Map<Seq<u8>, Seq<u8>>
    decreases e,
{
    if e.name() == metadata_name() {
        Map::empty()
    } else {
        match e {
            WorkEntry::File { name, content } => written(
                Map::empty(),
                ObjectKind::Blob,
                content@,
            ),
            WorkEntry::Directory { name, children } => tree_objects(children@),
            WorkEntry::Other { .. } => Map::empty(),
        }
    }
}

/// The objects that the walk writes for the first `n` entries of `list`.
pub open spec fn all_objects(list: Seq<WorkEntry>, n: int) -> Map<Seq<u8>, Seq<u8>>
    decreases list, n,
{
    if n <= 0 || n > list.len() {
        Map::empty()
    } else {
        all_objects(list, n - 1).union_prefer_right(objects_of(list[n - 1]))
    }
}

/// The objects that the walk writes for a directory: those of its children,
/// and then its own tree.
pub open spec fn tree_objects(list: Seq<WorkEntry>) -> Map<Seq<u8>, Seq<u8>>
    decreases list, list.len() + 1,
{
    written(all_objects(list, list.len() as int), ObjectKind::Tree, tree_bytes(tree_of(list)))
}

/// Whether `name` is the name of the metadata directory, which the walk
/// does not enter.
pub fn is_metadata_name(name: &[u8]) -> (is: bool)
    ensures
        is == (name@ == metadata_name()),
{
    if name.len() == 4 && name[0] == 0x2e && name[1] == 0x67 && name[2] == 0x69 && name[3]
        == 0x74 {
        assert(name@ =~= metadata_name());
        true
    } else {
        false
    }
}

/// Whether every name that the walk over `list` reads is valid UTF-8.
pub fn check_names(list: &Vec<WorkEntry>) -> (ok: bool)
    ensures
        ok == all_names_valid(list@, list@.len() as int),
    decreases list,
{
    let mut i: usize = 0;
    while i < list.len()
        invariant
            i <= list@.len(),
            all_names_valid(list@, i as int),
        decreases list@.len() - i,
    {
        let ghost here = list@[i as int];
        let valid = match &list[i] {
            WorkEntry::File { name, .. } => text_of(name.as_slice()).is_some(),
            WorkEntry::Other { name } => text_of(name.as_slice()).is_some(),
            WorkEntry::Directory { name, children } => {
                proof {
                    assert(decreases_to!(*list => list[i as int]));
                    assert(decreases_to!(here => here->Directory_children));
                }
                text_of(name.as_slice()).is_some() && (is_metadata_name(name.as_slice())
                    || check_names(children))
            },
        };
        assert(valid == names_valid(here));
        if !valid {
            proof {
                lemma_invalid_name_stays(list@, i + 1, list@.len() as int);
            }
            return false;
        }
        i = i + 1;
    }
    true
}

/// A name that is invalid among the first `n` entries is invalid among more.
proof fn lemma_invalid_name_stays(list: Seq<WorkEntry>, n: int, m: int)
    requires
        0 <= n <= m <= list.len(),
        !all_names_valid(list, n),
    ensures
        !all_names_valid(list, m),
    decreases m - n,
{
    if n < m {
        lemma_invalid_name_stays(list, n, m - 1);
    }
}

/// What holds of the first `n` entries holds of each of them.
proof fn lemma_name_valid_at(list: Seq<WorkEntry>, n: int, j: int)
    requires
        0 <= j < n <= list.len(),
        all_names_valid(list, n),
    ensures
        names_valid(list[j]),
    decreases n,
{
    if j < n - 1 {
        lemma_name_valid_at(list, n - 1, j);
    }
}

/// An object that the compressor refuses among the first `n` entries is
/// refused among more.
proof fn lemma_unstorable_stays(list: Seq<WorkEntry>, n: int, m: int)
    requires
        0 <= n <= m <= list.len(),
        !all_storable(list, n),
    ensures
        !all_storable(list, m),
    decreases m - n,
{
    if n < m {
        lemma_unstorable_stays(list, n, m - 1);
    }
}

/// The tree entry of a child with the given mode, name and digest.
fn named_entry(mode: &str, name: &[u8], hash: [u8; 20]) -> (entry: TreeEntry)
    requires
        valid_utf8(name@),
    ensures
        entry@ == (TreeEntryView { mode: mode@, name: decode_utf8(name@), hash: hash@ }),
{
    let text = match text_of(name) {
        Some(text) => text,
        None => String::new(),
    };
    proof {
        vstd::utf8::encode_utf8_decode_utf8(text@);
    }
    TreeEntry { mode: String::from_str(mode), name: text, hash }
}

/// Writes the objects of a directory into `store`, children first, and
/// returns the digest of its tree. Where the compressor refuses an object the
/// walk stops, and what it wrote before stays in `store`.
fn write_tree_into(list: &Vec<WorkEntry>, store: &mut ObjectStore) -> (res: Result<
    [u8; 20],
    Error,
>)
    requires
        all_names_valid(list@, list@.len() as int),
    ensures
        match res {
            Ok(digest) => {
                &&& tree_storable(list@)
                &&& digest@ == tree_digest(list@)
                &&& final(store)@ == old(store)@.union_prefer_right(tree_objects(list@))
            },
            Err(e) => e == Error::CompressionFailed && !tree_storable(list@),
        },
    decreases list,
{
    let ghost start = store@;
    let mut entries: Vec<TreeEntry> = Vec::new();
    let mut i: usize = 0;
    assert(entry_views(entries@) =~= listed(list@, 0));
    assert(store@ =~= start.union_prefer_right(all_objects(list@, 0)));
    while i < list.len()
        invariant
            i <= list@.len(),
            all_names_valid(list@, list@.len() as int),
            all_storable(list@, i as int),
            entry_views(entries@) == listed(list@, i as int),
            store@ == start.union_prefer_right(all_objects(list@, i as int)),
        decreases list@.len() - i,
    {
        let ghost here = list@[i as int];
        let ghost before = store@;
        let ghost listed_before = entry_views(entries@);
        proof {
            lemma_name_valid_at(list@, list@.len() as int, i as int);
        }
        let written = match &list[i] {
            WorkEntry::Other { .. } => Ok(None),
            WorkEntry::File { name, content } => if is_metadata_name(name.as_slice()) {
                Ok(None)
            } else {
                match store.write(ObjectKind::Blob, content.as_slice()) {
                    Ok(digest) => Ok(Some(named_entry("100644", name.as_slice(), digest))),
                    Err(e) => Err(e),
                }
            },
            WorkEntry::Directory { name, children } => if is_metadata_name(name.as_slice()) {
                Ok(None)
            } else {
                proof {
                    assert(decreases_to!(*list => list[i as int]));
                    assert(decreases_to!(here => here->Directory_children));
                }
                match write_tree_into(children, store) {
                    Ok(digest) => Ok(Some(named_entry("40000", name.as_slice(), digest))),
                    Err(e) => Err(e),
                }
            },
        };
        match written {
            Err(e) => {
                proof {
                    assert(!storable(here));
                    lemma_unstorable_stays(list@, i + 1, list@.len() as int);
                }
                return Err(e);
            },
            Ok(None) => {
                assert(storable(here) && entry_of(here) is None);
                assert(objects_of(here) =~= Map::<Seq<u8>, Seq<u8>>::empty());
            },
            Ok(Some(entry)) => {
                assert(storable(here) && entry_of(here) == Some(entry@));
                entries.push(entry);
                assert(entry_views(entries@) =~= listed_before.push(entry@));
            },
        }
        assert(store@ =~= before.union_prefer_right(objects_of(here)));
        assert(store@ =~= start.union_prefer_right(all_objects(list@, i + 1)));
        i = i + 1;
    }
    let tree = Tree::new(entries);
    let body = tree.as_bytes();
    match store.write(ObjectKind::Tree, body.as_slice()) {
        Ok(digest) => {
            assert(store@ =~= start.union_prefer_right(tree_objects(list@)));
            Ok(digest)
        },
        Err(e) => Err(e),
    }
}

/// Writes the tree of a directory and the objects of everything below it.
///
/// `list` holds the children of the directory. Each regular file is written
/// as a blob and each directory as a tree, the metadata directory and other
/// kinds of file left out; the entries of a tree stand in canonical order.
/// The digest of the tree of `list` is returned.
///
/// Fails with `EncodingError` when a name that the walk reads is not valid
/// UTF-8, and otherwise with `CompressionFailed` when the compressor refuses
/// one of the objects. On failure `store` is left as it was.
pub fn write_tree(list: &Vec<WorkEntry>, store: &mut ObjectStore) -> (res: Result<
    [u8; 20],
    Error,
>)
    ensures
        match res {
            Ok(digest) => {
                &&& all_names_valid(list@, list@.len() as int)
                &&& tree_storable(list@)
                &&& digest@ == tree_digest(list@)
                &&& final(store)@ == old(store)@.union_prefer_right(tree_objects(list@))
            },
            Err(e) => {
                &&& final(store)@ == old(store)@
                &&& e == Error::EncodingError || e == Error::CompressionFailed
                &&& e == Error::EncodingError <==> !all_names_valid(list@, list@.len() as int)
                &&& e == Error::CompressionFailed ==> !tree_storable(list@)
            },
        },
{
    if !check_names(list) {
        return Err(Error::EncodingError);
    }
    let mut fresh = ObjectStore::new();
    match write_tree_into(list, &mut fresh) {
        Ok(digest) => {
            assert(fresh@ =~= tree_objects(list@));
            store.absorb(fresh);
            Ok(digest)
        },
        Err(e) => Err(e),
    }
}

} // verus!
