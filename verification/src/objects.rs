//! The three kinds of object and their canonical bodies.
//!
//! A blob is the bytes of a file. A tree lists the children of a directory in
//! a fixed order, so that one directory has one body and one digest. A commit
//! names a tree and its parent commits, line by line.

pub mod parse;

use vstd::prelude::*;
use vstd::multiset::Multiset;
use vstd::relations::{sorted_by, total_ordering};
use vstd::string::StringExecFns;
use vstd::utf8::encode_utf8;
use crate::bytes::{
    bytes_eq, bytes_lt, lemma_lex_transitive, lemma_lex_trichotomy, lex_lt, lossy_text,
    text_of_lossy,
};
use crate::codec::{hex_encode, hex_of, ObjectKind, LF, NUL, SPACE};
use crate::error::Error;
use crate::objects::parse::{
    commit_readable, entry_readable, lemma_commit_round_trip, lemma_tree_round_trip,
    parse_commit, parse_tree, read_commit, read_tree_entries,
};

verus! {

/// One child of a directory, as a tree records it.
#[derive(Debug, Clone, PartialEq, Eq)]
pub struct TreeEntry {
    /// The mode: `40000` for a directory, `100644` for a regular file.
    pub mode: String,
    /// The name of the child, a single path segment.
    pub name: String,
    /// The digest of the child's object.
    pub hash: [u8; 20],
}

/// A tree entry as a mathematical value.
pub ghost struct TreeEntryView {
    pub mode: Seq<char>,
    pub name: Seq<char>,
    pub hash: Seq<u8>,
}

impl View for TreeEntry {
    type V = TreeEntryView;

    open spec fn view(&self) -> TreeEntryView {
        TreeEntryView { mode: self.mode@, name: self.name@, hash: self.hash@ }
    }
}

/// The entries of a list as mathematical values.
pub open spec fn entry_views(entries: Seq<TreeEntry>) -> Seq<TreeEntryView> {
    entries.map_values(|e: TreeEntry| e@)
}

/// Whether `a` stands strictly before `b` in a tree: by the bytes of the name;
/// among equal names by the bytes of the mode, then by the digest.
pub open spec fn entry_lt(a: TreeEntryView, b: TreeEntryView) -> bool {
    let a_name = encode_utf8(a.name);
    let b_name = encode_utf8(b.name);
    let a_mode = encode_utf8(a.mode);
    let b_mode = encode_utf8(b.mode);
    lex_lt(a_name, b_name) || (a_name == b_name && (lex_lt(a_mode, b_mode) || (a_mode == b_mode
        && lex_lt(a.hash, b.hash))))
}

/// Whether `a` is `b` or stands before it.
pub open spec fn entry_le(a: TreeEntryView, b: TreeEntryView) -> bool {
    a == b || entry_lt(a, b)
}

/// The order of the entries of a tree, as a relation.
pub open spec fn entry_order() -> spec_fn(TreeEntryView, TreeEntryView) -> bool {
    |a: TreeEntryView, b: TreeEntryView| entry_le(a, b)
}

/// Two texts with the same UTF-8 encoding are the same text.
pub proof fn lemma_encoding_injective(a: Seq<char>, b: Seq<char>)
    requires
        encode_utf8(a) == encode_utf8(b),
    ensures
        a == b,
{
    vstd::utf8::encode_utf8_decode_utf8(a);
    vstd::utf8::encode_utf8_decode_utf8(b);
}

/// Of two different entries exactly one stands before the other.
pub proof fn lemma_entry_trichotomy(a: TreeEntryView, b: TreeEntryView)
    ensures
        a == b || entry_lt(a, b) || entry_lt(b, a),
        !(entry_lt(a, b) && entry_lt(b, a)),
        !entry_lt(a, a),
{
    lemma_lex_trichotomy(encode_utf8(a.name), encode_utf8(b.name));
    lemma_lex_trichotomy(encode_utf8(a.mode), encode_utf8(b.mode));
    lemma_lex_trichotomy(a.hash, b.hash);
    lemma_lex_trichotomy(encode_utf8(a.name), encode_utf8(a.name));
    lemma_lex_trichotomy(encode_utf8(a.mode), encode_utf8(a.mode));
    lemma_lex_trichotomy(a.hash, a.hash);
    if encode_utf8(a.name) == encode_utf8(b.name) && encode_utf8(a.mode) == encode_utf8(b.mode)
        && a.hash == b.hash {
        lemma_encoding_injective(a.name, b.name);
        lemma_encoding_injective(a.mode, b.mode);
    }
}

/// The strict order of entries is transitive.
pub proof fn lemma_entry_transitive(a: TreeEntryView, b: TreeEntryView, c: TreeEntryView)
    requires
        entry_lt(a, b),
        entry_lt(b, c),
    ensures
        entry_lt(a, c),
{
    let (an, bn, cn) = (encode_utf8(a.name), encode_utf8(b.name), encode_utf8(c.name));
    let (am, bm, cm) = (encode_utf8(a.mode), encode_utf8(b.mode), encode_utf8(c.mode));
    if lex_lt(an, bn) && lex_lt(bn, cn) {
        lemma_lex_transitive(an, bn, cn);
    } else if an == bn && bn == cn {
        if lex_lt(am, bm) && lex_lt(bm, cm) {
            lemma_lex_transitive(am, bm, cm);
        } else if am == bm && bm == cm {
            lemma_lex_transitive(a.hash, b.hash, c.hash);
        }
    }
}

/// The order of entries is total: any list of entries has one sorted form.
pub proof fn lemma_entry_order_total()
    ensures
        total_ordering(entry_order()),
{
    let r = entry_order();
    assert forall|x: TreeEntryView, y: TreeEntryView| #[trigger] r(x, y) && #[trigger] r(y, x)
        implies x == y by {
        lemma_entry_trichotomy(x, y);
    }
    assert forall|x: TreeEntryView, y: TreeEntryView, z: TreeEntryView| #[trigger]
        r(x, y) && #[trigger] r(y, z) implies r(x, z) by {
        if x != y && y != z {
            lemma_entry_transitive(x, y, z);
        }
    }
    assert forall|x: TreeEntryView, y: TreeEntryView| #[trigger] r(x, y) || #[trigger] r(y, x) by {
        lemma_entry_trichotomy(x, y);
    }
}

/// The canonical order of a list of entries.
pub open spec fn canonical(entries: Seq<TreeEntryView>) -> Seq<TreeEntryView> {
    entries.sort_by(entry_order())
}

/// Lists that hold the same entries, in whatever order, have the same
/// canonical order: it is sorted and holds those entries.
pub proof fn lemma_canonical_order(a: Seq<TreeEntryView>, b: Seq<TreeEntryView>)
    requires
        a.to_multiset() == b.to_multiset(),
    ensures
        canonical(a) == canonical(b),
        sorted_by(canonical(a), entry_order()),
        canonical(a).to_multiset() == a.to_multiset(),
{
    lemma_entry_order_total();
    a.lemma_sort_by_ensures(entry_order());
    b.lemma_sort_by_ensures(entry_order());
    vstd::seq_lib::lemma_sorted_unique(canonical(a), canonical(b), entry_order());
}

/// Whether `a` stands strictly before `b`.
pub fn entry_precedes(a: &TreeEntry, b: &TreeEntry) -> (before: bool)
    ensures
        before == entry_lt(a@, b@),
{
    let a_name = a.name.as_str().as_bytes();
    let b_name = b.name.as_str().as_bytes();
    if bytes_lt(a_name, b_name) {
        return true;
    }
    if !bytes_eq(a_name, b_name) {
        return false;
    }
    let a_mode = a.mode.as_str().as_bytes();
    let b_mode = b.mode.as_str().as_bytes();
    if bytes_lt(a_mode, b_mode) {
        return true;
    }
    if !bytes_eq(a_mode, b_mode) {
        return false;
    }
    bytes_lt(a.hash.as_slice(), b.hash.as_slice())
}

/// The bytes of one entry: mode, space, name, NUL, and the raw digest.
pub open spec fn entry_bytes(e: TreeEntryView) -> Seq<u8> {
    encode_utf8(e.mode) + seq![SPACE] + encode_utf8(e.name) + seq![NUL] + e.hash
}

/// The body of a tree: the bytes of its entries, one after the other.
pub open spec fn tree_bytes(entries: Seq<TreeEntryView>) -> Seq<u8>
    decreases entries.len(),
{
    if entries.len() == 0 {
        Seq::<u8>::empty()
    } else {
        tree_bytes(entries.drop_last()) + entry_bytes(entries.last())
    }
}

/// The empty list holds no entry.
proof fn lemma_empty_multiset()
    ensures
        Seq::<TreeEntryView>::empty().to_multiset() == Multiset::<TreeEntryView>::empty(),
{
    let none = Seq::<TreeEntryView>::empty();
    vstd::seq_lib::to_multiset_len(none);
    vstd::multiset::lemma_multiset_empty_len(none.to_multiset());
}

/// The body of a tree does not depend on the order in which its entries
/// were listed: lists that hold the same entries give the same bytes once
/// they are brought into canonical order.
pub proof fn lemma_tree_bytes_canonical(a: Seq<TreeEntryView>, b: Seq<TreeEntryView>)
    requires
        a.to_multiset() == b.to_multiset(),
    ensures
        tree_bytes(canonical(a)) == tree_bytes(canonical(b)),
{
    lemma_canonical_order(a, b);
}

/// Brings a list of entries into canonical order.
pub fn sort_entries(entries: Vec<TreeEntry>) -> (sorted: Vec<TreeEntry>)
    ensures
        entry_views(sorted@) == canonical(entry_views(entries@)),
{
    let ghost all = entry_views(entries@);
    let mut rest = entries;
    let mut sorted: Vec<TreeEntry> = Vec::new();
    assert(entry_views(sorted@) =~= Seq::<TreeEntryView>::empty());
    proof {
        broadcast use vstd::multiset::group_multiset_axioms;

        lemma_empty_multiset();
        let none = Seq::<TreeEntryView>::empty();
        assert(none.to_multiset().add(all.to_multiset()) =~= all.to_multiset());
    }
    while rest.len() > 0
        invariant
            sorted_by(entry_views(sorted@), entry_order()),
            entry_views(sorted@).to_multiset().add(entry_views(rest@).to_multiset())
                == all.to_multiset(),
        decreases rest.len(),
    {
        let ghost rest_before = entry_views(rest@);
        let ghost sorted_before = entry_views(sorted@);
        let entry = rest.pop().unwrap();
        assert(rest_before =~= entry_views(rest@).push(entry@));
        let mut at: usize = 0;
        while at < sorted.len() && entry_precedes(&sorted[at], &entry)
            invariant
                at <= sorted.len(),
                forall|j: int| 0 <= j < at ==> entry_lt(#[trigger] sorted@[j]@, entry@),
            decreases sorted.len() - at,
        {
            at = at + 1;
        }
        sorted.insert(at, entry);
        proof {
            let r = entry_order();
            let now = entry_views(sorted@);
            let rest_now = entry_views(rest@);
            assert(now =~= sorted_before.insert(at as int, entry@));
            assert forall|i: int, j: int| 0 <= i < j < now.len() implies #[trigger] r(
                now[i],
                now[j],
            ) by {
                if j == at {
                    assert(now[i] == sorted_before[i]);
                } else if i == at {
                    let next = sorted_before[at as int];
                    let other = sorted_before[j - 1];
                    assert(now[j] == other);
                    assert(j - 1 == at || r(next, other));
                    lemma_entry_trichotomy(next, entry@);
                    if entry@ != next && next != other {
                        lemma_entry_transitive(entry@, next, other);
                    }
                } else {
                    let bi = if i < at { i } else { i - 1 };
                    let bj = if j < at { j } else { j - 1 };
                    assert(now[i] == sorted_before[bi] && now[j] == sorted_before[bj]);
                    assert(r(sorted_before[bi], sorted_before[bj]));
                }
            }
            vstd::seq_lib::to_multiset_insert(sorted_before, at as int, entry@);
            vstd::seq_lib::to_multiset_build(rest_now, entry@);
            assert(now.to_multiset().add(rest_now.to_multiset()) =~= sorted_before.to_multiset().add(
                rest_before.to_multiset(),
            ));
        }
    }
    proof {
        broadcast use vstd::multiset::group_multiset_axioms;

        lemma_empty_multiset();
        let none = Seq::<TreeEntryView>::empty();
        assert(entry_views(rest@) =~= none);
        assert(entry_views(sorted@).to_multiset() =~= all.to_multiset());
        lemma_canonical_order(all, all);
        lemma_entry_order_total();
        vstd::seq_lib::lemma_sorted_unique(entry_views(sorted@), canonical(all), entry_order());
    }
    sorted
}

/// The listing of a directory: its entries in canonical order.
#[derive(Debug)]
pub struct Tree {
    entries: Vec<TreeEntry>,
}

impl View for Tree {
    type V = Seq<TreeEntryView>;

    closed spec fn view(&self) -> Seq<TreeEntryView> {
        entry_views(self.entries@)
    }
}

impl Clone for Tree {
    fn clone(&self) -> (copy: Tree)
        ensures
            copy@ == self@,
    {
        proof {
            use_type_invariant(self);
        }
        let mut entries: Vec<TreeEntry> = Vec::new();
        let mut i: usize = 0;
        while i < self.entries.len()
            invariant
                i <= self.entries@.len(),
                entry_views(entries@) == entry_views(self.entries@).subrange(0, i as int),
            decreases self.entries@.len() - i,
        {
            let entry = &self.entries[i];
            let ghost before = entry_views(entries@);
            let copy = TreeEntry {
                mode: entry.mode.clone(),
                name: entry.name.clone(),
                hash: entry.hash,
            };
            assert(copy@ == entry@);
            entries.push(copy);
            assert(entry_views(entries@) =~= before.push(entry@));
            assert(entry_views(entries@) =~= entry_views(self.entries@).subrange(0, i + 1));
            i = i + 1;
        }
        assert(entry_views(entries@) =~= entry_views(self.entries@));
        Tree { entries }
    }
}

impl Tree {
    /// The entries stand in canonical order.
    #[verifier::type_invariant]
    spec fn ordered(self) -> bool {
        sorted_by(entry_views(self.entries@), entry_order())
    }

    /// The tree that holds `entries`, brought into canonical order.
    pub fn new(entries: Vec<TreeEntry>) -> (tree: Tree)
        ensures
            tree@ == canonical(entry_views(entries@)),
    {
        let sorted = sort_entries(entries);
        proof {
            lemma_canonical_order(entry_views(entries@), entry_views(entries@));
        }
        Tree { entries: sorted }
    }

    /// The entries, in canonical order.
    pub fn entries(&self) -> (list: &Vec<TreeEntry>)
        ensures
            entry_views(list@) == self@,
            sorted_by(self@, entry_order()),
    {
        proof {
            use_type_invariant(self);
        }
        &self.entries
    }

    /// The body of the tree object: for each entry its mode, a space, its
    /// name, a NUL and its raw digest.
    pub fn as_bytes(&self) -> (bytes: Vec<u8>)
        ensures
            bytes@ == tree_bytes(self@),
    {
        let mut bytes: Vec<u8> = Vec::new();
        let mut i: usize = 0;
        let ghost views = entry_views(self.entries@);
        assert(views.subrange(0, 0) =~= Seq::<TreeEntryView>::empty());
        while i < self.entries.len()
            invariant
                i <= self.entries@.len(),
                views == entry_views(self.entries@),
                bytes@ == tree_bytes(views.subrange(0, i as int)),
            decreases self.entries@.len() - i,
        {
            let entry = &self.entries[i];
            let ghost before = bytes@;
            bytes.extend_from_slice(entry.mode.as_str().as_bytes());
            bytes.push(SPACE);
            bytes.extend_from_slice(entry.name.as_str().as_bytes());
            bytes.push(NUL);
            bytes.extend_from_slice(entry.hash.as_slice());
            proof {
                let upto = views.subrange(0, i + 1);
                assert(upto.drop_last() =~= views.subrange(0, i as int));
                assert(upto.last() == entry@);
                assert(bytes@ =~= before + entry_bytes(entry@));
            }
            i = i + 1;
        }
        assert(views.subrange(0, i as int) =~= views);
        bytes
    }
}

/// A snapshot: a tree, the commits it follows, who made it, and why.
#[derive(Debug, Clone)]
pub struct Commit {
    /// The digest of the root tree, in hexadecimal.
    pub tree_hash: String,
    /// The digests of the parent commits, in hexadecimal, first parent first.
    pub parents: Vec<String>,
    /// Identity and time of the author.
    pub author: String,
    /// Identity and time of the committer.
    pub committer: String,
    /// The message, kept verbatim.
    pub message: String,
}

/// A commit as a mathematical value.
pub ghost struct CommitView {
    pub tree_hash: Seq<char>,
    pub parents: Seq<Seq<char>>,
    pub author: Seq<char>,
    pub committer: Seq<char>,
    pub message: Seq<char>,
}

/// The texts of a list as mathematical values.
pub open spec fn text_views(texts: Seq<String>) -> Seq<Seq<char>> {
    texts.map_values(|t: String| t@)
}

impl View for Commit {
    type V = CommitView;

    open spec fn view(&self) -> CommitView {
        CommitView {
            tree_hash: self.tree_hash@,
            parents: text_views(self.parents@),
            author: self.author@,
            committer: self.committer@,
            message: self.message@,
        }
    }
}

/// One line of a commit: a keyword with its space, a value, a line feed.
pub open spec fn line_bytes(keyword: Seq<char>, value: Seq<char>) -> Seq<u8> {
    encode_utf8(keyword) + encode_utf8(value) + seq![LF]
}

/// The `parent` lines of a commit, in the order of the parents.
pub open spec fn parent_lines(parents: Seq<Seq<char>>) -> Seq<u8>
    decreases parents.len(),
{
    if parents.len() == 0 {
        Seq::<u8>::empty()
    } else {
        parent_lines(parents.drop_last()) + line_bytes("parent "@, parents.last())
    }
}

/// The body of a commit: the `tree` line, the `parent` lines, the `author`
/// and `committer` lines, an empty line, and the message.
pub open spec fn commit_bytes(c: CommitView) -> Seq<u8> {
    line_bytes("tree "@, c.tree_hash) + parent_lines(c.parents) + line_bytes("author "@, c.author)
        + line_bytes("committer "@, c.committer) + seq![LF] + encode_utf8(c.message)
}

/// Appends one line to `out`.
fn push_line(out: &mut Vec<u8>, keyword: &str, value: &str)
    ensures
        final(out)@ == old(out)@ + line_bytes(keyword@, value@),
{
    out.extend_from_slice(keyword.as_bytes());
    out.extend_from_slice(value.as_bytes());
    out.push(LF);
    assert(out@ =~= old(out)@ + line_bytes(keyword@, value@));
}

impl Commit {
    /// The body of the commit object.
    pub fn as_bytes(&self) -> (bytes: Vec<u8>)
        ensures
            bytes@ == commit_bytes(self@),
    {
        let mut bytes: Vec<u8> = Vec::new();
        push_line(&mut bytes, "tree ", self.tree_hash.as_str());
        let ghost head = bytes@;
        let ghost parents = text_views(self.parents@);
        let mut i: usize = 0;
        assert(parents.subrange(0, 0) =~= Seq::<Seq<char>>::empty());
        while i < self.parents.len()
            invariant
                i <= self.parents@.len(),
                parents == text_views(self.parents@),
                bytes@ == head + parent_lines(parents.subrange(0, i as int)),
            decreases self.parents@.len() - i,
        {
            let ghost before = bytes@;
            push_line(&mut bytes, "parent ", self.parents[i].as_str());
            proof {
                let upto = parents.subrange(0, i + 1);
                assert(upto.drop_last() =~= parents.subrange(0, i as int));
                assert(upto.last() == self.parents@[i as int]@);
                assert(bytes@ =~= head + parent_lines(upto));
            }
            i = i + 1;
        }
        assert(parents.subrange(0, i as int) =~= parents);
        push_line(&mut bytes, "author ", self.author.as_str());
        push_line(&mut bytes, "committer ", self.committer.as_str());
        bytes.push(LF);
        bytes.extend_from_slice(self.message.as_str().as_bytes());
        assert(bytes@ =~= commit_bytes(self@));
        bytes
    }
}

/// The contents of a file.
#[derive(Debug, Clone)]
pub struct Blob {
    /// The bytes of the file.
    pub content: Vec<u8>,
}

/// An object of any of the three kinds.
#[derive(Debug)]
pub enum GitObject {
    /// File contents.
    Blob(Blob),
    /// A directory listing.
    Tree(Tree),
    /// A snapshot.
    Commit(Commit),
}

/// An object as a mathematical value.
pub ghost enum GitObjectView {
    Blob(Seq<u8>),
    Tree(Seq<TreeEntryView>),
    Commit(CommitView),
}

impl View for GitObject {
    type V = GitObjectView;

    open spec fn view(&self) -> GitObjectView {
        match self {
            GitObject::Blob(blob) => GitObjectView::Blob(blob.content@),
            GitObject::Tree(tree) => GitObjectView::Tree(tree@),
            GitObject::Commit(commit) => GitObjectView::Commit(commit@),
        }
    }
}

impl GitObjectView {
    /// The kind of the object.
    pub open spec fn kind(self) -> ObjectKind {
        match self {
            GitObjectView::Blob(_) => ObjectKind::Blob,
            GitObjectView::Tree(_) => ObjectKind::Tree,
            GitObjectView::Commit(_) => ObjectKind::Commit,
        }
    }

    /// The canonical body of the object.
    pub open spec fn body(self) -> Seq<u8> {
        match self {
            GitObjectView::Blob(content) => content,
            GitObjectView::Tree(entries) => tree_bytes(entries),
            GitObjectView::Commit(commit) => commit_bytes(commit),
        }
    }

    /// The object as it is shown to a reader.
    pub open spec fn text(self) -> Seq<char> {
        match self {
            GitObjectView::Blob(content) => lossy_text(content),
            GitObjectView::Tree(entries) => tree_text(entries),
            GitObjectView::Commit(commit) => commit_text(commit),
        }
    }
}

/// One entry as it is shown: mode, digest in hexadecimal and name, separated
/// by spaces, on a line of its own.
pub open spec fn entry_text(e: TreeEntryView) -> Seq<char> {
    e.mode + " "@ + hex_of(e.hash) + " "@ + e.name + "\n"@
}

/// A tree as it is shown: one line for each entry.
pub open spec fn tree_text(entries: Seq<TreeEntryView>) -> Seq<char>
    decreases entries.len(),
{
    if entries.len() == 0 {
        Seq::<char>::empty()
    } else {
        tree_text(entries.drop_last()) + entry_text(entries.last())
    }
}

/// One line of a shown commit.
pub open spec fn line_text(keyword: Seq<char>, value: Seq<char>) -> Seq<char> {
    keyword + value + "\n"@
}

/// The `parent` lines of a shown commit.
pub open spec fn parent_text(parents: Seq<Seq<char>>) -> Seq<char>
    decreases parents.len(),
{
    if parents.len() == 0 {
        Seq::<char>::empty()
    } else {
        parent_text(parents.drop_last()) + line_text("parent "@, parents.last())
    }
}

/// A commit as it is shown: its header lines, an empty line, and the message
/// on a line of its own.
pub open spec fn commit_text(c: CommitView) -> Seq<char> {
    line_text("tree "@, c.tree_hash) + parent_text(c.parents) + line_text("author "@, c.author)
        + line_text("committer "@, c.committer) + "\n"@ + c.message + "\n"@
}

/// Appends one shown line to `out`.
fn append_line(out: &mut String, keyword: &str, value: &str)
    ensures
        final(out)@ == old(out)@ + line_text(keyword@, value@),
{
    out.append(keyword);
    out.append(value);
    out.append("\n");
    assert(out@ =~= old(out)@ + line_text(keyword@, value@));
}

/// The object that a body of the given kind holds. The entries of a tree
/// are brought into canonical order.
pub open spec fn decoded(kind: ObjectKind, body: Seq<u8>) -> Result<GitObjectView, Error> {
    match kind {
        ObjectKind::Blob => Ok(GitObjectView::Blob(body)),
        ObjectKind::Tree => match parse_tree(body) {
            Ok(entries) => Ok(GitObjectView::Tree(canonical(entries))),
            Err(e) => Err(e),
        },
        ObjectKind::Commit => match parse_commit(body) {
            Ok(commit) => Ok(GitObjectView::Commit(commit)),
            Err(e) => Err(e),
        },
    }
}

/// Whether an object can be read back from its body. Any blob can; a tree
/// must be in canonical order with entries that can be read back; the
/// digests and identities of a commit must each stand on one line.
pub open spec fn readable(object: GitObjectView) -> bool {
    match object {
        GitObjectView::Blob(_) => true,
        GitObjectView::Tree(entries) => sorted_by(entries, entry_order()) && forall|i: int|
            0 <= i < entries.len() ==> entry_readable(#[trigger] entries[i]),
        GitObjectView::Commit(commit) => commit_readable(commit),
    }
}

/// Decoding the body of an object gives the object back.
pub proof fn lemma_decode_round_trip(object: GitObjectView)
    requires
        readable(object),
    ensures
        decoded(object.kind(), object.body()) == Ok::<GitObjectView, Error>(object),
{
    match object {
        GitObjectView::Blob(_) => {},
        GitObjectView::Tree(entries) => {
            lemma_tree_round_trip(entries);
            lemma_canonical_order(entries, entries);
            lemma_entry_order_total();
            vstd::seq_lib::lemma_sorted_unique(canonical(entries), entries, entry_order());
        },
        GitObjectView::Commit(commit) => {
            lemma_commit_round_trip(commit);
        },
    }
}

impl GitObject {
    /// Reads the object that a body of the given kind holds.
    ///
    /// Any bytes are a blob. The body of a tree or of a commit that is not
    /// built as one is a `CorruptObject`, and a name, a mode or a field of a
    /// commit that is not valid UTF-8 is an `EncodingError`.
    pub fn decode(kind: ObjectKind, body: Vec<u8>) -> (res: Result<GitObject, Error>)
        ensures
            match res {
                Ok(object) => decoded(kind, body@) == Ok::<GitObjectView, Error>(object@),
                Err(e) => decoded(kind, body@) == Err::<GitObjectView, Error>(e),
            },
    {
        match kind {
            ObjectKind::Blob => Ok(GitObject::Blob(Blob { content: body })),
            ObjectKind::Tree => match read_tree_entries(body.as_slice()) {
                Ok(entries) => Ok(GitObject::Tree(Tree::new(entries))),
                Err(e) => Err(e),
            },
            ObjectKind::Commit => match read_commit(body.as_slice()) {
                Ok(commit) => Ok(GitObject::Commit(commit)),
                Err(e) => Err(e),
            },
        }
    }

    /// The kind of the object.
    pub fn kind(&self) -> (kind: ObjectKind)
        ensures
            kind == self@.kind(),
    {
        match self {
            GitObject::Blob(_) => ObjectKind::Blob,
            GitObject::Tree(_) => ObjectKind::Tree,
            GitObject::Commit(_) => ObjectKind::Commit,
        }
    }

    /// The canonical body of the object, from which its digest is computed.
    pub fn as_bytes(&self) -> (bytes: Vec<u8>)
        ensures
            bytes@ == self@.body(),
    {
        match self {
            GitObject::Blob(blob) => {
                let mut bytes: Vec<u8> = Vec::new();
                bytes.extend_from_slice(blob.content.as_slice());
                assert(bytes@ =~= blob.content@);
                bytes
            },
            GitObject::Tree(tree) => tree.as_bytes(),
            GitObject::Commit(commit) => commit.as_bytes(),
        }
    }

    /// The object as text for a reader: a blob as its contents read as UTF-8,
    /// a tree as one line for each entry, a commit as its lines and message.
    pub fn to_text(&self) -> (text: String)
        ensures
            text@ == self@.text(),
    {
        match self {
            GitObject::Blob(blob) => text_of_lossy(blob.content.as_slice()),
            GitObject::Tree(tree) => {
                let entries = tree.entries();
                let ghost views = entry_views(entries@);
                let mut text = String::new();
                let mut i: usize = 0;
                assert(views.subrange(0, 0) =~= Seq::<TreeEntryView>::empty());
                while i < entries.len()
                    invariant
                        i <= entries@.len(),
                        views == entry_views(entries@),
                        text@ == tree_text(views.subrange(0, i as int)),
                    decreases entries@.len() - i,
                {
                    let entry = &entries[i];
                    let ghost before = text@;
                    let digest = hex_encode(entry.hash.as_slice());
                    text.append(entry.mode.as_str());
                    text.append(" ");
                    text.append(digest.as_str());
                    text.append(" ");
                    text.append(entry.name.as_str());
                    text.append("\n");
                    proof {
                        let upto = views.subrange(0, i + 1);
                        assert(upto.drop_last() =~= views.subrange(0, i as int));
                        assert(upto.last() == entry@);
                        assert(text@ =~= before + entry_text(entry@));
                    }
                    i = i + 1;
                }
                assert(views.subrange(0, i as int) =~= views);
                text
            },
            GitObject::Commit(commit) => {
                let mut text = String::new();
                append_line(&mut text, "tree ", commit.tree_hash.as_str());
                let ghost head = text@;
                let ghost parents = text_views(commit.parents@);
                let mut i: usize = 0;
                assert(parents.subrange(0, 0) =~= Seq::<Seq<char>>::empty());
                while i < commit.parents.len()
                    invariant
                        i <= commit.parents@.len(),
                        parents == text_views(commit.parents@),
                        text@ == head + parent_text(parents.subrange(0, i as int)),
                    decreases commit.parents@.len() - i,
                {
                    append_line(&mut text, "parent ", commit.parents[i].as_str());
                    proof {
                        let upto = parents.subrange(0, i + 1);
                        assert(upto.drop_last() =~= parents.subrange(0, i as int));
                        assert(upto.last() == commit.parents@[i as int]@);
                        assert(text@ =~= head + parent_text(upto));
                    }
                    i = i + 1;
                }
                assert(parents.subrange(0, i as int) =~= parents);
                append_line(&mut text, "author ", commit.author.as_str());
                append_line(&mut text, "committer ", commit.committer.as_str());
                text.append("\n");
                text.append(commit.message.as_str());
                text.append("\n");
                assert(text@ =~= commit_text(commit@));
                text
            },
        }
    }
}

} // verus!
