//! Reading trees and commits back from their bodies.

use vstd::prelude::*;
use vstd::slice::slice_subrange;
use vstd::utf8::{decode_utf8, encode_utf8, valid_utf8};
use crate::bytes::{bytes_eq, text_of};
use crate::codec::{
    copy_range, find_byte, lemma_position, lemma_position_is, position, LF, NUL, SPACE,
};
use crate::error::Error;
use crate::objects::{
    commit_bytes, entry_bytes, entry_views, line_bytes, parent_lines, text_views, tree_bytes,
    Commit, CommitView, TreeEntry, TreeEntryView,
};

verus! {

/// A result with the entries `done` put before what it holds.
pub open spec fn entries_then(done: Seq<TreeEntryView>, r: Result<Seq<TreeEntryView>, Error>) -> Result<
    Seq<TreeEntryView>,
    Error,
> {
    match r {
        Ok(rest) => Ok(done + rest),
        Err(e) => Err(e),
    }
}

/// The first entry of the body of a tree, and the number of bytes that it
/// takes. The mode ends at the first space and the name at the first NUL
/// after it; twenty bytes of digest follow. A body that ends before that is
/// corrupt, and mode and name must be valid UTF-8.
pub open spec fn parse_tree_entry(body: Seq<u8>) -> Result<(TreeEntryView, int), Error> {
    let sp = position(body, SPACE);
    let rest = body.subrange(sp + 1, body.len() as int);
    let nul = position(rest, NUL);
    if sp >= body.len() || nul >= rest.len() || rest.len() - nul - 1 < 20 {
        Err(Error::CorruptObject)
    } else if !valid_utf8(body.subrange(0, sp)) || !valid_utf8(rest.subrange(0, nul)) {
        Err(Error::EncodingError)
    } else {
        Ok(
            (
                TreeEntryView {
                    mode: decode_utf8(body.subrange(0, sp)),
                    name: decode_utf8(rest.subrange(0, nul)),
                    hash: rest.subrange(nul + 1, nul + 21),
                },
                sp + nul + 22,
            ),
        )
    }
}

/// The entries of the body of a tree, in the order of the body.
pub open spec fn parse_tree(body: Seq<u8>) -> Result<Seq<TreeEntryView>, Error>
    decreases body.len(),
{
    if body.len() == 0 {
        Ok(Seq::<TreeEntryView>::empty())
    } else {
        match parse_tree_entry(body) {
            Err(e) => Err(e),
            Ok((entry, taken)) => if 0 < taken <= body.len() {
                entries_then(seq![entry], parse_tree(body.subrange(taken, body.len() as int)))
            } else {
                Err(Error::CorruptObject)
            },
        }
    }
}

/// Whether an entry can be read back from its bytes: its mode holds no
/// space, its name no NUL, and its digest has twenty bytes.
pub open spec fn entry_readable(e: TreeEntryView) -> bool {
    &&& !encode_utf8(e.mode).contains(SPACE)
    &&& !encode_utf8(e.name).contains(NUL)
    &&& e.hash.len() == 20
}

/// The bytes of a list with an entry put before it are those of the entry
/// and then those of the list.
pub proof fn lemma_tree_bytes_front(e: TreeEntryView, rest: Seq<TreeEntryView>)
    ensures
        tree_bytes(seq![e] + rest) == entry_bytes(e) + tree_bytes(rest),
    decreases rest.len(),
{
    let all = seq![e] + rest;
    if rest.len() == 0 {
        let a = entry_bytes(e);
        let none = Seq::<u8>::empty();
        assert(all.drop_last() =~= Seq::<TreeEntryView>::empty());
        assert(all.last() == e);
        assert(tree_bytes(all) == tree_bytes(all.drop_last()) + a);
        assert(tree_bytes(all.drop_last()) == none);
        assert(tree_bytes(rest) == none);
        assert(none + a =~= a + none);
    } else {
        lemma_tree_bytes_front(e, rest.drop_last());
        assert(all.drop_last() =~= seq![e] + rest.drop_last());
        assert(all.last() == rest.last());
        let a = entry_bytes(e);
        let b = tree_bytes(rest.drop_last());
        let c = entry_bytes(rest.last());
        assert(tree_bytes(all) == tree_bytes(all.drop_last()) + entry_bytes(all.last()));
        assert(tree_bytes(rest) == b + c);
        assert((a + b) + c =~= a + (b + c));
    }
}

/// An entry is read back from the front of what starts with its bytes.
pub proof fn lemma_tree_entry_round_trip(e: TreeEntryView, tail: Seq<u8>)
    requires
        entry_readable(e),
    ensures
        parse_tree_entry(entry_bytes(e) + tail) == Ok::<(TreeEntryView, int), Error>(
            (e, entry_bytes(e).len() as int),
        ),
        entry_bytes(e).len() > 0,
{
    let mode = encode_utf8(e.mode);
    let name = encode_utf8(e.name);
    let body = entry_bytes(e) + tail;
    let sp = mode.len() as int;
    let nul = name.len() as int;
    assert forall|j: int| 0 <= j < sp implies body[j] != SPACE by {
        assert(body[j] == mode[j]);
    }
    assert(body[sp] == SPACE);
    lemma_position_is(body, SPACE, sp);
    let rest = body.subrange(sp + 1, body.len() as int);
    assert(rest =~= name + seq![NUL] + e.hash + tail);
    assert forall|j: int| 0 <= j < nul implies rest[j] != NUL by {
        assert(rest[j] == name[j]);
    }
    assert(rest[nul] == NUL);
    lemma_position_is(rest, NUL, nul);
    assert(body.subrange(0, sp) =~= mode);
    assert(rest.subrange(0, nul) =~= name);
    assert(rest.subrange(nul + 1, nul + 21) =~= e.hash);
    vstd::utf8::encode_utf8_valid_utf8(e.mode);
    vstd::utf8::encode_utf8_valid_utf8(e.name);
    vstd::utf8::encode_utf8_decode_utf8(e.mode);
    vstd::utf8::encode_utf8_decode_utf8(e.name);
}

/// The entries of a tree are read back from its body.
pub proof fn lemma_tree_round_trip(entries: Seq<TreeEntryView>)
    requires
        forall|i: int| 0 <= i < entries.len() ==> entry_readable(#[trigger] entries[i]),
    ensures
        parse_tree(tree_bytes(entries)) == Ok::<Seq<TreeEntryView>, Error>(entries),
    decreases entries.len(),
{
    if entries.len() == 0 {
        assert(entries =~= Seq::<TreeEntryView>::empty());
    } else {
        let e = entries[0];
        let rest = entries.drop_first();
        let body = tree_bytes(entries);
        let taken = entry_bytes(e).len() as int;
        assert(entries =~= seq![e] + rest);
        lemma_tree_bytes_front(e, rest);
        lemma_tree_entry_round_trip(e, tree_bytes(rest));
        assert(body.subrange(taken, body.len() as int) =~= tree_bytes(rest));
        assert forall|i: int| 0 <= i < rest.len() implies entry_readable(#[trigger] rest[i]) by {
            assert(rest[i] == entries[i + 1]);
        }
        lemma_tree_round_trip(rest);
    }
}

/// Reads the first entry of `body`.
fn read_tree_entry(body: &[u8]) -> (res: Result<(TreeEntry, usize), Error>)
    ensures
        match res {
            Ok((entry, taken)) => parse_tree_entry(body@) == Ok::<(TreeEntryView, int), Error>(
                (entry@, taken as int),
            ) && 0 < taken <= body@.len(),
            Err(e) => parse_tree_entry(body@) == Err::<(TreeEntryView, int), Error>(e),
        },
{
    let n = body.len();
    let sp = find_byte(body, SPACE);
    if sp >= n {
        return Err(Error::CorruptObject);
    }
    let rest = slice_subrange(body, sp + 1, n);
    let nul = find_byte(rest, NUL);
    if nul >= rest.len() || rest.len() - nul - 1 < 20 {
        return Err(Error::CorruptObject);
    }
    let mode = text_of(slice_subrange(body, 0, sp));
    let name = text_of(slice_subrange(rest, 0, nul));
    match (mode, name) {
        (Some(mode), Some(name)) => {
            let digest = copy_range(rest, nul + 1, nul + 21);
            let mut hash = [0u8; 20];
            let mut k: usize = 0;
            while k < 20
                invariant
                    k <= 20,
                    digest@.len() == 20,
                    forall|j: int| 0 <= j < k ==> hash@[j] == digest@[j],
                decreases 20 - k,
            {
                hash[k] = digest[k];
                k = k + 1;
            }
            proof {
                assert(hash@ =~= digest@);
                vstd::utf8::encode_utf8_decode_utf8(mode@);
                vstd::utf8::encode_utf8_decode_utf8(name@);
            }
            Ok((TreeEntry { mode, name, hash }, sp + nul + 22))
        },
        _ => Err(Error::EncodingError),
    }
}

/// Reads the entries of the body of a tree, in the order of the body.
pub fn read_tree_entries(body: &[u8]) -> (res: Result<Vec<TreeEntry>, Error>)
    ensures
        match res {
            Ok(entries) => parse_tree(body@) == Ok::<Seq<TreeEntryView>, Error>(
                entry_views(entries@),
            ),
            Err(e) => parse_tree(body@) == Err::<Seq<TreeEntryView>, Error>(e),
        },
{
    let n = body.len();
    let mut entries: Vec<TreeEntry> = Vec::new();
    let mut pos: usize = 0;
    proof {
        assert(body@.subrange(0, n as int) =~= body@);
        let all = parse_tree(body@);
        if all is Ok {
            assert(entry_views(entries@) + all->Ok_0 =~= all->Ok_0);
        }
    }
    while pos < n
        invariant
            pos <= n == body@.len(),
            parse_tree(body@) == entries_then(
                entry_views(entries@),
                parse_tree(body@.subrange(pos as int, n as int)),
            ),
        decreases n - pos,
    {
        let tail = slice_subrange(body, pos, n);
        let ghost done = entry_views(entries@);
        match read_tree_entry(tail) {
            Err(e) => { return Err(e); },
            Ok((entry, taken)) => {
                proof {
                    let rest = parse_tree(tail@.subrange(taken as int, tail@.len() as int));
                    assert(tail@.subrange(taken as int, tail@.len() as int) =~= body@.subrange(
                        pos + taken,
                        n as int,
                    ));
                    if rest is Ok {
                        assert(done + (seq![entry@] + rest->Ok_0) =~= done.push(entry@)
                            + rest->Ok_0);
                    }
                }
                entries.push(entry);
                assert(entry_views(entries@) =~= done.push(entry@));
                pos = pos + taken;
            },
        }
    }
    proof {
        assert(body@.subrange(pos as int, n as int) =~= Seq::<u8>::empty());
        assert(entry_views(entries@) + Seq::<TreeEntryView>::empty() =~= entry_views(entries@));
    }
    Ok(entries)
}

/// Whether `prefix` stands at the start of `s`.
pub open spec fn starts_with(s: Seq<u8>, prefix: Seq<u8>) -> bool {
    prefix.len() <= s.len() && s.subrange(0, prefix.len() as int) == prefix
}

/// The value of the first line of `body`, if that line starts with
/// `keyword`, and what follows the line.
pub open spec fn take_line(body: Seq<u8>, keyword: Seq<char>) -> Option<(Seq<u8>, Seq<u8>)> {
    let end = position(body, LF);
    let word = encode_utf8(keyword);
    if end < body.len() && starts_with(body.subrange(0, end), word) {
        Some((body.subrange(word.len() as int, end), body.subrange(end + 1, body.len() as int)))
    } else {
        None
    }
}

/// The values of the `parent` lines at the start of `body`, and what follows
/// them.
pub open spec fn take_parents(body: Seq<u8>) -> (Seq<Seq<u8>>, Seq<u8>)
    decreases body.len(),
{
    match take_line(body, "parent "@) {
        Some((value, rest)) => if rest.len() < body.len() {
            let (more, tail) = take_parents(rest);
            (seq![value] + more, tail)
        } else {
            (Seq::<Seq<u8>>::empty(), body)
        },
        None => (Seq::<Seq<u8>>::empty(), body),
    }
}

/// The fields of a commit as the bytes that stand in its body.
pub ghost struct RawCommit {
    pub tree_hash: Seq<u8>,
    pub parents: Seq<Seq<u8>>,
    pub author: Seq<u8>,
    pub committer: Seq<u8>,
    pub message: Seq<u8>,
}

/// The fields of the body of a commit: the `tree` line, the `parent` lines,
/// the `author` and `committer` lines, an empty line, and the message.
/// `None` where the body is not built so.
pub open spec fn split_commit(body: Seq<u8>) -> Option<RawCommit> {
    match take_line(body, "tree "@) {
        None => None,
        Some((tree_hash, after_tree)) => {
            let (parents, after_parents) = take_parents(after_tree);
            match take_line(after_parents, "author "@) {
                None => None,
                Some((author, after_author)) => match take_line(after_author, "committer "@) {
                    None => None,
                    Some((committer, tail)) => if tail.len() > 0 && tail[0] == LF {
                        Some(
                            RawCommit {
                                tree_hash,
                                parents,
                                author,
                                committer,
                                message: tail.subrange(1, tail.len() as int),
                            },
                        )
                    } else {
                        None
                    },
                },
            }
        },
    }
}

/// Whether every field is valid UTF-8.
pub open spec fn raw_commit_valid(raw: RawCommit) -> bool {
    &&& valid_utf8(raw.tree_hash)
    &&& forall|i: int| 0 <= i < raw.parents.len() ==> valid_utf8(#[trigger] raw.parents[i])
    &&& valid_utf8(raw.author)
    &&& valid_utf8(raw.committer)
    &&& valid_utf8(raw.message)
}

/// The commit that the body of a commit object holds. A body that is not
/// built as one is corrupt, and every field must be valid UTF-8.
pub open spec fn parse_commit(body: Seq<u8>) -> Result<CommitView, Error> {
    match split_commit(body) {
        None => Err(Error::CorruptObject),
        Some(raw) => if raw_commit_valid(raw) {
            Ok(
                CommitView {
                    tree_hash: decode_utf8(raw.tree_hash),
                    parents: raw.parents.map_values(|p: Seq<u8>| decode_utf8(p)),
                    author: decode_utf8(raw.author),
                    committer: decode_utf8(raw.committer),
                    message: decode_utf8(raw.message),
                },
            )
        } else {
            Err(Error::EncodingError)
        },
    }
}

/// Whether a text can stand on a line: its encoding holds no line feed.
pub open spec fn one_line(text: Seq<char>) -> bool {
    !encode_utf8(text).contains(LF)
}

/// Whether a commit can be read back from its body: the digests and the
/// identities each stand on one line.
pub open spec fn commit_readable(c: CommitView) -> bool {
    &&& one_line(c.tree_hash)
    &&& forall|i: int| 0 <= i < c.parents.len() ==> one_line(#[trigger] c.parents[i])
    &&& one_line(c.author)
    &&& one_line(c.committer)
}

/// The keywords of a commit are ASCII without a line feed, and the keywords
/// `parent` and `author` start with different letters.
proof fn lemma_keywords()
    ensures
        one_line("tree "@),
        one_line("parent "@),
        one_line("author "@),
        one_line("committer "@),
        encode_utf8("parent "@).len() == 7 && encode_utf8("parent "@)[0] == 0x70,
        encode_utf8("author "@).len() == 7 && encode_utf8("author "@)[0] == 0x61,
{
    reveal_strlit("tree ");
    reveal_strlit("parent ");
    reveal_strlit("author ");
    reveal_strlit("committer ");
    vstd::utf8::is_ascii_chars_encode_utf8("tree "@);
    vstd::utf8::is_ascii_chars_encode_utf8("parent "@);
    vstd::utf8::is_ascii_chars_encode_utf8("author "@);
    vstd::utf8::is_ascii_chars_encode_utf8("committer "@);
    assert forall|i: int| 0 <= i < encode_utf8("tree "@).len() implies encode_utf8("tree "@)[i]
        != LF by {
        assert(encode_utf8("tree "@)[i] == "tree "@[i] as u8);
    }
    assert forall|i: int| 0 <= i < encode_utf8("parent "@).len() implies encode_utf8(
        "parent "@,
    )[i] != LF by {
        assert(encode_utf8("parent "@)[i] == "parent "@[i] as u8);
    }
    assert forall|i: int| 0 <= i < encode_utf8("author "@).len() implies encode_utf8(
        "author "@,
    )[i] != LF by {
        assert(encode_utf8("author "@)[i] == "author "@[i] as u8);
    }
    assert forall|i: int| 0 <= i < encode_utf8("committer "@).len() implies encode_utf8(
        "committer "@,
    )[i] != LF by {
        assert(encode_utf8("committer "@)[i] == "committer "@[i] as u8);
    }
    assert(encode_utf8("parent "@)[0] == "parent "@[0] as u8);
    assert(encode_utf8("author "@)[0] == "author "@[0] as u8);
}

/// A line is read back from the front of what starts with its bytes.
proof fn lemma_take_line_written(keyword: Seq<char>, value: Seq<char>, tail: Seq<u8>)
    requires
        one_line(keyword),
        one_line(value),
    ensures
        take_line(line_bytes(keyword, value) + tail, keyword) == Some((encode_utf8(value), tail)),
{
    let word = encode_utf8(keyword);
    let text = encode_utf8(value);
    let body = line_bytes(keyword, value) + tail;
    let end = (word.len() + text.len()) as int;
    assert forall|j: int| 0 <= j < end implies body[j] != LF by {
        if j < word.len() {
            assert(body[j] == word[j]);
        } else {
            assert(body[j] == text[j - word.len()]);
        }
    }
    assert(body[end] == LF);
    lemma_position_is(body, LF, end);
    assert(body.subrange(0, end).subrange(0, word.len() as int) =~= word);
    assert(body.subrange(word.len() as int, end) =~= text);
    assert(body.subrange(end + 1, body.len() as int) =~= tail);
}

/// The `parent` lines of a list with a parent put before it are the line of
/// that parent and then those of the list.
proof fn lemma_parent_lines_front(p: Seq<char>, rest: Seq<Seq<char>>)
    ensures
        parent_lines(seq![p] + rest) == line_bytes("parent "@, p) + parent_lines(rest),
    decreases rest.len(),
{
    let all = seq![p] + rest;
    if rest.len() == 0 {
        let a = line_bytes("parent "@, p);
        let none = Seq::<u8>::empty();
        assert(all.drop_last() =~= Seq::<Seq<char>>::empty());
        assert(all.last() == p);
        assert(parent_lines(all) == parent_lines(all.drop_last()) + a);
        assert(parent_lines(all.drop_last()) == none);
        assert(parent_lines(rest) == none);
        assert(none + a =~= a + none);
    } else {
        lemma_parent_lines_front(p, rest.drop_last());
        assert(all.drop_last() =~= seq![p] + rest.drop_last());
        assert(all.last() == rest.last());
        let a = line_bytes("parent "@, p);
        let b = parent_lines(rest.drop_last());
        let c = line_bytes("parent "@, rest.last());
        assert(parent_lines(all) == parent_lines(all.drop_last()) + c);
        assert(parent_lines(rest) == b + c);
        assert((a + b) + c =~= a + (b + c));
    }
}

/// The encodings of a list of texts.
pub open spec fn encodings(texts: Seq<Seq<char>>) -> Seq<Seq<u8>> {
    texts.map_values(|t: Seq<char>| encode_utf8(t))
}

/// The `parent` lines are read back up to the line that follows them.
proof fn lemma_take_parents_written(parents: Seq<Seq<char>>, tail: Seq<u8>)
    requires
        forall|i: int| 0 <= i < parents.len() ==> one_line(#[trigger] parents[i]),
        take_line(tail, "parent "@) is None,
    ensures
        take_parents(parent_lines(parents) + tail) == (encodings(parents), tail),
    decreases parents.len(),
{
    lemma_keywords();
    if parents.len() == 0 {
        assert(parent_lines(parents) + tail =~= tail);
        assert(encodings(parents) =~= Seq::<Seq<u8>>::empty());
    } else {
        let p = parents[0];
        let rest = parents.drop_first();
        let line = line_bytes("parent "@, p);
        let after = parent_lines(rest) + tail;
        assert(parents =~= seq![p] + rest);
        lemma_parent_lines_front(p, rest);
        assert(parent_lines(parents) + tail =~= line + after);
        lemma_take_line_written("parent "@, p, after);
        assert forall|i: int| 0 <= i < rest.len() implies one_line(#[trigger] rest[i]) by {
            assert(rest[i] == parents[i + 1]);
        }
        lemma_take_parents_written(rest, tail);
        assert(seq![encode_utf8(p)] + encodings(rest) =~= encodings(parents));
    }
}

/// A commit whose digests and identities each stand on one line is read
/// back from its body.
pub proof fn lemma_commit_round_trip(c: CommitView)
    requires
        commit_readable(c),
    ensures
        parse_commit(commit_bytes(c)) == Ok::<CommitView, Error>(c),
{
    lemma_keywords();
    let message = encode_utf8(c.message);
    let tail = seq![LF] + message;
    let from_committer = line_bytes("committer "@, c.committer) + tail;
    let from_author = line_bytes("author "@, c.author) + from_committer;
    let from_parents = parent_lines(c.parents) + from_author;
    let body = commit_bytes(c);
    assert(body =~= line_bytes("tree "@, c.tree_hash) + from_parents);
    lemma_take_line_written("tree "@, c.tree_hash, from_parents);
    assert(take_line(from_author, "parent "@) is None) by {
        let end = position(from_author, LF);
        let word = encode_utf8("parent "@);
        lemma_position(from_author, LF);
        if end < from_author.len() && starts_with(from_author.subrange(0, end), word) {
            assert(from_author.subrange(0, end).subrange(0, 7)[0] == from_author[0]);
            assert(from_author[0] == encode_utf8("author "@)[0]);
        }
    }
    lemma_take_parents_written(c.parents, from_author);
    lemma_take_line_written("author "@, c.author, from_committer);
    lemma_take_line_written("committer "@, c.committer, tail);
    assert(tail.subrange(1, tail.len() as int) =~= message);
    let raw = RawCommit {
        tree_hash: encode_utf8(c.tree_hash),
        parents: encodings(c.parents),
        author: encode_utf8(c.author),
        committer: encode_utf8(c.committer),
        message: message,
    };
    assert(split_commit(body) == Some(raw));
    vstd::utf8::encode_utf8_valid_utf8(c.tree_hash);
    vstd::utf8::encode_utf8_valid_utf8(c.author);
    vstd::utf8::encode_utf8_valid_utf8(c.committer);
    vstd::utf8::encode_utf8_valid_utf8(c.message);
    vstd::utf8::encode_utf8_decode_utf8(c.tree_hash);
    vstd::utf8::encode_utf8_decode_utf8(c.author);
    vstd::utf8::encode_utf8_decode_utf8(c.committer);
    vstd::utf8::encode_utf8_decode_utf8(c.message);
    assert forall|i: int| 0 <= i < raw.parents.len() implies valid_utf8(
        #[trigger] raw.parents[i],
    ) by {
        vstd::utf8::encode_utf8_valid_utf8(c.parents[i]);
    }
    assert(raw.parents.map_values(|p: Seq<u8>| decode_utf8(p)) =~= c.parents) by {
        assert forall|i: int| 0 <= i < c.parents.len() implies raw.parents.map_values(
            |p: Seq<u8>| decode_utf8(p),
        )[i] == c.parents[i] by {
            vstd::utf8::encode_utf8_decode_utf8(c.parents[i]);
        }
    }
}

/// Reads the first line of `body` if it starts with `keyword`.
fn read_line<'a>(body: &'a [u8], keyword: &str) -> (res: Option<(&'a [u8], &'a [u8])>)
    ensures
        match res {
            Some((value, rest)) => take_line(body@, keyword@) == Some((value@, rest@))
                && rest@.len() < body@.len(),
            None => take_line(body@, keyword@) is None,
        },
{
    let n = body.len();
    let end = find_byte(body, LF);
    if end >= n {
        return None;
    }
    let word = keyword.as_bytes();
    if word.len() > end {
        return None;
    }
    let start = slice_subrange(body, 0, word.len());
    assert(start@ =~= body@.subrange(0, end as int).subrange(0, word@.len() as int));
    if !bytes_eq(start, word) {
        return None;
    }
    Some((slice_subrange(body, word.len(), end), slice_subrange(body, end + 1, n)))
}

/// The texts of `values`, where each of them is valid UTF-8.
fn texts_of(values: &Vec<&[u8]>) -> (res: Option<Vec<String>>)
    ensures
        match res {
            Some(texts) => {
                &&& forall|i: int| 0 <= i < values@.len() ==> valid_utf8(#[trigger] values@[i]@)
                &&& text_views(texts@) == values@.map_values(|v: &[u8]| decode_utf8(v@))
            },
            None => exists|i: int| 0 <= i < values@.len() && !valid_utf8(#[trigger] values@[i]@),
        },
{
    let mut texts: Vec<String> = Vec::new();
    let mut i: usize = 0;
    while i < values.len()
        invariant
            i <= values@.len(),
            texts@.len() == i,
            forall|j: int| 0 <= j < i ==> valid_utf8(#[trigger] values@[j]@),
            forall|j: int| 0 <= j < i ==> (#[trigger] texts@[j])@ == decode_utf8(values@[j]@),
        decreases values@.len() - i,
    {
        match text_of(values[i]) {
            None => {
                assert(!valid_utf8(values@[i as int]@));
                return None;
            },
            Some(text) => {
                proof {
                    vstd::utf8::encode_utf8_decode_utf8(text@);
                }
                texts.push(text);
            },
        }
        i = i + 1;
    }
    assert(text_views(texts@) =~= values@.map_values(|v: &[u8]| decode_utf8(v@)));
    Some(texts)
}

/// Reads the commit that `body` holds.
///
/// Fails with `CorruptObject` when the body is not built as the body of a
/// commit, and with `EncodingError` when one of its fields is not valid
/// UTF-8.
pub fn read_commit(body: &[u8]) -> (res: Result<Commit, Error>)
    ensures
        match res {
            Ok(commit) => parse_commit(body@) == Ok::<CommitView, Error>(commit@),
            Err(e) => parse_commit(body@) == Err::<CommitView, Error>(e),
        },
{
    let (tree_hash, after_tree) = match read_line(body, "tree ") {
        Some(found) => found,
        None => { return Err(Error::CorruptObject); },
    };
    let mut parent_values: Vec<&[u8]> = Vec::new();
    let mut rest = after_tree;
    let ghost views = Seq::<Seq<u8>>::empty();
    proof {
        let (more, tail) = take_parents(after_tree@);
        assert(views + more =~= more);
    }
    loop
        invariant
            views == parent_values@.map_values(|v: &[u8]| v@),
            take_parents(after_tree@) == (
                views + take_parents(rest@).0,
                take_parents(rest@).1,
            ),
        ensures
            views == parent_values@.map_values(|v: &[u8]| v@),
            take_parents(after_tree@) == (views, rest@),
        decreases rest@.len(),
    {
        match read_line(rest, "parent ") {
            None => {
                proof {
                    assert(views + Seq::<Seq<u8>>::empty() =~= views);
                }
                break;
            },
            Some((value, tail)) => {
                proof {
                    let more = take_parents(tail@).0;
                    assert(views + (seq![value@] + more) =~= views.push(value@) + more);
                    views = views.push(value@);
                }
                parent_values.push(value);
                assert(views =~= parent_values@.map_values(|v: &[u8]| v@));
                rest = tail;
            },
        }
    }
    let (author, after_author) = match read_line(rest, "author ") {
        Some(found) => found,
        None => { return Err(Error::CorruptObject); },
    };
    let (committer, tail) = match read_line(after_author, "committer ") {
        Some(found) => found,
        None => { return Err(Error::CorruptObject); },
    };
    if tail.len() == 0 || tail[0] != LF {
        return Err(Error::CorruptObject);
    }
    let message = slice_subrange(tail, 1, tail.len());
    let ghost raw = RawCommit {
        tree_hash: tree_hash@,
        parents: views,
        author: author@,
        committer: committer@,
        message: message@,
    };
    assert(split_commit(body@) == Some(raw));
    let tree_text = text_of(tree_hash);
    let parent_texts = texts_of(&parent_values);
    let author_text = text_of(author);
    let committer_text = text_of(committer);
    let message_text = text_of(message);
    match (tree_text, parent_texts, author_text, committer_text, message_text) {
        (Some(tree_hash), Some(parents), Some(author), Some(committer), Some(message)) => {
            proof {
                vstd::utf8::encode_utf8_decode_utf8(tree_hash@);
                vstd::utf8::encode_utf8_decode_utf8(author@);
                vstd::utf8::encode_utf8_decode_utf8(committer@);
                vstd::utf8::encode_utf8_decode_utf8(message@);
                assert(raw_commit_valid(raw)) by {
                    assert forall|i: int| 0 <= i < raw.parents.len() implies valid_utf8(
                        #[trigger] raw.parents[i],
                    ) by {
                        assert(raw.parents[i] == parent_values@[i]@);
                    }
                }
                assert(text_views(parents@) =~= raw.parents.map_values(
                    |p: Seq<u8>| decode_utf8(p),
                )) by {
                    assert forall|i: int| 0 <= i < raw.parents.len() implies text_views(
                        parents@,
                    )[i] == decode_utf8(#[trigger] raw.parents[i]) by {
                        assert(raw.parents[i] == parent_values@[i]@);
                        assert(text_views(parents@)[i] == parent_values@.map_values(
                            |v: &[u8]| decode_utf8(v@),
                        )[i]);
                    }
                }
            }
            Ok(Commit { tree_hash, parents, author, committer, message })
        },
        _ => {
            proof {
                if parent_texts is None {
                    let i = choose|i: int|
                        0 <= i < parent_values@.len() && !valid_utf8(
                            #[trigger] parent_values@[i]@,
                        );
                    assert(raw.parents[i] == parent_values@[i]@);
                }
            }
            Err(Error::EncodingError)
        },
    }
}

} // verus!
