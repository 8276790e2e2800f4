//! The staging index: a table of paths with the mode and digest staged for
//! each, kept in the order of the paths and stored in a binary format.

pub mod format;

use vstd::prelude::*;
use vstd::slice::slice_subrange;
use crate::bytes::{bytes_eq, bytes_lt, lemma_lex_transitive, lemma_lex_trichotomy, lex_lt};
use crate::codec::{sha1, sha1_digest};
use crate::error::Error;
use crate::index::format::{
    be32, digests_whole, entries_bytes, entry_bytes, fault_of, first_fault,
    index_body, index_file, lemma_be32_round_trip, lemma_concat_assoc, lemma_entries_bytes_push,
    lemma_first_fault_prefix, lemma_first_fault_push, lemma_parse_step, lemma_parse_stop,
    lemma_parse_written, parse_entries, parse_index, prepend, push_entry, read_entry, read_u32,
    u32_bytes, SIGNATURE, VERSION,
};

verus! {

/// One staged file.
#[derive(Debug, Clone)]
pub struct IndexEntry {
    /// The file mode, such as `0o100644`.
    pub mode: u32,
    /// The digest of the staged blob.
    pub hash: [u8; 20],
    /// The path of the file, relative to the root of the working tree.
    pub path: Vec<u8>,
}

/// An index entry as a mathematical value.
pub ghost struct IndexEntryView {
    pub mode: u32,
    pub hash: Seq<u8>,
    pub path: Seq<u8>,
}

impl View for IndexEntry {
    type V = IndexEntryView;

    open spec fn view(&self) -> IndexEntryView {
        IndexEntryView { mode: self.mode, hash: self.hash@, path: self.path@ }
    }
}

/// The entries of a list as mathematical values.
pub open spec fn staged_views(entries: Seq<IndexEntry>) -> Seq<IndexEntryView> {
    entries.map_values(|e: IndexEntry| e@)
}

/// Whether the paths of `entries` ascend strictly, so that no path occurs
/// twice.
pub open spec fn path_sorted(entries: Seq<IndexEntryView>) -> bool {
    forall|i: int, j: int|
        0 <= i < j < entries.len() ==> lex_lt(#[trigger] entries[i].path, #[trigger] entries[j].path)
}

/// The number of leading entries whose path comes before `path`.
pub open spec fn rank(entries: Seq<IndexEntryView>, path: Seq<u8>) -> int
    decreases entries.len(),
{
    if entries.len() == 0 || !lex_lt(entries[0].path, path) {
        0
    } else {
        1 + rank(entries.drop_first(), path)
    }
}

/// The entries after `e` was staged: those that come before the path of `e`,
/// then `e`, then those that come after it. An entry that was staged for the
/// same path is gone.
pub open spec fn staged(entries: Seq<IndexEntryView>, e: IndexEntryView) -> Seq<IndexEntryView> {
    let p = rank(entries, e.path);
    let q = if p < entries.len() && entries[p].path == e.path {
        p + 1
    } else {
        p
    };
    entries.subrange(0, p).push(e) + entries.subrange(q, entries.len() as int)
}

/// `rank` is within bounds; the entries before it come before `path`, and the
/// entry at it does not.
pub proof fn lemma_rank(entries: Seq<IndexEntryView>, path: Seq<u8>)
    ensures
        0 <= rank(entries, path) <= entries.len(),
        forall|i: int| 0 <= i < rank(entries, path) ==> lex_lt(#[trigger] entries[i].path, path),
        rank(entries, path) < entries.len() ==> !lex_lt(entries[rank(entries, path)].path, path),
    decreases entries.len(),
{
    if entries.len() != 0 && lex_lt(entries[0].path, path) {
        let rest = entries.drop_first();
        lemma_rank(rest, path);
        assert forall|i: int| 0 <= i < rank(entries, path) implies lex_lt(
            #[trigger] entries[i].path,
            path,
        ) by {
            if i > 0 {
                assert(entries[i] == rest[i - 1]);
            }
        }
    }
}

/// A place before which all paths come before `path`, and at which the path
/// does not, is the `rank` of `path`.
pub proof fn lemma_rank_is(entries: Seq<IndexEntryView>, path: Seq<u8>, p: int)
    requires
        0 <= p <= entries.len(),
        forall|i: int| 0 <= i < p ==> lex_lt(#[trigger] entries[i].path, path),
        p < entries.len() ==> !lex_lt(entries[p].path, path),
    ensures
        rank(entries, path) == p,
{
    lemma_rank(entries, path);
    let r = rank(entries, path);
    if r < p {
        assert(lex_lt(entries[r].path, path));
    } else if p < r {
        assert(lex_lt(entries[p].path, path));
    }
}

/// Staging into a sorted index keeps it sorted, and leaves in it the new
/// entry and the old entries for other paths, nothing else.
pub proof fn lemma_staged(entries: Seq<IndexEntryView>, e: IndexEntryView)
    requires
        path_sorted(entries),
    ensures
        path_sorted(staged(entries, e)),
        forall|x: IndexEntryView|
            #[trigger] staged(entries, e).contains(x) <==> (x == e || (entries.contains(x)
                && x.path != e.path)),
{
    let p = rank(entries, e.path);
    let q = if p < entries.len() && entries[p].path == e.path {
        p + 1
    } else {
        p
    };
    let out = staged(entries, e);
    let shift = q - p - 1;
    lemma_rank(entries, e.path);
    assert forall|j: int| q <= j < entries.len() implies lex_lt(e.path, #[trigger] entries[j].path) by {
        lemma_lex_trichotomy(entries[p].path, e.path);
        if j > p {
            if entries[p].path != e.path {
                lemma_lex_transitive(e.path, entries[p].path, entries[j].path);
            }
        }
    }
    assert forall|i: int, j: int| 0 <= i < j < out.len() implies lex_lt(
        #[trigger] out[i].path,
        #[trigger] out[j].path,
    ) by {
        if j < p {
            assert(out[i] == entries[i] && out[j] == entries[j]);
        } else if j == p {
            assert(out[i] == entries[i]);
        } else if i == p {
            assert(out[j] == entries[j + shift]);
        } else if i > p {
            assert(out[i] == entries[i + shift] && out[j] == entries[j + shift]);
        } else {
            assert(out[i] == entries[i] && out[j] == entries[j + shift]);
            lemma_lex_transitive(entries[i].path, e.path, entries[j + shift].path);
        }
    }
    assert forall|x: IndexEntryView| #[trigger]
        out.contains(x) <==> (x == e || (entries.contains(x) && x.path != e.path)) by {
        lemma_lex_trichotomy(e.path, e.path);
        if out.contains(x) {
            let k = choose|k: int| 0 <= k < out.len() && out[k] == x;
            if k < p {
                assert(out[k] == entries[k]);
                lemma_lex_trichotomy(entries[k].path, e.path);
            } else if k > p {
                assert(out[k] == entries[k + shift]);
                lemma_lex_trichotomy(entries[k + shift].path, e.path);
            }
        }
        if x == e {
            assert(out[p] == e);
        }
        if entries.contains(x) && x.path != e.path {
            let k = choose|k: int| 0 <= k < entries.len() && entries[k] == x;
            if k < p {
                assert(out[k] == x);
            } else {
                assert(k >= q);
                assert(out[k - shift] == x);
            }
        }
    }
}

/// The index that results from staging `ops` one after the other, starting
/// with nothing staged.
pub open spec fn staged_all(ops: Seq<IndexEntryView>) -> Seq<IndexEntryView>
    decreases ops.len(),
{
    if ops.len() == 0 {
        Seq::<IndexEntryView>::empty()
    } else {
        staged(staged_all(ops.drop_last()), ops.last())
    }
}

/// The index that is loaded from what was found at its path: nothing staged
/// when no file was found, and otherwise the entries of the file, staged in
/// the order of the file.
pub open spec fn loaded(file: Option<Seq<u8>>) -> Result<Seq<IndexEntryView>, Error> {
    match file {
        None => Ok(Seq::<IndexEntryView>::empty()),
        Some(data) => match parse_index(data) {
            Ok(entries) => Ok(staged_all(entries)),
            Err(e) => Err(e),
        },
    }
}

/// Staging one more entry is the last step of staging them all.
proof fn lemma_staged_all_push(done: Seq<IndexEntryView>, e: IndexEntryView)
    ensures
        staged_all(done.push(e)) == staged(staged_all(done), e),
{
    assert(done.push(e).drop_last() =~= done);
}

/// Whether no later operation of `ops` stages the path of operation `i`.
pub open spec fn is_last_write(ops: Seq<IndexEntryView>, i: int) -> bool {
    forall|j: int| i < j < ops.len() ==> (#[trigger] ops[j]).path != ops[i].path
}

/// Whether `x` is what some operation of `ops` staged last for its path.
pub open spec fn last_written(ops: Seq<IndexEntryView>, x: IndexEntryView) -> bool {
    exists|i: int| 0 <= i < ops.len() && #[trigger] ops[i] == x && is_last_write(ops, i)
}

/// Staging any operations one after the other gives the operations without
/// those that a later one overwrote, in the order of their paths: the index
/// is sorted, and it holds exactly what was staged last for each path.
pub proof fn lemma_staged_all(ops: Seq<IndexEntryView>)
    ensures
        path_sorted(staged_all(ops)),
        forall|x: IndexEntryView| #[trigger]
            staged_all(ops).contains(x) <==> last_written(ops, x),
    decreases ops.len(),
{
    if ops.len() == 0 {
        assert forall|x: IndexEntryView| staged_all(ops).contains(x) <==> last_written(
            ops,
            x,
        ) by {}
    } else {
        let prev = ops.drop_last();
        let e = ops.last();
        let n = prev.len() as int;
        let base = staged_all(prev);
        let out = staged_all(ops);
        lemma_staged_all(prev);
        lemma_staged(base, e);
        assert(out == staged(base, e));
        assert forall|x: IndexEntryView| out.contains(x) implies last_written(ops, x) by {
            assert(x == e || (base.contains(x) && x.path != e.path));
            if x == e {
                assert(ops[n] == x && is_last_write(ops, n));
            } else {
                assert(last_written(prev, x));
                let i = choose|i: int|
                    0 <= i < prev.len() && #[trigger] prev[i] == x && is_last_write(prev, i);
                assert(ops[i] == x);
                assert forall|j: int| i < j < ops.len() implies (#[trigger] ops[j]).path
                    != ops[i].path by {
                    if j < n {
                        assert(prev[j].path != prev[i].path);
                    }
                }
                assert(is_last_write(ops, i));
            }
        }
        assert forall|x: IndexEntryView| last_written(ops, x) implies out.contains(x) by {
            let i = choose|i: int|
                0 <= i < ops.len() && #[trigger] ops[i] == x && is_last_write(ops, i);
            if i < n {
                assert(ops[n].path != ops[i].path);
                assert(prev[i] == x);
                assert forall|j: int| i < j < prev.len() implies (#[trigger] prev[j]).path
                    != prev[i].path by {
                    assert(ops[j].path != ops[i].path);
                }
                assert(is_last_write(prev, i));
                assert(last_written(prev, x));
                assert(base.contains(x));
                assert(x.path != e.path);
            } else {
                assert(x == e);
            }
            assert(x == e || (base.contains(x) && x.path != e.path));
            assert(staged(base, e).contains(x));
        }
    }
}

/// Staging the entries of a sorted index again, in their order, gives that
/// index.
pub proof fn lemma_staged_all_sorted(entries: Seq<IndexEntryView>)
    requires
        path_sorted(entries),
    ensures
        staged_all(entries) == entries,
    decreases entries.len(),
{
    if entries.len() > 0 {
        let prev = entries.drop_last();
        let e = entries.last();
        lemma_staged_all_sorted(prev);
        assert forall|i: int| 0 <= i < prev.len() implies lex_lt(#[trigger] prev[i].path, e.path) by {
            assert(prev[i] == entries[i]);
        }
        lemma_rank_is(prev, e.path, prev.len() as int);
        assert(staged(prev, e) =~= entries);
    }
}

/// An index that was written is loaded as it was.
pub proof fn lemma_write_load_round_trip(entries: Seq<IndexEntryView>)
    requires
        path_sorted(entries),
        digests_whole(entries),
    ensures
        index_file(entries) matches Ok(bytes) ==> loaded(Some(bytes)) == Ok::<
            Seq<IndexEntryView>,
            Error,
        >(entries),
{
    if index_file(entries) is Ok {
        let bytes = index_file(entries)->Ok_0;
        let body = index_body(entries);
        let eb = entries_bytes(entries);
        let sum = sha1_digest(body);
        let n = entries.len() as u32;
        lemma_be32_round_trip(SIGNATURE, be32(VERSION) + be32(n) + eb + sum);
        lemma_be32_round_trip(VERSION, Seq::<u8>::empty());
        lemma_be32_round_trip(n, Seq::<u8>::empty());
        assert(bytes =~= be32(SIGNATURE) + (be32(VERSION) + be32(n) + eb + sum));
        assert(bytes.subrange(4, 8) =~= be32(VERSION) + Seq::<u8>::empty());
        assert(bytes.subrange(8, 12) =~= be32(n) + Seq::<u8>::empty());
        assert(bytes.subrange(12, 12 + eb.len() as int) =~= eb);
        lemma_parse_written(bytes, 12, entries);
        lemma_staged_all_sorted(entries);
    }
}

/// Whatever is staged, in whatever order, and then written, is loaded as the
/// sorted index of what was staged last for each path.
pub proof fn lemma_stage_write_load(ops: Seq<IndexEntryView>)
    requires
        digests_whole(ops),
    ensures
        path_sorted(staged_all(ops)),
        forall|x: IndexEntryView| staged_all(ops).contains(x) <==> last_written(ops, x),
        index_file(staged_all(ops)) matches Ok(bytes) ==> loaded(Some(bytes)) == Ok::<
            Seq<IndexEntryView>,
            Error,
        >(staged_all(ops)),
{
    lemma_staged_all(ops);
    let index = staged_all(ops);
    assert forall|i: int| 0 <= i < index.len() implies (#[trigger] index[i]).hash.len() == 20 by {
        assert(index.contains(index[i]));
        assert(last_written(ops, index[i]));
    }
    lemma_write_load_round_trip(index);
}

/// The staging index: the staged entries, one for each path, in the order of
/// their paths.
#[derive(Debug)]
pub struct Index {
    entries: Vec<IndexEntry>,
}

impl View for Index {
    type V = Seq<IndexEntryView>;

    closed spec fn view(&self) -> Seq<IndexEntryView> {
        staged_views(self.entries@)
    }
}

impl Index {
    /// The paths ascend strictly.
    #[verifier::type_invariant]
    spec fn ordered(self) -> bool {
        path_sorted(staged_views(self.entries@))
    }

    /// An index in which nothing is staged.
    pub fn new() -> (index: Index)
        ensures
            index@ == Seq::<IndexEntryView>::empty(),
    {
        let index = Index { entries: Vec::new() };
        assert(index@ =~= Seq::<IndexEntryView>::empty());
        index
    }

    /// The staged entries, in the order of their paths.
    pub fn entries(&self) -> (list: &Vec<IndexEntry>)
        ensures
            staged_views(list@) == self@,
            path_sorted(self@),
    {
        proof {
            use_type_invariant(self);
        }
        &self.entries
    }

    /// Unstages everything.
    pub fn clear(&mut self)
        ensures
            final(self)@ == Seq::<IndexEntryView>::empty(),
    {
        self.entries = Vec::new();
        assert(self@ =~= Seq::<IndexEntryView>::empty());
    }

    /// Whether nothing is staged.
    pub fn is_empty(&self) -> (empty: bool)
        ensures
            empty == (self@.len() == 0),
    {
        self.entries.len() == 0
    }

    /// Stages `hash` and `mode` for `path`. An entry that was staged for the
    /// same path is replaced, and the entries stay in the order of their
    /// paths.
    pub fn add(&mut self, path: Vec<u8>, hash: [u8; 20], mode: u32)
        ensures
            final(self)@ == staged(
                old(self)@,
                IndexEntryView { mode: mode, hash: hash@, path: path@ },
            ),
            path_sorted(final(self)@),
    {
        proof {
            use_type_invariant(&*self);
        }
        let ghost before = self@;
        let ghost e = IndexEntryView { mode: mode, hash: hash@, path: path@ };
        let mut entries: Vec<IndexEntry> = Vec::new();
        core::mem::swap(&mut self.entries, &mut entries);
        assert(staged_views(entries@) == before);
        let n = entries.len();
        let mut p: usize = 0;
        if n > 0 && bytes_lt(entries[n - 1].path.as_slice(), path.as_slice()) {
            p = n;
            proof {
                assert forall|i: int| 0 <= i < n implies lex_lt(#[trigger] before[i].path, path@) by {
                    if i < n - 1 {
                        lemma_lex_transitive(before[i].path, before[n - 1].path, path@);
                    }
                }
            }
        } else {
            while p < n && bytes_lt(entries[p].path.as_slice(), path.as_slice())
                invariant
                    p <= n == entries@.len(),
                    before == staged_views(entries@),
                    forall|i: int| 0 <= i < p ==> lex_lt(#[trigger] before[i].path, path@),
                decreases n - p,
            {
                p = p + 1;
            }
        }
        proof {
            lemma_rank_is(before, path@, p as int);
            lemma_staged(before, e);
        }
        let entry = IndexEntry { mode, hash, path };
        if p < n && bytes_eq(entries[p].path.as_slice(), entry.path.as_slice()) {
            entries.set(p, entry);
        } else {
            entries.insert(p, entry);
        }
        assert(staged_views(entries@) =~= staged(before, e));
        self.entries = entries;
    }
}

impl Index {
    /// The bytes of the index file: a header with the number of entries, the
    /// entries, each padded to a multiple of eight bytes, and the SHA-1 digest
    /// of all that comes before it.
    ///
    /// Fails with `TooManyEntries` when the count does not fit its four
    /// bytes, and otherwise with the fault of the first entry that has one:
    /// `EncodingError` for a path that is not valid UTF-8, `PathTooLong` for
    /// one of more than 4095 bytes.
    pub fn write(&self) -> (res: Result<Vec<u8>, Error>)
        ensures
            match res {
                Ok(bytes) => index_file(self@) == Ok::<Seq<u8>, Error>(bytes@),
                Err(e) => index_file(self@) == Err::<Seq<u8>, Error>(e),
            },
    {
        let n = self.entries.len();
        if n > u32::MAX as usize {
            return Err(Error::TooManyEntries);
        }
        let ghost views = staged_views(self.entries@);
        let mut out: Vec<u8> = Vec::new();
        out.extend_from_slice(u32_bytes(SIGNATURE).as_slice());
        out.extend_from_slice(u32_bytes(VERSION).as_slice());
        out.extend_from_slice(u32_bytes(n as u32).as_slice());
        let ghost head = out@;
        assert(head =~= be32(SIGNATURE) + be32(VERSION) + be32(n as u32));
        let mut i: usize = 0;
        assert(views.subrange(0, 0) =~= Seq::<IndexEntryView>::empty());
        assert(out@ =~= head + entries_bytes(views.subrange(0, 0)));
        while i < n
            invariant
                i <= n == self.entries@.len(),
                n <= u32::MAX,
                views == staged_views(self.entries@),
                head == be32(SIGNATURE) + be32(VERSION) + be32(n as u32),
                first_fault(views.subrange(0, i as int)) is None,
                out@ == head + entries_bytes(views.subrange(0, i as int)),
            decreases n - i,
        {
            let entry = &self.entries[i];
            let ghost part = views.subrange(0, i as int);
            let ghost before = out@;
            proof {
                assert(views.subrange(0, i + 1) =~= part.push(entry@));
                lemma_first_fault_push(part, entry@);
                lemma_entries_bytes_push(part, entry@);
            }
            match fault_of(entry) {
                Some(e) => {
                    proof {
                        lemma_first_fault_prefix(views, i + 1);
                    }
                    return Err(e);
                },
                None => {},
            }
            push_entry(&mut out, entry);
            proof {
                lemma_concat_assoc(head, entries_bytes(part), entry_bytes(entry@));
            }
            i = i + 1;
        }
        assert(views.subrange(0, n as int) =~= views);
        let ghost body = out@;
        assert(body == index_body(views));
        assert(first_fault(views) is None);
        let checksum = sha1(out.as_slice());
        out.extend_from_slice(checksum.as_slice());
        assert(out@ == body + sha1_digest(body));
        Ok(out)
    }
}

impl Index {
    /// Loads the index from what was found at its path: `None` where no file
    /// exists, which is the state in which nothing is staged yet.
    ///
    /// The file must start with the signature (else `BadSignature`) and
    /// version 2 (else `UnsupportedVersion`). Of each entry the mode, the
    /// digest and the path are kept. The load fails with `Truncated` when the
    /// file ends before the entries that it announces, and with
    /// `EncodingError` when a path is not valid UTF-8. The entries are staged
    /// in the order of the file, so that a file written by `write` is loaded
    /// as it was.
    pub fn from_path(file: Option<&[u8]>) -> (res: Result<Index, Error>)
        ensures
            match res {
                Ok(index) => loaded(
                    match file {
                        Some(data) => Some(data@),
                        None => None,
                    },
                ) == Ok::<Seq<IndexEntryView>, Error>(index@),
                Err(e) => loaded(
                    match file {
                        Some(data) => Some(data@),
                        None => None,
                    },
                ) == Err::<Seq<IndexEntryView>, Error>(e),
            },
    {
        let mut index = Index::new();
        let data = match file {
            None => { return Ok(index); },
            Some(data) => data,
        };
        if data.len() < 4 || read_u32(data) != SIGNATURE {
            return Err(Error::BadSignature);
        }
        if data.len() < 8 || read_u32(slice_subrange(data, 4, 8)) != VERSION {
            return Err(Error::UnsupportedVersion);
        }
        if data.len() < 12 {
            return Err(Error::Truncated);
        }
        let count = read_u32(slice_subrange(data, 8, 12));
        let ghost all = parse_entries(data@, 12, count as nat);
        let ghost done = Seq::<IndexEntryView>::empty();
        let mut pos: usize = 12;
        let mut i: u32 = 0;
        assert(all == prepend(done, all)) by {
            if all is Ok {
                assert(done + all->Ok_0 =~= all->Ok_0);
            }
        }
        while i < count
            invariant
                i <= count,
                12 <= pos <= data@.len(),
                file == Some(data),
                parse_index(data@) == all,
                all == prepend(done, parse_entries(data@, pos as int, (count - i) as nat)),
                index@ == staged_all(done),
            decreases count - i,
        {
            match read_entry(data, pos) {
                Err(e) => {
                    proof {
                        lemma_parse_stop(data@, pos as int, (count - i) as nat, done, e);
                    }
                    return Err(e);
                },
                Ok((entry, next)) => {
                    proof {
                        lemma_parse_step(
                            data@,
                            pos as int,
                            (count - i) as nat,
                            done,
                            entry@,
                            next as int,
                        );
                        lemma_staged_all_push(done, entry@);
                        done = done.push(entry@);
                    }
                    let IndexEntry { mode, hash, path } = entry;
                    index.add(path, hash, mode);
                    pos = next;
                    i = i + 1;
                },
            }
        }
        assert(all == Ok::<Seq<IndexEntryView>, Error>(done)) by {
            assert(done + Seq::<IndexEntryView>::empty() =~= done);
        }
        Ok(index)
    }
}

impl Default for Index {
    fn default() -> (index: Index)
        ensures
            index@ == Seq::<IndexEntryView>::empty(),
    {
        Index::new()
    }
}

} // verus!
