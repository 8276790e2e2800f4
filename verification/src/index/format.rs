//! The binary format of the index file.
//!
//! All numbers are big-endian. The file starts with a signature, a version
//! and the number of entries. Each entry holds forty bytes of file metadata,
//! of which the mode is kept, the digest, the length of the path in the low
//! twelve bits of two bytes, the path, and zero bytes up to a multiple of
//! eight. The SHA-1 digest of all that ends the file.

use vstd::prelude::*;
use vstd::slice::slice_subrange;
use vstd::utf8::valid_utf8;
use byteorder::ByteOrder;
use crate::bytes::text_of;
use crate::codec::{copy_range, sha1_digest};
use crate::error::Error;
use crate::index::{IndexEntry, IndexEntryView};

verus! {

/// The four bytes `DIRC` that start an index, read as a big-endian number.
pub const SIGNATURE: u32 = 0x44495243;

/// The one version of the format that is read and written.
pub const VERSION: u32 = 2;

/// The longest path that the twelve-bit length field can express.
pub const MAX_PATH_LEN: usize = 0x0fff;

/// The bytes of an entry that come before its path.
pub const ENTRY_HEAD_LEN: usize = 62;

/// The four bytes of `v`, the most significant first.
pub open spec fn be32(v: u32) -> Seq<u8> {
    seq![
        (v / 0x100_0000) as u8,
        (v / 0x1_0000 % 0x100) as u8,
        (v / 0x100 % 0x100) as u8,
        (v % 0x100) as u8,
    ]
}

/// The two bytes of `v`, the most significant first.
pub open spec fn be16(v: u16) -> Seq<u8> {
    seq![(v / 0x100) as u8, (v % 0x100) as u8]
}

/// The number that the first four bytes of `b` express, the most significant
/// first.
pub open spec fn be32_value(b: Seq<u8>) -> int {
    b[0] * 0x100_0000 + b[1] * 0x1_0000 + b[2] * 0x100 + b[3]
}

/// The number that the first two bytes of `b` express, the most significant
/// first.
pub open spec fn be16_value(b: Seq<u8>) -> int {
    b[0] * 0x100 + b[1]
}

/// Calls `byteorder::BigEndian::read_u32`, which reads the first four bytes
/// of `buf` as a big-endian number and panics on a shorter `buf`.
#[verifier::external_body]
pub(crate) fn read_u32(buf: &[u8]) -> (v: u32)
    requires
        buf@.len() >= 4,
    ensures
        v == be32_value(buf@),
{
    byteorder::BigEndian::read_u32(buf)
}

/// Calls `byteorder::BigEndian::read_u16`, which reads the first two bytes
/// of `buf` as a big-endian number and panics on a shorter `buf`.
#[verifier::external_body]
pub(crate) fn read_u16(buf: &[u8]) -> (v: u16)
    requires
        buf@.len() >= 2,
    ensures
        v == be16_value(buf@),
{
    byteorder::BigEndian::read_u16(buf)
}

/// Calls `byteorder::BigEndian::write_u32` on a buffer of four bytes, which
/// it fills with `v`, the most significant byte first.
#[verifier::external_body]
pub(crate) fn u32_bytes(v: u32) -> (b: [u8; 4])
    ensures
        b@ == be32(v),
{
    let mut b = [0u8; 4];
    byteorder::BigEndian::write_u32(&mut b, v);
    b
}

/// Calls `byteorder::BigEndian::write_u16` on a buffer of two bytes, which
/// it fills with `v`, the most significant byte first.
#[verifier::external_body]
pub(crate) fn u16_bytes(v: u16) -> (b: [u8; 2])
    ensures
        b@ == be16(v),
{
    let mut b = [0u8; 2];
    byteorder::BigEndian::write_u16(&mut b, v);
    b
}

/// `n` zero bytes.
pub open spec fn zeros(n: int) -> Seq<u8> {
    Seq::new(n as nat, |i: int| 0u8)
}

/// The number of zero bytes after a path of `len` bytes, which bring the
/// entry to a multiple of eight bytes.
pub open spec fn padding(len: int) -> int {
    (8 - (ENTRY_HEAD_LEN + len) % 8) % 8
}

/// The bytes of one entry: forty bytes of file metadata, of which only the
/// mode at offset 24 is used, the digest, the length of the path in two
/// bytes, the path, and the padding.
pub open spec fn entry_bytes(e: IndexEntryView) -> Seq<u8> {
    zeros(24) + be32(e.mode) + zeros(12) + e.hash + be16(e.path.len() as u16) + e.path + zeros(
        padding(e.path.len() as int),
    )
}

/// The bytes of a list of entries, one after the other.
pub open spec fn entries_bytes(entries: Seq<IndexEntryView>) -> Seq<u8>
    decreases entries.len(),
{
    if entries.len() == 0 {
        Seq::<u8>::empty()
    } else {
        entry_bytes(entries[0]) + entries_bytes(entries.drop_first())
    }
}

/// An index without its checksum: signature, version, number of entries, and
/// the entries.
pub open spec fn index_body(entries: Seq<IndexEntryView>) -> Seq<u8> {
    be32(SIGNATURE) + be32(VERSION) + be32(entries.len() as u32) + entries_bytes(entries)
}

/// Why an entry cannot be written: its path is not text, or it is too long.
pub open spec fn entry_fault(e: IndexEntryView) -> Option<Error> {
    if !valid_utf8(e.path) {
        Some(Error::EncodingError)
    } else if e.path.len() > MAX_PATH_LEN {
        Some(Error::PathTooLong)
    } else {
        None
    }
}

/// The fault of the first entry that has one.
pub open spec fn first_fault(entries: Seq<IndexEntryView>) -> Option<Error>
    decreases entries.len(),
{
    if entries.len() == 0 {
        None
    } else {
        match entry_fault(entries[0]) {
            Some(e) => Some(e),
            None => first_fault(entries.drop_first()),
        }
    }
}

/// The bytes of an index file: the body and the SHA-1 digest of the body.
/// None are written when there are more entries than the count can express,
/// or when an entry has a fault.
pub open spec fn index_file(entries: Seq<IndexEntryView>) -> Result<Seq<u8>, Error> {
    if entries.len() > u32::MAX {
        Err(Error::TooManyEntries)
    } else {
        match first_fault(entries) {
            Some(e) => Err(e),
            None => Ok(index_body(entries) + sha1_digest(index_body(entries))),
        }
    }
}

/// The bytes of a list with one more entry are those of the list and then
/// those of the entry.
pub proof fn lemma_entries_bytes_push(entries: Seq<IndexEntryView>, e: IndexEntryView)
    ensures
        entries_bytes(entries.push(e)) == entries_bytes(entries) + entry_bytes(e),
    decreases entries.len(),
{
    let more = entries.push(e);
    if entries.len() == 0 {
        assert(more.drop_first() =~= entries);
        assert(entries_bytes(more) =~= entries_bytes(entries) + entry_bytes(e));
    } else {
        lemma_entries_bytes_push(entries.drop_first(), e);
        assert(more.drop_first() =~= entries.drop_first().push(e));
        assert(entries_bytes(more) =~= entries_bytes(entries) + entry_bytes(e));
    }
}

/// The first fault of a list with one more entry is that of the list, or
/// else that of the entry.
pub proof fn lemma_first_fault_push(entries: Seq<IndexEntryView>, e: IndexEntryView)
    ensures
        first_fault(entries.push(e)) == match first_fault(entries) {
            Some(x) => Some(x),
            None => entry_fault(e),
        },
    decreases entries.len(),
{
    let more = entries.push(e);
    if entries.len() == 0 {
        assert(more.drop_first() =~= entries);
    } else {
        lemma_first_fault_push(entries.drop_first(), e);
        assert(more.drop_first() =~= entries.drop_first().push(e));
    }
}

/// A fault in a part of a list is a fault in the whole list, and the first
/// fault of the part is the first fault of the list.
pub proof fn lemma_first_fault_prefix(entries: Seq<IndexEntryView>, n: int)
    requires
        0 <= n <= entries.len(),
        first_fault(entries.subrange(0, n)) is Some,
    ensures
        first_fault(entries) == first_fault(entries.subrange(0, n)),
    decreases entries.len() - n,
{
    if n < entries.len() {
        let part = entries.subrange(0, n);
        assert(entries.subrange(0, n + 1) =~= part.push(entries[n]));
        lemma_first_fault_push(part, entries[n]);
        lemma_first_fault_prefix(entries, n + 1);
    } else {
        assert(entries.subrange(0, n) =~= entries);
    }
}

/// A result with the entries `done` put before what it holds.
pub open spec fn prepend(done: Seq<IndexEntryView>, r: Result<Seq<IndexEntryView>, Error>) -> Result<
    Seq<IndexEntryView>,
    Error,
> {
    match r {
        Ok(rest) => Ok(done + rest),
        Err(e) => Err(e),
    }
}

/// The entry that starts at `pos` in `data`, and the position after it. The
/// entry is cut short when its head, its path or its padding reach beyond the
/// data; its path must be valid UTF-8.
pub open spec fn parse_entry(data: Seq<u8>, pos: int) -> Result<(IndexEntryView, int), Error> {
    if data.len() - pos < ENTRY_HEAD_LEN {
        Err(Error::Truncated)
    } else {
        let len = be16_value(data.subrange(pos + 60, pos + 62)) % 0x1000;
        let start = pos + ENTRY_HEAD_LEN;
        if data.len() - start < len {
            Err(Error::Truncated)
        } else if !valid_utf8(data.subrange(start, start + len)) {
            Err(Error::EncodingError)
        } else if data.len() - start - len < padding(len) {
            Err(Error::Truncated)
        } else {
            Ok(
                (
                    IndexEntryView {
                        mode: be32_value(data.subrange(pos + 24, pos + 28)) as u32,
                        hash: data.subrange(pos + 40, pos + 60),
                        path: data.subrange(start, start + len),
                    },
                    start + len + padding(len),
                ),
            )
        }
    }
}

/// The `count` entries that start at `pos` in `data`, in the order of the
/// file.
pub open spec fn parse_entries(data: Seq<u8>, pos: int, count: nat) -> Result<
    Seq<IndexEntryView>,
    Error,
>
    decreases count,
{
    if count == 0 {
        Ok(Seq::<IndexEntryView>::empty())
    } else {
        match parse_entry(data, pos) {
            Err(e) => Err(e),
            Ok((entry, next)) => prepend(seq![entry], parse_entries(data, next, (count - 1) as nat)),
        }
    }
}

/// The entries of an index file, in the order of the file. The file must
/// start with the signature and the version; what follows the last entry is
/// not read.
pub open spec fn parse_index(data: Seq<u8>) -> Result<Seq<IndexEntryView>, Error> {
    if data.len() < 4 || be32_value(data) != SIGNATURE {
        Err(Error::BadSignature)
    } else if data.len() < 8 || be32_value(data.subrange(4, 8)) != VERSION {
        Err(Error::UnsupportedVersion)
    } else if data.len() < 12 {
        Err(Error::Truncated)
    } else {
        parse_entries(data, 12, be32_value(data.subrange(8, 12)) as nat)
    }
}

/// Reading one entry and then the rest is reading them all.
pub(crate) proof fn lemma_parse_step(
    data: Seq<u8>,
    pos: int,
    count: nat,
    done: Seq<IndexEntryView>,
    entry: IndexEntryView,
    next: int,
)
    requires
        count > 0,
        parse_entry(data, pos) == Ok::<(IndexEntryView, int), Error>((entry, next)),
    ensures
        prepend(done, parse_entries(data, pos, count)) == prepend(
            done.push(entry),
            parse_entries(data, next, (count - 1) as nat),
        ),
{
    let rest = parse_entries(data, next, (count - 1) as nat);
    assert(parse_entries(data, pos, count) == prepend(seq![entry], rest));
    if rest is Ok {
        assert(done + (seq![entry] + rest->Ok_0) =~= done.push(entry) + rest->Ok_0);
    }
}

/// An entry that cannot be read ends the reading.
pub(crate) proof fn lemma_parse_stop(
    data: Seq<u8>,
    pos: int,
    count: nat,
    done: Seq<IndexEntryView>,
    e: Error,
)
    requires
        count > 0,
        parse_entry(data, pos) == Err::<(IndexEntryView, int), Error>(e),
    ensures
        prepend(done, parse_entries(data, pos, count)) == Err::<Seq<IndexEntryView>, Error>(e),
{
}

/// The four bytes of a number express that number.
pub proof fn lemma_be32_round_trip(v: u32, tail: Seq<u8>)
    ensures
        be32_value(be32(v) + tail) == v,
        be32(v).len() == 4,
{
}

/// The two bytes of a number express that number.
pub proof fn lemma_be16_round_trip(v: u16, tail: Seq<u8>)
    ensures
        be16_value(be16(v) + tail) == v,
        be16(v).len() == 2,
{
}

/// Where the fields of an entry stand in its bytes.
pub proof fn lemma_entry_layout(e: IndexEntryView)
    requires
        e.hash.len() == 20,
    ensures
        entry_bytes(e).len() == ENTRY_HEAD_LEN + e.path.len() + padding(e.path.len() as int),
        0 <= padding(e.path.len() as int) < 8,
        entry_bytes(e).subrange(24, 28) == be32(e.mode),
        entry_bytes(e).subrange(40, 60) == e.hash,
        entry_bytes(e).subrange(60, 62) == be16(e.path.len() as u16),
        entry_bytes(e).subrange(62, 62 + e.path.len() as int) == e.path,
{
    let b = entry_bytes(e);
    assert(b.subrange(24, 28) =~= be32(e.mode));
    assert(b.subrange(40, 60) =~= e.hash);
    assert(b.subrange(60, 62) =~= be16(e.path.len() as u16));
    assert(b.subrange(62, 62 + e.path.len() as int) =~= e.path);
}

/// Whether every digest of `entries` has its twenty bytes.
pub open spec fn digests_whole(entries: Seq<IndexEntryView>) -> bool {
    forall|i: int| 0 <= i < entries.len() ==> (#[trigger] entries[i]).hash.len() == 20
}

/// Whether `data` holds the bytes `part` from position `pos` on.
pub open spec fn holds_at(data: Seq<u8>, pos: int, part: Seq<u8>) -> bool {
    0 <= pos && pos + part.len() <= data.len() && data.subrange(pos, pos + part.len()) == part
}

/// A part of a part stands where it stands.
proof fn lemma_holds_within(data: Seq<u8>, pos: int, part: Seq<u8>, from: int, to: int)
    requires
        holds_at(data, pos, part),
        0 <= from <= to <= part.len(),
    ensures
        data.subrange(pos + from, pos + to) == part.subrange(from, to),
{
    let whole = data.subrange(pos, pos + part.len());
    assert(data.subrange(pos + from, pos + to) =~= whole.subrange(from, to));
}

/// The entries that were written without a fault are read back one by one.
pub proof fn lemma_parse_written(data: Seq<u8>, pos: int, entries: Seq<IndexEntryView>)
    requires
        holds_at(data, pos, entries_bytes(entries)),
        digests_whole(entries),
        first_fault(entries) is None,
    ensures
        parse_entries(data, pos, entries.len()) == Ok::<Seq<IndexEntryView>, Error>(entries),
    decreases entries.len(),
{
    if entries.len() == 0 {
        assert(entries =~= Seq::<IndexEntryView>::empty());
    } else {
        let e = entries[0];
        let rest = entries.drop_first();
        let eb = entry_bytes(e);
        let rb = entries_bytes(rest);
        let len = e.path.len() as int;
        let next = pos + eb.len();
        lemma_entry_layout(e);
        assert(entries_bytes(entries) == eb + rb);
        assert(holds_at(data, pos, eb)) by {
            assert(data.subrange(pos, pos + eb.len()) =~= data.subrange(
                pos,
                pos + (eb + rb).len(),
            ).subrange(0, eb.len() as int));
            assert((eb + rb).subrange(0, eb.len() as int) =~= eb);
        }
        assert(holds_at(data, next, rb)) by {
            assert(data.subrange(next, next + rb.len()) =~= data.subrange(
                pos,
                pos + (eb + rb).len(),
            ).subrange(eb.len() as int, (eb + rb).len() as int));
            assert((eb + rb).subrange(eb.len() as int, (eb + rb).len() as int) =~= rb);
        }
        lemma_holds_within(data, pos, eb, 24, 28);
        lemma_holds_within(data, pos, eb, 40, 60);
        lemma_holds_within(data, pos, eb, 60, 62);
        lemma_holds_within(data, pos, eb, 62, 62 + len);
        lemma_be32_round_trip(e.mode, Seq::<u8>::empty());
        lemma_be16_round_trip(len as u16, Seq::<u8>::empty());
        assert(be32(e.mode) + Seq::<u8>::empty() =~= be32(e.mode));
        assert(be16(len as u16) + Seq::<u8>::empty() =~= be16(len as u16));
        assert(parse_entry(data, pos) == Ok::<(IndexEntryView, int), Error>((e, next)));
        assert forall|i: int| 0 <= i < rest.len() implies (#[trigger] rest[i]).hash.len() == 20 by {
            assert(rest[i] == entries[i + 1]);
        }
        lemma_parse_written(data, next, rest);
        assert(seq![e] + rest =~= entries);
    }
}

/// Copies the twenty bytes of a digest that start at `at` in `data`.
fn digest_at(data: &[u8], at: usize) -> (digest: [u8; 20])
    requires
        at + 20 <= data@.len(),
    ensures
        digest@ == data@.subrange(at as int, at + 20),
{
    let mut digest = [0u8; 20];
    let n = data.len();
    let mut k: usize = 0;
    while k < 20
        invariant
            k <= 20,
            n == data@.len(),
            at + 20 <= data@.len(),
            forall|j: int| 0 <= j < k ==> digest@[j] == data@[at + j],
        decreases 20 - k,
    {
        digest[k] = data[at + k];
        k = k + 1;
    }
    assert(digest@ =~= data@.subrange(at as int, at + 20));
    digest
}

/// Reads the entry that starts at `pos`.
pub(crate) fn read_entry(data: &[u8], pos: usize) -> (res: Result<
    (IndexEntry, usize),
    Error,
>)
    requires
        pos <= data@.len(),
    ensures
        match res {
            Ok((entry, next)) => parse_entry(data@, pos as int) == Ok::<
                (IndexEntryView, int),
                Error,
            >((entry@, next as int)) && pos < next <= data@.len(),
            Err(e) => parse_entry(data@, pos as int) == Err::<(IndexEntryView, int), Error>(e),
        },
{
    if data.len() - pos < ENTRY_HEAD_LEN {
        return Err(Error::Truncated);
    }
    let mode = read_u32(slice_subrange(data, pos + 24, pos + 28));
    let hash = digest_at(data, pos + 40);
    let flags = read_u16(slice_subrange(data, pos + 60, pos + 62));
    let len = (flags & 0x0fff) as usize;
    assert(flags & 0x0fff == flags % 0x1000) by (bit_vector);
    let start = pos + ENTRY_HEAD_LEN;
    if data.len() - start < len {
        return Err(Error::Truncated);
    }
    let path = copy_range(data, start, start + len);
    if text_of(path.as_slice()).is_none() {
        return Err(Error::EncodingError);
    }
    let pad = (8 - (ENTRY_HEAD_LEN + len) % 8) % 8;
    if data.len() - start - len < pad {
        return Err(Error::Truncated);
    }
    Ok((IndexEntry { mode, hash, path }, start + len + pad))
}

/// Joining byte strings does not depend on how they are grouped.
pub(crate) proof fn lemma_concat_assoc(a: Seq<u8>, b: Seq<u8>, c: Seq<u8>)
    ensures
        (a + b) + c == a + (b + c),
{
    assert((a + b) + c =~= a + (b + c));
}

/// The fault of an entry, if it has one.
pub(crate) fn fault_of(entry: &IndexEntry) -> (fault: Option<Error>)
    ensures
        fault == entry_fault(entry@),
{
    if text_of(entry.path.as_slice()).is_none() {
        Some(Error::EncodingError)
    } else if entry.path.len() > MAX_PATH_LEN {
        Some(Error::PathTooLong)
    } else {
        None
    }
}

/// Appends `n` zero bytes to `out`.
fn push_zeros(out: &mut Vec<u8>, n: usize)
    ensures
        final(out)@ == old(out)@ + zeros(n as int),
{
    let mut i: usize = 0;
    assert(out@ =~= old(out)@ + zeros(0));
    while i < n
        invariant
            i <= n,
            out@ == old(out)@ + zeros(i as int),
        decreases n - i,
    {
        out.push(0);
        assert(out@ =~= old(out)@ + zeros(i + 1));
        i = i + 1;
    }
}

/// Appends the bytes of one entry to `out`.
pub(crate) fn push_entry(out: &mut Vec<u8>, entry: &IndexEntry)
    requires
        entry.path@.len() <= MAX_PATH_LEN,
    ensures
        final(out)@ == old(out)@ + entry_bytes(entry@),
{
    let len = entry.path.len();
    push_zeros(out, 24);
    out.extend_from_slice(u32_bytes(entry.mode).as_slice());
    push_zeros(out, 12);
    out.extend_from_slice(entry.hash.as_slice());
    out.extend_from_slice(u16_bytes(len as u16).as_slice());
    out.extend_from_slice(entry.path.as_slice());
    let pad = (8 - (ENTRY_HEAD_LEN + len) % 8) % 8;
    push_zeros(out, pad);
    assert(out@ =~= old(out)@ + entry_bytes(entry@));
}

} // verus!
