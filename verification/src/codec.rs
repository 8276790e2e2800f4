//! Canonical envelopes of objects and their content digest.
//!
//! An object is stored and addressed as its envelope: the kind's tag, a space,
//! the body's length in decimal, a NUL, and the body. The digest of an object
//! is the SHA-1 of that envelope, so two kinds never share a digest by sharing
//! a body.

use vstd::prelude::*;
use vstd::string::StrSliceExecFns;
use sha1::Digest;
use crate::bytes::{decimal, is_digit, lemma_decimal_digits, push_decimal};
use crate::error::Error;

verus! {

/// The byte that ends an object header.
pub const NUL: u8 = 0x00;

/// The byte between the words of a header or an entry.
pub const SPACE: u8 = 0x20;

/// The byte that ends a line.
pub const LF: u8 = 0x0a;

/// The three kinds of object.
#[derive(Clone, Copy, Debug, PartialEq, Eq, Structural)]
pub enum ObjectKind {
    /// The contents of a file.
    Blob,
    /// The listing of a directory.
    Tree,
    /// A snapshot with its history.
    Commit,
}

impl ObjectKind {
    /// The tag that starts the header: `blob`, `tree` or `commit` in ASCII.
    pub open spec fn tag(self) -> Seq<u8> {
        match self {
            ObjectKind::Blob => seq![0x62u8, 0x6c, 0x6f, 0x62],
            ObjectKind::Tree => seq![0x74u8, 0x72, 0x65, 0x65],
            ObjectKind::Commit => seq![0x63u8, 0x6f, 0x6d, 0x6d, 0x69, 0x74],
        }
    }

    /// Appends the kind's tag to `out`.
    pub fn push_tag(&self, out: &mut Vec<u8>)
        ensures
            final(out)@ == old(out)@ + self.tag(),
    {
        match self {
            ObjectKind::Blob => {
                out.push(0x62);
                out.push(0x6c);
                out.push(0x6f);
                out.push(0x62);
            },
            ObjectKind::Tree => {
                out.push(0x74);
                out.push(0x72);
                out.push(0x65);
                out.push(0x65);
            },
            ObjectKind::Commit => {
                out.push(0x63);
                out.push(0x6f);
                out.push(0x6d);
                out.push(0x6d);
                out.push(0x69);
                out.push(0x74);
            },
        }
        assert(out@ =~= old(out)@ + self.tag());
    }

    /// The kind that `tag` names, if it names one.
    pub open spec fn of_tag(tag: Seq<u8>) -> Option<ObjectKind> {
        if tag == ObjectKind::Blob.tag() {
            Some(ObjectKind::Blob)
        } else if tag == ObjectKind::Tree.tag() {
            Some(ObjectKind::Tree)
        } else if tag == ObjectKind::Commit.tag() {
            Some(ObjectKind::Commit)
        } else {
            None
        }
    }

    /// The kind that `tag` names, if it names one.
    pub fn from_tag(tag: &[u8]) -> (kind: Option<ObjectKind>)
        ensures
            kind == ObjectKind::of_tag(tag@),
            match kind {
                Some(k) => tag@ == k.tag(),
                None => forall|k: ObjectKind| tag@ != k.tag(),
            },
    {
        if tag.len() == 4 && tag[0] == 0x62 && tag[1] == 0x6c && tag[2] == 0x6f && tag[3] == 0x62 {
            assert(tag@ =~= ObjectKind::Blob.tag());
            Some(ObjectKind::Blob)
        } else if tag.len() == 4 && tag[0] == 0x74 && tag[1] == 0x72 && tag[2] == 0x65 && tag[3]
            == 0x65 {
            assert(tag@ =~= ObjectKind::Tree.tag());
            Some(ObjectKind::Tree)
        } else if tag.len() == 6 && tag[0] == 0x63 && tag[1] == 0x6f && tag[2] == 0x6d && tag[3]
            == 0x6d && tag[4] == 0x69 && tag[5] == 0x74 {
            assert(tag@ =~= ObjectKind::Commit.tag());
            Some(ObjectKind::Commit)
        } else {
            None
        }
    }
}

/// The envelope of an object: tag, space, decimal length, NUL, body.
pub open spec fn envelope_of(kind: ObjectKind, body: Seq<u8>) -> Seq<u8> {
    kind.tag() + seq![SPACE] + decimal(body.len()) + seq![NUL] + body
}

/// Builds the envelope of an object of the given kind and body.
pub fn envelope(kind: ObjectKind, body: &[u8]) -> (env: Vec<u8>)
    ensures
        env@ == envelope_of(kind, body@),
{
    let mut env: Vec<u8> = Vec::new();
    kind.push_tag(&mut env);
    env.push(SPACE);
    push_decimal(&mut env, body.len() as u64);
    env.push(NUL);
    env.extend_from_slice(body);
    assert(env@ =~= envelope_of(kind, body@));
    env
}

/// The SHA-1 digest of `data`, as the `sha1` crate computes it.
pub uninterp spec fn sha1_digest(data: Seq<u8>) -> Seq<u8>;

/// Calls `sha1::Sha1::digest` (the one-shot form of the `Digest` trait) and
/// hands its twenty bytes out as an array. The contract only names the result.
#[verifier::external_body]
pub(crate) fn sha1(data: &[u8]) -> (out: [u8; 20])
    ensures
        out@ == sha1_digest(data@),
{
    sha1::Sha1::digest(data).into()
}

/// The digest under which an object is stored: the SHA-1 of its envelope.
pub open spec fn digest_of(kind: ObjectKind, body: Seq<u8>) -> Seq<u8> {
    sha1_digest(envelope_of(kind, body))
}

/// The digest of an object is fixed by its kind and the bytes of its body:
/// bodies that hold the same bytes have the same envelope and the same
/// digest, whenever and wherever they are computed.
pub proof fn lemma_digest_stable(kind: ObjectKind, first: Seq<u8>, second: Seq<u8>)
    requires
        first.len() == second.len(),
        forall|i: int| 0 <= i < first.len() ==> first[i] == second[i],
    ensures
        envelope_of(kind, first) == envelope_of(kind, second),
        digest_of(kind, first) == digest_of(kind, second),
{
    assert(first =~= second);
}

/// Computes the digest of an object from its kind and body.
pub fn content_digest(kind: ObjectKind, body: &[u8]) -> (digest: [u8; 20])
    ensures
        digest@ == digest_of(kind, body@),
{
    let env = envelope(kind, body);
    sha1(env.as_slice())
}

/// The lower-case hexadecimal digit of a value below sixteen.
pub open spec fn hex_digit(nibble: u8) -> char {
    if nibble < 10 {
        (0x30 + nibble) as u8 as char
    } else {
        (0x57 + nibble) as u8 as char
    }
}

/// The lower-case hexadecimal notation of `data`: two digits for each byte,
/// the high half first.
pub open spec fn hex_of(data: Seq<u8>) -> Seq<char> {
    Seq::new(
        2 * data.len(),
        |i: int|
            if i % 2 == 0 {
                hex_digit(data[i / 2] / 16)
            } else {
                hex_digit(data[i / 2] % 16)
            },
    )
}

/// Calls `hex::encode`, which writes each byte as two lower-case hexadecimal
/// digits, the high half first.
#[verifier::external_body]
pub(crate) fn hex_encode(data: &[u8]) -> (text: String)
    ensures
        text@ == hex_of(data@),
{
    hex::encode(data)
}

/// The digest in the notation in which it is shown and stored in refs.
pub fn digest_hex(digest: &[u8; 20]) -> (text: String)
    ensures
        text@ == hex_of(digest@),
{
    hex_encode(digest.as_slice())
}

/// The value of a lower-case hexadecimal digit.
fn hex_value(c: char) -> (value: Option<u8>)
    ensures
        match value {
            Some(v) => v < 16 && hex_digit(v) == c,
            None => forall|v: u8| v < 16 ==> hex_digit(v) != c,
        },
{
    let code = c as u32;
    if 0x30 <= code && code <= 0x39 {
        let v = (code - 0x30) as u8;
        assert(hex_digit(v) == c);
        Some(v)
    } else if 0x61 <= code && code <= 0x66 {
        let v = (code - 0x57) as u8;
        assert(hex_digit(v) == c);
        Some(v)
    } else {
        assert forall|v: u8| v < 16 implies hex_digit(v) != c by {
            assert(hex_digit(v) as u32 == (if v < 10 { 0x30 + v } else { 0x57 + v }));
        }
        None
    }
}

/// Reads a digest from its hexadecimal notation: forty lower-case digits.
/// `None` for any other text.
pub fn parse_digest(text: &str) -> (digest: Option<[u8; 20]>)
    ensures
        match digest {
            Some(d) => hex_of(d@) == text@,
            None => forall|d: Seq<u8>| d.len() == 20 ==> hex_of(d) != text@,
        },
{
    if text.unicode_len() != 40 {
        assert forall|d: Seq<u8>| d.len() == 20 implies hex_of(d) != text@ by {
            assert(hex_of(d).len() == 40);
        }
        return None;
    }
    let mut digest = [0u8; 20];
    let mut i: usize = 0;
    while i < 20
        invariant
            i <= 20,
            text@.len() == 40,
            forall|j: int|
                0 <= j < i ==> hex_digit(#[trigger] digest@[j] / 16) == text@[2 * j] && hex_digit(
                    digest@[j] % 16,
                ) == text@[2 * j + 1],
        decreases 20 - i,
    {
        let high = hex_value(text.get_char(2 * i));
        let low = hex_value(text.get_char(2 * i + 1));
        match (high, low) {
            (Some(h), Some(l)) => {
                let byte: u8 = h * 16 + l;
                assert(byte / 16 == h && byte % 16 == l);
                digest[i] = byte;
            },
            _ => {
                assert forall|d: Seq<u8>| d.len() == 20 implies hex_of(d) != text@ by {
                    let at = i as int;
                    assert(hex_of(d)[2 * at] == hex_digit(d[at] / 16));
                    assert(hex_of(d)[2 * at + 1] == hex_digit(d[at] % 16));
                    assert(d[at] / 16 < 16 && d[at] % 16 < 16);
                }
                return None;
            },
        }
        i = i + 1;
    }
    assert(hex_of(digest@) =~= text@) by {
        assert forall|k: int| 0 <= k < 40 implies hex_of(digest@)[k] == text@[k] by {
            let j = k / 2;
            assert(hex_digit(digest@[j] / 16) == text@[2 * j]);
        }
    }
    Some(digest)
}

/// The index of the first `b` in `s`, or the length of `s` if it holds none.
pub open spec fn position(s: Seq<u8>, b: u8) -> int
    decreases s.len(),
{
    if s.len() == 0 || s[0] == b {
        0
    } else {
        1 + position(s.drop_first(), b)
    }
}

/// `position` is within bounds, points at a `b`, and no `b` stands before it.
pub proof fn lemma_position(s: Seq<u8>, b: u8)
    ensures
        0 <= position(s, b) <= s.len(),
        position(s, b) < s.len() ==> s[position(s, b)] == b,
        forall|j: int| 0 <= j < position(s, b) ==> s[j] != b,
    decreases s.len(),
{
    if s.len() != 0 && s[0] != b {
        let rest = s.drop_first();
        lemma_position(rest, b);
        assert forall|j: int| 0 <= j < position(s, b) implies s[j] != b by {
            if j > 0 {
                assert(s[j] == rest[j - 1]);
            }
        }
    }
}

/// An index that points at the first `b`, or at the end where there is none,
/// is the `position` of `b`.
pub proof fn lemma_position_is(s: Seq<u8>, b: u8, k: int)
    requires
        0 <= k <= s.len(),
        forall|j: int| 0 <= j < k ==> s[j] != b,
        k < s.len() ==> s[k] == b,
    ensures
        position(s, b) == k,
{
    lemma_position(s, b);
    let p = position(s, b);
    if p < k {
        assert(s[p] == b);
    } else if k < p {
        assert(s[k] == b);
    }
}

/// Whether `b` may stand in a tag: an ASCII letter, a digit or an underscore.
pub open spec fn is_word_byte(b: u8) -> bool {
    (0x61 <= b <= 0x7a) || (0x41 <= b <= 0x5a) || is_digit(b) || b == 0x5f
}

/// Whether `s` is a word: one or more word bytes.
pub open spec fn is_word(s: Seq<u8>) -> bool {
    s.len() > 0 && forall|i: int| 0 <= i < s.len() ==> is_word_byte(#[trigger] s[i])
}

/// Whether `s` is a number: one or more ASCII digits.
pub open spec fn is_number(s: Seq<u8>) -> bool {
    s.len() > 0 && forall|i: int| 0 <= i < s.len() ==> is_digit(#[trigger] s[i])
}

/// The tag of a header of the form word, space, digits; `None` for any other
/// header.
pub open spec fn parse_header(header: Seq<u8>) -> Option<Seq<u8>> {
    let k = position(header, SPACE);
    if k < header.len() && is_word(header.subrange(0, k)) && is_number(
        header.subrange(k + 1, header.len() as int),
    ) {
        Some(header.subrange(0, k))
    } else {
        None
    }
}

/// The tag and the body of an envelope. The header ends at the first NUL; an
/// envelope without one is corrupt, and a header that is not a word, a space
/// and digits is malformed.
pub open spec fn parse_envelope(env: Seq<u8>) -> Result<(Seq<u8>, Seq<u8>), Error> {
    let n = position(env, NUL);
    if n >= env.len() {
        Err(Error::CorruptObject)
    } else {
        match parse_header(env.subrange(0, n)) {
            None => Err(Error::MalformedHeader),
            Some(tag) => Ok((tag, env.subrange(n + 1, env.len() as int))),
        }
    }
}

/// Every tag is a word.
pub proof fn lemma_tag_is_word(kind: ObjectKind)
    ensures
        is_word(kind.tag()),
{
}

/// Splitting the envelope of an object gives back its tag and its body.
pub proof fn lemma_envelope_round_trip(kind: ObjectKind, body: Seq<u8>)
    ensures
        parse_envelope(envelope_of(kind, body)) == Ok::<(Seq<u8>, Seq<u8>), Error>(
            (kind.tag(), body),
        ),
{
    let tag = kind.tag();
    let digits = decimal(body.len());
    let env = envelope_of(kind, body);
    let k = tag.len() as int;
    let n = k + 1 + digits.len();
    lemma_tag_is_word(kind);
    lemma_decimal_digits(body.len());
    assert forall|j: int| 0 <= j < n implies env[j] != NUL by {
        if j < k {
            assert(env[j] == tag[j]);
            assert(is_word_byte(tag[j]));
        } else if j > k {
            assert(env[j] == digits[j - k - 1]);
            assert(is_digit(digits[j - k - 1]));
        }
    }
    assert(env[n] == NUL);
    lemma_position_is(env, NUL, n);
    let header = env.subrange(0, n);
    assert(header =~= tag + seq![SPACE] + digits);
    assert forall|j: int| 0 <= j < k implies header[j] != SPACE by {
        assert(header[j] == tag[j]);
        assert(is_word_byte(tag[j]));
    }
    lemma_position_is(header, SPACE, k);
    assert(header.subrange(0, k) =~= tag);
    assert(header.subrange(k + 1, header.len() as int) =~= digits);
    assert(env.subrange(n + 1, env.len() as int) =~= body);
}

/// Finds the first `b` in `s`; the result is the length of `s` if there is none.
pub fn find_byte(s: &[u8], b: u8) -> (k: usize)
    ensures
        k == position(s@, b),
{
    let mut k: usize = 0;
    while k < s.len() && s[k] != b
        invariant
            k <= s.len(),
            forall|j: int| 0 <= j < k ==> s@[j] != b,
        decreases s.len() - k,
    {
        k = k + 1;
    }
    proof {
        lemma_position_is(s@, b, k as int);
    }
    k
}

/// Whether the bytes of `s` from `from` up to `to` form a word.
fn word_between(s: &[u8], from: usize, to: usize) -> (ok: bool)
    requires
        from <= to <= s.len(),
    ensures
        ok == is_word(s@.subrange(from as int, to as int)),
{
    let ghost part = s@.subrange(from as int, to as int);
    let mut i: usize = from;
    while i < to
        invariant
            from <= i <= to <= s.len(),
            part == s@.subrange(from as int, to as int),
            forall|j: int| 0 <= j < i - from ==> is_word_byte(#[trigger] part[j]),
        decreases to - i,
    {
        let b = s[i];
        assert(part[i - from] == b);
        let word_byte = (0x61 <= b && b <= 0x7a) || (0x41 <= b && b <= 0x5a) || (0x30 <= b && b
            <= 0x39) || b == 0x5f;
        if !word_byte {
            return false;
        }
        i = i + 1;
    }
    from < to
}

/// Whether the bytes of `s` from `from` up to `to` form a number.
fn number_between(s: &[u8], from: usize, to: usize) -> (ok: bool)
    requires
        from <= to <= s.len(),
    ensures
        ok == is_number(s@.subrange(from as int, to as int)),
{
    let ghost part = s@.subrange(from as int, to as int);
    let mut i: usize = from;
    while i < to
        invariant
            from <= i <= to <= s.len(),
            part == s@.subrange(from as int, to as int),
            forall|j: int| 0 <= j < i - from ==> is_digit(#[trigger] part[j]),
        decreases to - i,
    {
        let b = s[i];
        assert(part[i - from] == b);
        if !(0x30 <= b && b <= 0x39) {
            return false;
        }
        i = i + 1;
    }
    from < to
}

/// Copies the bytes of `s` from `from` up to `to`.
pub fn copy_range(s: &[u8], from: usize, to: usize) -> (part: Vec<u8>)
    requires
        from <= to <= s.len(),
    ensures
        part@ == s@.subrange(from as int, to as int),
{
    let mut part: Vec<u8> = Vec::new();
    let mut i: usize = from;
    while i < to
        invariant
            from <= i <= to <= s.len(),
            part@ == s@.subrange(from as int, i as int),
        decreases to - i,
    {
        part.push(s[i]);
        assert(part@ =~= s@.subrange(from as int, i + 1));
        i = i + 1;
    }
    part
}

/// Splits an envelope into the tag of its header and its body.
///
/// Fails with `CorruptObject` when the envelope holds no NUL, and with
/// `MalformedHeader` when what stands before the first NUL is not a word, a
/// space and decimal digits.
pub fn split_envelope(env: &[u8]) -> (res: Result<(Vec<u8>, Vec<u8>), Error>)
    ensures
        match res {
            Ok((tag, body)) => parse_envelope(env@) == Ok::<(Seq<u8>, Seq<u8>), Error>(
                (tag@, body@),
            ),
            Err(e) => parse_envelope(env@) == Err::<(Seq<u8>, Seq<u8>), Error>(e),
        },
{
    let n = find_byte(env, NUL);
    if n >= env.len() {
        return Err(Error::CorruptObject);
    }
    let ghost header = env@.subrange(0, n as int);
    let mut k: usize = 0;
    while k < n && env[k] != SPACE
        invariant
            k <= n < env.len(),
            header == env@.subrange(0, n as int),
            forall|j: int| 0 <= j < k ==> header[j] != SPACE,
        decreases n - k,
    {
        assert(header[k as int] == env@[k as int]);
        k = k + 1;
    }
    proof {
        if k < n {
            assert(header[k as int] == env@[k as int]);
        }
        lemma_position_is(header, SPACE, k as int);
        assert(header.subrange(0, k as int) =~= env@.subrange(0, k as int));
        if k < n {
            assert(header.subrange(k + 1, n as int) =~= env@.subrange(k + 1, n as int));
        }
    }
    if k >= n {
        return Err(Error::MalformedHeader);
    }
    if !word_between(env, 0, k) || !number_between(env, k + 1, n) {
        return Err(Error::MalformedHeader);
    }
    let tag = copy_range(env, 0, k);
    let body = copy_range(env, n + 1, env.len());
    Ok((tag, body))
}

} // verus!
