//! The head of the history: the symbolic ref in `HEAD` and the branch that
//! it names.
//!
//! The caller reads and writes the files; the functions here decide what the
//! texts mean and what is to be written.

use vstd::prelude::*;
use vstd::string::{StrSliceExecFns, StringExecFns};
use crate::error::Error;

verus! {

/// Whether `c` is white space, as `char::is_whitespace` tells it.
pub uninterp spec fn white_space(c: char) -> bool;

/// Calls `char::is_whitespace`. The contract only names the result.
#[verifier::external_body]
pub(crate) fn is_whitespace(c: char) -> (white: bool)
    ensures
        white == white_space(c),
{
    c.is_whitespace()
}

/// The number of white-space characters at the start of `s`.
pub open spec fn leading(s: Seq<char>) -> int
    decreases s.len(),
{
    if s.len() == 0 || !white_space(s[0]) {
        0
    } else {
        1 + leading(s.drop_first())
    }
}

/// The number of white-space characters at the end of `s`.
pub open spec fn trailing(s: Seq<char>) -> int
    decreases s.len(),
{
    if s.len() == 0 || !white_space(s.last()) {
        0
    } else {
        1 + trailing(s.drop_last())
    }
}

/// `s` without the white space at its start and at its end.
pub open spec fn trimmed(s: Seq<char>) -> Seq<char> {
    if leading(s) >= s.len() {
        Seq::<char>::empty()
    } else {
        s.subrange(leading(s), s.len() - trailing(s))
    }
}

/// A place before which all is white space, and at which it ends, is the
/// number of leading white-space characters.
proof fn lemma_leading_is(s: Seq<char>, k: int)
    requires
        0 <= k <= s.len(),
        forall|j: int| 0 <= j < k ==> white_space(#[trigger] s[j]),
        k < s.len() ==> !white_space(s[k]),
    ensures
        leading(s) == k,
    decreases k,
{
    if k > 0 {
        let rest = s.drop_first();
        assert(white_space(s[0]));
        assert forall|j: int| 0 <= j < k - 1 implies white_space(#[trigger] rest[j]) by {
            assert(rest[j] == s[j + 1]);
        }
        lemma_leading_is(rest, k - 1);
    }
}

/// A place after which all is white space, and before which it ends, gives
/// the number of trailing white-space characters.
proof fn lemma_trailing_is(s: Seq<char>, k: int)
    requires
        0 <= k <= s.len(),
        forall|j: int| k <= j < s.len() ==> white_space(#[trigger] s[j]),
        k > 0 ==> !white_space(s[k - 1]),
    ensures
        trailing(s) == s.len() - k,
    decreases s.len() - k,
{
    if k < s.len() {
        let rest = s.drop_last();
        assert(white_space(s[s.len() - 1]));
        assert forall|j: int| k <= j < rest.len() implies white_space(#[trigger] rest[j]) by {
            assert(rest[j] == s[j]);
        }
        lemma_trailing_is(rest, k);
    }
}

/// Removes the white space at the start and at the end of `s`.
pub fn trim(s: &str) -> (t: String)
    ensures
        t@ == trimmed(s@),
{
    let n = s.unicode_len();
    let mut from: usize = 0;
    while from < n && is_whitespace(s.get_char(from))
        invariant
            from <= n == s@.len(),
            forall|j: int| 0 <= j < from ==> white_space(#[trigger] s@[j]),
        decreases n - from,
    {
        from = from + 1;
    }
    proof {
        lemma_leading_is(s@, from as int);
    }
    if from >= n {
        return String::new();
    }
    let mut to: usize = n;
    while to > from && is_whitespace(s.get_char(to - 1))
        invariant
            from <= to <= n == s@.len(),
            from < n,
            !white_space(s@[from as int]),
            forall|j: int| to <= j < n ==> white_space(#[trigger] s@[j]),
        decreases to,
    {
        to = to - 1;
    }
    proof {
        lemma_trailing_is(s@, to as int);
    }
    String::from_str(s.substring_char(from, to))
}

/// The path of the ref that `HEAD` names: what follows `ref: ` in the trimmed
/// text. `None` where the text does not start so.
pub open spec fn symbolic_target(head: Seq<char>) -> Option<Seq<char>> {
    let text = trimmed(head);
    if text.len() >= 5 && text.subrange(0, 5) == "ref: "@ {
        Some(text.subrange(5, text.len() as int))
    } else {
        None
    }
}

/// The path of the branch ref that the text of `HEAD` names.
///
/// Fails with `UnsupportedState` when the text is not a symbolic ref, which
/// is the case of a detached head.
pub fn head_ref_path(head: &str) -> (res: Result<String, Error>)
    ensures
        match res {
            Ok(path) => symbolic_target(head@) == Some(path@),
            Err(e) => e == Error::UnsupportedState && symbolic_target(head@) is None,
        },
{
    let text = trim(head);
    let text = text.as_str();
    let n = text.unicode_len();
    proof {
        reveal_strlit("ref: ");
    }
    if n >= 5 && text.get_char(0) == 'r' && text.get_char(1) == 'e' && text.get_char(2) == 'f'
        && text.get_char(3) == ':' && text.get_char(4) == ' ' {
        assert(text@.subrange(0, 5) =~= "ref: "@);
        Ok(String::from_str(text.substring_char(5, n)))
    } else {
        if n >= 5 {
            assert(text@.subrange(0, 5)[0] == text@[0]);
            assert(text@.subrange(0, 5)[1] == text@[1]);
            assert(text@.subrange(0, 5)[2] == text@[2]);
            assert(text@.subrange(0, 5)[3] == text@[3]);
            assert(text@.subrange(0, 5)[4] == text@[4]);
        }
        Err(Error::UnsupportedState)
    }
}

/// The digest of the newest commit, as the texts of `HEAD` and of its branch
/// ref tell it.
pub open spec fn head_commit(head: Option<Seq<char>>, branch: Option<Seq<char>>) -> Result<
    Option<Seq<char>>,
    Error,
> {
    match head {
        None => Ok(None),
        Some(text) => match symbolic_target(text) {
            None => Err(Error::UnsupportedState),
            Some(_) => match branch {
                None => Ok(None),
                Some(tip) => Ok(Some(trimmed(tip))),
            },
        },
    }
}

/// A text as a mathematical value, where there is one.
pub open spec fn text_view(text: Option<&str>) -> Option<Seq<char>> {
    match text {
        Some(t) => Some(t@),
        None => None,
    }
}

/// Finds the digest of the newest commit.
///
/// `head` is the text of `HEAD` and `branch` the text of the ref that it
/// names, each `None` where the file does not exist. Without `HEAD`, and
/// without the branch ref, there is no commit yet. Fails with
/// `UnsupportedState` when `HEAD` is not a symbolic ref.
pub fn get_head_commit_hash(head: Option<&str>, branch: Option<&str>) -> (res: Result<
    Option<String>,
    Error,
>)
    ensures
        match res {
            Ok(Some(tip)) => head_commit(text_view(head), text_view(branch)) == Ok::<
                Option<Seq<char>>,
                Error,
            >(Some(tip@)),
            Ok(None) => head_commit(text_view(head), text_view(branch)) == Ok::<
                Option<Seq<char>>,
                Error,
            >(None),
            Err(e) => head_commit(text_view(head), text_view(branch)) == Err::<
                Option<Seq<char>>,
                Error,
            >(e),
        },
{
    match head {
        None => Ok(None),
        Some(text) => match head_ref_path(text) {
            Err(e) => Err(e),
            Ok(_) => match branch {
                None => Ok(None),
                Some(tip) => Ok(Some(trim(tip))),
            },
        },
    }
}

/// What is to be written to move a branch: the path of its ref and the new
/// text of that file.
#[derive(Debug)]
pub struct RefUpdate {
    /// The path of the ref, relative to the metadata directory.
    pub path: String,
    /// The digest in hexadecimal, followed by a line feed.
    pub content: String,
}

/// The update that points the current branch at `commit_hash`.
pub open spec fn head_update(head: Option<Seq<char>>, commit_hash: Seq<char>) -> Result<
    (Seq<char>, Seq<char>),
    Error,
> {
    match head {
        None => Err(Error::NotFound),
        Some(text) => match symbolic_target(text) {
            None => Err(Error::UnsupportedState),
            Some(path) => Ok((path, commit_hash + "\n"@)),
        },
    }
}

/// Points the current branch at a new commit.
///
/// `head` is the text of `HEAD`, `None` where the file does not exist. The
/// result tells which ref to overwrite and with what. Fails with `NotFound`
/// without `HEAD`, and with `UnsupportedState` when it is not a symbolic ref.
pub fn update_head(head: Option<&str>, commit_hash: &str) -> (res: Result<RefUpdate, Error>)
    ensures
        match res {
            Ok(update) => head_update(text_view(head), commit_hash@) == Ok::<
                (Seq<char>, Seq<char>),
                Error,
            >((update.path@, update.content@)),
            Err(e) => head_update(text_view(head), commit_hash@) == Err::<
                (Seq<char>, Seq<char>),
                Error,
            >(e),
        },
{
    match head {
        None => Err(Error::NotFound),
        Some(text) => match head_ref_path(text) {
            Err(e) => Err(e),
            Ok(path) => {
                let mut content = String::from_str(commit_hash);
                content.append("\n");
                Ok(RefUpdate { path, content })
            },
        },
    }
}

} // verus!
