//! Showing the object that a digest names.

use vstd::prelude::*;
use crate::bytes::{lossy_text, text_of_lossy};
use crate::codec::{hex_of, parse_digest, ObjectKind};
use crate::error::Error;
use crate::objects::{decoded, GitObject};
use crate::store::{typed_at, ObjectStore};

verus! {

/// The text that shows the object held under `digest`. An object of a kind
/// other than blob, tree and commit is shown as a blob is: its bytes read as
/// text.
pub open spec fn shown_at(store: Map<Seq<u8>, Seq<u8>>, digest: Seq<u8>) -> Result<
    Seq<char>,
    Error,
> {
    match typed_at(store, digest) {
        Err(e) => Err(e),
        Ok((tag, body)) => match ObjectKind::of_tag(tag) {
            None => Ok(lossy_text(body)),
            Some(kind) => match decoded(kind, body) {
                Ok(object) => Ok(object.text()),
                Err(e) => Err(e),
            },
        },
    }
}

/// Shows the object that `hash` names: a blob as its contents, a tree as one
/// line for each entry, a commit as its lines and its message.
///
/// `hash` is a digest in forty lower-case hexadecimal digits; any other text
/// names no object. Fails with `NotFound` when no object is held under the
/// digest, and as reading and decoding the object fail.
pub fn cat_file(hash: &str, store: &ObjectStore) -> (res: Result<String, Error>)
    ensures
        match res {
            Ok(text) => exists|d: Seq<u8>|
                d.len() == 20 && hex_of(d) == hash@ && #[trigger] shown_at(store@, d) == Ok::<
                    Seq<char>,
                    Error,
                >(text@),
            Err(e) => (e == Error::NotFound && forall|d: Seq<u8>|
                d.len() == 20 ==> #[trigger] hex_of(d) != hash@) || exists|d: Seq<u8>|
                d.len() == 20 && hex_of(d) == hash@ && #[trigger] shown_at(store@, d) == Err::<
                    Seq<char>,
                    Error,
                >(e),
        },
{
    let digest = match parse_digest(hash) {
        Some(digest) => digest,
        None => { return Err(Error::NotFound); },
    };
    let (tag, body) = match store.read_typed(&digest) {
        Ok(found) => found,
        Err(e) => {
            assert(shown_at(store@, digest@) == Err::<Seq<char>, Error>(e));
            return Err(e);
        },
    };
    let text = match ObjectKind::from_tag(tag.as_slice()) {
        None => text_of_lossy(body.as_slice()),
        Some(kind) => match GitObject::decode(kind, body) {
            Ok(object) => object.to_text(),
            Err(e) => {
                assert(shown_at(store@, digest@) == Err::<Seq<char>, Error>(e));
                return Err(e);
            },
        },
    };
    assert(shown_at(store@, digest@) == Ok::<Seq<char>, Error>(text@));
    Ok(text)
}

} // verus!
