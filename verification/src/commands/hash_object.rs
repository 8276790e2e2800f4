//! Hashing the contents of a file as a blob.

use vstd::prelude::*;
use crate::codec::{content_digest, digest_hex, digest_of, hex_of, ObjectKind};
use crate::error::Error;
use crate::store::{stored_form, written, ObjectStore};

verus! {

/// Computes the digest of the blob that holds `content` and returns it in
/// hexadecimal. With `write` the blob is also written to `store`.
///
/// Fails only with `write`, with `CompressionFailed`, when the compressor
/// refuses the blob; `store` is then left as it was.
pub fn hash_object(content: &[u8], write: bool, store: &mut ObjectStore) -> (res: Result<
    String,
    Error,
>)
    ensures
        final(store)@ == (if write {
            written(old(store)@, ObjectKind::Blob, content@)
        } else {
            old(store)@
        }),
        match res {
            Ok(text) => text@ == hex_of(digest_of(ObjectKind::Blob, content@)) && (write
                ==> stored_form(ObjectKind::Blob, content@) is Some),
            Err(e) => e == Error::CompressionFailed && write && stored_form(
                ObjectKind::Blob,
                content@,
            ) is None,
        },
{
    let digest = if write {
        match store.write(ObjectKind::Blob, content) {
            Ok(digest) => digest,
            Err(e) => { return Err(e); },
        }
    } else {
        content_digest(ObjectKind::Blob, content)
    };
    Ok(digest_hex(&digest))
}

} // verus!
