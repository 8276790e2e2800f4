//! The object store: compressed envelopes kept under their digest.
//!
//! The store is a map from digest to stored bytes. Writing an object puts the
//! compressed envelope at its digest, whatever stood there before; reading
//! decompresses what is found and checks that it is an envelope.

use vstd::prelude::*;
use vstd::slice::slice_subrange;
use std::io::Read;
use std::io::Write;
use crate::codec::{
    digest_of, envelope, envelope_of, find_byte, hex_encode, hex_of, lemma_envelope_round_trip,
    parse_envelope, position, sha1, split_envelope, ObjectKind, NUL,
};
use crate::error::Error;

verus! {

/// What the zlib encoder of `flate2` makes of `data` at its default level;
/// `None` where it reports an error.
pub uninterp spec fn zlib_deflated(data: Seq<u8>) -> Option<Seq<u8>>;

/// What the zlib decoder of `flate2` reads out of `data`; `None` where it
/// reports an error.
pub uninterp spec fn zlib_inflated(data: Seq<u8>) -> Option<Seq<u8>>;

/// Runs `data` through `flate2::write::ZlibEncoder` (`new` on an empty vector
/// with `Compression::default()`, `write_all`, `finish`).
///
/// The contract names the outcome and claims one thing of it: out of what
/// the encoder produced, the decoder reads `data` again.
#[verifier::external_body]
pub(crate) fn deflate(data: &[u8]) -> (out: Option<Vec<u8>>)
    ensures
        match out {
            Some(packed) => zlib_deflated(data@) == Some(packed@),
            None => zlib_deflated(data@) is None,
        },
        out matches Some(packed) ==> zlib_inflated(packed@) == Some(data@),
{
    let mut encoder = flate2::write::ZlibEncoder::new(Vec::new(), flate2::Compression::default());
    match encoder.write_all(data) {
        Ok(()) => encoder.finish().ok(),
        Err(_) => None,
    }
}

/// Reads `data` through `flate2::read::ZlibDecoder` to its end. The contract
/// only names the outcome.
#[verifier::external_body]
pub(crate) fn inflate(data: &[u8]) -> (out: Option<Vec<u8>>)
    ensures
        match out {
            Some(plain) => zlib_inflated(data@) == Some(plain@),
            None => zlib_inflated(data@) is None,
        },
{
    let mut decoder = flate2::read::ZlibDecoder::new(data);
    let mut plain = Vec::new();
    match decoder.read_to_end(&mut plain) {
        Ok(_) => Some(plain),
        Err(_) => None,
    }
}

/// The bytes under which an object is stored: its compressed envelope.
pub open spec fn stored_form(kind: ObjectKind, body: Seq<u8>) -> Option<Seq<u8>> {
    zlib_deflated(envelope_of(kind, body))
}

/// The store after an object was written to it. Where the compressor fails
/// the store stays as it was.
pub open spec fn written(store: Map<Seq<u8>, Seq<u8>>, kind: ObjectKind, body: Seq<u8>) -> Map<
    Seq<u8>,
    Seq<u8>,
> {
    match stored_form(kind, body) {
        Some(packed) => store.insert(digest_of(kind, body), packed),
        None => store,
    }
}

/// The envelope found at `digest`.
pub open spec fn raw_at(store: Map<Seq<u8>, Seq<u8>>, digest: Seq<u8>) -> Result<Seq<u8>, Error> {
    if !store.dom().contains(digest) {
        Err(Error::NotFound)
    } else {
        match zlib_inflated(store[digest]) {
            None => Err(Error::CorruptObject),
            Some(env) => if position(env, NUL) < env.len() {
                Ok(env)
            } else {
                Err(Error::CorruptObject)
            },
        }
    }
}

/// The tag and body of the object found at `digest`.
pub open spec fn typed_at(store: Map<Seq<u8>, Seq<u8>>, digest: Seq<u8>) -> Result<
    (Seq<u8>, Seq<u8>),
    Error,
> {
    match raw_at(store, digest) {
        Err(e) => Err(e),
        Ok(env) => parse_envelope(env),
    }
}

/// Writing the same object a second time changes nothing: the digest is the
/// same and the store holds the one object it held after the first write.
pub proof fn lemma_write_idempotent(store: Map<Seq<u8>, Seq<u8>>, kind: ObjectKind, body: Seq<u8>)
    ensures
        written(written(store, kind, body), kind, body) == written(store, kind, body),
        stored_form(kind, body) is Some ==> written(store, kind, body).dom() == store.dom().insert(
            digest_of(kind, body),
        ),
{
    let once = written(store, kind, body);
    assert(written(once, kind, body) =~= once);
}

/// Where an object is kept in a persistent object area: a shard, named by
/// the first byte of the digest, and a key within it, named by the rest.
#[derive(Debug)]
pub struct Location {
    /// The first byte of the digest, in hexadecimal.
    pub shard: String,
    /// The other nineteen bytes of the digest, in hexadecimal.
    pub key: String,
}

/// The location of the object that `digest` names. Shard and key together
/// spell the digest in hexadecimal.
pub fn location(digest: &[u8; 20]) -> (place: Location)
    ensures
        place.shard@ == hex_of(digest@.subrange(0, 1)),
        place.key@ == hex_of(digest@.subrange(1, 20)),
        place.shard@ + place.key@ == hex_of(digest@),
{
    let bytes = digest.as_slice();
    let shard = hex_encode(slice_subrange(bytes, 0, 1));
    let key = hex_encode(slice_subrange(bytes, 1, 20));
    assert(shard@ + key@ =~= hex_of(digest@));
    Location { shard, key }
}

/// Whether `digest` names one of the objects of `all` from place `from` on.
pub open spec fn held_from(all: Seq<StoredObject>, from: int, digest: Seq<u8>) -> bool {
    exists|j: int| from <= j < all.len() && #[trigger] all[j].digest@ == digest
}

/// A digest is held from place `k` on when it is held at `k` or after it.
proof fn lemma_held_from_step(all: Seq<StoredObject>, k: int, digest: Seq<u8>)
    requires
        0 <= k < all.len(),
    ensures
        held_from(all, k, digest) == (digest == all[k].digest@ || held_from(all, k + 1, digest)),
{
    if held_from(all, k, digest) {
        let j = choose|j: int| k <= j < all.len() && #[trigger] all[j].digest@ == digest;
        if j != k {
            assert(k + 1 <= j < all.len() && all[j].digest@ == digest);
        }
    }
    if held_from(all, k + 1, digest) {
        let j = choose|j: int| k + 1 <= j < all.len() && #[trigger] all[j].digest@ == digest;
        assert(k <= j < all.len() && all[j].digest@ == digest);
    }
    if digest == all[k].digest@ {
        assert(all[k].digest@ == digest);
    }
}

/// One stored object: a digest and the bytes kept under it.
pub struct StoredObject {
    /// The digest that names the object.
    pub digest: [u8; 20],
    /// The compressed envelope.
    pub data: Vec<u8>,
}

/// A content-addressed store of objects.
pub struct ObjectStore {
    objects: Vec<StoredObject>,
}

impl View for ObjectStore {
    type V = Map<Seq<u8>, Seq<u8>>;

    closed spec fn view(&self) -> Map<Seq<u8>, Seq<u8>> {
        Map::new(
            |d: Seq<u8>| self.slot_of(d) is Some,
            |d: Seq<u8>| self.objects@[self.slot_of(d).unwrap()].data@,
        )
    }
}

impl ObjectStore {
    /// No digest is held twice.
    #[verifier::type_invariant]
    spec fn distinct(self) -> bool {
        forall|i: int, j: int|
            0 <= i < j < self.objects@.len() ==> self.objects@[i].digest@ != self.objects@[j].digest@
    }

    /// The place in the list at which `digest` is held.
    spec fn slot_of(self, digest: Seq<u8>) -> Option<int> {
        if exists|i: int| 0 <= i < self.objects@.len() && self.objects@[i].digest@ == digest {
            Some(choose|i: int| 0 <= i < self.objects@.len() && self.objects@[i].digest@ == digest)
        } else {
            None
        }
    }

    /// An empty store.
    pub fn new() -> (store: ObjectStore)
        ensures
            store@ == Map::<Seq<u8>, Seq<u8>>::empty(),
    {
        let store = ObjectStore { objects: Vec::new() };
        assert(store@ =~= Map::<Seq<u8>, Seq<u8>>::empty());
        store
    }

    /// Looks for `digest` in the list.
    fn find(&self, digest: &[u8; 20]) -> (slot: Option<usize>)
        ensures
            match slot {
                Some(i) => i < self.objects@.len() && self.objects@[i as int].digest@ == digest@
                    && self.slot_of(digest@) == Some(i as int),
                None => self.slot_of(digest@) is None,
            },
    {
        proof {
            use_type_invariant(self);
        }
        let mut i: usize = 0;
        while i < self.objects.len()
            invariant
                i <= self.objects@.len(),
                self.distinct(),
                forall|j: int| 0 <= j < i ==> self.objects@[j].digest@ != digest@,
            decreases self.objects@.len() - i,
        {
            if crate::bytes::bytes_eq(self.objects[i].digest.as_slice(), digest.as_slice()) {
                proof {
                    let c = self.slot_of(digest@).unwrap();
                    assert(self.objects@[c].digest@ == digest@);
                }
                return Some(i);
            }
            i = i + 1;
        }
        None
    }

    /// Whether an object is held under `digest`.
    pub fn contains(&self, digest: &[u8; 20]) -> (held: bool)
        ensures
            held == self@.dom().contains(digest@),
    {
        self.find(digest).is_some()
    }

    /// Places `data` under `digest` as it is, replacing what was held there.
    /// This is how bytes found in a persistent object area enter the store.
    pub fn put(&mut self, digest: [u8; 20], data: Vec<u8>)
        ensures
            final(self)@ == old(self)@.insert(digest@, data@),
    {
        proof {
            use_type_invariant(&*self);
        }
        let ghost before = *self;
        let slot = self.find(&digest);
        let mut objects: Vec<StoredObject> = Vec::new();
        core::mem::swap(&mut self.objects, &mut objects);
        match slot {
            Some(i) => {
                objects.set(i, StoredObject { digest, data });
            },
            None => {
                objects.push(StoredObject { digest, data });
            },
        }
        self.objects = objects;
        proof {
            let after = *self;
            let target: int = match slot {
                Some(i) => i as int,
                None => before.objects@.len() as int,
            };
            assert(after.objects@[target].digest@ == digest@);
            assert forall|d: Seq<u8>|
                after.slot_of(d) == (if d == digest@ {
                    Some(target)
                } else {
                    before.slot_of(d)
                }) by {
                if d == digest@ {
                    let c = after.slot_of(d).unwrap();
                    if c != target {
                        assert(before.objects@[c].digest@ == d);
                    }
                } else if before.slot_of(d) is Some {
                    let k = before.slot_of(d).unwrap();
                    assert(after.objects@[k].digest@ == d);
                    let c = after.slot_of(d).unwrap();
                    assert(before.objects@[c].digest@ == d);
                } else if after.slot_of(d) is Some {
                    let c = after.slot_of(d).unwrap();
                    assert(before.objects@[c].digest@ == d);
                }
            }
            assert(after@ =~= before@.insert(digest@, data@));
        }
    }

    /// Takes over every object of `other`. Where both hold an object under
    /// one digest, the bytes of `other` replace those held here.
    pub fn absorb(&mut self, other: ObjectStore)
        ensures
            final(self)@ == old(self)@.union_prefer_right(other@),
    {
        let ghost start = self@;
        let ghost theirs = other@;
        let ghost all = other.objects@;
        proof {
            use_type_invariant(&other);
            assert forall|d: Seq<u8>| other@.dom().contains(d) == held_from(all, 0, d) by {
                if other@.dom().contains(d) {
                    let c = other.slot_of(d).unwrap();
                    assert(all[c].digest@ == d);
                }
            }
            assert forall|j: int| 0 <= j < all.len() implies other@[#[trigger] all[j].digest@]
                == all[j].data@ by {
                let c = other.slot_of(all[j].digest@).unwrap();
                assert(all[c].digest@ == all[j].digest@);
            }
        }
        let ObjectStore { objects } = other;
        let mut rest = objects;
        while rest.len() > 0
            invariant
                rest@.len() <= all.len(),
                rest@ == all.subrange(0, rest@.len() as int),
                forall|i: int, j: int| 0 <= i < j < all.len() ==> all[i].digest@ != all[j].digest@,
                forall|d: Seq<u8>| theirs.dom().contains(d) == held_from(all, 0, d),
                forall|j: int|
                    0 <= j < all.len() ==> theirs[#[trigger] all[j].digest@] == all[j].data@,
                forall|d: Seq<u8>|
                    self@.dom().contains(d) == (start.dom().contains(d) || held_from(
                        all,
                        rest@.len() as int,
                        d,
                    )),
                forall|j: int|
                    rest@.len() <= j < all.len() ==> self@[#[trigger] all[j].digest@]
                        == all[j].data@,
                forall|d: Seq<u8>|
                    start.dom().contains(d) && !held_from(all, rest@.len() as int, d) ==> self@[d]
                        == start[d],
            decreases rest@.len(),
        {
            let ghost k = rest@.len() - 1;
            let ghost before = self@;
            let object = rest.pop().unwrap();
            assert(object == all[k]);
            let StoredObject { digest, data } = object;
            self.put(digest, data);
            proof {
                assert(rest@ =~= all.subrange(0, k));
                assert forall|d: Seq<u8>|
                    self@.dom().contains(d) == (start.dom().contains(d) || held_from(
                        all,
                        k,
                        d,
                    )) by {
                    lemma_held_from_step(all, k, d);
                    assert(before.dom().contains(d) == (start.dom().contains(d) || held_from(
                        all,
                        k + 1,
                        d,
                    )));
                }
                assert forall|j: int| k <= j < all.len() implies self@[#[trigger] all[j].digest@]
                    == all[j].data@ by {
                    if j > k {
                        assert(before[all[j].digest@] == all[j].data@);
                    }
                }
                assert forall|d: Seq<u8>|
                    start.dom().contains(d) && !held_from(all, k, d) implies self@[d]
                    == start[d] by {
                    lemma_held_from_step(all, k, d);
                    assert(before[d] == start[d]);
                }
            }
        }
        proof {
            assert forall|d: Seq<u8>| theirs.dom().contains(d) implies self@[d] == theirs[d] by {
                let j = choose|j: int| 0 <= j < all.len() && #[trigger] all[j].digest@ == d;
                assert(self@[all[j].digest@] == all[j].data@);
            }
            assert(self@ =~= start.union_prefer_right(theirs));
        }
    }

    /// Writes an object: its compressed envelope is placed under its digest,
    /// whether or not something was held there, and the digest is returned.
    ///
    /// Reading the object back gives the tag of `kind` and `body` unchanged.
    /// The write fails, and leaves the store as it was, only where the
    /// compressor reports an error.
    pub fn write(&mut self, kind: ObjectKind, body: &[u8]) -> (res: Result<[u8; 20], Error>)
        ensures
            final(self)@ == written(old(self)@, kind, body@),
            match res {
                Ok(digest) => {
                    &&& stored_form(kind, body@) is Some
                    &&& digest@ == digest_of(kind, body@)
                    &&& typed_at(final(self)@, digest@) == Ok::<(Seq<u8>, Seq<u8>), Error>(
                        (kind.tag(), body@),
                    )
                },
                Err(e) => e == Error::CompressionFailed && stored_form(kind, body@) is None,
            },
    {
        let env = envelope(kind, body);
        match deflate(env.as_slice()) {
            None => Err(Error::CompressionFailed),
            Some(packed) => {
                let digest = sha1(env.as_slice());
                proof {
                    lemma_envelope_round_trip(kind, body@);
                }
                self.put(digest, packed);
                Ok(digest)
            },
        }
    }

    /// Reads the envelope held under `digest`.
    ///
    /// Fails with `NotFound` when nothing is held there, and with
    /// `CorruptObject` when what is held does not decompress or holds no NUL.
    pub fn read_raw(&self, digest: &[u8; 20]) -> (res: Result<Vec<u8>, Error>)
        ensures
            match res {
                Ok(env) => raw_at(self@, digest@) == Ok::<Seq<u8>, Error>(env@),
                Err(e) => raw_at(self@, digest@) == Err::<Seq<u8>, Error>(e),
            },
    {
        match self.find(digest) {
            None => Err(Error::NotFound),
            Some(i) => {
                match inflate(self.objects[i].data.as_slice()) {
                    None => Err(Error::CorruptObject),
                    Some(env) => {
                        if find_byte(env.as_slice(), NUL) < env.len() {
                            Ok(env)
                        } else {
                            Err(Error::CorruptObject)
                        }
                    },
                }
            },
        }
    }

    /// Reads the object held under `digest` and splits it into the tag of its
    /// kind and its body.
    ///
    /// Fails as `read_raw` does, and with `MalformedHeader` when the header is
    /// not a word, a space and decimal digits.
    pub fn read_typed(&self, digest: &[u8; 20]) -> (res: Result<(Vec<u8>, Vec<u8>), Error>)
        ensures
            match res {
                Ok((tag, body)) => typed_at(self@, digest@) == Ok::<(Seq<u8>, Seq<u8>), Error>(
                    (tag@, body@),
                ),
                Err(e) => typed_at(self@, digest@) == Err::<(Seq<u8>, Seq<u8>), Error>(e),
            },
    {
        match self.read_raw(digest) {
            Err(e) => Err(e),
            Ok(env) => split_envelope(env.as_slice()),
        }
    }

    /// The objects held, each once.
    pub fn objects(&self) -> (list: &Vec<StoredObject>)
        ensures
            forall|i: int|
                0 <= i < list@.len() ==> self@.dom().contains(#[trigger] list@[i].digest@)
                    && self@[list@[i].digest@] == list@[i].data@,
            forall|d: Seq<u8>|
                self@.dom().contains(d) ==> exists|i: int|
                    0 <= i < list@.len() && #[trigger] list@[i].digest@ == d,
            forall|i: int, j: int|
                0 <= i < j < list@.len() ==> list@[i].digest@ != list@[j].digest@,
    {
        proof {
            use_type_invariant(self);
            assert forall|i: int| 0 <= i < self.objects@.len() implies self@.dom().contains(
                #[trigger] self.objects@[i].digest@,
            ) && self@[self.objects@[i].digest@] == self.objects@[i].data@ by {
                let d = self.objects@[i].digest@;
                let c = self.slot_of(d).unwrap();
                assert(self.objects@[c].digest@ == d);
            }
            assert forall|d: Seq<u8>| self@.dom().contains(d) implies exists|i: int|
                0 <= i < self.objects@.len() && #[trigger] self.objects@[i].digest@ == d by {
                let c = self.slot_of(d).unwrap();
                assert(self.objects@[c].digest@ == d);
            }
        }
        &self.objects
    }
}

} // verus!
