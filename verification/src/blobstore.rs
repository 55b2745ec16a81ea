//! The blobstore abstraction: a uniform get/put contract over
//! interchangeable storage engines, an in-memory engine, and the
//! size-limiting decorator that silently discards oversized payloads.

use vstd::prelude::*;

use crate::kvlist::{KvList, copy_bytes};

verus! {

/// A backend write failure.
#[derive(Debug)]
pub struct BlobstoreError {
    /// What the backend reported.
    pub message: String,
}

/// A content-addressed key/payload store. Keys are byte strings derived
/// from the payload's content, so rewriting a key is idempotent.
pub trait Blobstore: Sized {
    /// The key-to-payload mapping currently held. The default says an
    /// engine holds nothing; every engine of this crate overrides it.
    open spec fn contents(&self) -> Map<Seq<u8>, Seq<u8>> {
        Map::empty()
    }

    /// The mapping after a successful put: engines persist the pair, but a
    /// decorator may discard it, so success does not imply persistence.
    open spec fn put_contents(&self, key: Seq<u8>, val: Seq<u8>) -> Map<Seq<u8>, Seq<u8>> {
        self.contents()
    }

    /// Whether a put of this pair cannot fail.
    open spec fn put_must_succeed(&self, key: Seq<u8>, val: Seq<u8>) -> bool {
        false
    }

    /// Whether this engine persists every accepted pair exactly as given:
    /// a successful put inserts exactly the pair, now and after any
    /// number of writes. The size gate is not exact; the in-memory
    /// engine is.
    open spec fn is_exact(&self) -> bool {
        false
    }

    /// The payload stored for a key, or absence.
    fn get(&self, key: &Vec<u8>) -> (r: Option<Vec<u8>>)
        ensures
            match r {
                Some(v) => self.contents().contains_key(key@) && v@ == self.contents()[key@],
                None => !self.contents().contains_key(key@),
            },
    ;

    /// Write a payload under a key: create or overwrite.
    fn put(&mut self, key: Vec<u8>, value: Vec<u8>) -> (r: Result<(), BlobstoreError>)
        ensures
            r matches Ok(_) ==> final(self).contents() == old(self).put_contents(key@, value@),
            r matches Err(_) ==> final(self).contents() == old(self).contents(),
            old(self).put_must_succeed(key@, value@) ==> r matches Ok(_),
            final(self).is_exact() == old(self).is_exact(),
            (old(self).is_exact() && r matches Ok(_)) ==> final(self).contents() == old(
                self,
            ).contents().insert(key@, value@),
    ;
}

/// An in-memory engine: holds every written pair, never fails.
#[derive(Debug)]
pub struct MemBlobstore {
    blobs: KvList<Vec<u8>>,
}

impl MemBlobstore {
    /// An empty store.
    pub fn new() -> (r: MemBlobstore)
        ensures
            r.contents() == Map::<Seq<u8>, Seq<u8>>::empty(),
    {
        let r = MemBlobstore { blobs: KvList::new() };
        proof {
            assert(r.contents() =~= Map::<Seq<u8>, Seq<u8>>::empty());
        }
        r
    }

    /// Every stored key, each exactly once, in no promised order.
    pub fn keys(&self) -> (r: Vec<Vec<u8>>)
        ensures
            forall|i: int, j: int| 0 <= i < j < r@.len() ==> r@[i]@ != r@[j]@,
            forall|i: int|
                0 <= i < r@.len() ==> self.contents().contains_key(#[trigger] r@[i]@),
            forall|k: Seq<u8>|
                self.contents().contains_key(k) ==> exists|i: int| 0 <= i < r@.len() && r@[i]@ == k,
    {
        self.blobs.keys()
    }
}

impl Blobstore for MemBlobstore {
    closed spec fn contents(&self) -> Map<Seq<u8>, Seq<u8>> {
        self.blobs.contents().map_values(|v: Vec<u8>| v@)
    }

    open spec fn put_contents(&self, key: Seq<u8>, val: Seq<u8>) -> Map<Seq<u8>, Seq<u8>> {
        self.contents().insert(key, val)
    }

    open spec fn put_must_succeed(&self, key: Seq<u8>, val: Seq<u8>) -> bool {
        true
    }

    open spec fn is_exact(&self) -> bool {
        true
    }

    fn get(&self, key: &Vec<u8>) -> (r: Option<Vec<u8>>) {
        match self.blobs.get(key) {
            Some(v) => Some(copy_bytes(v)),
            None => None,
        }
    }

    fn put(&mut self, key: Vec<u8>, value: Vec<u8>) -> (r: Result<(), BlobstoreError>) {
        let ghost pre = self.blobs.contents();
        let ghost k = key@;
        let ghost v = value@;
        self.blobs.insert(key, value);
        proof {
            assert(self.blobs.contents().map_values(|v: Vec<u8>| v@) =~= pre.map_values(
                |v: Vec<u8>| v@,
            ).insert(k, v));
        }
        Ok(())
    }
}

/// Wraps any blobstore and silently discards puts whose payload is at
/// least `max_blob_size` bytes long, reporting success; gets pass through
/// unchanged. A pure byte-length gate.
#[derive(Debug)]
pub struct LimitedBlobstore<B: Blobstore> {
    /// The engine written through for payloads under the limit.
    pub blobstore: B,
    /// Payloads of this length or more are dropped.
    pub max_blob_size: usize,
}

impl<B: Blobstore> LimitedBlobstore<B> {
    /// Gate an engine at the given payload size.
    pub fn new(blobstore: B, max_blob_size: usize) -> (r: LimitedBlobstore<B>)
        ensures
            r.blobstore == blobstore,
            r.max_blob_size == max_blob_size,
    {
        LimitedBlobstore { blobstore, max_blob_size }
    }
}

impl<B: Blobstore> Blobstore for LimitedBlobstore<B> {
    open spec fn contents(&self) -> Map<Seq<u8>, Seq<u8>> {
        self.blobstore.contents()
    }

    open spec fn put_contents(&self, key: Seq<u8>, val: Seq<u8>) -> Map<Seq<u8>, Seq<u8>> {
        if val.len() >= self.max_blob_size {
            self.contents()
        } else {
            self.blobstore.put_contents(key, val)
        }
    }

    open spec fn put_must_succeed(&self, key: Seq<u8>, val: Seq<u8>) -> bool {
        val.len() >= self.max_blob_size || self.blobstore.put_must_succeed(key, val)
    }

    open spec fn is_exact(&self) -> bool {
        false
    }

    fn get(&self, key: &Vec<u8>) -> (r: Option<Vec<u8>>) {
        self.blobstore.get(key)
    }

    /// The limit is the same after every write, and an oversized put
    /// leaves the whole store untouched.
    fn put(&mut self, key: Vec<u8>, value: Vec<u8>) -> (r: Result<(), BlobstoreError>)
        ensures
            final(self).max_blob_size == old(self).max_blob_size,
            value@.len() >= old(self).max_blob_size ==> (r matches Ok(_) && *final(self) == *old(
                self,
            )),
    {
        if value.len() >= self.max_blob_size {
            Ok(())
        } else {
            self.blobstore.put(key, value)
        }
    }
}

/// An oversized put through the size gate is sure to report success, yet
/// changes nothing: a key not present before is still absent after.
pub proof fn lemma_size_limit_discards<B: Blobstore>(
    s: LimitedBlobstore<B>,
    key: Seq<u8>,
    val: Seq<u8>,
)
    requires
        val.len() >= s.max_blob_size,
    ensures
        s.put_must_succeed(key, val),
        s.put_contents(key, val) == s.contents(),
        !s.contents().contains_key(key) ==> !s.put_contents(key, val).contains_key(key),
{
}

/// A put below the size gate over the in-memory engine persists: the pair
/// is then held, so a get of the key returns exactly the payload.
pub proof fn lemma_size_limit_persists(
    s: LimitedBlobstore<MemBlobstore>,
    key: Seq<u8>,
    val: Seq<u8>,
)
    requires
        val.len() < s.max_blob_size,
    ensures
        s.put_must_succeed(key, val),
        s.put_contents(key, val).contains_key(key),
        s.put_contents(key, val)[key] == val,
{
}

} // verus!
