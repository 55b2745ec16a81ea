//! Branch-head pointers: a small keyed store written once per branch tip
//! during import.

use vstd::prelude::*;

use crate::hash::NodeHash;
use crate::kvlist::KvList;

verus! {

/// A head-store write failure.
#[derive(Debug)]
pub struct HeadsError {
    /// What the backend reported.
    pub message: String,
}

/// A store of branch-head changeset hashes.
pub trait Heads: Sized {
    /// The set of head hashes currently held. The default says a store
    /// holds nothing; every store of this crate overrides it.
    open spec fn contents(&self) -> Set<Seq<u8>> {
        Set::empty()
    }

    /// Record a changeset as a branch head.
    fn add(&mut self, head: &NodeHash) -> (r: Result<(), HeadsError>)
        ensures
            r matches Ok(_) ==> final(self).contents() == old(self).contents().insert(head@),
            r matches Err(_) ==> final(self).contents() == old(self).contents(),
    ;

    /// Whether a changeset is recorded as a head.
    fn is_head(&self, head: &NodeHash) -> (r: bool)
        ensures
            r <==> self.contents().contains(head@),
    ;
}

/// An in-memory head store; never fails.
#[derive(Debug)]
pub struct MemHeads {
    heads: KvList<()>,
}

impl MemHeads {
    /// An empty store.
    pub fn new() -> (r: MemHeads)
        ensures
            r.contents() == Set::<Seq<u8>>::empty(),
    {
        let r = MemHeads { heads: KvList::new() };
        proof {
            assert(r.contents() =~= Set::<Seq<u8>>::empty());
        }
        r
    }

    /// Every recorded head hash, each exactly once, in no promised order.
    pub fn heads(&self) -> (r: Vec<Vec<u8>>)
        ensures
            forall|i: int, j: int| 0 <= i < j < r@.len() ==> r@[i]@ != r@[j]@,
            forall|i: int| 0 <= i < r@.len() ==> self.contents().contains(#[trigger] r@[i]@),
            forall|k: Seq<u8>|
                self.contents().contains(k) ==> exists|i: int| 0 <= i < r@.len() && r@[i]@ == k,
    {
        self.heads.keys()
    }
}

impl Heads for MemHeads {
    closed spec fn contents(&self) -> Set<Seq<u8>> {
        self.heads.contents().dom()
    }

    /// Recording a head in memory always succeeds.
    fn add(&mut self, head: &NodeHash) -> (r: Result<(), HeadsError>)
        ensures
            r matches Ok(_),
    {
        let key = head.to_bytes();
        self.heads.insert(key, ());
        proof {
            assert(self.heads.contents().dom() =~= old(self).heads.contents().dom().insert(head@));
        }
        Ok(())
    }

    fn is_head(&self, head: &NodeHash) -> (r: bool) {
        let key = head.to_bytes();
        self.heads.contains(&key)
    }
}

} // verus!
