//! Linknode stores: they map a path plus manifest or file node hash to
//! the changeset that introduced it. At most one linknode per
//! `(path, node)` pair; a second, differing write is an error distinct
//! from "not found". A no-op variant discards every write.
//!
//! A pair is stored under the flat key `node ++ path`; the node is a
//! fixed 20 bytes, so the key names the pair unambiguously — see
//! `lemma_link_key_injective`.

use vstd::prelude::*;

use crate::hash::{HASH_LEN, NodeHash, hash_views, hex_of_bytes};
use crate::kvlist::{KvList, copy_bytes};

verus! {

/// A path within the repository, as an arbitrary byte string.
#[derive(Debug)]
pub struct RepoPath {
    path: Vec<u8>,
}

impl View for RepoPath {
    type V = Seq<u8>;

    closed spec fn view(&self) -> Seq<u8> {
        self.path@
    }
}

impl RepoPath {
    /// A path from its bytes.
    pub fn new(path: Vec<u8>) -> (r: RepoPath)
        ensures
            r@ == path@,
    {
        RepoPath { path }
    }

    /// The path's bytes.
    pub fn as_bytes(&self) -> (r: &Vec<u8>)
        ensures
            r@ == self@,
    {
        &self.path
    }
}

impl Clone for RepoPath {
    /// A clone denotes the same path.
    fn clone(&self) -> (r: Self)
        ensures
            r@ == self@,
    {
        RepoPath { path: copy_bytes(&self.path) }
    }
}

/// A maybe-missing node hash, kept for error reports.
#[derive(Debug)]
pub struct OptionNodeHash(pub Option<NodeHash>);

impl OptionNodeHash {
    /// The textual form: 40 hex characters, or `(unknown)` when absent.
    pub fn to_text(&self) -> (r: Vec<u8>)
        ensures
            match self.0 {
                Some(h) => r@ == hex_of_bytes(h@),
                None => r@ == unknown_text(),
            },
    {
        match &self.0 {
            Some(h) => h.to_hex(),
            None => {
                let r: Vec<u8> = vec![40u8, 117u8, 110u8, 107u8, 110u8, 111u8, 119u8, 110u8, 41u8];
                proof {
                    assert(r@ =~= unknown_text());
                }
                r
            }
        }
    }
}

/// The bytes of the text `(unknown)`.
pub open spec fn unknown_text() -> Seq<u8> {
    seq![40u8, 117u8, 110u8, 107u8, 110u8, 111u8, 119u8, 110u8, 41u8]
}

/// How a linknode store fails.
#[derive(Debug)]
pub enum ErrorKind {
    /// No linknode recorded for the pair.
    NotFound(RepoPath, NodeHash),
    /// A second, differing linknode written for the pair.
    AlreadyExists {
        path: RepoPath,
        node: NodeHash,
        old_linknode: OptionNodeHash,
        new_linknode: NodeHash,
    },
    /// A generic backend failure.
    StorageError,
}

/// The flat storage key for a `(path, node)` pair.
pub open spec fn link_key(path: Seq<u8>, node: Seq<u8>) -> Seq<u8> {
    node + path
}

/// The flat key names the pair unambiguously, because a node hash is
/// exactly 20 bytes.
pub proof fn lemma_link_key_injective(p1: Seq<u8>, n1: Seq<u8>, p2: Seq<u8>, n2: Seq<u8>)
    requires
        n1.len() == HASH_LEN,
        n2.len() == HASH_LEN,
        link_key(p1, n1) == link_key(p2, n2),
    ensures
        p1 == p2,
        n1 == n2,
{
    assert(n1 =~= link_key(p1, n1).take(HASH_LEN as int));
    assert(n2 =~= link_key(p2, n2).take(HASH_LEN as int));
    assert(p1 =~= link_key(p1, n1).skip(HASH_LEN as int));
    assert(p2 =~= link_key(p2, n2).skip(HASH_LEN as int));
}

/// The executable flat key for a pair.
pub fn link_key_bytes(path: &RepoPath, node: &NodeHash) -> (r: Vec<u8>)
    ensures
        r@ == link_key(path@, node@),
{
    let mut r = node.to_bytes();
    let p = path.as_bytes();
    let mut i: usize = 0;
    while i < p.len()
        invariant
            0 <= i <= p@.len(),
            r@ == node@ + p@.take(i as int),
        decreases p@.len() - i,
    {
        r.push(p[i]);
        assert(r@ =~= node@ + p@.take(i + 1 as int));
        i = i + 1;
    }
    assert(r@ =~= link_key(path@, node@));
    r
}

/// The interface to a linknodes store.
pub trait Linknodes: Sized {
    /// The pair-to-linknode mapping held, keyed by `link_key`. The
    /// default says a store holds nothing; every store of this crate
    /// overrides it.
    open spec fn contents(&self) -> Map<Seq<u8>, Seq<u8>> {
        Map::empty()
    }

    /// Whether accepted writes are kept; the no-op store discards them.
    open spec fn persists(&self) -> bool {
        false
    }

    /// Record that `(path, node)` was introduced by changeset `linknode`.
    fn add(&mut self, path: RepoPath, node: &NodeHash, linknode: &NodeHash) -> (r: Result<
        (),
        ErrorKind,
    >)
        ensures
            final(self).persists() == old(self).persists(),
            r matches Ok(_) ==> final(self).contents() == (if old(self).persists() {
                old(self).contents().insert(link_key(path@, node@), linknode@)
            } else {
                old(self).contents()
            }),
            r matches Err(_) ==> final(self).contents() == old(self).contents(),
    ;

    /// The linknode recorded for `(path, node)`.
    fn get(&self, path: RepoPath, node: &NodeHash) -> (r: Result<NodeHash, ErrorKind>)
        ensures
            match r {
                Ok(h) => self.contents().contains_key(link_key(path@, node@)) && h@
                    == self.contents()[link_key(path@, node@)],
                Err(e) => e matches ErrorKind::NotFound(..) ==> !self.contents().contains_key(
                    link_key(path@, node@),
                ),
            },
    ;
}

/// A linknodes store that never stores anything: every write is accepted
/// and discarded, every lookup reports not-found.
#[derive(Debug)]
pub struct NoopLinknodes;

impl NoopLinknodes {
    /// The no-op store.
    #[inline]
    pub fn new() -> (r: Self)
        ensures
            r.contents() == Map::<Seq<u8>, Seq<u8>>::empty(),
    {
        NoopLinknodes
    }
}

impl Linknodes for NoopLinknodes {
    open spec fn contents(&self) -> Map<Seq<u8>, Seq<u8>> {
        Map::empty()
    }

    open spec fn persists(&self) -> bool {
        false
    }

    /// Every add reports success and is discarded.
    #[inline]
    fn add(&mut self, path: RepoPath, node: &NodeHash, linknode: &NodeHash) -> (r: Result<
        (),
        ErrorKind,
    >)
        ensures
            r matches Ok(_),
    {
        Ok(())
    }

    /// Every lookup reports not-found, naming the queried pair.
    #[inline]
    fn get(&self, path: RepoPath, node: &NodeHash) -> (r: Result<NodeHash, ErrorKind>)
        ensures
            r matches Err(e) && e matches ErrorKind::NotFound(p, n) && p@ == path@ && n@ == node@,
    {
        Err(ErrorKind::NotFound(path, node.clone()))
    }
}

/// An in-memory linknodes store; keeps every accepted write.
#[derive(Debug)]
pub struct MemLinknodes {
    links: KvList<NodeHash>,
}

impl MemLinknodes {
    /// An empty store.
    pub fn new() -> (r: MemLinknodes)
        ensures
            r.contents() == Map::<Seq<u8>, Seq<u8>>::empty(),
    {
        let r = MemLinknodes { links: KvList::new() };
        proof {
            assert(r.contents() =~= Map::<Seq<u8>, Seq<u8>>::empty());
        }
        r
    }
}

impl Linknodes for MemLinknodes {
    closed spec fn contents(&self) -> Map<Seq<u8>, Seq<u8>> {
        hash_views(self.links.contents())
    }

    open spec fn persists(&self) -> bool {
        true
    }

    /// A first write for a pair, or a rewrite of the same linknode, is
    /// accepted; a differing rewrite reports the existing record.
    fn add(&mut self, path: RepoPath, node: &NodeHash, linknode: &NodeHash) -> (r: Result<
        (),
        ErrorKind,
    >)
        ensures
            ({
                let k = link_key(path@, node@);
                (!old(self).contents().contains_key(k) || old(self).contents()[k] == linknode@)
                    <==> r matches Ok(_)
            }),
            ({
                let k = link_key(path@, node@);
                (old(self).contents().contains_key(k) && old(self).contents()[k] != linknode@)
                    ==> (r matches Err(e) && e matches ErrorKind::AlreadyExists {
                    path: p,
                    node: n,
                    old_linknode: o,
                    new_linknode: nl,
                } && p@ == path@ && n@ == node@ && (o.0 matches Some(oh) && oh@ == old(
                    self,
                ).contents()[k]) && nl@ == linknode@)
            }),
    {
        let key = link_key_bytes(&path, node);
        let ghost k = key@;
        match self.links.get(&key) {
            Some(existing) => {
                if existing == linknode {
                    proof {
                        assert(self.contents().insert(k, linknode@) =~= self.contents());
                    }
                    Ok(())
                } else {
                    Err(
                        ErrorKind::AlreadyExists {
                            path,
                            node: node.clone(),
                            old_linknode: OptionNodeHash(Some(existing.clone())),
                            new_linknode: linknode.clone(),
                        },
                    )
                }
            }
            None => {
                let ghost pre = self.links.contents();
                self.links.insert(key, linknode.clone());
                proof {
                    assert(hash_views(self.links.contents()) =~= hash_views(pre).insert(
                        k,
                        linknode@,
                    ));
                }
                Ok(())
            }
        }
    }

    /// The recorded linknode, or not-found naming the queried pair.
    fn get(&self, path: RepoPath, node: &NodeHash) -> (r: Result<NodeHash, ErrorKind>)
        ensures
            self.contents().contains_key(link_key(path@, node@)) <==> r matches Ok(_),
            r matches Err(e) ==> e matches ErrorKind::NotFound(p, n) && p@ == path@ && n@
                == node@,
    {
        let key = link_key_bytes(&path, node);
        match self.links.get(&key) {
            Some(h) => Ok(h.clone()),
            None => Err(ErrorKind::NotFound(path, node.clone())),
        }
    }
}

/// All the data associated with one linknode record, shared between
/// store implementations.
#[derive(Debug)]
pub struct LinknodeData {
    /// The path of the object.
    pub path: RepoPath,
    /// The manifest or file node hash.
    pub node: NodeHash,
    /// The changeset that introduced the object.
    pub linknode: NodeHash,
}

impl Clone for LinknodeData {
    /// A clone denotes the same record.
    fn clone(&self) -> (r: Self)
        ensures
            r.path@ == self.path@,
            r.node@ == self.node@,
            r.linknode@ == self.linknode@,
    {
        LinknodeData {
            path: self.path.clone(),
            node: self.node.clone(),
            linknode: self.linknode.clone(),
        }
    }
}

} // verus!
