//! A small keyed store: byte-string keys mapped to values, kept as a list
//! with pairwise-distinct keys. Backs the in-memory blobstore, the bookmark
//! map, and the heads and linknode stores.

use vstd::prelude::*;

use crate::hash::bytes_eq;

verus! {

/// The mapping denoted by a list of `(key, value)` pairs, later pairs
/// overriding earlier ones.
pub open spec fn map_of<V>(entries: Seq<(Vec<u8>, V)>) -> Map<Seq<u8>, V>
    decreases entries.len(),
{
    if entries.len() == 0 {
        Map::empty()
    } else {
        map_of(entries.drop_last()).insert(entries.last().0@, entries.last().1)
    }
}

/// Keys of distinct pairs differ.
pub open spec fn distinct_keys<V>(entries: Seq<(Vec<u8>, V)>) -> bool {
    forall|i: int, j: int|
        0 <= i < j < entries.len() ==> entries[i].0@ != entries[j].0@
}

/// A key is in the mapping exactly when some pair holds it.
pub proof fn lemma_map_of_contains<V>(entries: Seq<(Vec<u8>, V)>, k: Seq<u8>)
    ensures
        map_of(entries).contains_key(k) <==> exists|i: int|
            0 <= i < entries.len() && entries[i].0@ == k,
    decreases entries.len(),
{
    if entries.len() > 0 {
        lemma_map_of_contains(entries.drop_last(), k);
        if entries.last().0@ == k {
            assert(entries[entries.len() - 1].0@ == k);
        } else if map_of(entries).contains_key(k) {
            let i = choose|i: int|
                0 <= i < entries.drop_last().len() && entries.drop_last()[i].0@ == k;
            assert(entries[i].0@ == k);
        } else if exists|i: int| 0 <= i < entries.len() && entries[i].0@ == k {
            let i = choose|i: int| 0 <= i < entries.len() && entries[i].0@ == k;
            assert(entries.drop_last()[i].0@ == k);
        }
    }
}

/// With distinct keys, each pair is the one the mapping associates.
pub proof fn lemma_map_of_index<V>(entries: Seq<(Vec<u8>, V)>, i: int)
    requires
        distinct_keys(entries),
        0 <= i < entries.len(),
    ensures
        map_of(entries).contains_key(entries[i].0@),
        map_of(entries)[entries[i].0@] == entries[i].1,
    decreases entries.len(),
{
    if i < entries.len() - 1 {
        assert(entries[i].0@ != entries.last().0@);
        assert(entries.drop_last()[i] == entries[i]);
        lemma_map_of_index(entries.drop_last(), i);
    }
}

/// Replacing the pair that holds a key updates the mapping at that key.
pub proof fn lemma_map_of_update<V>(entries: Seq<(Vec<u8>, V)>, i: int, key: Vec<u8>, value: V)
    requires
        distinct_keys(entries),
        0 <= i < entries.len(),
        entries[i].0@ == key@,
    ensures
        map_of(entries.update(i, (key, value))) == map_of(entries).insert(key@, value),
    decreases entries.len(),
{
    let updated = entries.update(i, (key, value));
    if i == entries.len() - 1 {
        assert(updated.drop_last() =~= entries.drop_last());
        assert(updated.last() == (key, value));
        assert(map_of(updated) =~= map_of(entries).insert(key@, value));
    } else {
        assert(updated.drop_last() =~= entries.drop_last().update(i, (key, value)));
        assert(entries.drop_last()[i] == entries[i]);
        lemma_map_of_update(entries.drop_last(), i, key, value);
        assert(entries[i].0@ != entries.last().0@);
        assert(updated.last() == entries.last());
        assert(map_of(updated) =~= map_of(entries).insert(key@, value));
    }
}

/// A keyed store over byte-string keys. Writes replace any earlier value for
/// the same key; reads return the latest value.
#[derive(Debug)]
pub struct KvList<V> {
    entries: Vec<(Vec<u8>, V)>,
}

impl<V> KvList<V> {
    /// The mapping this store denotes.
    pub closed spec fn contents(&self) -> Map<Seq<u8>, V> {
        map_of(self.entries@)
    }

    #[verifier::type_invariant]
    spec fn inv(self) -> bool {
        distinct_keys(self.entries@)
    }

    /// An empty store.
    pub fn new() -> (r: Self)
        ensures
            r.contents() == Map::<Seq<u8>, V>::empty(),
    {
        KvList { entries: Vec::new() }
    }

    /// Whether the store holds a value for the key.
    pub fn contains(&self, key: &Vec<u8>) -> (r: bool)
        ensures
            r <==> self.contents().contains_key(key@),
    {
        let found = find_key(&self.entries, key);
        proof {
            lemma_map_of_contains(self.entries@, key@);
        }
        found.is_some()
    }

    /// The latest value written for the key, if any.
    pub fn get(&self, key: &Vec<u8>) -> (r: Option<&V>)
        ensures
            match r {
                Some(v) => self.contents().contains_key(key@) && *v == self.contents()[key@],
                None => !self.contents().contains_key(key@),
            },
    {
        proof {
            use_type_invariant(self);
            lemma_map_of_contains(self.entries@, key@);
        }
        match find_key(&self.entries, key) {
            Some(i) => {
                proof {
                    lemma_map_of_index(self.entries@, i as int);
                }
                Some(&self.entries[i].1)
            }
            None => None,
        }
    }

    /// Write a value for a key, replacing any earlier one.
    pub fn insert(&mut self, key: Vec<u8>, value: V)
        ensures
            final(self).contents() == old(self).contents().insert(key@, value),
    {
        proof {
            use_type_invariant(&*self);
        }
        let ghost pre = self.entries@;
        let mut entries: Vec<(Vec<u8>, V)> = Vec::new();
        core::mem::swap(&mut entries, &mut self.entries);
        match find_key(&entries, &key) {
            Some(i) => {
                proof {
                    lemma_map_of_update(entries@, i as int, key, value);
                }
                entries[i] = (key, value);
            }
            None => {
                entries.push((key, value));
                proof {
                    assert(entries@.drop_last() =~= pre);
                    assert(entries@.last() == (key, value));
                }
            }
        }
        self.entries = entries;
    }

    /// All keys, each exactly once, in insertion order.
    pub fn keys(&self) -> (r: Vec<Vec<u8>>)
        ensures
            forall|i: int, j: int| 0 <= i < j < r@.len() ==> r@[i]@ != r@[j]@,
            forall|i: int| 0 <= i < r@.len() ==> self.contents().contains_key(#[trigger] r@[i]@),
            forall|k: Seq<u8>|
                self.contents().contains_key(k) ==> exists|i: int| 0 <= i < r@.len() && r@[i]@ == k,
    {
        proof {
            use_type_invariant(self);
        }
        let mut r: Vec<Vec<u8>> = Vec::new();
        let mut i: usize = 0;
        while i < self.entries.len()
            invariant
                0 <= i <= self.entries@.len(),
                r@.len() == i,
                distinct_keys(self.entries@),
                forall|j: int| 0 <= j < i ==> r@[j]@ == self.entries@[j].0@,
            decreases self.entries@.len() - i,
        {
            r.push(copy_bytes(&self.entries[i].0));
            i = i + 1;
        }
        proof {
            assert forall|k: Seq<u8>| self.contents().contains_key(k) implies exists|i: int|
                0 <= i < r@.len() && r@[i]@ == k by {
                lemma_map_of_contains(self.entries@, k);
                let i = choose|i: int|
                    0 <= i < self.entries@.len() && self.entries@[i].0@ == k;
                assert(r@[i]@ == k);
            }
            assert forall|i: int| 0 <= i < r@.len() implies self.contents().contains_key(
                #[trigger] r@[i]@,
            ) by {
                lemma_map_of_index(self.entries@, i);
            }
        }
        r
    }
}

/// Index of the pair holding a key, if any.
fn find_key<V>(entries: &Vec<(Vec<u8>, V)>, key: &Vec<u8>) -> (r: Option<usize>)
    ensures
        match r {
            Some(i) => i < entries@.len() && entries@[i as int].0@ == key@,
            None => forall|j: int| 0 <= j < entries@.len() ==> entries@[j].0@ != key@,
        },
{
    let mut i: usize = 0;
    while i < entries.len()
        invariant
            0 <= i <= entries@.len(),
            forall|j: int| 0 <= j < i ==> entries@[j].0@ != key@,
        decreases entries@.len() - i,
    {
        if bytes_eq(&entries[i].0, key) {
            return Some(i);
        }
        i = i + 1;
    }
    None
}

/// A fresh byte string with the same contents.
pub fn copy_bytes(v: &Vec<u8>) -> (r: Vec<u8>)
    ensures
        r@ == v@,
{
    let mut r: Vec<u8> = Vec::new();
    let mut i: usize = 0;
    while i < v.len()
        invariant
            0 <= i <= v@.len(),
            r@ == v@.take(i as int),
        decreases v@.len() - i,
    {
        r.push(v[i]);
        i = i + 1;
    }
    assert(r@ =~= v@);
    r
}

} // verus!
