//! Tests for the blobstore engines, the size-limiting decorator, and the
//! import pipeline end to end.

use blobimport::blobstore::{Blobstore, BlobstoreError, LimitedBlobstore, MemBlobstore};
use blobimport::import::ImportError;
use blobimport::hash::NodeHash;
use blobimport::heads::{Heads, MemHeads};
use blobimport::import::{
    BlobChangeset, BlobstoreEntry, ChangesetRecord, changeset_key_bytes, plan_import,
    run_consumer, run_import,
};
use blobimport::linknodes::{Linknodes, MemLinknodes, NoopLinknodes, RepoPath};

fn hash_of(byte: u8) -> NodeHash {
    NodeHash::from_bytes(vec![byte; 20]).unwrap()
}

#[test]
fn test_mem_blobstore_roundtrip() {
    let mut store = MemBlobstore::new();
    assert_eq!(store.get(&b"k".to_vec()), None);
    store.put(b"k".to_vec(), b"payload".to_vec()).unwrap();
    assert_eq!(store.get(&b"k".to_vec()), Some(b"payload".to_vec()));
    // overwrite
    store.put(b"k".to_vec(), b"other".to_vec()).unwrap();
    assert_eq!(store.get(&b"k".to_vec()), Some(b"other".to_vec()));
    assert_eq!(store.keys().len(), 1);
}

#[test]
fn test_size_limit_gate() {
    // With max_blob_size = 4, a 4-byte payload reports success but is
    // dropped; a 3-byte payload persists and round-trips.
    let mut store = LimitedBlobstore::new(MemBlobstore::new(), 4);
    store.put(b"big".to_vec(), b"xxxx".to_vec()).unwrap();
    assert_eq!(store.get(&b"big".to_vec()), None);

    store.put(b"bigger".to_vec(), b"xxxxxxxx".to_vec()).unwrap();
    assert_eq!(store.get(&b"bigger".to_vec()), None);

    store.put(b"small".to_vec(), b"xxx".to_vec()).unwrap();
    assert_eq!(store.get(&b"small".to_vec()), Some(b"xxx".to_vec()));
}

#[test]
fn test_consumer_dedup() {
    // Two changesets both reference the manifest blob `shared`: exactly
    // one backend put happens for that key and the duplicate counter
    // increments exactly once.
    let entries = vec![
        BlobstoreEntry::ManifestEntry { key: b"shared".to_vec(), payload: b"m1".to_vec() },
        BlobstoreEntry::Changeset(BlobChangeset { hash: hash_of(0x11), payload: b"c1".to_vec() }),
        BlobstoreEntry::ManifestEntry { key: b"shared".to_vec(), payload: b"m1".to_vec() },
        BlobstoreEntry::Changeset(BlobChangeset { hash: hash_of(0x22), payload: b"c2".to_vec() }),
    ];
    let mut store = MemBlobstore::new();
    let (stats, res) = run_consumer(&mut store, &entries);
    res.unwrap();
    assert_eq!(stats.duplicates, 1);
    assert_eq!(stats.successes, 3);
    assert_eq!(stats.failures, 0);
    assert_eq!(store.get(&b"shared".to_vec()), Some(b"m1".to_vec()));
    assert_eq!(store.keys().len(), 3);
}

fn two_changeset_history() -> Vec<ChangesetRecord> {
    vec![
        ChangesetRecord {
            hash: hash_of(0x11),
            payload: b"changeset one".to_vec(),
            blobs: vec![
                (b"manifest-shared".to_vec(), b"the shared manifest".to_vec()),
                (b"file-a".to_vec(), b"contents of a".to_vec()),
            ],
            is_head: false,
            linknodes: vec![(RepoPath::new(b"a".to_vec()), hash_of(0xaa))],
        },
        ChangesetRecord {
            hash: hash_of(0x22),
            payload: b"changeset two".to_vec(),
            blobs: vec![
                (b"manifest-shared".to_vec(), b"the shared manifest".to_vec()),
                (b"file-b".to_vec(), b"contents of b".to_vec()),
            ],
            is_head: true,
            linknodes: vec![(RepoPath::new(b"b".to_vec()), hash_of(0xbb))],
        },
    ]
}

#[test]
fn test_end_to_end_import() {
    // Two changesets sharing one manifest blob, each with one unique file
    // blob: 2 changeset blobs and 3 distinct content blobs are written,
    // and the duplicate count is 1.
    let records = two_changeset_history();
    let mut store = MemBlobstore::new();
    let mut headstore = MemHeads::new();
    let mut linkstore = NoopLinknodes::new();
    let (stats, res) =
        run_import(&records, None, None, &mut store, &mut headstore, &mut linkstore);
    res.unwrap();

    assert_eq!(stats.changesets, 2);
    assert_eq!(stats.heads, 1);
    assert_eq!(stats.duplicates, 1);
    assert_eq!(stats.successes, 5);
    assert_eq!(stats.failures, 0);

    // 3 distinct content blobs plus 2 changeset blobs are present.
    assert_eq!(store.keys().len(), 5);
    assert_eq!(
        store.get(&b"manifest-shared".to_vec()),
        Some(b"the shared manifest".to_vec())
    );
    assert_eq!(store.get(&b"file-a".to_vec()), Some(b"contents of a".to_vec()));
    assert_eq!(store.get(&b"file-b".to_vec()), Some(b"contents of b".to_vec()));
    assert_eq!(
        store.get(&changeset_key_bytes(&hash_of(0x11))),
        Some(b"changeset one".to_vec())
    );
    assert_eq!(
        store.get(&changeset_key_bytes(&hash_of(0x22))),
        Some(b"changeset two".to_vec())
    );

    // The branch tip was recorded as a head.
    assert!(headstore.is_head(&hash_of(0x22)));
    assert!(!headstore.is_head(&hash_of(0x11)));
}

#[test]
fn test_import_writes_linknodes() {
    let records = two_changeset_history();
    let mut store = MemBlobstore::new();
    let mut headstore = MemHeads::new();
    let mut linkstore = MemLinknodes::new();
    let (_stats, res) =
        run_import(&records, None, None, &mut store, &mut headstore, &mut linkstore);
    res.unwrap();
    let got = linkstore.get(RepoPath::new(b"a".to_vec()), &hash_of(0xaa)).unwrap();
    assert_eq!(got, hash_of(0x11));
    let got = linkstore.get(RepoPath::new(b"b".to_vec()), &hash_of(0xbb)).unwrap();
    assert_eq!(got, hash_of(0x22));
}

#[test]
fn test_skip_and_limit() {
    let records = two_changeset_history();
    let mut store = MemBlobstore::new();
    let mut headstore = MemHeads::new();
    let mut linkstore = NoopLinknodes::new();
    let (stats, res) =
        run_import(&records, Some(1), Some(5), &mut store, &mut headstore, &mut linkstore);
    res.unwrap();
    assert_eq!(stats.changesets, 1);
    // Only the second changeset was converted: its shared manifest is no
    // duplicate in this run.
    assert_eq!(stats.duplicates, 0);
    assert_eq!(stats.successes, 3);
    assert_eq!(store.get(&b"file-a".to_vec()), None);
    assert_eq!(store.get(&b"file-b".to_vec()), Some(b"contents of b".to_vec()));

    let entries = plan_import(&records, Some(2), None);
    assert!(entries.is_empty());

    // An empty selection demands no store call, so the run must succeed.
    let mut store = MemBlobstore::new();
    let mut headstore = MemHeads::new();
    let mut linkstore = NoopLinknodes::new();
    let (stats, res) =
        run_import(&records, Some(2), None, &mut store, &mut headstore, &mut linkstore);
    res.unwrap();
    assert_eq!(stats.changesets, 0);
    assert_eq!(stats.successes, 0);
}

#[test]
fn test_consumer_step_streaming() {
    // Feeding the consumer one item at a time, as a channel would,
    // deduplicates and tallies exactly as draining a whole list does.
    let mut consumer = blobimport::import::Consumer::new();
    let mut store = MemBlobstore::new();
    let entries = vec![
        BlobstoreEntry::ManifestEntry { key: b"shared".to_vec(), payload: b"m1".to_vec() },
        BlobstoreEntry::Changeset(BlobChangeset { hash: hash_of(0x11), payload: b"c1".to_vec() }),
        BlobstoreEntry::ManifestEntry { key: b"shared".to_vec(), payload: b"m1".to_vec() },
    ];
    for entry in &entries {
        consumer.step(&mut store, entry).unwrap();
    }
    assert_eq!(consumer.duplicates(), 1);
    assert_eq!(consumer.successes(), 2);
    assert_eq!(store.get(&b"shared".to_vec()), Some(b"m1".to_vec()));
    assert_eq!(
        store.get(&changeset_key_bytes(&hash_of(0x11))),
        Some(b"c1".to_vec())
    );
}

/// A backend whose writes always fail.
struct FailingStore;

impl Blobstore for FailingStore {
    fn get(&self, _key: &Vec<u8>) -> Option<Vec<u8>> {
        None
    }

    fn put(&mut self, _key: Vec<u8>, _value: Vec<u8>) -> Result<(), BlobstoreError> {
        Err(BlobstoreError { message: "backend down".to_string() })
    }
}

#[test]
fn test_consumer_stops_at_first_backend_error() {
    let entries = vec![
        BlobstoreEntry::ManifestEntry { key: b"k".to_vec(), payload: b"v".to_vec() },
        BlobstoreEntry::ManifestEntry { key: b"k2".to_vec(), payload: b"v2".to_vec() },
    ];
    let mut store = FailingStore;
    let (stats, res) = run_consumer(&mut store, &entries);
    match res {
        Err(ImportError::Put { key, error }) => {
            assert_eq!(key, b"k".to_vec());
            assert_eq!(error.message, "backend down");
        }
        other => panic!("unexpected result {:?}", other),
    }
    assert_eq!(stats.successes, 0);
    assert_eq!(stats.failures, 1);
    assert_eq!(stats.duplicates, 0);
}

#[test]
fn test_conflicting_linknode_aborts_run() {
    // Both records claim to introduce the same (path, node) pair with
    // different changesets: the second write conflicts and aborts the run.
    let mut records = two_changeset_history();
    records[0].linknodes = vec![(RepoPath::new(b"same".to_vec()), hash_of(0xcc))];
    records[1].linknodes = vec![(RepoPath::new(b"same".to_vec()), hash_of(0xcc))];
    let mut store = MemBlobstore::new();
    let mut headstore = MemHeads::new();
    let mut linkstore = MemLinknodes::new();
    let (stats, res) =
        run_import(&records, None, None, &mut store, &mut headstore, &mut linkstore);
    match res {
        Err(ImportError::Linknode(blobimport::linknodes::ErrorKind::AlreadyExists {
            old_linknode,
            new_linknode,
            ..
        })) => {
            assert_eq!(old_linknode.0, Some(hash_of(0x11)));
            assert_eq!(new_linknode, hash_of(0x22));
        }
        other => panic!("unexpected result {:?}", other),
    }
    // The run aborted before any backend write.
    assert_eq!(stats.successes, 0);
    assert_eq!(store.keys().len(), 0);
}

#[test]
fn test_changeset_key_form() {
    assert_eq!(
        changeset_key_bytes(&hash_of(0x11)),
        b"changeset-1111111111111111111111111111111111111111".to_vec()
    );
}

#[test]
fn test_hash_hex_forms() {
    let h = NodeHash::from_hex(&b"00ff102030405060708090a0b0c0d0e0f0A1B2C3".to_vec()).unwrap();
    assert_eq!(
        h.to_hex(),
        b"00ff102030405060708090a0b0c0d0e0f0a1b2c3".to_vec()
    );
    assert!(NodeHash::from_hex(&b"00ff".to_vec()).is_none());
    assert!(NodeHash::from_hex(&b"zzff102030405060708090a0b0c0d0e0f0A1B2C3".to_vec()).is_none());
    assert!(NodeHash::from_bytes(vec![0u8; 19]).is_none());
}
