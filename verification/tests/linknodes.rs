//! Tests for the linknode stores.

use blobimport::hash::NodeHash;
use blobimport::linknodes::{
    ErrorKind, Linknodes, MemLinknodes, NoopLinknodes, OptionNodeHash, RepoPath,
};

fn hash_of(byte: u8) -> NodeHash {
    NodeHash::from_bytes(vec![byte; 20]).unwrap()
}

#[test]
fn test_noop_discards_everything() {
    // Every add reports success; every subsequent get reports not-found.
    let mut store = NoopLinknodes::new();
    let path = RepoPath::new(b"dir/file".to_vec());
    store.add(path.clone(), &hash_of(0x0a), &hash_of(0x0b)).unwrap();
    match store.get(path, &hash_of(0x0a)) {
        Err(ErrorKind::NotFound(p, n)) => {
            assert_eq!(p.as_bytes(), &b"dir/file".to_vec());
            assert_eq!(n, hash_of(0x0a));
        }
        other => panic!("unexpected result {:?}", other),
    }
}

#[test]
fn test_mem_store_roundtrip_and_conflict() {
    let mut store = MemLinknodes::new();
    let path = RepoPath::new(b"f".to_vec());
    store.add(path.clone(), &hash_of(0x0a), &hash_of(0x01)).unwrap();
    assert_eq!(store.get(path.clone(), &hash_of(0x0a)).unwrap(), hash_of(0x01));

    // Re-adding the same linknode is accepted.
    store.add(path.clone(), &hash_of(0x0a), &hash_of(0x01)).unwrap();

    // A differing second write reports the existing record.
    match store.add(path.clone(), &hash_of(0x0a), &hash_of(0x02)) {
        Err(ErrorKind::AlreadyExists { path: p, node, old_linknode, new_linknode }) => {
            assert_eq!(p.as_bytes(), &b"f".to_vec());
            assert_eq!(node, hash_of(0x0a));
            assert_eq!(old_linknode.0, Some(hash_of(0x01)));
            assert_eq!(new_linknode, hash_of(0x02));
        }
        other => panic!("unexpected result {:?}", other),
    }

    // A different pair is not found.
    match store.get(RepoPath::new(b"g".to_vec()), &hash_of(0x0a)) {
        Err(ErrorKind::NotFound(..)) => {}
        other => panic!("unexpected result {:?}", other),
    }
}

#[test]
fn test_option_node_hash_text() {
    assert_eq!(OptionNodeHash(None).to_text(), b"(unknown)".to_vec());
    assert_eq!(
        OptionNodeHash(Some(hash_of(0x1f))).to_text(),
        b"1f1f1f1f1f1f1f1f1f1f1f1f1f1f1f1f1f1f1f1f".to_vec()
    );
}
