//! Tests for the stock bookmark-file reader.

use blobimport::bookmarks::{ErrorKind, StockBookmarks, Version};
use blobimport::hash::NodeHash;

fn ones_hash() -> NodeHash {
    NodeHash::from_bytes(vec![0x11u8; 20]).unwrap()
}

fn twos_hash() -> NodeHash {
    NodeHash::from_bytes(vec![0x22u8; 20]).unwrap()
}

fn assert_bookmark_get(bookmarks: &StockBookmarks, key: &[u8], expected: Option<NodeHash>) {
    let expected = expected.map(|hash| (hash, Version(1)));
    assert_eq!(bookmarks.get(&key.to_vec()), expected);
}

#[test]
fn test_parse() {
    let disk_bookmarks = b"\
        1111111111111111111111111111111111111111 abc\n\
        2222222222222222222222222222222222222222 def\n\
        1111111111111111111111111111111111111111 test123\n";

    let bookmarks = StockBookmarks::from_bytes(&disk_bookmarks.to_vec()).unwrap();
    assert_bookmark_get(&bookmarks, b"abc", Some(ones_hash()));
    assert_bookmark_get(&bookmarks, b"def", Some(twos_hash()));
    assert_bookmark_get(&bookmarks, b"test123", Some(ones_hash()));

    // Bookmarks that aren't present
    assert_bookmark_get(&bookmarks, b"abcdef", None);

    // keys should return all the keys here
    let mut list = bookmarks.keys();
    list.sort();
    assert_eq!(list, vec![b"abc".to_vec(), b"def".to_vec(), b"test123".to_vec()]);
}

/// Test a bunch of invalid bookmark lines
#[test]
fn test_invalid() {
    let bookmarks = StockBookmarks::from_bytes(&b"111\n".to_vec());
    match bookmarks.unwrap_err() {
        ErrorKind::InvalidBookmarkLine(line) => assert_eq!(line, "111"),
        bad => panic!("unexpected error {:?}", bad),
    }

    // no space or bookmark name
    let bookmarks =
        StockBookmarks::from_bytes(&b"1111111111111111111111111111111111111111\n".to_vec());
    match bookmarks.unwrap_err() {
        ErrorKind::InvalidBookmarkLine(_) => {}
        bad => panic!("unexpected error {:?}", bad),
    }

    // no bookmark name
    let bookmarks =
        StockBookmarks::from_bytes(&b"1111111111111111111111111111111111111111 \n".to_vec());
    match bookmarks.unwrap_err() {
        ErrorKind::InvalidBookmarkLine(_) => {}
        bad => panic!("unexpected error {:?}", bad),
    }

    // no space after hash
    let bookmarks =
        StockBookmarks::from_bytes(&b"1111111111111111111111111111111111111111ab\n".to_vec());
    match bookmarks.unwrap_err() {
        ErrorKind::InvalidBookmarkLine(_) => {}
        bad => panic!("unexpected error {:?}", bad),
    }

    // short hash
    let bookmarks =
        StockBookmarks::from_bytes(&b"111111111111111111111111111111111111111  1ab\n".to_vec());
    match bookmarks.unwrap_err() {
        ok @ ErrorKind::InvalidHash(..) => println!("OK: {:?}", ok),
        bad => panic!("unexpected error {:?}", bad),
    }

    // non-ASCII
    let err =
        StockBookmarks::from_bytes(&b"111111111111111111111111111111111111111\xff test\n".to_vec())
            .unwrap_err();
    match err {
        ok @ ErrorKind::InvalidHash(..) => println!("OK: {:?}", ok),
        bad => panic!("unexpected error {:?}", bad),
    }

    // not a valid hex string
    let err =
        StockBookmarks::from_bytes(&b"abcdefgabcdefgabcdefgabcdefgabcdefgabcde test\n".to_vec())
            .unwrap_err();
    match err {
        ok @ ErrorKind::InvalidHash(..) => println!("OK: {:?}", ok),
        bad => panic!("unexpected error {:?}", bad),
    }
}

#[test]
fn test_missing_file_is_empty_mapping() {
    // A missing bookmark file is read as no bytes at all: an empty mapping.
    let bookmarks = StockBookmarks::from_bytes(&Vec::new()).unwrap();
    assert_bookmark_get(&bookmarks, b"anything", None);
    assert!(bookmarks.keys().is_empty());
}

#[test]
fn test_uppercase_hex_and_arbitrary_name_bytes() {
    let mut data = b"ABCDEF0123456789ABCDEF0123456789ABCDEF01 ".to_vec();
    data.extend_from_slice(&[0xf0u8, 0x9f, 0x92, 0xbe]);
    data.push(b'\n');
    let bookmarks = StockBookmarks::from_bytes(&data).unwrap();
    let expected = NodeHash::from_hex(&b"abcdef0123456789abcdef0123456789abcdef01".to_vec())
        .unwrap();
    let got = bookmarks.get(&vec![0xf0u8, 0x9f, 0x92, 0xbe]).unwrap();
    assert_eq!(got.0, expected);
}

#[test]
fn test_lossy_text() {
    // Pure ASCII decodes to itself; a stray non-UTF-8 byte is replaced.
    assert_eq!(blobimport::bookmarks::lossy_text(&b"abc 123".to_vec()), "abc 123");
    assert_eq!(
        blobimport::bookmarks::lossy_text(&vec![b'a', 0xff, b'b']),
        "a\u{fffd}b"
    );
}

#[test]
fn test_invalid_hash_error_carries_hash_field() {
    let err =
        StockBookmarks::from_bytes(&b"abcdefgabcdefgabcdefgabcdefgabcdefgabcde test\n".to_vec())
            .unwrap_err();
    match err {
        ErrorKind::InvalidHash(text) => {
            assert_eq!(text, "abcdefgabcdefgabcdefgabcdefgabcdefgabcde");
        }
        bad => panic!("unexpected error {:?}", bad),
    }
}
