use milli::error::SearchError;
use milli::index::{push_be, read_be, Index};
use milli::store::{has_prefix, is_bytes_before, is_same_bytes, KeyBound, KvTable};
use roaring::RoaringBitmap;

fn bitmap(values: &[u32]) -> RoaringBitmap {
    let mut bitmap = RoaringBitmap::new();
    for value in values {
        bitmap.insert(*value);
    }
    bitmap
}

#[test]
fn order_of_the_keys() {
    assert!(is_bytes_before(b"", b"a"));
    assert!(is_bytes_before(b"a", b"ab"));
    assert!(is_bytes_before(b"ab", b"b"));
    assert!(is_bytes_before(&[1, 255], &[2]));
    assert!(!is_bytes_before(b"a", b"a"));
    assert!(!is_bytes_before(b"b", b"ab"));
    assert!(!is_bytes_before(b"", b""));
    assert!(is_same_bytes(b"abc", b"abc"));
    assert!(!is_same_bytes(b"abc", b"abd"));
    assert!(!is_same_bytes(b"abc", b"ab"));
    assert!(has_prefix(b"abc", b"ab"));
    assert!(has_prefix(b"abc", b""));
    assert!(!has_prefix(b"ab", b"abc"));
    assert!(!has_prefix(b"abc", b"b"));
}

#[test]
fn put_then_get() {
    let mut table = KvTable::new();
    assert_eq!(table.len(), 0);
    assert_eq!(table.get(b"b"), None);
    table.put(b"b", vec![2]);
    table.put(b"a", vec![1]);
    table.put(b"c", vec![3]);
    table.put(b"ab", vec![12]);
    assert_eq!(table.len(), 4);
    assert_eq!(table.get(b"a"), Some(&[1u8][..]));
    assert_eq!(table.get(b"ab"), Some(&[12u8][..]));
    assert_eq!(table.get(b"b"), Some(&[2u8][..]));
    assert_eq!(table.get(b"c"), Some(&[3u8][..]));
    assert_eq!(table.get(b"d"), None);
    assert_eq!(table.get(b""), None);
    // the keys are kept in their order
    assert_eq!(table.key_at(0), b"a");
    assert_eq!(table.key_at(1), b"ab");
    assert_eq!(table.key_at(2), b"b");
    assert_eq!(table.key_at(3), b"c");
    assert_eq!(table.value_at(1), &[12u8][..]);
    assert_eq!(table.find(b"b"), Some(2));
    assert_eq!(table.find(b"bb"), None);
    assert_eq!(table.entries_before(b"b"), 2);
    assert_eq!(table.entries_before(b"zz"), 4);
}

#[test]
fn put_replaces() {
    let mut table = KvTable::new();
    table.put(b"a", vec![1]);
    table.put(b"b", vec![2]);
    table.put(b"a", vec![9, 9]);
    assert_eq!(table.len(), 2);
    assert_eq!(table.get(b"a"), Some(&[9u8, 9u8][..]));
    assert_eq!(table.get(b"b"), Some(&[2u8][..]));
}

#[test]
fn scan_of_a_prefix() {
    let mut table = KvTable::new();
    for key in ["a", "ab", "abc", "abd", "ac", "b", "ba"] {
        table.put(key.as_bytes(), key.as_bytes().to_vec());
    }
    assert_eq!(table.prefix_range(b"ab"), (1, 4));
    assert_eq!(table.prefix_range(b"a"), (0, 5));
    assert_eq!(table.prefix_range(b"b"), (5, 7));
    assert_eq!(table.prefix_range(b""), (0, 7));
    assert_eq!(table.prefix_range(b"abe"), (4, 4));
    assert_eq!(table.prefix_range(b"c"), (7, 7));
}

#[test]
fn bitmap_written_and_read_back() {
    let mut table = KvTable::new();
    let written = bitmap(&[1, 3, 5, 70_000, u32::MAX]);
    assert!(table.put_bitmap(b"docs", &written));
    assert_eq!(table.get_bitmap(b"docs"), Ok(Some(written.clone())));
    assert_eq!(table.get_bitmap(b"none"), Ok(None));
    let empty = RoaringBitmap::new();
    assert!(table.put_bitmap(b"empty", &empty));
    assert_eq!(table.get_bitmap(b"empty"), Ok(Some(empty)));
    // what is read back is what roaring reads
    let bytes = table.get(b"docs").map(|bytes| bytes.to_vec());
    assert!(matches!(bytes, Some(_)));
    if let Some(bytes) = bytes {
        assert_eq!(RoaringBitmap::deserialize_from(&bytes[..]).ok(), Some(written));
    }
}

#[test]
fn bytes_that_are_no_bitmap() {
    let mut table = KvTable::new();
    table.put(b"bad", vec![1, 2, 3]);
    assert_eq!(table.get_bitmap(b"bad"), Err(SearchError::Bitmap));
}

#[test]
fn big_endian_numbers() {
    let mut key = vec![7u8];
    push_be(&mut key, 0x0102_0304);
    assert_eq!(key, vec![7, 1, 2, 3, 4]);
    assert_eq!(read_be(&key, 1), 0x0102_0304);
    let mut key = Vec::new();
    push_be(&mut key, u32::MAX);
    push_be(&mut key, 0);
    push_be(&mut key, 1000);
    assert_eq!(key, vec![255, 255, 255, 255, 0, 0, 0, 0, 0, 0, 3, 232]);
    assert_eq!(read_be(&key, 0), u32::MAX);
    assert_eq!(read_be(&key, 4), 0);
    assert_eq!(read_be(&key, 8), 1000);
    assert_eq!(Index::posting_key_of(b"hello", 1004), b"hello\x00\x00\x03\xec".to_vec());
}

#[test]
fn numbers_are_in_the_order_of_their_bytes() {
    let numbers = [0u32, 1, 255, 256, 65_535, 65_536, 1_000_000, u32::MAX - 1, u32::MAX];
    for a in numbers {
        for b in numbers {
            let mut x = Vec::new();
            let mut y = Vec::new();
            push_be(&mut x, a);
            push_be(&mut y, b);
            assert_eq!(a < b, is_bytes_before(&x, &y));
        }
    }
}

#[test]
fn documents_of_an_index() {
    let mut index = Index::new();
    assert_eq!(index.documents_ids(), Ok(RoaringBitmap::new()));
    for docid in [3u32, 1, 70_000] {
        let mut key = Vec::new();
        push_be(&mut key, docid);
        index.documents.put(&key, vec![b'x']);
    }
    assert_eq!(index.documents_ids(), Ok(bitmap(&[1, 3, 70_000])));
    index.documents.put(b"abc", vec![b'x']);
    assert_eq!(index.documents_ids(), Err(SearchError::Decode));
}

#[test]
fn documents_of_a_word() {
    let mut index = Index::new();
    assert_eq!(index.word_docids(b"hello"), Ok(RoaringBitmap::new()));
    assert!(index.postings_ids.put_bitmap(&Index::posting_key_of(b"hello", 0), &bitmap(&[1, 2])));
    assert!(index.postings_ids.put_bitmap(&Index::posting_key_of(b"hello", 1004), &bitmap(&[2, 5])));
    assert!(index.postings_ids.put_bitmap(&Index::posting_key_of(b"hell", 3), &bitmap(&[9])));
    assert!(index.postings_ids.put_bitmap(&Index::posting_key_of(b"hellos", 3), &bitmap(&[7])));
    assert!(index.postings_ids.put_bitmap(&Index::posting_key_of(b"help", 0), &bitmap(&[8])));
    assert_eq!(index.word_docids(b"hello"), Ok(bitmap(&[1, 2, 5])));
    assert_eq!(index.word_docids(b"hell"), Ok(bitmap(&[9])));
    assert_eq!(index.word_docids(b"hellos"), Ok(bitmap(&[7])));
    assert_eq!(index.word_docids(b"he"), Ok(RoaringBitmap::new()));
    assert_eq!(index.word_position_docids(b"hello", 1004), Ok(Some(bitmap(&[2, 5]))));
    assert_eq!(index.word_position_docids(b"hello", 1), Ok(None));
    index.postings_ids.put(&Index::posting_key_of(b"hello", 7), vec![9, 9]);
    assert_eq!(index.word_docids(b"hello"), Err(SearchError::Bitmap));
    assert_eq!(index.word_docids(b"help"), Ok(bitmap(&[8])));
}

#[test]
fn positions_of_a_word() {
    let mut index = Index::new();
    assert_eq!(index.word_positions(b"hello"), Ok(None));
    assert!(index.postings_attrs.put_bitmap(b"hello", &bitmap(&[0, 1004])));
    assert_eq!(index.word_positions(b"hello"), Ok(Some(bitmap(&[0, 1004]))));
}

#[test]
fn scan_of_a_range() {
    let mut table = KvTable::new();
    for key in ["a", "ab", "abc", "abd", "ac", "b", "ba"] {
        table.put(key.as_bytes(), key.as_bytes().to_vec());
    }
    let included = |key: &str| KeyBound::Included(key.as_bytes().to_vec());
    let excluded = |key: &str| KeyBound::Excluded(key.as_bytes().to_vec());
    assert_eq!(table.range_scan(&KeyBound::Unbounded, &KeyBound::Unbounded), (0, 7));
    assert_eq!(table.range_scan(&included("ab"), &included("ac")), (1, 5));
    assert_eq!(table.range_scan(&excluded("ab"), &excluded("ac")), (2, 4));
    assert_eq!(table.range_scan(&included("aa"), &included("abcd")), (1, 3));
    assert_eq!(table.range_scan(&excluded("aa"), &excluded("abcd")), (1, 3));
    assert_eq!(table.range_scan(&included("b"), &KeyBound::Unbounded), (5, 7));
    assert_eq!(table.range_scan(&KeyBound::Unbounded, &excluded("ab")), (0, 1));
    assert_eq!(table.range_scan(&included("c"), &KeyBound::Unbounded), (7, 7));
    // the ends the wrong way round leave nothing
    let (first, last) = table.range_scan(&included("b"), &included("ab"));
    assert_eq!(first, last);
    let (first, last) = table.range_scan(&excluded("ab"), &excluded("ab"));
    assert_eq!(first, last);
    // a scan in reverse visits the same places from the last one down
    let (first, last) = table.range_scan(&included("ab"), &included("ac"));
    let mut keys = Vec::new();
    for place in (first..last).rev() {
        keys.push(table.key_at(place).to_vec());
    }
    assert_eq!(keys, vec![b"ac".to_vec(), b"abd".to_vec(), b"abc".to_vec(), b"ab".to_vec()]);
}

#[test]
fn bitmap_of_one_entry() {
    let mut table = KvTable::new();
    assert!(table.put_bitmap(b"a", &bitmap(&[4, 5])));
    table.put(b"b", vec![1]);
    assert_eq!(table.bitmap_at(0), Ok(bitmap(&[4, 5])));
    assert_eq!(table.bitmap_at(1), Err(SearchError::Bitmap));
}
