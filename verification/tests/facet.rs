use milli::error::SearchError;
use milli::facet::facet_iter::FacetIter;
use milli::facet::facet_range::{is_within_end, FacetRange, FacetRevRange};
use milli::facet::store::{decode_key, encode_key, is_key_before, Bound, FacetKey, FacetStore};
use roaring::RoaringBitmap;

fn bitmap(values: &[u32]) -> RoaringBitmap {
    let mut bitmap = RoaringBitmap::new();
    for value in values {
        bitmap.insert(*value);
    }
    bitmap
}

fn bytes(values: &[u32]) -> Vec<u8> {
    let mut bytes = Vec::new();
    let written = bitmap(values).serialize_into(&mut bytes);
    assert!(written.is_ok());
    bytes
}

fn key(field_id: u8, level: u8, left: i64, right: i64) -> FacetKey {
    FacetKey { field_id, level, left, right }
}

/// Level 1: [0..50] -> {1,2,3}, [51..100] -> {4}; level 0: 0 -> {1}, 10 -> {2,3}, 60 -> {4}.
fn two_levels() -> FacetStore {
    let mut store = FacetStore::new();
    assert!(store.append(key(1, 0, 0, 0), bytes(&[1])));
    assert!(store.append(key(1, 0, 10, 10), bytes(&[2, 3])));
    assert!(store.append(key(1, 0, 60, 60), bytes(&[4])));
    assert!(store.append(key(1, 1, 0, 50), bytes(&[1, 2, 3])));
    assert!(store.append(key(1, 1, 51, 100), bytes(&[4])));
    store
}

/// Three levels over the values -20, -5, 0, 7, 8, 30, 31, 90 of field 2, with another field around.
fn three_levels() -> FacetStore {
    let mut store = FacetStore::new();
    assert!(store.append(key(1, 0, 5, 5), bytes(&[100])));
    let values: [(i64, &[u32]); 8] = [
        (-20, &[1]),
        (-5, &[2, 3]),
        (0, &[4]),
        (7, &[5, 1]),
        (8, &[6]),
        (30, &[7]),
        (31, &[8, 9]),
        (90, &[10]),
    ];
    for (value, docids) in values {
        assert!(store.append(key(2, 0, value, value), bytes(docids)));
    }
    assert!(store.append(key(2, 1, -20, -5), bytes(&[1, 2, 3])));
    assert!(store.append(key(2, 1, 0, 7), bytes(&[4, 5, 1])));
    assert!(store.append(key(2, 1, 8, 30), bytes(&[6, 7])));
    assert!(store.append(key(2, 1, 31, 90), bytes(&[8, 9, 10])));
    assert!(store.append(key(2, 2, -20, 7), bytes(&[1, 2, 3, 4, 5])));
    assert!(store.append(key(2, 2, 8, 90), bytes(&[6, 7, 8, 9, 10])));
    assert!(store.append(key(3, 0, 1, 1), bytes(&[200])));
    store
}

fn drain(iter: &mut FacetIter, store: &FacetStore) -> Vec<(i64, RoaringBitmap)> {
    let mut found = Vec::new();
    while let Some(item) = iter.next(store) {
        assert!(matches!(item, Ok(_)));
        if let Ok(item) = item {
            found.push(item);
        }
    }
    found
}

#[test]
fn facet_ascending_reducing() {
    let store = two_levels();
    let mut iter = FacetIter::new_reducing(&store, 1, bitmap(&[1, 2, 3, 4]));
    assert_eq!(iter.next(&store), Some(Ok((0, bitmap(&[1])))));
    assert_eq!(iter.next(&store), Some(Ok((10, bitmap(&[2, 3])))));
    assert_eq!(iter.next(&store), Some(Ok((60, bitmap(&[4])))));
    assert_eq!(iter.next(&store), None);
    assert_eq!(iter.next(&store), None);
}

#[test]
fn facet_descending_reducing() {
    let store = two_levels();
    let mut iter = FacetIter::new_reverse_reducing(&store, 1, bitmap(&[1, 2, 3, 4]));
    assert_eq!(
        drain(&mut iter, &store),
        vec![(60, bitmap(&[4])), (10, bitmap(&[2, 3])), (0, bitmap(&[1]))]
    );
}

#[test]
fn facet_only_the_documents_asked_for() {
    let store = two_levels();
    let mut iter = FacetIter::new_reducing(&store, 1, bitmap(&[3, 4, 99]));
    assert_eq!(drain(&mut iter, &store), vec![(10, bitmap(&[3])), (60, bitmap(&[4]))]);
    let mut iter = FacetIter::new_reducing(&store, 1, bitmap(&[99]));
    assert_eq!(drain(&mut iter, &store), vec![]);
    let mut iter = FacetIter::new_reducing(&store, 1, RoaringBitmap::new());
    assert_eq!(iter.next(&store), None);
}

#[test]
fn facet_of_a_field_without_values() {
    let store = two_levels();
    let mut iter = FacetIter::new_reducing(&store, 7, bitmap(&[1, 2, 3, 4]));
    assert_eq!(iter.next(&store), None);
    let empty = FacetStore::new();
    let mut iter = FacetIter::new_reverse_reducing(&empty, 1, bitmap(&[1]));
    assert_eq!(iter.next(&empty), None);
    assert_eq!(FacetIter::highest_level(&store, 1), Some(1));
    assert_eq!(FacetIter::highest_level(&store, 0), None);
    assert_eq!(FacetIter::highest_level(&store, 2), None);
    assert_eq!(FacetIter::highest_level(&empty, 1), None);
}

#[test]
fn facet_three_levels_each_way() {
    let store = three_levels();
    assert_eq!(FacetIter::highest_level(&store, 2), Some(2));
    let all = bitmap(&[1, 2, 3, 4, 5, 6, 7, 8, 9, 10, 11]);
    let mut iter = FacetIter::new_reducing(&store, 2, all.clone());
    assert_eq!(
        drain(&mut iter, &store),
        vec![
            (-20, bitmap(&[1])),
            (-5, bitmap(&[2, 3])),
            (0, bitmap(&[4])),
            (7, bitmap(&[5])),
            (8, bitmap(&[6])),
            (30, bitmap(&[7])),
            (31, bitmap(&[8, 9])),
            (90, bitmap(&[10])),
        ]
    );
    let mut iter = FacetIter::new_reverse_reducing(&store, 2, all.clone());
    assert_eq!(
        drain(&mut iter, &store),
        vec![
            (90, bitmap(&[10])),
            (31, bitmap(&[8, 9])),
            (30, bitmap(&[7])),
            (8, bitmap(&[6])),
            (7, bitmap(&[5, 1])),
            (0, bitmap(&[4])),
            (-5, bitmap(&[2, 3])),
        ]
    );
    // without reducing, the document with two values comes twice
    let mut iter = FacetIter::new_non_reducing(&store, 2, all);
    assert_eq!(
        drain(&mut iter, &store),
        vec![
            (-20, bitmap(&[1])),
            (-5, bitmap(&[2, 3])),
            (0, bitmap(&[4])),
            (7, bitmap(&[5, 1])),
            (8, bitmap(&[6])),
            (30, bitmap(&[7])),
            (31, bitmap(&[8, 9])),
            (90, bitmap(&[10])),
        ]
    );
}

#[test]
fn facet_descent_hands_out_each_document_once() {
    let store = three_levels();
    let asked = bitmap(&[1, 3, 5, 6, 9, 10, 42]);
    let mut iter = FacetIter::new_reducing(&store, 2, asked.clone());
    let items = iter.collect(&store);
    assert!(matches!(items, Ok(_)));
    let mut union = RoaringBitmap::new();
    let mut values = Vec::new();
    for (value, docids) in items.unwrap_or_default() {
        assert!(!docids.is_empty());
        assert!(union.is_disjoint(&docids));
        union |= docids;
        values.push(value);
    }
    // the documents asked for that have a value in the field
    assert_eq!(union, bitmap(&[1, 3, 5, 6, 9, 10]));
    assert_eq!(values, vec![-20, -5, 7, 8, 31, 90]);
    assert_eq!(iter.next(&store), None);
}

#[test]
fn facet_bitmap_that_cannot_be_read() {
    let mut store = FacetStore::new();
    assert!(store.append(key(1, 0, 0, 0), bytes(&[1])));
    assert!(store.append(key(1, 0, 10, 10), vec![1, 2, 3]));
    assert!(store.append(key(1, 0, 60, 60), bytes(&[4])));
    let mut iter = FacetIter::new_reducing(&store, 1, bitmap(&[1, 2, 3, 4]));
    assert_eq!(iter.next(&store), Some(Ok((0, bitmap(&[1])))));
    assert_eq!(iter.next(&store), Some(Err(SearchError::Bitmap)));
    assert_eq!(iter.next(&store), Some(Ok((60, bitmap(&[4])))));
    assert_eq!(iter.next(&store), None);
    let mut iter = FacetIter::new_reducing(&store, 1, bitmap(&[1, 2, 3, 4]));
    assert_eq!(iter.collect(&store), Err(SearchError::Bitmap));
}

#[test]
fn store_keeps_the_order_of_the_keys() {
    let mut store = FacetStore::new();
    assert!(store.append(key(1, 0, 5, 5), vec![1]));
    assert!(!store.append(key(1, 0, 5, 5), vec![2]));
    assert!(!store.append(key(1, 0, 4, 9), vec![2]));
    assert!(!store.append(key(0, 9, 9, 9), vec![2]));
    assert!(store.append(key(1, 0, 5, 6), vec![3]));
    assert!(store.append(key(1, 1, -9, -9), vec![4]));
    assert!(store.append(key(2, 0, i64::MIN, i64::MIN), vec![5]));
    assert_eq!(store.len(), 4);
    assert_eq!(store.key_at(1), key(1, 0, 5, 6));
    assert_eq!(store.docids_at(1), &[3u8][..]);
    assert!(is_key_before(&key(1, 0, 5, 5), &key(1, 0, 5, 6)));
    assert!(is_key_before(&key(1, 9, 5, 5), &key(2, 0, 0, 0)));
    assert!(is_key_before(&key(1, 0, -1, 5), &key(1, 0, 0, 0)));
    assert!(!is_key_before(&key(1, 0, 5, 5), &key(1, 0, 5, 5)));
    assert_eq!(store.entries_before(&key(1, 0, 5, 6), false), 1);
    assert_eq!(store.entries_before(&key(1, 0, 5, 6), true), 2);
    assert_eq!(store.entries_before(&key(9, 0, 0, 0), true), 4);
}

#[test]
fn range_upwards() {
    let store = three_levels();
    let mut range = FacetRange::new(&store, 2, 0, Bound::Included(0), Bound::Included(8));
    assert_eq!(range.next(&store), Some(Ok((key(2, 0, 0, 0), bitmap(&[4])))));
    assert_eq!(range.next(&store), Some(Ok((key(2, 0, 7, 7), bitmap(&[5, 1])))));
    assert_eq!(range.next(&store), Some(Ok((key(2, 0, 8, 8), bitmap(&[6])))));
    assert_eq!(range.next(&store), None);

    let mut range = FacetRange::new(&store, 2, 0, Bound::Excluded(0), Bound::Excluded(8));
    assert_eq!(range.next(&store), Some(Ok((key(2, 0, 0, 0), bitmap(&[4])))));
    assert_eq!(range.next(&store), Some(Ok((key(2, 0, 7, 7), bitmap(&[5, 1])))));
    assert_eq!(range.next(&store), None);

    let mut range = FacetRange::new(&store, 2, 2, Bound::Unbounded, Bound::Unbounded);
    assert_eq!(range.next(&store), Some(Ok((key(2, 2, -20, 7), bitmap(&[1, 2, 3, 4, 5])))));
    assert_eq!(range.next(&store), Some(Ok((key(2, 2, 8, 90), bitmap(&[6, 7, 8, 9, 10])))));
    assert_eq!(range.next(&store), None);
    assert_eq!(range.next(&store), None);

    let mut range = FacetRange::new(&store, 2, 3, Bound::Unbounded, Bound::Unbounded);
    assert_eq!(range.next(&store), None);
}

#[test]
fn range_downwards() {
    let store = three_levels();
    let mut range = FacetRevRange::new(&store, 2, 0, Bound::Included(0), Bound::Included(8));
    assert_eq!(range.next(&store), Some(Ok((key(2, 0, 8, 8), bitmap(&[6])))));
    assert_eq!(range.next(&store), Some(Ok((key(2, 0, 7, 7), bitmap(&[5, 1])))));
    assert_eq!(range.next(&store), Some(Ok((key(2, 0, 0, 0), bitmap(&[4])))));
    assert_eq!(range.next(&store), None);

    let mut range = FacetRevRange::new(&store, 2, 1, Bound::Included(0), Bound::Excluded(90));
    assert_eq!(range.next(&store), Some(Ok((key(2, 1, 8, 30), bitmap(&[6, 7])))));
    assert_eq!(range.next(&store), Some(Ok((key(2, 1, 0, 7), bitmap(&[4, 5, 1])))));
    assert_eq!(range.next(&store), None);
}

#[test]
fn ends_of_a_range() {
    assert!(is_within_end(5, &Bound::Included(5)));
    assert!(!is_within_end(6, &Bound::Included(5)));
    assert!(is_within_end(4, &Bound::Excluded(5)));
    assert!(!is_within_end(5, &Bound::Excluded(5)));
    assert!(is_within_end(i64::MAX, &Bound::Unbounded));
}

#[test]
fn keys_as_the_table_writes_them() {
    let written = encode_key(&key(3, 1, -1, 256));
    assert_eq!(
        written,
        vec![3, 1, 0x7f, 0xff, 0xff, 0xff, 0xff, 0xff, 0xff, 0xff, 0x80, 0, 0, 0, 0, 0, 1, 0]
    );
    assert_eq!(decode_key(&written), Some(key(3, 1, -1, 256)));
    assert_eq!(encode_key(&key(0, 0, i64::MIN, i64::MAX)), {
        let mut bytes = vec![0u8; 10];
        bytes.extend_from_slice(&[0xff; 8]);
        bytes
    });
    assert_eq!(decode_key(&written[..17]), None);
    assert_eq!(decode_key(b""), None);
    let keys = [
        key(0, 0, i64::MIN, i64::MIN),
        key(0, 0, -1, 5),
        key(0, 0, 0, 0),
        key(0, 0, 0, 1),
        key(0, 0, 1, -7),
        key(0, 1, i64::MIN, 0),
        key(0, 255, i64::MAX, i64::MAX),
        key(1, 0, 0, 0),
        key(255, 0, 0, 0),
    ];
    for a in &keys {
        assert_eq!(decode_key(&encode_key(a)), Some(*a));
        for b in &keys {
            assert_eq!(is_key_before(a, b), encode_key(a) < encode_key(b));
        }
    }
}

#[test]
fn entries_as_the_table_writes_them() {
    let mut store = FacetStore::new();
    assert_eq!(store.append_entry(&encode_key(&key(1, 0, 0, 0)), &bytes(&[1])), Ok(true));
    assert_eq!(store.append_entry(&encode_key(&key(1, 0, 10, 10)), &bytes(&[2, 3])), Ok(true));
    assert_eq!(store.append_entry(&encode_key(&key(1, 0, 5, 5)), &bytes(&[9])), Ok(false));
    assert_eq!(store.append_entry(b"short", &bytes(&[9])), Err(SearchError::Decode));
    assert_eq!(store.len(), 2);
    let mut iter = FacetIter::new_reducing(&store, 1, bitmap(&[1, 2, 3]));
    assert_eq!(drain(&mut iter, &store), vec![(0, bitmap(&[1])), (10, bitmap(&[2, 3]))]);
}
