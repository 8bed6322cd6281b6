use milli::criteria::asc_desc::{AscDesc, FacetRanking};
use milli::criteria::finalizer::Final;
use milli::criteria::typo::Typo;
use milli::criteria::{Criterion, CriterionParameters, CriterionResult, Initial};
use milli::facet::store::{FacetKey, FacetStore};
use milli::index::{push_be, Index};
use milli::query_tree::{Derivation, Operation, WordDerivations, WordDerivationsCache};
use roaring::RoaringBitmap;

fn docs(values: &[u32]) -> RoaringBitmap {
    let mut bitmap = RoaringBitmap::new();
    for value in values {
        bitmap.insert(*value);
    }
    bitmap
}

fn written(values: &[u32]) -> Vec<u8> {
    let mut bytes = Vec::new();
    assert!(docs(values).serialize_into(&mut bytes).is_ok());
    bytes
}

fn add(index: &mut Index, docid: u32, content: &str) {
    let mut key = Vec::new();
    push_be(&mut key, docid);
    index.documents.put(&key, vec![b'd']);
    for (pos, word) in content.split_whitespace().enumerate() {
        let position = pos as u32;
        let mut positions = index.word_positions(word.as_bytes()).ok().flatten().unwrap_or_default();
        positions.insert(position);
        assert!(index.postings_attrs.put_bitmap(word.as_bytes(), &positions));
        let key = Index::posting_key_of(word.as_bytes(), position);
        let mut docids = index.postings_ids.get_bitmap(&key).ok().flatten().unwrap_or_default();
        docids.insert(docid);
        assert!(index.postings_ids.put_bitmap(&key, &docids));
    }
}

/// Ten documents; the odd ones have the word `odd`.
fn shop() -> Index {
    let mut index = Index::new();
    add(&mut index, 0, "even lamp");
    add(&mut index, 1, "odd lamp");
    add(&mut index, 2, "even");
    add(&mut index, 3, "odd lamp");
    add(&mut index, 4, "even");
    add(&mut index, 5, "odd lamq");
    add(&mut index, 6, "even");
    add(&mut index, 7, "odd lamp");
    add(&mut index, 8, "even");
    add(&mut index, 9, "odd lamq");
    index
}

/// The prices, field 1: 10 for 1 and 2, 20 for 3 and 9, 30 for 5, 40 for 4.
/// The documents 0, 6, 7 and 8 have no price.
fn prices() -> FacetStore {
    let mut store = FacetStore::new();
    let key = |level: u8, left: i64, right: i64| FacetKey { field_id: 1, level, left, right };
    assert!(store.append(key(0, 10, 10), written(&[1, 2])));
    assert!(store.append(key(0, 20, 20), written(&[3, 9])));
    assert!(store.append(key(0, 30, 30), written(&[5])));
    assert!(store.append(key(0, 40, 40), written(&[4])));
    assert!(store.append(key(1, 10, 20), written(&[1, 2, 3, 9])));
    assert!(store.append(key(1, 30, 40), written(&[4, 5])));
    store
}

fn odd() -> Operation {
    Operation::Word(b"odd".to_vec())
}

fn near_lamp() -> WordDerivationsCache {
    let mut near = WordDerivationsCache::new();
    near.entries.push(WordDerivations {
        word: b"lamp".to_vec(),
        max_typos: 1,
        is_prefix: false,
        derived: vec![
            Derivation { word: b"lamp".to_vec(), distance: 0 },
            Derivation { word: b"lamq".to_vec(), distance: 1 },
        ],
    });
    near
}

fn ranked<P: Criterion>(criterion: &mut P, near: &mut WordDerivationsCache, excluded: &RoaringBitmap) -> Vec<RoaringBitmap> {
    let mut params = CriterionParameters { wdcache: near, excluded_candidates: excluded };
    let mut handed = Vec::new();
    for _ in 0..50 {
        match criterion.next(&mut params) {
            Ok(Some(bucket)) => handed.push(bucket.candidates.unwrap_or_default()),
            Ok(None) => return handed,
            Err(_) => panic!("the ranking failed"),
        }
    }
    panic!("the ranking does not end");
}

#[test]
fn cheapest_first() {
    let index = shop();
    let store = prices();
    let mut near = WordDerivationsCache::new();
    let mut criterion = AscDesc::new(&index, &store, 1, true, Initial::new(Some(odd()), None));
    let handed = ranked(&mut criterion, &mut near, &RoaringBitmap::new());
    assert_eq!(handed, vec![docs(&[1]), docs(&[3, 9]), docs(&[5]), docs(&[7])]);
}

#[test]
fn dearest_first() {
    let index = shop();
    let store = prices();
    let mut near = WordDerivationsCache::new();
    let mut criterion = AscDesc::new(&index, &store, 1, false, Initial::new(Some(odd()), None));
    let handed = ranked(&mut criterion, &mut near, &RoaringBitmap::new());
    assert_eq!(handed, vec![docs(&[5]), docs(&[3, 9]), docs(&[1]), docs(&[7])]);
}

#[test]
fn prices_without_a_query() {
    let index = shop();
    let store = prices();
    let mut near = WordDerivationsCache::new();
    let mut criterion = AscDesc::new(&index, &store, 1, true, Initial::new(None, None));
    let handed = ranked(&mut criterion, &mut near, &RoaringBitmap::new());
    assert_eq!(handed, vec![docs(&[1, 2]), docs(&[3, 9]), docs(&[5]), docs(&[4]), docs(&[0, 6, 7, 8])]);
}

#[test]
fn prices_of_a_filter() {
    let index = shop();
    let store = prices();
    let mut near = WordDerivationsCache::new();
    let initial = Initial::new(Some(odd()), Some(docs(&[2, 3, 4, 8])));
    let mut criterion = AscDesc::new(&index, &store, 1, false, initial);
    let handed = ranked(&mut criterion, &mut near, &RoaringBitmap::new());
    assert_eq!(handed, vec![docs(&[4]), docs(&[3]), docs(&[2]), docs(&[8])]);
}

#[test]
fn prices_leave_out_the_excluded() {
    let index = shop();
    let store = prices();
    let mut near = WordDerivationsCache::new();
    let mut criterion = AscDesc::new(&index, &store, 1, true, Initial::new(Some(odd()), None));
    let handed = ranked(&mut criterion, &mut near, &docs(&[3, 7]));
    assert_eq!(handed, vec![docs(&[1]), docs(&[9]), docs(&[5]), docs(&[])]);
}

#[test]
fn a_field_without_values() {
    let index = shop();
    let store = prices();
    let mut near = WordDerivationsCache::new();
    let mut criterion = AscDesc::new(&index, &store, 2, true, Initial::new(Some(odd()), None));
    let handed = ranked(&mut criterion, &mut near, &RoaringBitmap::new());
    assert_eq!(handed, vec![docs(&[1, 3, 5, 7, 9])]);
}

#[test]
fn typos_then_prices() {
    let index = shop();
    let store = prices();
    let mut near = near_lamp();
    let query = Operation::And(vec![odd(), Operation::TolerantWord(b"lamp".to_vec(), 1)]);
    let typo = Typo::new(&index, Initial::new(Some(query), None));
    let mut criterion = AscDesc::new(&index, &store, 1, false, typo);
    let handed: Vec<RoaringBitmap> =
        ranked(&mut criterion, &mut near, &RoaringBitmap::new()).into_iter().filter(|bucket| !bucket.is_empty()).collect();
    // without a typo: 1, 3 and 7; with one: 5 and 9
    assert_eq!(handed, vec![docs(&[3]), docs(&[1]), docs(&[7]), docs(&[5]), docs(&[9])]);
}

#[test]
fn prices_to_the_end_of_the_search() {
    let index = shop();
    let store = prices();
    let criterion = AscDesc::new(&index, &store, 1, true, Initial::new(Some(odd()), None));
    let mut last = Final::with_cache(&index, criterion, near_lamp());
    let excluded = RoaringBitmap::new();
    let mut found = Vec::new();
    for _ in 0..50 {
        match last.next(&excluded) {
            Ok(Some(result)) => found.push(result.candidates),
            Ok(None) => break,
            Err(_) => panic!("the search failed"),
        }
    }
    assert_eq!(found, vec![docs(&[1]), docs(&[3, 9]), docs(&[5]), docs(&[7])]);
}

#[test]
fn prices_step_by_step() {
    let index = shop();
    let store = prices();
    let near = WordDerivationsCache::new();
    let excluded = RoaringBitmap::new();
    let mut ranking = FacetRanking::new(&index, &store, 1, true);
    assert!(!ranking.has_bucket());
    let bucket = CriterionResult { query_tree: None, candidates: Some(docs(&[9, 2, 6])), bucket_candidates: docs(&[2, 6, 9, 11]) };
    assert!(ranking.start(bucket, &near, &excluded).is_ok());
    assert!(ranking.has_bucket());
    let first = ranking.rank(&excluded).ok().map(|found| (found.candidates, found.bucket_candidates));
    assert_eq!(first, Some((Some(docs(&[2])), docs(&[2, 6, 9, 11]))));
    assert!(ranking.has_bucket());
    let second = ranking.rank(&excluded).ok().and_then(|found| found.candidates);
    assert_eq!(second, Some(docs(&[9])));
    let third = ranking.rank(&excluded).ok().and_then(|found| found.candidates);
    assert_eq!(third, Some(docs(&[6])));
    assert!(!ranking.has_bucket());
}

#[test]
fn each_answer_of_the_parent_starts_a_descent() {
    let index = shop();
    let store = prices();
    let near = WordDerivationsCache::new();
    let none = RoaringBitmap::new();
    let mut ranking = FacetRanking::new(&index, &store, 1, false);
    assert_eq!(ranking.resume(Ok(None), &near, &none).map(|item| item.is_some()), Ok(false));
    assert_eq!(
        ranking.resume(Err(milli::error::SearchError::Storage), &near, &none).map(|item| item.is_some()),
        Err(milli::error::SearchError::Storage)
    );
    assert!(!ranking.has_bucket());
    let bucket = CriterionResult { query_tree: Some(odd()), candidates: None, bucket_candidates: RoaringBitmap::new() };
    let first = ranking.resume(Ok(Some(bucket)), &near, &docs(&[5])).ok().flatten();
    assert_eq!(first.and_then(|found| found.candidates), Some(docs(&[3, 9])));
    assert!(ranking.has_bucket());
    let second = ranking.rank_on(&none).ok().flatten();
    assert_eq!(second.and_then(|found| found.candidates), Some(docs(&[1])));
}
