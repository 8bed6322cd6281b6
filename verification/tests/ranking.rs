use milli::criteria::finalizer::{Final, FinalResult};
use milli::criteria::proximity::{docids_at_cost, words_of_query, Proximity, ProximityRanking};
use milli::criteria::relaxed::{drop_last, limit_tree, max_dropped, max_level, max_typos, relax, Relaxation, TreeRanking};
use milli::criteria::typo::Typo;
use milli::criteria::words::Words;
use milli::criteria::{Criterion, CriterionParameters, CriterionResult, Initial};
use milli::error::SearchError;
use milli::index::{push_be, Index};
use milli::phrase::read_positions;
use milli::query_tree::{same_operation, Derivation, Operation, WordDerivations, WordDerivationsCache};
use roaring::RoaringBitmap;

fn bitmap(values: &[u32]) -> RoaringBitmap {
    let mut bitmap = RoaringBitmap::new();
    for value in values {
        bitmap.insert(*value);
    }
    bitmap
}

fn word(text: &str) -> Operation {
    Operation::Word(text.as_bytes().to_vec())
}

fn tolerant(text: &str, typos: u8) -> Operation {
    Operation::TolerantWord(text.as_bytes().to_vec(), typos)
}

/// Adds a document: its words, one attribute after the other.
fn add_document(index: &mut Index, docid: u32, attributes: &[&str]) {
    let mut key = Vec::new();
    push_be(&mut key, docid);
    index.documents.put(&key, vec![b'd']);
    for (attr, content) in attributes.iter().enumerate() {
        for (pos, word) in content.split_whitespace().enumerate() {
            let position = (attr * 1000 + pos) as u32;
            let mut positions = index.word_positions(word.as_bytes()).ok().flatten().unwrap_or_default();
            positions.insert(position);
            assert!(index.postings_attrs.put_bitmap(word.as_bytes(), &positions));
            let key = Index::posting_key_of(word.as_bytes(), position);
            let mut docids = index.postings_ids.get_bitmap(&key).ok().flatten().unwrap_or_default();
            docids.insert(docid);
            assert!(index.postings_ids.put_bitmap(&key, &docids));
        }
    }
}

/// Ten documents; the odd ones have the word `odd`.
fn corpus() -> Index {
    let mut index = Index::new();
    add_document(&mut index, 0, &["even saint"]);
    add_document(&mut index, 1, &["odd saint"]);
    add_document(&mut index, 2, &["even"]);
    add_document(&mut index, 3, &["an odd saint"]);
    add_document(&mut index, 4, &["even saimt"]);
    add_document(&mut index, 5, &["odd one out is the saint"]);
    add_document(&mut index, 6, &["even"]);
    add_document(&mut index, 7, &["odd saimt"]);
    add_document(&mut index, 8, &["even"]);
    add_document(&mut index, 9, &["odd"]);
    index
}

fn near_saint() -> WordDerivationsCache {
    let mut near = WordDerivationsCache::new();
    near.entries.push(WordDerivations {
        word: b"saint".to_vec(),
        max_typos: 1,
        is_prefix: false,
        derived: vec![
            Derivation { word: b"saint".to_vec(), distance: 0 },
            Derivation { word: b"saimt".to_vec(), distance: 1 },
        ],
    });
    near
}

fn odd_saint() -> Operation {
    Operation::And(vec![word("odd"), tolerant("saint", 1)])
}

fn drain<P: Criterion>(last: &mut Final<'_, P>) -> Vec<FinalResult> {
    let excluded = RoaringBitmap::new();
    let mut found = Vec::new();
    for _ in 0..100 {
        let item = last.next(&excluded);
        assert!(matches!(item, Ok(_)));
        match item {
            Ok(Some(result)) => found.push(result),
            _ => return found,
        }
    }
    panic!("the ranking does not end");
}

fn buckets(results: &[FinalResult]) -> Vec<RoaringBitmap> {
    results.iter().filter(|result| !result.candidates.is_empty()).map(|result| result.candidates.clone()).collect()
}

#[test]
fn pipeline_words_typo_proximity() {
    let index = corpus();
    let words = Words::new(&index, Initial::new(Some(odd_saint()), None), true);
    let typo = Typo::new(&index, words);
    let proximity = Proximity::new(&index, typo);
    let mut last = Final::with_cache(&index, proximity, near_saint());
    let results = drain(&mut last);
    let mut union = RoaringBitmap::new();
    for result in &results {
        assert!(union.is_disjoint(&result.candidates));
        union |= &result.candidates;
    }
    assert_eq!(union, bitmap(&[1, 3, 5, 7, 9]));
    // both words as they are written, the closest first; then with a typo;
    // then the first word alone
    assert_eq!(buckets(&results), vec![bitmap(&[1, 3]), bitmap(&[5]), bitmap(&[7]), bitmap(&[9])]);
}

#[test]
fn pipeline_without_optional_words() {
    let index = corpus();
    let words = Words::new(&index, Initial::new(Some(odd_saint()), None), false);
    let typo = Typo::new(&index, words);
    let proximity = Proximity::new(&index, typo);
    let mut last = Final::with_cache(&index, proximity, near_saint());
    let results = drain(&mut last);
    assert_eq!(buckets(&results), vec![bitmap(&[1, 3]), bitmap(&[5]), bitmap(&[7])]);
}

#[test]
fn typo_buckets() {
    let index = corpus();
    let mut last = Final::with_cache(&index, Typo::new(&index, Initial::new(Some(odd_saint()), None)), near_saint());
    let results = drain(&mut last);
    assert_eq!(buckets(&results), vec![bitmap(&[1, 3, 5]), bitmap(&[7])]);
    assert!(matches!(&results[0].query_tree, Some(tree) if same_operation(tree, &Operation::And(vec![word("odd"), word("saint")]))));
    assert!(matches!(&results[1].query_tree, Some(tree) if same_operation(tree, &odd_saint())));
    assert_eq!(results[0].bucket_candidates, bitmap(&[1, 3, 5, 7]));
}

#[test]
fn words_buckets() {
    let index = corpus();
    let tree = Operation::And(vec![word("odd"), word("saint"), word("one")]);
    let mut last = Final::new(&index, Words::new(&index, Initial::new(Some(tree), None), true));
    let results = drain(&mut last);
    assert_eq!(buckets(&results), vec![bitmap(&[5]), bitmap(&[1, 3]), bitmap(&[7, 9])]);
    assert!(matches!(&results[1].query_tree, Some(tree) if same_operation(tree, &Operation::And(vec![word("odd"), word("saint")]))));
}

#[test]
fn proximity_buckets() {
    let index = corpus();
    let tree = Operation::And(vec![word("odd"), word("saint")]);
    let mut last = Final::new(&index, Proximity::new(&index, Initial::new(Some(tree), None)));
    let results = drain(&mut last);
    // next to each other in two documents, five places apart in another
    assert_eq!(buckets(&results), vec![bitmap(&[1, 3]), bitmap(&[5])]);

    let tree = Operation::And(vec![word("saint"), word("odd")]);
    let mut last = Final::new(&index, Proximity::new(&index, Initial::new(Some(tree), None)));
    let results = drain(&mut last);
    // out of order costs one more
    assert_eq!(buckets(&results), vec![bitmap(&[1, 3]), bitmap(&[5])]);

    let mut last = Final::new(&index, Proximity::new(&index, Initial::new(Some(word("odd")), None)));
    assert_eq!(buckets(&drain(&mut last)), vec![bitmap(&[1, 3, 5, 7, 9])]);
}

#[test]
fn proximity_hands_on_what_it_cannot_rank() {
    let index = corpus();
    let tree = Operation::Or(vec![word("odd"), word("saint")]);
    let mut last = Final::new(&index, Proximity::new(&index, Initial::new(Some(tree), None)));
    let results = drain(&mut last);
    assert_eq!(buckets(&results), vec![bitmap(&[0, 1, 3, 5, 7, 9])]);
    let mut last = Final::new(&index, Proximity::new(&index, Initial::new(None, None)));
    let results = drain(&mut last);
    assert_eq!(buckets(&results), vec![bitmap(&[0, 1, 2, 3, 4, 5, 6, 7, 8, 9])]);
}

#[test]
fn documents_at_each_proximity() {
    let mut index = Index::new();
    add_document(&mut index, 1, &["a b"]);
    add_document(&mut index, 2, &["b a"]);
    add_document(&mut index, 3, &["a x x b"]);
    add_document(&mut index, 4, &["a", "b"]);
    add_document(&mut index, 5, &["a x x x x x x x x x b"]);
    let words = vec![b"a".to_vec(), b"b".to_vec()];
    let lists = read_positions(&index, &words);
    assert_eq!(lists, Ok(vec![vec![0, 1], vec![0, 1, 3, 10, 1000]]));
    let lists = lists.unwrap_or_default();
    assert_eq!(docids_at_cost(&index, &words, &lists, 0), Ok(RoaringBitmap::new()));
    assert_eq!(docids_at_cost(&index, &words, &lists, 1), Ok(bitmap(&[1])));
    assert_eq!(docids_at_cost(&index, &words, &lists, 2), Ok(bitmap(&[2])));
    assert_eq!(docids_at_cost(&index, &words, &lists, 3), Ok(bitmap(&[3])));
    assert_eq!(docids_at_cost(&index, &words, &lists, 4), Ok(RoaringBitmap::new()));
    assert_eq!(docids_at_cost(&index, &words, &lists, 8), Ok(bitmap(&[4, 5])));
    assert_eq!(docids_at_cost(&index, &words, &lists, 9), Ok(RoaringBitmap::new()));
    index.postings_ids.put(&Index::posting_key_of(b"b", 3), vec![1, 2, 3]);
    assert_eq!(docids_at_cost(&index, &words, &lists, 3), Err(SearchError::Bitmap));
    assert_eq!(docids_at_cost(&index, &words, &lists, 1), Ok(bitmap(&[1])));
}

#[test]
fn words_of_a_query() {
    assert_eq!(words_of_query(&word("a")), Some(vec![b"a".to_vec()]));
    assert_eq!(
        words_of_query(&Operation::And(vec![word("a"), word("b")])),
        Some(vec![b"a".to_vec(), b"b".to_vec()])
    );
    assert_eq!(words_of_query(&Operation::And(vec![])), None);
    assert_eq!(words_of_query(&Operation::And(vec![word("a"), tolerant("b", 1)])), None);
    assert_eq!(words_of_query(&Operation::Or(vec![word("a")])), None);
    assert_eq!(words_of_query(&Operation::Phrase(vec![b"a".to_vec()])), None);
}

#[test]
fn relaxing_a_query() {
    let tree = Operation::And(vec![
        word("a"),
        tolerant("b", 2),
        Operation::Or(vec![tolerant("c", 1), Operation::Phrase(vec![b"d".to_vec()])]),
    ]);
    assert_eq!(max_typos(&tree), 2);
    assert_eq!(max_dropped(&tree), 2);
    assert_eq!(max_level(Relaxation::Typos, &tree), 2);
    assert_eq!(max_level(Relaxation::Words, &tree), 2);
    assert_eq!(max_level(Relaxation::Nothing, &tree), 0);
    assert_eq!(max_typos(&word("a")), 0);
    assert_eq!(max_dropped(&word("a")), 0);
    assert_eq!(max_dropped(&Operation::And(vec![])), 0);

    let none = Operation::And(vec![
        word("a"),
        word("b"),
        Operation::Or(vec![word("c"), Operation::Phrase(vec![b"d".to_vec()])]),
    ]);
    assert!(same_operation(&limit_tree(&tree, 0), &none));
    let one = Operation::And(vec![
        word("a"),
        tolerant("b", 1),
        Operation::Or(vec![tolerant("c", 1), Operation::Phrase(vec![b"d".to_vec()])]),
    ]);
    assert!(same_operation(&limit_tree(&tree, 1), &one));
    assert!(same_operation(&limit_tree(&tree, 2), &tree));
    assert!(same_operation(&limit_tree(&tree, 9), &tree));
    assert!(same_operation(&relax(Relaxation::Typos, &tree, 1), &one));

    assert!(same_operation(&drop_last(&tree, 0), &tree));
    assert!(same_operation(&drop_last(&tree, 1), &Operation::And(vec![word("a"), tolerant("b", 2)])));
    assert!(same_operation(&drop_last(&tree, 2), &Operation::And(vec![word("a")])));
    assert!(same_operation(&drop_last(&tree, 3), &tree));
    assert!(same_operation(&drop_last(&word("a"), 1), &word("a")));
    assert!(same_operation(&relax(Relaxation::Words, &tree, 2), &Operation::And(vec![word("a")])));
    assert!(same_operation(&relax(Relaxation::Nothing, &tree, 0), &tree));
}

#[test]
fn ranking_step_by_step() {
    let index = corpus();
    let near = near_saint();
    let mut ranking = TreeRanking::new(&index, Relaxation::Typos);
    assert!(!ranking.has_bucket());
    let bucket = CriterionResult { query_tree: Some(odd_saint()), candidates: None, bucket_candidates: bitmap(&[42]) };
    let started = ranking.start(bucket, &near, &bitmap(&[3]));
    assert!(matches!(started, Ok(None)));
    assert!(ranking.has_bucket());
    let first = ranking.rank(&near, &RoaringBitmap::new());
    assert!(matches!(first, Ok(_)));
    if let Ok(first) = first {
        assert_eq!(first.candidates, Some(bitmap(&[1, 5])));
        assert_eq!(first.bucket_candidates, bitmap(&[1, 3, 5, 7, 42]));
    }
    // what the caller used in between is left out
    let second = ranking.rank(&near, &bitmap(&[7]));
    assert!(matches!(second, Ok(_)));
    if let Ok(second) = second {
        assert_eq!(second.candidates, Some(RoaringBitmap::new()));
    }
    assert!(!ranking.has_bucket());

    // a bucket without a query is handed on
    let bucket = CriterionResult { query_tree: None, candidates: Some(bitmap(&[1, 2, 3])), bucket_candidates: bitmap(&[1]) };
    let handed = ranking.start(bucket, &near, &bitmap(&[2]));
    assert!(matches!(handed, Ok(Some(_))));
    if let Ok(Some(handed)) = handed {
        assert_eq!(handed.candidates, Some(bitmap(&[1, 3])));
        assert_eq!(handed.bucket_candidates, bitmap(&[1]));
    }
    assert!(!ranking.has_bucket());
}

#[test]
fn proximity_step_by_step() {
    let index = corpus();
    let near = WordDerivationsCache::new();
    let mut ranking = ProximityRanking::new(&index);
    let tree = Operation::And(vec![word("odd"), word("saint")]);
    let bucket = CriterionResult { query_tree: Some(tree), candidates: Some(bitmap(&[1, 3, 5, 9])), bucket_candidates: bitmap(&[1]) };
    assert!(matches!(ranking.start(bucket, &near, &bitmap(&[3])), Ok(None)));
    assert!(ranking.has_bucket());
    let mut handed = Vec::new();
    while ranking.has_bucket() {
        let bucket = ranking.rank(&RoaringBitmap::new());
        assert!(matches!(bucket, Ok(_)));
        if let Ok(bucket) = bucket {
            assert_eq!(bucket.bucket_candidates, bitmap(&[1]));
            handed.push(bucket.candidates.unwrap_or_default());
        }
    }
    // the closest, the farther one, and the document that lacks a word
    assert_eq!(handed, vec![bitmap(&[1]), bitmap(&[5]), bitmap(&[9])]);
}

#[test]
fn ranking_meets_a_bitmap_that_cannot_be_read() {
    let mut index = corpus();
    index.postings_ids.put(&Index::posting_key_of(b"saimt", 9), vec![1, 2, 3]);
    let near = near_saint();
    let mut ranking = TreeRanking::new(&index, Relaxation::Typos);
    let bucket = CriterionResult { query_tree: Some(odd_saint()), candidates: Some(bitmap(&[1, 7])), bucket_candidates: RoaringBitmap::new() };
    assert!(matches!(ranking.start(bucket, &near, &RoaringBitmap::new()), Ok(None)));
    assert!(matches!(ranking.rank(&near, &RoaringBitmap::new()), Ok(_)));
    assert!(matches!(ranking.rank(&near, &RoaringBitmap::new()), Err(SearchError::Bitmap)));
    let bucket = CriterionResult { query_tree: Some(odd_saint()), candidates: None, bucket_candidates: RoaringBitmap::new() };
    assert!(matches!(ranking.start(bucket, &near, &RoaringBitmap::new()), Err(SearchError::Bitmap)));

    let mut index = corpus();
    index.postings_attrs.put(b"saint", vec![1, 2, 3]);
    let mut ranking = ProximityRanking::new(&index);
    let tree = Operation::And(vec![word("odd"), word("saint")]);
    let bucket = CriterionResult { query_tree: Some(tree), candidates: Some(bitmap(&[1])), bucket_candidates: RoaringBitmap::new() };
    assert!(matches!(ranking.start(bucket, &near, &RoaringBitmap::new()), Err(SearchError::Bitmap)));
}

#[test]
fn criteria_leave_out_the_excluded() {
    let index = corpus();
    let mut near = near_saint();
    let excluded = bitmap(&[1, 7]);
    let mut params = CriterionParameters { wdcache: &mut near, excluded_candidates: &excluded };
    let mut typo = Typo::new(&index, Initial::new(Some(odd_saint()), None));
    let mut handed = Vec::new();
    for _ in 0..10 {
        match typo.next(&mut params) {
            Ok(Some(bucket)) => handed.push(bucket.candidates.unwrap_or_default()),
            Ok(None) => break,
            Err(_) => panic!("the ranking failed"),
        }
    }
    handed.retain(|bucket| !bucket.is_empty());
    assert_eq!(handed, vec![bitmap(&[3, 5])]);
}

#[test]
fn each_answer_of_the_parent_is_taken() {
    let index = corpus();
    let near = near_saint();
    let none = RoaringBitmap::new();
    let mut ranking = TreeRanking::new(&index, Relaxation::Typos);
    assert_eq!(ranking.resume(Err(SearchError::Storage), &near, &none).map(|item| item.is_some()), Err(SearchError::Storage));
    assert!(!ranking.has_bucket());
    assert_eq!(ranking.resume(Ok(None), &near, &none).map(|item| item.is_some()), Ok(false));
    assert!(!ranking.has_bucket());
    // a bucket that is ranked: its first bucket comes at once
    let bucket = CriterionResult { query_tree: Some(odd_saint()), candidates: None, bucket_candidates: RoaringBitmap::new() };
    let first = ranking.resume(Ok(Some(bucket)), &near, &none).ok().flatten();
    assert_eq!(first.and_then(|found| found.candidates), Some(bitmap(&[1, 3, 5])));
    assert!(ranking.has_bucket());
    let second = ranking.rank_on(&near, &none).ok().flatten();
    assert_eq!(second.and_then(|found| found.candidates), Some(bitmap(&[7])));

    let mut ranking = ProximityRanking::new(&index);
    assert_eq!(ranking.resume(Ok(None), &near, &none).map(|item| item.is_some()), Ok(false));
    assert_eq!(ranking.resume(Err(SearchError::Decode), &near, &none).map(|item| item.is_some()), Err(SearchError::Decode));
    // a bucket that cannot be ranked by proximity is handed on
    let bucket = CriterionResult { query_tree: None, candidates: Some(bitmap(&[1, 2, 3])), bucket_candidates: bitmap(&[1]) };
    let handed = ranking.resume(Ok(Some(bucket)), &near, &bitmap(&[2])).ok().flatten();
    assert_eq!(handed.and_then(|found| found.candidates), Some(bitmap(&[1, 3])));
    assert!(!ranking.has_bucket());
}

#[test]
fn ranked_buckets_of_a_query() {
    let index = corpus();
    let found = milli::criteria::ranked_buckets(&index, odd_saint(), None, near_saint(), true, 100);
    assert!(found.is_ok());
    let found = found.unwrap_or_default();
    let mut all = RoaringBitmap::new();
    for bucket in &found {
        assert!(all.is_disjoint(&bucket.candidates));
        all |= &bucket.candidates;
    }
    assert_eq!(all, bitmap(&[1, 3, 5, 7, 9]));
    assert_eq!(buckets(&found), vec![bitmap(&[1, 3]), bitmap(&[5]), bitmap(&[7]), bitmap(&[9])]);

    // among the documents of a filter: those that match no level come last
    let found = milli::criteria::ranked_buckets(&index, odd_saint(), Some(bitmap(&[0, 1, 7])), near_saint(), false, 100);
    assert_eq!(found.as_ref().map(|found| buckets(found)), Ok(vec![bitmap(&[1]), bitmap(&[7]), bitmap(&[0])]));

    // no more buckets than asked for
    let found = milli::criteria::ranked_buckets(&index, odd_saint(), None, near_saint(), true, 1);
    assert_eq!(found.map(|found| found.len()), Ok(1));
}
