use milli::criteria::finalizer::{Final, FinalResult};
use milli::criteria::{Criterion, CriterionParameters, CriterionResult, Initial};
use milli::error::SearchError;
use milli::index::{push_be, Index};
use milli::query_tree::{resolve_query_tree, Operation, ResolveCache};
use roaring::RoaringBitmap;

fn bitmap(values: &[u32]) -> RoaringBitmap {
    let mut bitmap = RoaringBitmap::new();
    for value in values {
        bitmap.insert(*value);
    }
    bitmap
}

/// Ten documents; the odd ones have the word `odd`.
fn corpus() -> Index {
    let mut index = Index::new();
    for docid in 0..10u32 {
        let mut key = Vec::new();
        push_be(&mut key, docid);
        index.documents.put(&key, vec![b'd']);
    }
    assert!(index.postings_ids.put_bitmap(&Index::posting_key_of(b"odd", 0), &bitmap(&[1, 3, 5])));
    assert!(index.postings_ids.put_bitmap(&Index::posting_key_of(b"odd", 1001), &bitmap(&[5, 7, 9])));
    assert!(index.postings_ids.put_bitmap(&Index::posting_key_of(b"even", 0), &bitmap(&[0, 2, 4, 6, 8])));
    index
}

/// A stage that hands the documents of each bucket of its parent on in
/// buckets of at most `size` documents.
struct Slices<'t, P: Criterion> {
    index: &'t Index,
    parent: P,
    size: usize,
    tree: Option<Operation>,
    bucket: RoaringBitmap,
    left: RoaringBitmap,
    asked: bool,
}

impl<'t, P: Criterion> Slices<'t, P> {
    fn new(index: &'t Index, parent: P, size: usize) -> Slices<'t, P> {
        Slices {
            index,
            parent,
            size,
            tree: None,
            bucket: RoaringBitmap::new(),
            left: RoaringBitmap::new(),
            asked: false,
        }
    }
}

impl<'t, P: Criterion> Criterion for Slices<'t, P> {
    fn next(&mut self, params: &mut CriterionParameters<'_>) -> Result<Option<CriterionResult>, SearchError> {
        loop {
            self.left -= params.excluded_candidates;
            if !self.left.is_empty() {
                let slice: RoaringBitmap = self.left.iter().take(self.size).collect();
                self.left -= &slice;
                return Ok(Some(CriterionResult {
                    query_tree: self.tree.as_ref().map(milli::query_tree::copy_operation),
                    candidates: Some(slice),
                    bucket_candidates: self.bucket.clone(),
                }));
            }
            match self.parent.next(params)? {
                None => return Ok(None),
                Some(CriterionResult { query_tree, candidates, bucket_candidates }) => {
                    let candidates = match (candidates, query_tree.as_ref()) {
                        (Some(candidates), _) => candidates,
                        (None, Some(tree)) => {
                            resolve_query_tree(self.index, tree, &mut ResolveCache::new(), params.wdcache)?
                        }
                        (None, None) => self.index.documents_ids()?,
                    };
                    self.bucket = bucket_candidates | &candidates;
                    self.left = candidates;
                    self.tree = query_tree;
                    self.asked = true;
                }
            }
        }
    }
}

fn drain<P: Criterion>(last: &mut Final<'_, P>, excluded: &RoaringBitmap) -> Vec<FinalResult> {
    let mut found = Vec::new();
    loop {
        let item = last.next(excluded);
        assert!(matches!(item, Ok(_)));
        match item {
            Ok(Some(result)) => found.push(result),
            _ => return found,
        }
    }
}

fn odd() -> Operation {
    Operation::Word(b"odd".to_vec())
}

#[test]
fn pipeline_completeness() {
    let index = corpus();
    // three stages after the first one, as words, typo and proximity are
    let words = Slices::new(&index, Initial::new(Some(odd()), None), 4);
    let typo = Slices::new(&index, words, 3);
    let proximity = Slices::new(&index, typo, 2);
    let mut last = Final::new(&index, proximity);
    let results = drain(&mut last, &RoaringBitmap::new());
    assert!(results.len() >= 3);
    let mut union = RoaringBitmap::new();
    for result in &results {
        assert!(!result.candidates.is_empty());
        assert!(union.is_disjoint(&result.candidates));
        assert!(result.candidates.is_subset(&result.bucket_candidates));
        union |= &result.candidates;
    }
    assert_eq!(union, bitmap(&[1, 3, 5, 7, 9]));
    assert!(matches!(last.next(&RoaringBitmap::new()), Ok(None)));
}

#[test]
fn final_fetches_the_documents_of_the_query() {
    let index = corpus();
    let mut last = Final::new(&index, Initial::new(Some(odd()), None));
    let first = last.next(&RoaringBitmap::new());
    assert!(matches!(first, Ok(Some(_))));
    if let Ok(Some(result)) = first {
        assert_eq!(result.candidates, bitmap(&[1, 3, 5, 7, 9]));
        assert_eq!(result.bucket_candidates, bitmap(&[1, 3, 5, 7, 9]));
        assert!(matches!(result.query_tree, Some(Operation::Word(_))));
    }
    assert!(matches!(last.next(&RoaringBitmap::new()), Ok(None)));
    assert!(matches!(last.next(&RoaringBitmap::new()), Ok(None)));
}

#[test]
fn final_fetches_all_documents_without_a_query() {
    let index = corpus();
    let mut last = Final::new(&index, Initial::new(None, None));
    let first = last.next(&RoaringBitmap::new());
    assert!(matches!(first, Ok(Some(_))));
    if let Ok(Some(result)) = first {
        assert_eq!(result.candidates, bitmap(&[0, 1, 2, 3, 4, 5, 6, 7, 8, 9]));
        assert_eq!(result.bucket_candidates, bitmap(&[0, 1, 2, 3, 4, 5, 6, 7, 8, 9]));
        assert!(matches!(result.query_tree, None));
    }
    assert!(matches!(last.next(&RoaringBitmap::new()), Ok(None)));
}

#[test]
fn final_leaves_out_what_the_caller_used() {
    let index = corpus();
    let filter = bitmap(&[1, 2, 3, 4, 5]);
    let mut last = Final::new(&index, Initial::new(Some(odd()), Some(filter)));
    let first = last.next(&bitmap(&[3, 4]));
    assert!(matches!(first, Ok(Some(_))));
    if let Ok(Some(result)) = first {
        assert_eq!(result.candidates, bitmap(&[1, 2, 5]));
        assert_eq!(result.bucket_candidates, RoaringBitmap::new());
    }
    assert!(matches!(last.next(&RoaringBitmap::new()), Ok(None)));
}

#[test]
fn finish_bucket_keeps_what_the_bucket_carries() {
    let index = corpus();
    let mut last = Final::new(&index, Initial::new(None, None));
    let bucket = CriterionResult {
        query_tree: Some(odd()),
        candidates: Some(bitmap(&[1, 3])),
        bucket_candidates: bitmap(&[1, 3, 5]),
    };
    let result = last.finish_bucket(bucket);
    assert!(matches!(result, Ok(_)));
    if let Ok(result) = result {
        assert_eq!(result.candidates, bitmap(&[1, 3]));
        assert_eq!(result.bucket_candidates, bitmap(&[1, 3, 5]));
    }
    let bucket = CriterionResult {
        query_tree: Some(Operation::Word(b"even".to_vec())),
        candidates: None,
        bucket_candidates: bitmap(&[42]),
    };
    let result = last.finish_bucket(bucket);
    assert!(matches!(result, Ok(_)));
    if let Ok(result) = result {
        assert_eq!(result.candidates, bitmap(&[0, 2, 4, 6, 8]));
        assert_eq!(result.bucket_candidates, bitmap(&[0, 2, 4, 6, 8, 42]));
    }
}

#[test]
fn final_hands_on_the_failure_to_fetch() {
    let mut index = corpus();
    index.postings_ids.put(&Index::posting_key_of(b"odd", 5), vec![1, 2, 3]);
    let mut last = Final::new(&index, Initial::new(Some(odd()), None));
    assert!(matches!(last.next(&RoaringBitmap::new()), Err(SearchError::Bitmap)));
    let mut index = corpus();
    index.documents.put(b"x", vec![1]);
    let mut last = Final::new(&index, Initial::new(None, None));
    assert!(matches!(last.next(&RoaringBitmap::new()), Err(SearchError::Decode)));
}

#[test]
fn first_stage_hands_its_bucket_once() {
    let mut near = milli::query_tree::WordDerivationsCache::new();
    let excluded = bitmap(&[2]);
    let mut params = CriterionParameters { wdcache: &mut near, excluded_candidates: &excluded };
    let mut initial = Initial::new(Some(odd()), Some(bitmap(&[1, 2, 3])));
    let first = initial.next(&mut params);
    assert!(matches!(first, Ok(Some(_))));
    if let Ok(Some(bucket)) = first {
        assert_eq!(bucket.candidates, Some(bitmap(&[1, 3])));
        assert!(bucket.bucket_candidates.is_empty());
    }
    assert!(matches!(initial.next(&mut params), Ok(None)));
    let mut initial = Initial::new(None, None);
    let first = initial.next(&mut params);
    assert!(matches!(first, Ok(Some(_))));
    if let Ok(Some(bucket)) = first {
        assert_eq!(bucket.candidates, None);
        assert!(matches!(bucket.query_tree, None));
    }
}

#[test]
fn the_library_drains_the_last_stage() {
    let index = corpus();
    let words = Slices::new(&index, Initial::new(Some(odd()), None), 2);
    let mut last = Final::new(&index, words);
    let results = last.drain(&RoaringBitmap::new(), 100).unwrap_or_default();
    let found: Vec<RoaringBitmap> = results.iter().map(|result| result.candidates.clone()).collect();
    assert_eq!(found, vec![bitmap(&[1, 3]), bitmap(&[5, 7]), bitmap(&[9])]);
    // nothing is left
    assert_eq!(last.drain(&RoaringBitmap::new(), 100).map(|results| results.len()), Ok(0));
}

#[test]
fn a_drain_stops_at_its_limit() {
    let index = corpus();
    let words = Slices::new(&index, Initial::new(Some(odd()), None), 2);
    let mut last = Final::new(&index, words);
    let first = last.drain(&bitmap(&[3]), 2).unwrap_or_default();
    let found: Vec<RoaringBitmap> = first.iter().map(|result| result.candidates.clone()).collect();
    assert_eq!(found, vec![bitmap(&[1, 5]), bitmap(&[7, 9])]);
    assert_eq!(last.drain(&bitmap(&[3]), 0).map(|results| results.len()), Ok(0));
    assert_eq!(last.drain(&bitmap(&[3]), 5).map(|results| results.len()), Ok(0));
}

#[test]
fn a_drain_ends_at_the_first_error() {
    let mut index = corpus();
    index.postings_ids.put(&Index::posting_key_of(b"odd", 7), vec![1, 2, 3]);
    let mut last = Final::new(&index, Initial::new(Some(odd()), None));
    assert_eq!(last.drain(&RoaringBitmap::new(), 10).map(|results| results.len()), Err(SearchError::Bitmap));
}

#[test]
fn what_the_parent_is_told_to_leave_out() {
    let index = corpus();
    let mut last = Final::new(&index, Initial::new(Some(odd()), None));
    assert_eq!(last.exclusion(&bitmap(&[2, 4])), bitmap(&[2, 4]));
    let carried = CriterionResult { query_tree: None, candidates: Some(bitmap(&[1, 9])), bucket_candidates: bitmap(&[1, 9]) };
    assert!(last.finish_bucket(carried).is_ok());
    assert_eq!(last.exclusion(&bitmap(&[2, 4])), bitmap(&[1, 2, 4, 9]));
    assert_eq!(last.exclusion(&RoaringBitmap::new()), bitmap(&[1, 9]));
}

#[test]
fn each_answer_of_the_parent_is_finished() {
    let index = corpus();
    let mut last = Final::new(&index, Initial::new(None, None));
    assert_eq!(last.finish(Err(SearchError::Storage)).map(|item| item.is_some()), Err(SearchError::Storage));
    assert_eq!(last.finish(Ok(None)).map(|item| item.is_some()), Ok(false));
    assert_eq!(last.exclusion(&RoaringBitmap::new()), RoaringBitmap::new());
    let bucket = CriterionResult { query_tree: Some(odd()), candidates: None, bucket_candidates: bitmap(&[0]) };
    let item = last.finish(Ok(Some(bucket))).ok().flatten();
    assert_eq!(item.as_ref().map(|result| result.candidates.clone()), Some(bitmap(&[1, 3, 5, 7, 9])));
    assert_eq!(item.as_ref().map(|result| result.bucket_candidates.clone()), Some(bitmap(&[0, 1, 3, 5, 7, 9])));
    assert_eq!(last.exclusion(&RoaringBitmap::new()), bitmap(&[1, 3, 5, 7, 9]));
    let carried = CriterionResult { query_tree: None, candidates: Some(bitmap(&[2])), bucket_candidates: bitmap(&[2, 4]) };
    let item = last.finish(Ok(Some(carried))).ok().flatten();
    assert_eq!(item.map(|result| (result.candidates, result.bucket_candidates)), Some((bitmap(&[2]), bitmap(&[2, 4]))));
}
