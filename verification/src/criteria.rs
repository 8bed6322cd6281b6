//! The ranking criteria of a search: each one hands the documents of its
//! parent on in buckets, the best bucket first.

use roaring::RoaringBitmap;
use vstd::prelude::*;

use crate::bitmap::{difference_with, empty_bitmap, members};
use crate::criteria::finalizer::{are_apart, documents_of, Final, FinalResult};
use crate::criteria::proximity::Proximity;
use crate::criteria::relaxed::{last_level, level_docs, whole_after, Relaxation};
use crate::criteria::typo::Typo;
use crate::criteria::words::Words;
use crate::error::SearchError;
use crate::index::Index;
use crate::query_tree::{model_of, resolved, Operation, WordDerivationsCache};

pub mod asc_desc;
pub mod finalizer;
pub mod proximity;
pub mod relaxed;
pub mod typo;
pub mod words;

verus! {

/// The result of a call to the parent criterion.
pub struct CriterionResult {
    /// The query tree that must be used by the children criterion to fetch candidates.
    pub query_tree: Option<Operation>,
    /// The candidates that this criterion is allowed to return subsets of,
    /// if None, it is up to the child to compute the candidates itself.
    pub candidates: Option<RoaringBitmap>,
    /// Candidates that comes from the current bucket of the initial criterion.
    pub bucket_candidates: RoaringBitmap,
}

/// What a criterion is given when it is asked for its next bucket.
pub struct CriterionParameters<'a> {
    /// The words near the words of the query.
    pub wdcache: &'a mut WordDerivationsCache,
    /// The documents that the caller has used already.
    pub excluded_candidates: &'a RoaringBitmap,
}

/// The documents that a bucket carries: none where it carries no
/// candidates.
pub open spec fn carried(bucket: CriterionResult) -> Set<u32> {
    match bucket.candidates {
        Some(candidates) => members(&candidates),
        None => Set::empty(),
    }
}

/// Whether `bucket` is the first bucket of a stage that accounts for its
/// documents, which has `reach` still to hand out after it: the documents
/// of the bucket, and those still to hand out, are among the documents of
/// the first criterion's bucket, and each of these is in the bucket, or
/// still to hand out, or excluded.
pub open spec fn is_first(bucket: CriterionResult, reach: Set<u32>, excluded: Set<u32>) -> bool {
    let all = members(&bucket.bucket_candidates);
    &&& carried(bucket).subset_of(all)
    &&& reach.subset_of(all)
    &&& all.subset_of(carried(bucket).union(reach).union(excluded))
}

/// Whether `bucket` is a later bucket of a stage that accounts for its
/// documents, which had `before` still to hand out, and has `after`: the
/// bucket carries documents that were still to hand out, and each of
/// these is in the bucket, or still to hand out, or excluded.
pub open spec fn is_later(
    bucket: CriterionResult,
    before: Set<u32>,
    after: Set<u32>,
    excluded: Set<u32>,
) -> bool {
    &&& bucket.candidates is Some
    &&& carried(bucket).subset_of(before)
    &&& before.subset_of(after.union(carried(bucket)).union(excluded))
}

/// One stage of the ranking.
pub trait Criterion {
    /// Whether each bucket of the stage carries its documents. Of a stage
    /// that does not say so, this is not known.
    open spec fn carries(&self) -> bool {
        false
    }

    /// Whether each bucket of the stage has a query tree. Of a stage that
    /// does not say so, this is not known.
    open spec fn has_trees(&self) -> bool {
        false
    }

    /// Whether the stage has handed out nothing yet, and accounts for the
    /// documents of its first bucket. Of a stage that does not say so, this
    /// is not known.
    open spec fn starts(&self) -> bool {
        false
    }

    /// Whether the stage accounts for the documents that it has still to
    /// hand out. Of a stage that does not say so, this is not known.
    open spec fn counts(&self) -> bool {
        false
    }

    /// The documents that a stage that accounts for them has still to
    /// hand out.
    open spec fn reach(&self) -> Set<u32> {
        Set::empty()
    }

    /// Whether the stage leaves the words near the words of the query as
    /// they are. Of a stage that does not say so, this is not known.
    open spec fn keeps_near(&self) -> bool {
        false
    }

    /// Whether the stage has a bucket to hand out, or an error. Of a stage
    /// that does not say so, this is not known.
    open spec fn has_more(&self) -> bool {
        false
    }

    /// Whether the stage reads what can be read, and so does not fail. Of
    /// a stage that does not say so, this is not known.
    open spec fn reads(&self) -> bool {
        false
    }

    /// The query tree of the first bucket of a stage that starts and does
    /// not carry the documents of its buckets.
    open spec fn first_tree(&self) -> Option<Operation> {
        None
    }

    /// The documents of the first criterion's bucket, as the first bucket
    /// of a stage that starts has them, for the words `near` the words of
    /// the query; `None` where the stage does not say.
    open spec fn whole(&self, near: &WordDerivationsCache) -> Option<Set<u32>> {
        None
    }

    /// The next bucket, `None` when there is none left. A bucket that
    /// carries candidates carries none of the excluded documents.
    ///
    /// What a stage says of itself, it keeps: a stage whose buckets carry
    /// their documents, or have a query tree, remains one; a stage that
    /// leaves the words near the words of the query leaves them; and a
    /// stage that accounts for its documents loses none: each document that
    /// it had still to hand out is in the bucket, or still to hand out, or
    /// excluded, and at its end all that was left is excluded.
    fn next(&mut self, params: &mut CriterionParameters<'_>) -> (bucket: Result<
        Option<CriterionResult>,
        SearchError,
    >)
        ensures
            final(params).excluded_candidates == old(params).excluded_candidates,
            bucket matches Ok(Some(found)) ==> (found.candidates matches Some(candidates)
                ==> members(&candidates).disjoint(members(old(params).excluded_candidates))),
            old(self).carries() ==> final(self).carries() && (bucket matches Ok(Some(found))
                ==> found.candidates is Some),
            old(self).has_trees() ==> final(self).has_trees() && (bucket matches Ok(Some(found))
                ==> found.query_tree is Some),
            old(self).starts() ==> final(self).counts() && (bucket matches Ok(Some(found))
                ==> is_first(
                found,
                final(self).reach(),
                members(old(params).excluded_candidates),
            )),
            old(self).keeps_near() ==> final(self).keeps_near() && *final(params).wdcache == *old(
                params,
            ).wdcache,
            old(self).has_more() ==> !(bucket matches Ok(None)),
            old(self).reads() ==> final(self).reads() && bucket is Ok,
            old(self).starts() && !old(self).carries() ==> (bucket matches Ok(Some(found))
                ==> found.candidates is None && found.query_tree == old(self).first_tree()
                && members(&found.bucket_candidates) == Set::<u32>::empty()),
            old(self).starts() ==> (bucket matches Ok(Some(found)) ==> (old(self).whole(
                &*final(params).wdcache,
            ) matches Some(all) ==> members(&found.bucket_candidates) == all)),
            old(self).counts() ==> final(self).counts() && final(self).reach().subset_of(
                old(self).reach(),
            ) && match bucket {
                Ok(Some(found)) => is_later(
                    found,
                    old(self).reach(),
                    final(self).reach(),
                    members(old(params).excluded_candidates),
                ),
                Ok(None) => old(self).reach().subset_of(members(old(params).excluded_candidates)),
                Err(_) => true,
            },
    ;
}

/// The first stage of every ranking: it hands the query on, in one bucket.
pub struct Initial {
    answer: Option<CriterionResult>,
}

impl Initial {
    /// The bucket that is still to be handed on.
    pub closed spec fn answer(&self) -> Option<CriterionResult> {
        self.answer
    }

    /// A stage that hands on `query_tree`, with the documents that a facet
    /// filter left, if there was one.
    pub fn new(query_tree: Option<Operation>, facet_candidates: Option<RoaringBitmap>) -> (initial:
        Initial)
        ensures
            initial.answer() matches Some(answer) && answer.query_tree == query_tree
                && answer.candidates == facet_candidates && members(&answer.bucket_candidates)
                == Set::<u32>::empty(),
            initial.carries() == (facet_candidates is Some),
            initial.has_trees() == (query_tree is Some),
            initial.starts() == (facet_candidates is None),
            initial.counts() == (facet_candidates is Some),
            initial.reach() == match facet_candidates {
                Some(candidates) => members(&candidates),
                None => Set::<u32>::empty(),
            },
            initial.first_tree() == query_tree,
            initial.has_more(),
    {
        Initial {
            answer: Some(
                CriterionResult {
                    query_tree,
                    candidates: facet_candidates,
                    bucket_candidates: empty_bitmap(),
                },
            ),
        }
    }
}

impl Criterion for Initial {
    /// The bucket that is still to be handed on, if there is one, carries
    /// the documents that a facet filter left.
    closed spec fn carries(&self) -> bool {
        self.answer matches Some(answer) ==> answer.candidates is Some
    }

    /// The bucket that is still to be handed on, if there is one, has a
    /// query tree.
    closed spec fn has_trees(&self) -> bool {
        self.answer matches Some(answer) ==> answer.query_tree is Some
    }

    /// The bucket that is still to be handed on, if there is one, carries
    /// no documents, and none of the first criterion's bucket.
    closed spec fn starts(&self) -> bool {
        self.answer matches Some(answer) ==> answer.candidates is None && members(
            &answer.bucket_candidates,
        ) == Set::<u32>::empty()
    }

    /// The bucket that is still to be handed on, if there is one, carries
    /// its documents.
    closed spec fn counts(&self) -> bool {
        self.answer matches Some(answer) ==> answer.candidates is Some
    }

    /// The documents of the bucket that is still to be handed on.
    closed spec fn reach(&self) -> Set<u32> {
        match self.answer {
            Some(answer) => carried(answer),
            None => Set::empty(),
        }
    }

    /// The stage does not touch the words near the words of the query.
    open spec fn keeps_near(&self) -> bool {
        true
    }

    /// The bucket is still to be handed on.
    closed spec fn has_more(&self) -> bool {
        self.answer is Some
    }

    /// The stage reads nothing.
    open spec fn reads(&self) -> bool {
        true
    }

    /// The query tree of the bucket that is still to be handed on.
    closed spec fn first_tree(&self) -> Option<Operation> {
        match self.answer {
            Some(answer) => answer.query_tree,
            None => None,
        }
    }

    /// The one bucket of the stage, then `None`. Its candidates, where it
    /// has some, are those of the facet filter without the excluded ones.
    fn next(&mut self, params: &mut CriterionParameters<'_>) -> (bucket: Result<
        Option<CriterionResult>,
        SearchError,
    >)
        ensures
            final(self).answer() is None,
            match old(self).answer() {
                None => bucket matches Ok(None),
                Some(answer) => bucket matches Ok(Some(found)) && found.query_tree
                    == answer.query_tree && found.bucket_candidates == answer.bucket_candidates
                    && match answer.candidates {
                    None => found.candidates is None,
                    Some(candidates) => found.candidates matches Some(left) && members(&left)
                        == members(&candidates).difference(
                        members(old(params).excluded_candidates),
                    ),
                },
            },
    {
        match self.answer.take() {
            None => Ok(None),
            Some(answer) => {
                let CriterionResult { query_tree, candidates, bucket_candidates } = answer;
                let candidates = match candidates {
                    None => None,
                    Some(mut candidates) => {
                        difference_with(&mut candidates, params.excluded_candidates);
                        Some(candidates)
                    },
                };
                Ok(Some(CriterionResult { query_tree, candidates, bucket_candidates }))
            },
        }
    }
}

/// The relaxation of the criterion of the words: by the words that are
/// left out where the words of the query are optional, and none where they
/// are not.
pub open spec fn words_kind(optional_words: bool) -> Relaxation {
    if optional_words {
        Relaxation::Words
    } else {
        Relaxation::Nothing
    }
}

/// The buckets of a query, the best first, ranked by the words of the
/// query that the documents have, then by the typos, then by the proximity
/// of the words: at most `limit` buckets, among the documents that a facet
/// filter left, if there was one. No document comes in two buckets. The
/// first error ends the search, and is returned alone.
pub fn ranked_buckets(
    index: &Index,
    query_tree: Operation,
    facet_candidates: Option<RoaringBitmap>,
    near: WordDerivationsCache,
    optional_words: bool,
    limit: usize,
) -> (buckets: Result<Vec<FinalResult>, SearchError>)
    requires
        index.wf(),
    ensures
        buckets matches Ok(found) ==> found@.len() <= limit && are_apart(
            found@,
            Set::<u32>::empty(),
        ),
        // a search in an index whose bitmaps can all be read does not fail
        index.reads_well() ==> buckets is Ok,
        // there is a bucket, where one is asked for
        buckets matches Ok(found) ==> (limit > 0 ==> found@.len() > 0),
        // without a filter, the documents of the first criterion's bucket
        // are those that the query matches at the last level of the
        // relaxation of its words
        buckets matches Ok(found) ==> (facet_candidates is None && found@.len() > 0 ==> (
        level_docs(
            index,
            &near,
            words_kind(optional_words),
            model_of(query_tree),
            last_level(words_kind(optional_words), model_of(query_tree)),
        ) matches Ok(asked) ==> members(&found@[0].bucket_candidates) == asked)),
        // so the buckets of a query whose words are not optional, where they
        // came to their end, have the documents that the query tree matches
        buckets matches Ok(found) ==> (facet_candidates is None && !optional_words && 0
            < found@.len() < limit ==> (resolved(index, &near, model_of(query_tree)) matches Ok(
            all,
        ) ==> documents_of(found@, found@.len() as int) == all)),
        // where the buckets came to their end, no document is lost: they
        // have the documents of the filter, where there is one, and those
        // of the first criterion's bucket, where there is none
        buckets matches Ok(found) ==> (found@.len() < limit ==> match facet_candidates {
            Some(candidates) => documents_of(found@, found@.len() as int) == members(&candidates),
            None => found@.len() > 0 ==> documents_of(found@, found@.len() as int) == members(
                &found@[0].bucket_candidates,
            ),
        }),
{
    let ghost filter: Option<Set<u32>> = if facet_candidates is Some {
        Some(members(&facet_candidates->Some_0))
    } else {
        None
    };
    let ghost tree = query_tree;
    let ghost given = near;
    let initial = Initial::new(Some(query_tree), facet_candidates);
    let ghost first = initial.whole(&given);
    let words = Words::new(index, initial, optional_words);
    let ghost second = words.whole(&given);
    let typo = Typo::new(index, words);
    let ghost third = typo.whole(&given);
    let proximity = Proximity::new(index, typo);
    let ghost fourth = proximity.whole(&given);
    let mut last = Final::with_cache(index, proximity, near);
    assert(last.whole(&given) == fourth);
    assert(fourth == third);
    assert(filter is None ==> third == second);
    assert(filter is None ==> second == whole_after(
        index,
        words_kind(optional_words),
        false,
        Some(tree),
        first,
        &given,
    ));
    let excluded = empty_bitmap();
    let buckets = last.drain(&excluded, limit);
    proof {
        let none = Set::<u32>::empty().union(members(&excluded));
        assert(none =~= Set::<u32>::empty());
        if buckets is Ok && buckets->Ok_0@.len() < limit {
            let found = buckets->Ok_0@;
            let docs = documents_of(found, found.len() as int);
            if filter is Some {
                assert(docs =~= filter->Some_0);
            } else if found.len() > 0 {
                assert(docs =~= members(&found[0].bucket_candidates));
            }
        }
    }
    buckets
}

} // verus!
