//! The criterion of the words: the documents that have all the words of the
//! query come first, then those that have all but the last one, and so on.

use vstd::prelude::*;

use crate::bitmap::members;
use crate::criteria::relaxed::{whole_after, Relaxation, TreeRanking};
use crate::criteria::{Criterion, CriterionParameters, CriterionResult};
use crate::error::SearchError;
use crate::index::Index;
use crate::query_tree::WordDerivationsCache;

verus! {

/// The criterion of the words.
pub struct Words<'t, P: Criterion> {
    parent: P,
    ranking: TreeRanking<'t>,
}

impl<'t, P: Criterion> Words<'t, P> {
    /// The ranking of the buckets.
    pub closed spec fn ranking(&self) -> TreeRanking<'t> {
        self.ranking
    }

    /// A criterion of the words after `parent`. Where the words are not
    /// optional, the query stays as it is.
    pub fn new(index: &'t Index, parent: P, optional_words: bool) -> (words: Words<'t, P>)
        requires
            index.wf(),
        ensures
            words.ranking().index() == index,
            words.ranking().kind() == if optional_words {
                Relaxation::Words
            } else {
                Relaxation::Nothing
            },
            !words.ranking().is_ranking(),
            words.starts() == (parent.starts() && (parent.carries() || parent.has_trees())),
            words.counts() == parent.counts(),
            words.reach() == parent.reach(),
            words.keeps_near() == parent.keeps_near(),
            words.has_more() == parent.has_more(),
            words.reads() == (parent.reads() && index.reads_well()),
            forall|near: WordDerivationsCache| #[trigger]
                words.whole(&near) == whole_after(
                    index,
                    words.ranking().kind(),
                    parent.carries(),
                    parent.first_tree(),
                    parent.whole(&near),
                    &near,
                ),
            words.carries() == (parent.carries() || parent.has_trees()),
            words.has_trees() == parent.has_trees(),
    {
        let kind = if optional_words {
            Relaxation::Words
        } else {
            Relaxation::Nothing
        };
        Words { parent, ranking: TreeRanking::new(index, kind) }
    }
}

impl<'t, P: Criterion> Criterion for Words<'t, P> {
    /// The parent does not fail, and the bitmaps of the index can all be
    /// read.
    closed spec fn reads(&self) -> bool {
        self.parent.reads() && self.ranking.index().wf() && self.ranking.index().reads_well()
    }

    /// A bucket is being ranked, or the parent has a bucket to hand out.
    closed spec fn has_more(&self) -> bool {
        self.ranking.is_ranking() || self.parent.has_more()
    }

    /// The parent leaves the words near the words of the query as they are.
    closed spec fn keeps_near(&self) -> bool {
        self.parent.keeps_near()
    }

    /// The documents of the first criterion's bucket, as the first bucket
    /// of the criterion has them.
    closed spec fn whole(&self, near: &WordDerivationsCache) -> Option<Set<u32>> {
        whole_after(
            self.ranking.index(),
            self.ranking.kind(),
            self.parent.carries(),
            self.parent.first_tree(),
            self.parent.whole(near),
            near,
        )
    }

    /// No bucket is being ranked, and the parent accounts for the
    /// documents of its first bucket, which this criterion can take.
    closed spec fn starts(&self) -> bool {
        !self.ranking.is_ranking() && self.parent.starts() && (self.parent.carries() || self.parent.has_trees())
    }

    /// The parent accounts for the documents that it has still to hand out.
    closed spec fn counts(&self) -> bool {
        self.parent.counts()
    }

    /// The documents that are still to rank, and those that the parent has
    /// still to hand out.
    closed spec fn reach(&self) -> Set<u32> {
        if self.ranking.is_ranking() {
            self.ranking.left().union(self.parent.reach())
        } else {
            self.parent.reach()
        }
    }

    /// Each bucket of the criterion carries its documents.
    closed spec fn carries(&self) -> bool {
        self.parent.carries() || self.parent.has_trees()
    }

    /// Each bucket of the criterion has a query tree.
    closed spec fn has_trees(&self) -> bool {
        self.parent.has_trees()
    }

    /// The next bucket of the bucket that is being ranked, or of the next
    /// bucket of the parent where none is: the documents that have the most
    /// words of the query come first. A bucket of the parent that has no
    /// query tree is handed on as it is.
    fn next(&mut self, params: &mut CriterionParameters<'_>) -> (bucket: Result<
        Option<CriterionResult>,
        SearchError,
    >)
        ensures
            // while a bucket of the parent is being ranked, the parent is not
            // asked; else it is asked, and its answer decides
            if old(self).ranking().is_ranking() {
                old(self).ranking().ranks_on(
                    &final(self).ranking(),
                    &*old(params).wdcache, members(old(params).excluded_candidates),
                    bucket,
                )
            } else {
                exists|answer: Result<Option<CriterionResult>, SearchError>|
                    #[trigger] old(self).ranking().resumes_to(
                        &final(self).ranking(),
                        answer,
                        &*final(params).wdcache,
                        members(old(params).excluded_candidates),
                        bucket,
                    )
            },
            // the buckets of one bucket of the parent come in their order
            old(self).ranking().is_ranking() && final(self).ranking().is_ranking() && bucket is Ok
                ==> old(self).ranking().level() < final(self).ranking().level(),
    {
        if !self.ranking.has_bucket() {
            let answer = self.parent.next(params);
            let handed = self.ranking.resume(answer, params.wdcache, params.excluded_candidates);
            proof {
                if old(self).reads() && answer is Ok {
                    old(self).ranking().lemma_resumes_read(
                        &self.ranking(),
                        answer,
                        &*params.wdcache,
                        members(params.excluded_candidates),
                        handed,
                    );
                }
            }
            assert(old(self).ranking().resumes_to(
                &self.ranking(),
                answer,
                &*params.wdcache,
                members(params.excluded_candidates),
                handed,
            ));
            handed
        } else {
            let handed = self.ranking.rank_on(params.wdcache, params.excluded_candidates);
            proof {
                if old(self).reads() {
                    old(self).ranking().lemma_ranks_read(
                        &self.ranking(),
                        &*params.wdcache, members(params.excluded_candidates),
                        handed,
                    );
                }
            }
            assert(old(self).ranking().ranks_on(
                &self.ranking(),
                &*params.wdcache,
                members(params.excluded_candidates),
                handed,
            ));
            handed
        }
    }
}

} // verus!
