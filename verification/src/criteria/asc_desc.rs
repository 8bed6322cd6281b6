//! The criterion of a faceted field: the documents with the smallest value
//! of the field come first, or those with the largest one.

use roaring::RoaringBitmap;
use vstd::prelude::*;

use crate::bitmap::{copy_bitmap, difference_with, members, union_with};
use crate::criteria::finalizer::candidates_of;
use crate::criteria::{carried, Criterion, CriterionParameters, CriterionResult};
use crate::error::SearchError;
use crate::facet::facet_iter::{docids_at, facet_docs, is_facet_tree, FacetIter};
use crate::facet::store::{FacetStore, FieldId};
use crate::index::Index;
use crate::query_tree::{
    copy_operation,
    model_of,
    resolve_query_tree,
    Operation,
    OperationModel,
    ResolveCache,
    WordDerivationsCache,
};

verus! {

/// A bucket of the parent whose documents are being ranked.
struct Descent {
    query_tree: Option<Operation>,
    iter: FacetIter,
    left: RoaringBitmap,
    bucket_candidates: RoaringBitmap,
}

/// The ranking of the buckets of a parent by the values of a faceted field.
pub struct FacetRanking<'t> {
    index: &'t Index,
    store: &'t FacetStore,
    field_id: FieldId,
    ascending: bool,
    current: Option<Descent>,
}

/// The criterion of a faceted field.
pub struct AscDesc<'t, P: Criterion> {
    parent: P,
    ranking: FacetRanking<'t>,
}

/// What an optional tree stands for.
pub open spec fn tree_of(query_tree: Option<Operation>) -> Option<OperationModel> {
    match query_tree {
        Some(tree) => Some(model_of(tree)),
        None => None,
    }
}

/// Whether `candidates` is the bucket of `value`, which the entry at `place`
/// holds, in a step of a descent from `before` to `after`: the documents of
/// that value that were still looked for, without the excluded ones. Over a
/// tree, `value` comes after every value that the descent had passed.
pub open spec fn is_value_bucket(
    store: &FacetStore,
    before: FacetIter,
    after: FacetIter,
    excluded: Set<u32>,
    candidates: Set<u32>,
    value: i64,
    place: int,
) -> bool {
    let tree = is_facet_tree(store, before.field_id());
    let found = docids_at(store, place).intersect(before.owed(store));
    &&& 0 <= place < store.keys().len()
    &&& store.keys()[place].field_id == before.field_id()
    &&& store.keys()[place].level == 0
    &&& store.keys()[place].left == value
    &&& candidates.subset_of(docids_at(store, place))
    &&& tree ==> candidates == found.difference(excluded)
    &&& tree ==> before.owed(store) == after.owed(store).union(found)
    &&& tree ==> after.is_beyond(store, value)
    &&& tree ==> forall|bound: i64|
        #![trigger before.is_beyond(store, bound)]
        before.is_beyond(store, bound) ==> if before.is_ascending() {
            bound < value
        } else {
            value < bound
        }
}

impl<'t> FacetRanking<'t> {
    /// The tables are in order, and the descent goes through the tree of
    /// the field, in the direction of the ranking, among the documents that
    /// are still to rank.
    #[verifier::type_invariant]
    spec fn inv(self) -> bool {
        &&& self.index.wf()
        &&& self.store.wf()
        &&& self.current matches Some(descent) ==> {
            &&& descent.iter.wf(self.store)
            &&& descent.iter.field_id() == self.field_id
            &&& descent.iter.is_ascending() == self.ascending
            &&& descent.iter.must_reduce()
            &&& descent.iter.pending().subset_of(members(&descent.left))
        }
    }

    /// The index that the search reads.
    pub closed spec fn index(&self) -> &Index {
        self.index
    }

    /// The facet tree that the search reads.
    pub closed spec fn store(&self) -> &FacetStore {
        self.store
    }

    /// The field by whose values the documents are ranked.
    pub closed spec fn field_id(&self) -> FieldId {
        self.field_id
    }

    /// Whether the smallest values come first.
    pub closed spec fn is_ascending(&self) -> bool {
        self.ascending
    }

    /// A bucket of the parent is being ranked.
    pub closed spec fn is_ranking(&self) -> bool {
        self.current is Some
    }

    /// The descent through the values of the bucket that is being ranked.
    pub closed spec fn descent(&self) -> FacetIter {
        self.current->Some_0.iter
    }

    /// The query tree of the bucket that is being ranked.
    pub closed spec fn tree(&self) -> Option<OperationModel> {
        tree_of(self.current->Some_0.query_tree)
    }

    /// The documents that are still to rank.
    pub closed spec fn left(&self) -> Set<u32> {
        members(&self.current->Some_0.left)
    }

    /// The documents of the first criterion's bucket.
    pub closed spec fn bucket(&self) -> Set<u32> {
        members(&self.current->Some_0.bucket_candidates)
    }

    /// A ranking by the values of `field_id` that has no bucket to rank yet.
    pub fn new(index: &'t Index, store: &'t FacetStore, field_id: FieldId, ascending: bool) -> (ranking:
        FacetRanking<'t>)
        requires
            index.wf(),
            store.wf(),
        ensures
            ranking.index() == index,
            ranking.store() == store,
            ranking.field_id() == field_id,
            ranking.is_ascending() == ascending,
            !ranking.is_ranking(),
    {
        FacetRanking { index, store, field_id, ascending, current: None }
    }

    /// Whether a bucket of the parent is being ranked.
    pub fn has_bucket(&self) -> (ranking: bool)
        ensures
            ranking == self.is_ranking(),
    {
        self.current.is_some()
    }

    /// Whether `started` is what the ranking answers when it takes `bucket`
    /// from the parent, and `after` the ranking that it then is: the
    /// documents of the bucket, carried or fetched, are ranked from then
    /// on, without the excluded ones.
    pub open spec fn starts_to(
        &self,
        after: &FacetRanking<'t>,
        bucket: CriterionResult,
        wdcache: &WordDerivationsCache,
        excluded: Set<u32>,
        started: Result<(), SearchError>,
    ) -> bool {
        &&& after.index() == self.index()
        &&& after.store() == self.store()
        &&& after.field_id() == self.field_id()
        &&& after.is_ascending() == self.is_ascending()
        &&& match candidates_of(self.index(), wdcache, bucket) {
            Err(error) => {
                &&& started == Err::<(), SearchError>(error)
                &&& !after.is_ranking()
            },
            Ok(asked) => {
                &&& started is Ok
                &&& after.is_ranking()
                &&& after.tree() == tree_of(bucket.query_tree)
                &&& after.left() == asked.difference(excluded)
                &&& after.descent().pending() == after.left()
                &&& is_facet_tree(self.store(), self.field_id())
                    ==> after.descent().owed(self.store())
                        == after.left().intersect(
                        facet_docs(self.store(), self.field_id()),
                    )
                &&& after.bucket() == if bucket.candidates is Some {
                    members(&bucket.bucket_candidates)
                } else {
                    members(&bucket.bucket_candidates).union(asked)
                }
            },
        }
    }

    /// Takes a bucket of the parent: its documents are ranked from now on,
    /// those that it carries, or those that are fetched for it, without the
    /// excluded ones.
    pub fn start(
        &mut self,
        bucket: CriterionResult,
        wdcache: &WordDerivationsCache,
        excluded_candidates: &RoaringBitmap,
    ) -> (started: Result<(), SearchError>)
        ensures
            old(self).starts_to(final(self), bucket, wdcache, members(excluded_candidates), started),
    {
        proof {
            use_type_invariant(&*self);
        }
        let CriterionResult { query_tree, candidates, bucket_candidates } = bucket;
        let mut bucket_candidates = bucket_candidates;
        let mut left: RoaringBitmap = match candidates {
            Some(candidates) => candidates,
            None => {
                let fetched: Result<RoaringBitmap, SearchError> = match &query_tree {
                    Some(tree) => {
                        let mut cache = ResolveCache::new();
                        resolve_query_tree(self.index, tree, &mut cache, wdcache)
                    },
                    None => self.index.documents_ids(),
                };
                match fetched {
                    Err(error) => {
                        self.current = None;
                        return Err(error);
                    },
                    Ok(matching) => {
                        union_with(&mut bucket_candidates, &matching);
                        matching
                    },
                }
            },
        };
        difference_with(&mut left, excluded_candidates);
        let iter = if self.ascending {
            FacetIter::new_reducing(self.store, self.field_id, copy_bitmap(&left))
        } else {
            FacetIter::new_reverse_reducing(self.store, self.field_id, copy_bitmap(&left))
        };
        self.current = Some(Descent { query_tree, iter, left, bucket_candidates });
        Ok(())
    }

    /// Whether `handed` is what the ranking hands out next, and `after` the
    /// ranking that it then is. The bucket is that of the next value of the
    /// field among the documents still to rank; the last bucket holds the
    /// documents that have no value. An error is a bitmap that cannot be
    /// read, which a well-formed facet tree does not hold.
    pub open spec fn ranks_to(
        &self,
        after: &FacetRanking<'t>,
        excluded: Set<u32>,
        handed: Result<CriterionResult, SearchError>,
    ) -> bool {
        match handed {
            Ok(found) => {
                &&& found.candidates matches Some(candidates)
                &&& members(&candidates).disjoint(excluded)
                &&& members(&candidates).subset_of(self.left())
                &&& members(&found.bucket_candidates) == self.bucket()
                &&& tree_of(found.query_tree) == self.tree()
                &&& if after.is_ranking() {
                    &&& after.tree() == self.tree()
                    &&& after.bucket() == self.bucket()
                    &&& after.left().subset_of(self.left())
                    &&& members(&candidates).disjoint(after.left())
                    &&& self.left().subset_of(
                        after.left().union(members(&candidates)).union(excluded),
                    )
                    &&& exists|value: i64, i: int|
                        #[trigger] is_value_bucket(
                            self.store(),
                            self.descent(),
                            after.descent(),
                            excluded,
                            members(&candidates),
                            value,
                            i,
                        )
                } else {
                    // no value is left: what is still to rank
                    &&& members(&candidates) == self.left().difference(
                        excluded,
                    )
                    &&& is_facet_tree(self.store(), self.field_id())
                        ==> self.descent().owed(self.store()) == Set::<u32>::empty()
                }
            },
            Err(error) => {
                &&& error == SearchError::Bitmap
                &&& after.is_ranking()
                &&& after.left() == self.left()
                &&& !is_facet_tree(self.store(), self.field_id())
            },
        }
    }

    /// The next bucket of the bucket that is being ranked: the documents,
    /// among those still to rank, that have the next value of the field,
    /// without the excluded ones. When no value is left, the documents that
    /// are still to rank, which have no value in the field, make the last
    /// bucket, and the ranking of the bucket is over.
    pub fn rank(&mut self, excluded_candidates: &RoaringBitmap) -> (handed: Result<
        CriterionResult,
        SearchError,
    >)
        requires
            old(self).is_ranking(),
        ensures
            final(self).index() == old(self).index(),
            final(self).store() == old(self).store(),
            final(self).field_id() == old(self).field_id(),
            final(self).is_ascending() == old(self).is_ascending(),
            old(self).ranks_to(final(self), members(excluded_candidates), handed),
    {
        proof {
            use_type_invariant(&*self);
        }
        let mut current: Option<Descent> = None;
        std::mem::swap(&mut self.current, &mut current);
        let descent: Descent = match current {
            Some(descent) => descent,
            None => vstd::pervasive::unreached(),
        };
        let Descent { query_tree, iter, left, bucket_candidates } = descent;
        let mut iter = iter;
        let mut left = left;
        let ghost before = iter;
        let ghost asked = members(&left);
        match iter.next(self.store) {
            None => {
                difference_with(&mut left, excluded_candidates);
                Ok(CriterionResult { query_tree, candidates: Some(left), bucket_candidates })
            },
            Some(Err(error)) => {
                self.current = Some(Descent { query_tree, iter, left, bucket_candidates });
                Err(error)
            },
            Some(Ok((value, docids))) => {
                let ghost found = members(&docids);
                let ghost place = choose|i: int|
                    0 <= i < self.store.keys().len() && (#[trigger] self.store.keys()[i]).field_id
                        == before.field_id() && self.store.keys()[i].level == 0
                        && self.store.keys()[i].left == value && found.subset_of(
                        docids_at(self.store, i),
                    ) && (is_facet_tree(self.store, before.field_id()) && before.must_reduce()
                        ==> found == docids_at(self.store, i).intersect(before.owed(self.store)));
                let mut docids = docids;
                difference_with(&mut left, &docids);
                difference_with(&mut docids, excluded_candidates);
                let tree_copy = match &query_tree {
                    Some(tree) => Some(copy_operation(tree)),
                    None => None,
                };
                let handed = CriterionResult {
                    query_tree: tree_copy,
                    candidates: Some(docids),
                    bucket_candidates: copy_bitmap(&bucket_candidates),
                };
                proof {
                    assert(iter.pending().subset_of(members(&left)));
                }
                self.current = Some(Descent { query_tree, iter, left, bucket_candidates });
                proof {
                    assert(old(self).descent() == before);
                    assert(members(&handed.candidates->Some_0) =~= found.difference(
                        members(excluded_candidates),
                    ));
                    assert(is_value_bucket(
                        old(self).store(),
                        old(self).descent(),
                        self.descent(),
                        members(excluded_candidates),
                        members(&handed.candidates->Some_0),
                        value,
                        place,
                    ));
                }
                Ok(handed)
            },
        }
    }

    /// Whether `handed` is the next bucket of the ranking, which is never
    /// missing while a bucket of the parent is being ranked, and `after` the
    /// ranking that it then is.
    pub open spec fn ranks_on(
        &self,
        after: &FacetRanking<'t>,
        excluded: Set<u32>,
        handed: Result<Option<CriterionResult>, SearchError>,
    ) -> bool {
        &&& after.index() == self.index()
        &&& after.store() == self.store()
        &&& after.field_id() == self.field_id()
        &&& after.is_ascending() == self.is_ascending()
        &&& match handed {
            Ok(Some(found)) => self.ranks_to(after, excluded, Ok(found)),
            Ok(None) => false,
            Err(error) => self.ranks_to(after, excluded, Err(error)),
        }
    }

    /// The next bucket of the bucket that is being ranked, as a criterion
    /// hands it out.
    pub fn rank_on(&mut self, excluded_candidates: &RoaringBitmap) -> (handed: Result<
        Option<CriterionResult>,
        SearchError,
    >)
        requires
            old(self).is_ranking(),
        ensures
            old(self).ranks_on(final(self), members(excluded_candidates), handed),
    {
        match self.rank(excluded_candidates) {
            Ok(found) => Ok(Some(found)),
            Err(error) => Err(error),
        }
    }

    /// Whether `handed` is what the ranking hands out for `answer`, the
    /// answer of its parent, while no bucket is being ranked, and `after`
    /// the ranking that it then is. An error of the parent, and its end,
    /// are handed on as they are. A bucket of the parent is taken, and
    /// where it is ranked, the first bucket of its ranking is handed out.
    pub open spec fn resumes_to(
        &self,
        after: &FacetRanking<'t>,
        answer: Result<Option<CriterionResult>, SearchError>,
        wdcache: &WordDerivationsCache,
        excluded: Set<u32>,
        handed: Result<Option<CriterionResult>, SearchError>,
    ) -> bool {
        match answer {
            Err(error) => handed == Err::<Option<CriterionResult>, SearchError>(error) && *after
                == *self,
            Ok(None) => handed matches Ok(None) && *after == *self,
            Ok(Some(bucket)) => exists|mid: FacetRanking<'t>, started: Result<(), SearchError>|
                #[trigger] self.starts_to(&mid, bucket, wdcache, excluded, started)
                    && match started {
                    Ok(_) => mid.ranks_on(after, excluded, handed),
                    Err(error) => handed == Err::<Option<CriterionResult>, SearchError>(error)
                        && *after == mid,
                },
        }
    }

    /// What the ranking hands out for `answer`, the answer of its parent,
    /// while no bucket is being ranked.
    pub fn resume(
        &mut self,
        answer: Result<Option<CriterionResult>, SearchError>,
        wdcache: &WordDerivationsCache,
        excluded_candidates: &RoaringBitmap,
    ) -> (handed: Result<Option<CriterionResult>, SearchError>)
        requires
            !old(self).is_ranking(),
        ensures
            old(self).resumes_to(final(self), answer, wdcache, members(excluded_candidates), handed),
    {
        match answer {
            Err(error) => Err(error),
            Ok(None) => Ok(None),
            Ok(Some(bucket)) => {
                let started = self.start(bucket, wdcache, excluded_candidates);
                let ghost mid = *self;
                assert(old(self).starts_to(
                    &mid,
                    bucket,
                    wdcache,
                    members(excluded_candidates),
                    started,
                ));
                match started {
                    Ok(_) => self.rank_on(excluded_candidates),
                    Err(error) => Err(error),
                }
            },
        }
    }

    /// In an index whose bitmaps can all be read, over a
    /// field whose entries form a tree, the ranking of a
    /// bucket does not fail.
    pub proof fn lemma_ranks_read(
        &self,
        after: &FacetRanking<'t>,
        excluded: Set<u32>,
        handed: Result<Option<CriterionResult>, SearchError>,
    )
        requires
            self.index().wf(),
            self.index().reads_well(),
            is_facet_tree(self.store(), self.field_id()),
            self.ranks_on(after, excluded, handed),
        ensures
            handed is Ok,
    {
        assert(handed is Ok);
    }

    /// In an index whose bitmaps can all be read, over a
    /// field whose entries form a tree, an answer of the
    /// parent that is no error is taken without an error.
    pub proof fn lemma_resumes_read(
        &self,
        after: &FacetRanking<'t>,
        answer: Result<Option<CriterionResult>, SearchError>,
        wdcache: &WordDerivationsCache,
        excluded: Set<u32>,
        handed: Result<Option<CriterionResult>, SearchError>,
    )
        requires
            self.index().wf(),
            self.index().reads_well(),
            is_facet_tree(self.store(), self.field_id()),
            answer is Ok,
            self.resumes_to(after, answer, wdcache, excluded, handed),
        ensures
            handed is Ok,
    {
        if answer->Ok_0 is Some {
            let bucket = answer->Ok_0->Some_0;
            let (mid, started) = choose|mid: FacetRanking<'t>, started: Result<(), SearchError>|
                #[trigger] self.starts_to(&mid, bucket, wdcache, excluded, started)
                    && match started {
                    Ok(_) => mid.ranks_on(after, excluded, handed),
                    Err(error) => handed == Err::<Option<CriterionResult>, SearchError>(error)
                        && *after == mid,
                };
            if bucket.candidates is None && bucket.query_tree is Some {
                crate::query_tree::lemma_tree_reads(
                    self.index(),
                    wdcache,
                    model_of(bucket.query_tree->Some_0),
                );
            }
            if started is Ok {
                mid.lemma_ranks_read(after, excluded, handed);
            }
        }
    }
}

impl<'t, P: Criterion> AscDesc<'t, P> {
    /// The ranking of the buckets.
    pub closed spec fn ranking(&self) -> FacetRanking<'t> {
        self.ranking
    }

    /// A criterion after `parent` that ranks by the values of `field_id`,
    /// from the smallest one up where `ascending` is set, and from the
    /// largest one down where it is not.
    pub fn new(
        index: &'t Index,
        store: &'t FacetStore,
        field_id: FieldId,
        ascending: bool,
        parent: P,
    ) -> (criterion: AscDesc<'t, P>)
        requires
            index.wf(),
            store.wf(),
        ensures
            criterion.ranking().index() == index,
            criterion.ranking().store() == store,
            criterion.ranking().field_id() == field_id,
            criterion.ranking().is_ascending() == ascending,
            !criterion.ranking().is_ranking(),
            criterion.starts() == (parent.starts() && parent.carries()),
            criterion.counts() == parent.counts(),
            criterion.reach() == parent.reach(),
            criterion.keeps_near() == parent.keeps_near(),
            criterion.has_more() == parent.has_more(),
            criterion.reads() == (parent.reads() && index.reads_well() && is_facet_tree(store, field_id)),
            forall|near: WordDerivationsCache| #[trigger] criterion.whole(&near) == parent.whole(&near),
            criterion.carries(),
    {
        AscDesc { parent, ranking: FacetRanking::new(index, store, field_id, ascending) }
    }
}

impl<'t, P: Criterion> Criterion for AscDesc<'t, P> {
    /// The parent does not fail, and the bitmaps of the index can all be
    /// read, over a field whose entries form a tree.
    closed spec fn reads(&self) -> bool {
        self.parent.reads() && self.ranking.index().wf() && self.ranking.index().reads_well()
            && is_facet_tree(self.ranking.store(), self.ranking.field_id())
    }

    /// A bucket is being ranked, or the parent has a bucket to hand out.
    closed spec fn has_more(&self) -> bool {
        self.ranking.is_ranking() || self.parent.has_more()
    }

    /// The parent leaves the words near the words of the query as they are.
    closed spec fn keeps_near(&self) -> bool {
        self.parent.keeps_near()
    }

    /// The documents of the first criterion's bucket, as the first bucket
    /// of the criterion has them.
    closed spec fn whole(&self, near: &WordDerivationsCache) -> Option<Set<u32>> {
        self.parent.whole(near)
    }

    /// No bucket is being ranked, and the parent accounts for the
    /// documents of its first bucket, which this criterion can take.
    closed spec fn starts(&self) -> bool {
        !self.ranking.is_ranking() && self.parent.starts() && self.parent.carries()
    }

    /// The parent accounts for the documents that it has still to hand out.
    closed spec fn counts(&self) -> bool {
        self.parent.counts()
    }

    /// The documents that are still to rank, and those that the parent has
    /// still to hand out.
    closed spec fn reach(&self) -> Set<u32> {
        if self.ranking.is_ranking() {
            self.ranking.left().union(self.parent.reach())
        } else {
            self.parent.reach()
        }
    }

    /// Each bucket of the criterion carries its documents.
    closed spec fn carries(&self) -> bool {
        true
    }

    /// The next bucket of the bucket that is being ranked, or of the next
    /// bucket of the parent where none is: the documents that have the next
    /// value of the field, in the direction of the ranking.
    fn next(&mut self, params: &mut CriterionParameters<'_>) -> (bucket: Result<
        Option<CriterionResult>,
        SearchError,
    >)
        ensures
            // while a bucket of the parent is being ranked, the parent is not
            // asked; else it is asked, and its answer decides
            if old(self).ranking().is_ranking() {
                old(self).ranking().ranks_on(
                    &final(self).ranking(),
                    members(old(params).excluded_candidates),
                    bucket,
                )
            } else {
                exists|answer: Result<Option<CriterionResult>, SearchError>|
                    #[trigger] old(self).ranking().resumes_to(
                        &final(self).ranking(),
                        answer,
                        &*final(params).wdcache,
                        members(old(params).excluded_candidates),
                        bucket,
                    )
            },
    {
        if !self.ranking.has_bucket() {
            let answer = self.parent.next(params);
            let handed = self.ranking.resume(answer, params.wdcache, params.excluded_candidates);
            proof {
                if old(self).reads() && answer is Ok {
                    old(self).ranking().lemma_resumes_read(
                        &self.ranking(),
                        answer,
                        &*params.wdcache,
                        members(params.excluded_candidates),
                        handed,
                    );
                }
            }
            proof {
                let excluded = members(params.excluded_candidates);
                let before = old(self).ranking();
                assert(before.resumes_to(&self.ranking(), answer, &*params.wdcache, excluded, handed));
                if handed is Ok && handed->Ok_0 is Some {
                    let found = handed->Ok_0->Some_0;
                    let given = answer->Ok_0->Some_0;
                    let (mid, started) = choose|mid: FacetRanking<'t>, started: Result<(), SearchError>|
                        #[trigger] before.starts_to(&mid, given, &*params.wdcache, excluded, started)
                            && match started {
                            Ok(_) => mid.ranks_on(&self.ranking(), excluded, handed),
                            Err(error) => handed == Err::<Option<CriterionResult>, SearchError>(
                                error,
                            ) && self.ranking() == mid,
                        };
                    assert(mid.ranks_to(&self.ranking(), excluded, Ok(found)));
                    if old(self).counts() {
                        assert forall|d: u32| old(self).reach().contains(d) implies self.reach().union(
                            carried(found),
                        ).union(excluded).contains(d) by {
                            if !self.parent.reach().contains(d) && !excluded.contains(d) {
                                assert(carried(given).contains(d));
                                assert(mid.left().contains(d));
                            }
                        }
                    }
                    if old(self).starts() {
                        assert forall|d: u32|
                            members(&found.bucket_candidates).contains(d) implies carried(
                            found,
                        ).union(self.reach()).union(excluded).contains(d) by {
                            assert(members(&given.bucket_candidates).contains(d));
                            if !self.parent.reach().contains(d) && !excluded.contains(d) {
                                assert(carried(given).contains(d));
                                assert(mid.left().contains(d));
                            }
                        }
                    }
                }
            }
            handed
        } else {
            let handed = self.ranking.rank_on(params.excluded_candidates);
            proof {
                if old(self).reads() {
                    old(self).ranking().lemma_ranks_read(
                        &self.ranking(),
                        members(params.excluded_candidates),
                        handed,
                    );
                }
            }
            assert(old(self).ranking().ranks_on(
                &self.ranking(),
                members(params.excluded_candidates),
                handed,
            ));
            handed
        }
    }
}

/// No document is lost where a bucket is handed out: a document that was
/// still to rank is in the bucket, or is excluded, or is still to rank.
pub proof fn lemma_rank_keeps_all<'t>(
    before: &FacetRanking<'t>,
    after: &FacetRanking<'t>,
    excluded: Set<u32>,
    found: CriterionResult,
)
    requires
        before.ranks_to(after, excluded, Ok(found)),
    ensures
        found.candidates is Some,
        members(&found.candidates->Some_0).subset_of(before.left()),
        members(&found.candidates->Some_0).disjoint(excluded),
        before.left().subset_of(
            members(&found.candidates->Some_0).union(excluded).union(
                if after.is_ranking() {
                    after.left()
                } else {
                    Set::<u32>::empty()
                },
            ),
        ),
{
}

} // verus!
