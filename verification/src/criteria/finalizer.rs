//! The last stage of the ranking: it makes sure that every bucket carries
//! its documents, and remembers the documents that it has handed out.

use roaring::RoaringBitmap;
use vstd::prelude::*;

use crate::bitmap::{copy_bitmap, members, union_with, empty_bitmap};
use crate::criteria::{Criterion, CriterionParameters, CriterionResult};
use crate::error::SearchError;
use crate::index::Index;
use crate::query_tree::{
    model_of,
    resolve_query_tree,
    resolved,
    Operation,
    ResolveCache,
    WordDerivationsCache,
};

verus! {

/// The result of a call to the fetcher.
pub struct FinalResult {
    /// The query tree corresponding to the current bucket of the last criterion.
    pub query_tree: Option<Operation>,
    /// The candidates of the current bucket of the last criterion.
    pub candidates: RoaringBitmap,
    /// Candidates that comes from the current bucket of the initial criterion.
    pub bucket_candidates: RoaringBitmap,
}

/// The documents of a bucket that carries none: those that its query tree
/// matches, or all the documents where it has no query tree.
pub open spec fn fetched(
    index: &Index,
    near: &WordDerivationsCache,
    query_tree: Option<Operation>,
) -> Result<Set<u32>, SearchError> {
    match query_tree {
        Some(tree) => resolved(index, near, model_of(tree)),
        None => if index.documents_fail() {
            Err(SearchError::Decode)
        } else {
            Ok(index.all_documents())
        },
    }
}

/// The documents of a bucket: those that it carries, or those that are
/// fetched for it.
pub open spec fn candidates_of(
    index: &Index,
    near: &WordDerivationsCache,
    bucket: CriterionResult,
) -> Result<Set<u32>, SearchError> {
    match bucket.candidates {
        Some(candidates) => Ok(members(&candidates)),
        None => fetched(index, near, bucket.query_tree),
    }
}

/// Whether `item` is what the last stage hands out for `answer`, the answer
/// of its parent, and `now_returned` the documents that then count as
/// handed out: an error and the end of the parent are handed on as they
/// are; a bucket gets its documents, those that it carries or those that
/// are fetched for it, which are added to the documents of the first
/// criterion's bucket where they were fetched.
pub open spec fn is_finished(
    index: &Index,
    near: &WordDerivationsCache,
    returned: Set<u32>,
    answer: Result<Option<CriterionResult>, SearchError>,
    item: Result<Option<FinalResult>, SearchError>,
    now_returned: Set<u32>,
) -> bool {
    match answer {
        Err(error) => item == Err::<Option<FinalResult>, SearchError>(error) && now_returned
            == returned,
        Ok(None) => item matches Ok(None) && now_returned == returned,
        Ok(Some(bucket)) => match candidates_of(index, near, bucket) {
            Err(error) => item == Err::<Option<FinalResult>, SearchError>(error) && now_returned
                == returned,
            Ok(found) => {
                &&& item matches Ok(Some(result))
                &&& members(&result.candidates) == found
                &&& result.query_tree == bucket.query_tree
                &&& members(&result.bucket_candidates) == if bucket.candidates is Some {
                    members(&bucket.bucket_candidates)
                } else {
                    members(&bucket.bucket_candidates).union(found)
                }
                &&& now_returned == returned.union(found)
            },
        },
    }
}

/// Whether the documents of `result` have nothing in common with `before`,
/// as those of a bucket that came with its documents have, or are the
/// documents that its query tree matches, for some words near the words of
/// the query, and are among the documents of the first criterion's bucket.
pub open spec fn is_apart_or_fetched(index: &Index, result: FinalResult, before: Set<u32>) -> bool {
    ||| members(&result.candidates).disjoint(before)
    ||| {
        &&& members(&result.candidates).subset_of(members(&result.bucket_candidates))
        &&& exists|near: WordDerivationsCache| #[trigger]
            fetched(index, &near, result.query_tree) == Ok::<Set<u32>, SearchError>(
                members(&result.candidates),
            )
    }
}

/// The documents of the first `upto` of `results`.
pub open spec fn documents_of(results: Seq<FinalResult>, upto: int) -> Set<u32> {
    Set::new(
        |d: u32|
            exists|i: int|
                0 <= i < upto && i < results.len() && members(
                    &(#[trigger] results[i]).candidates,
                ).contains(d),
    )
}

/// Whether `result` is the first bucket of a ranking that accounts for its
/// documents, which has `reach` still to hand out after it: the documents
/// of the bucket, and those still to hand out, are among the documents of
/// the first criterion's bucket, and each of these is in the bucket, or
/// still to hand out, or excluded.
pub open spec fn is_first_result(result: FinalResult, reach: Set<u32>, excluded: Set<u32>) -> bool {
    let all = members(&result.bucket_candidates);
    &&& members(&result.candidates).subset_of(all)
    &&& reach.subset_of(all)
    &&& all.subset_of(members(&result.candidates).union(reach).union(excluded))
}

/// Whether `result` is a later bucket of a ranking that accounts for its
/// documents, which had `before` still to hand out, and has `after`: the
/// bucket has documents that were still to hand out, and each of these is
/// in the bucket, or still to hand out, or excluded.
pub open spec fn is_later_result(
    result: FinalResult,
    before: Set<u32>,
    after: Set<u32>,
    excluded: Set<u32>,
) -> bool {
    &&& members(&result.candidates).subset_of(before)
    &&& before.subset_of(after.union(members(&result.candidates)).union(excluded))
}

/// Whether `results` are all the buckets of a ranking: of one that
/// started with them, they have the documents of the first criterion's
/// bucket, and these only, but for those in `before`; of one that had
/// `reach` still to hand out, they have these documents, and these only,
/// but for those in `before`.
pub open spec fn is_complete(
    starts: bool,
    counts: bool,
    reach: Set<u32>,
    results: Seq<FinalResult>,
    before: Set<u32>,
) -> bool {
    let found = documents_of(results, results.len() as int);
    &&& starts && results.len() > 0 ==> {
        let all = members(&results[0].bucket_candidates);
        found.subset_of(all) && all.subset_of(found.union(before))
    }
    &&& counts ==> found.subset_of(reach) && reach.subset_of(found.union(before))
}

/// No document is in two of `results`, and none is in `before`.
pub open spec fn are_apart(results: Seq<FinalResult>, before: Set<u32>) -> bool {
    &&& forall|i: int|
        0 <= i < results.len() ==> members(&(#[trigger] results[i]).candidates).disjoint(before)
    &&& forall|i: int, j: int|
        0 <= i < j < results.len() ==> members(&(#[trigger] results[i]).candidates).disjoint(
            members(&(#[trigger] results[j]).candidates),
        )
}

/// Buckets that each have no document of `before` and of the buckets
/// before them have no document in common.
pub proof fn lemma_buckets_apart(results: Seq<FinalResult>, before: Set<u32>)
    requires
        forall|i: int|
            0 <= i < results.len() ==> members(&(#[trigger] results[i]).candidates).disjoint(
                before.union(documents_of(results, i)),
            ),
    ensures
        are_apart(results, before),
{
    assert forall|i: int, j: int| 0 <= i < j < results.len() implies members(
        &(#[trigger] results[i]).candidates,
    ).disjoint(members(&(#[trigger] results[j]).candidates)) by {
        assert forall|d: u32| members(&results[i].candidates).contains(d) implies !members(
            &results[j].candidates,
        ).contains(d) by {
            assert(documents_of(results, j).contains(d));
            assert(before.union(documents_of(results, j)).contains(d));
        }
    }
}

/// The last stage of a ranking.
pub struct Final<'t, P: Criterion> {
    ctx: &'t Index,
    parent: P,
    wdcache: WordDerivationsCache,
    returned_candidates: RoaringBitmap,
}

impl<'t, P: Criterion> Final<'t, P> {
    /// The index that the search reads.
    pub closed spec fn index(&self) -> &Index {
        self.ctx
    }

    /// The words near the words of the query, as far as the search knows them.
    pub closed spec fn near(&self) -> WordDerivationsCache {
        self.wdcache
    }

    /// The documents that were handed out.
    pub closed spec fn returned(&self) -> Set<u32> {
        members(&self.returned_candidates)
    }

    /// Each bucket of the parent carries its documents.
    pub closed spec fn carries(&self) -> bool {
        self.parent.carries()
    }

    /// The parent has handed out nothing yet, carries the documents of its
    /// buckets, and accounts for those of its first bucket.
    pub closed spec fn starts(&self) -> bool {
        self.parent.starts() && self.parent.carries()
    }

    /// The parent accounts for the documents that it has still to hand out.
    pub closed spec fn counts(&self) -> bool {
        self.parent.counts()
    }

    /// The documents that the parent has still to hand out.
    pub closed spec fn reach(&self) -> Set<u32> {
        self.parent.reach()
    }

    /// The parent leaves the words near the words of the query as they are.
    pub closed spec fn keeps_near(&self) -> bool {
        self.parent.keeps_near()
    }

    /// The parent has a bucket to hand out, or an error.
    pub closed spec fn has_more(&self) -> bool {
        self.parent.has_more()
    }

    /// The parent does not fail, and the bitmaps of the index can all be
    /// read.
    pub closed spec fn reads(&self) -> bool {
        self.parent.reads() && self.ctx.reads_well()
    }

    /// The documents of the first criterion's bucket, as the first bucket
    /// of the parent has them, where the parent says.
    pub closed spec fn whole(&self, near: &WordDerivationsCache) -> Option<Set<u32>> {
        self.parent.whole(near)
    }

    /// A last stage after `parent`, that has handed out nothing yet.
    pub fn new(ctx: &'t Index, parent: P) -> (last: Final<'t, P>)
        ensures
            last.index() == ctx,
            last.returned() == Set::<u32>::empty(),
            last.carries() == parent.carries(),
            last.starts() == (parent.starts() && parent.carries()),
            last.counts() == parent.counts(),
            last.reach() == parent.reach(),
            last.keeps_near() == parent.keeps_near(),
            last.has_more() == parent.has_more(),
            last.reads() == (parent.reads() && ctx.reads_well()),
            forall|near: WordDerivationsCache| #[trigger] last.whole(&near) == parent.whole(&near),
    {
        Final {
            ctx,
            parent,
            wdcache: WordDerivationsCache::new(),
            returned_candidates: empty_bitmap(),
        }
    }

    /// A last stage after `parent`, that has handed out nothing yet and
    /// knows the words of `wdcache` as near the words of the query.
    pub fn with_cache(ctx: &'t Index, parent: P, wdcache: WordDerivationsCache) -> (last: Final<
        't,
        P,
    >)
        ensures
            last.index() == ctx,
            last.near() == wdcache,
            last.returned() == Set::<u32>::empty(),
            last.carries() == parent.carries(),
            last.starts() == (parent.starts() && parent.carries()),
            last.counts() == parent.counts(),
            last.reach() == parent.reach(),
            last.keeps_near() == parent.keeps_near(),
            last.has_more() == parent.has_more(),
            last.reads() == (parent.reads() && ctx.reads_well()),
            forall|near: WordDerivationsCache| #[trigger] last.whole(&near) == parent.whole(&near),
    {
        Final { ctx, parent, wdcache, returned_candidates: empty_bitmap() }
    }

    /// The documents that the parent is told to leave out: those that were
    /// handed out, and `excluded_candidates`.
    pub fn exclusion(&self, excluded_candidates: &RoaringBitmap) -> (all: RoaringBitmap)
        ensures
            members(&all) == self.returned().union(members(excluded_candidates)),
    {
        // returned_candidates is merged with excluded_candidates to avoid duplicas
        let mut all = copy_bitmap(&self.returned_candidates);
        union_with(&mut all, excluded_candidates);
        all
    }

    /// The next bucket of the ranking, with its documents. The parent is
    /// told to leave out `excluded_candidates` and the documents that were
    /// handed out before, and its answer is finished as `finish` says; the
    /// documents of the bucket count as handed out from now on.
    ///
    /// A bucket that came with its documents has none of those that the
    /// parent was told to leave out. A bucket that came without them has
    /// the documents that its query tree matches.
    pub fn next(&mut self, excluded_candidates: &RoaringBitmap) -> (item: Result<
        Option<FinalResult>,
        SearchError,
    >)
        requires
            old(self).index().wf(),
        ensures
            final(self).index() == old(self).index(),
            // the answer of the parent decides
            exists|answer: Result<Option<CriterionResult>, SearchError>|
                {
                    &&& #[trigger] is_finished(
                        old(self).index(),
                        &final(self).near(),
                        old(self).returned(),
                        answer,
                        item,
                        final(self).returned(),
                    )
                    &&& answer matches Ok(Some(bucket)) ==> (bucket.candidates matches Some(carried)
                        ==> members(&carried).disjoint(
                        old(self).returned().union(members(excluded_candidates)),
                    ))
                },
            match item {
                Ok(Some(result)) => {
                    &&& final(self).returned() == old(self).returned().union(
                        members(&result.candidates),
                    )
                    &&& is_apart_or_fetched(
                        final(self).index(),
                        result,
                        old(self).returned().union(members(excluded_candidates)),
                    )
                },
                _ => final(self).returned() == old(self).returned(),
            },
            // after a parent whose buckets carry their documents, no document
            // is handed out twice
            old(self).carries() ==> final(self).carries() && (item matches Ok(Some(result))
                ==> members(&result.candidates).disjoint(
                old(self).returned().union(members(excluded_candidates)),
            )),
            old(self).keeps_near() ==> final(self).keeps_near(),
            old(self).has_more() ==> !(item matches Ok(None)),
            old(self).reads() ==> final(self).reads() && item is Ok,
            // the first bucket has the documents of the first criterion's
            // bucket, as the parent says them
            old(self).starts() && old(self).keeps_near() ==> (item matches Ok(Some(result))
                ==> (old(self).whole(&old(self).near()) matches Some(all) ==> members(
                &result.bucket_candidates,
            ) == all)),
            // after a parent that accounts for its documents, none is lost
            old(self).starts() ==> final(self).counts() && (item matches Ok(Some(result))
                ==> is_first_result(
                result,
                final(self).reach(),
                old(self).returned().union(members(excluded_candidates)),
            )),
            old(self).counts() ==> final(self).counts() && final(self).reach().subset_of(
                old(self).reach(),
            ) && match item {
                Ok(Some(result)) => is_later_result(
                    result,
                    old(self).reach(),
                    final(self).reach(),
                    old(self).returned().union(members(excluded_candidates)),
                ),
                Ok(None) => old(self).reach().subset_of(
                    old(self).returned().union(members(excluded_candidates)),
                ),
                Err(_) => true,
            },
    {
        let excluded = self.exclusion(excluded_candidates);
        let mut criterion_parameters = CriterionParameters {
            wdcache: &mut self.wdcache,
            excluded_candidates: &excluded,
        };
        let answer = self.parent.next(&mut criterion_parameters);
        let ghost given = answer;
        proof {
            if given is Ok && given->Ok_0 is Some && self.ctx.reads_well() {
                let bucket = given->Ok_0->Some_0;
                if bucket.candidates is None && bucket.query_tree is Some {
                    crate::query_tree::lemma_tree_reads(
                        self.ctx,
                        &self.wdcache,
                        model_of(bucket.query_tree->Some_0),
                    );
                }
            }
        }
        let item = self.finish(answer);
        proof {
            if given is Ok && given->Ok_0 is Some && given->Ok_0->Some_0.candidates is None && item
                is Ok {
                let result = item->Ok_0->Some_0;
                assert(fetched(self.index(), &self.near(), result.query_tree) == Ok::<
                    Set<u32>,
                    SearchError,
                >(members(&result.candidates)));
            }
            assert(is_finished(
                old(self).index(),
                &self.near(),
                old(self).returned(),
                given,
                item,
                self.returned(),
            ));
        }
        item
    }

    /// What the ranking hands out for `answer`, the answer of the parent:
    /// its error and its end as they are, and its bucket as a bucket of
    /// the ranking, with its documents.
    pub fn finish(&mut self, answer: Result<Option<CriterionResult>, SearchError>) -> (item: Result<
        Option<FinalResult>,
        SearchError,
    >)
        requires
            old(self).index().wf(),
        ensures
            final(self).index() == old(self).index(),
            final(self).near() == old(self).near(),
            final(self).carries() == old(self).carries(),
            final(self).starts() == old(self).starts(),
            final(self).counts() == old(self).counts(),
            final(self).reach() == old(self).reach(),
            final(self).keeps_near() == old(self).keeps_near(),
            final(self).has_more() == old(self).has_more(),
            final(self).reads() == old(self).reads(),
            forall|near: WordDerivationsCache| #[trigger]
                final(self).whole(&near) == old(self).whole(&near),
            is_finished(
                old(self).index(),
                &old(self).near(),
                old(self).returned(),
                answer,
                item,
                final(self).returned(),
            ),
    {
        match answer {
            Err(error) => Err(error),
            Ok(None) => Ok(None),
            Ok(Some(bucket)) => match self.finish_bucket(bucket) {
                Ok(result) => Ok(Some(result)),
                Err(error) => Err(error),
            },
        }
    }

    /// The buckets of the ranking, from the next one on, in their order:
    /// all of them where the parent ends before `limit` buckets came, and
    /// the first `limit` of them where it does not. The first error ends
    /// the drain, and is returned alone.
    ///
    /// The documents of the buckets count as handed out. A bucket that
    /// came with its documents has no document in common with the buckets
    /// before it; a bucket that came without them has the documents that
    /// its query tree matches.
    pub fn drain(&mut self, excluded_candidates: &RoaringBitmap, limit: usize) -> (buckets: Result<
        Vec<FinalResult>,
        SearchError,
    >)
        requires
            old(self).index().wf(),
        ensures
            final(self).index() == old(self).index(),
            buckets matches Ok(found) ==> {
                &&& found@.len() <= limit
                &&& final(self).returned() == old(self).returned().union(
                    documents_of(found@, found@.len() as int),
                )
                &&& forall|i: int|
                    0 <= i < found@.len() ==> is_apart_or_fetched(
                        final(self).index(),
                        #[trigger] found@[i],
                        old(self).returned().union(members(excluded_candidates)).union(
                            documents_of(found@, i),
                        ),
                    )
                // after a parent whose buckets carry their documents, no
                // document comes in two buckets, nor one that was handed out
                // before or is excluded
                &&& old(self).carries() ==> are_apart(
                    found@,
                    old(self).returned().union(members(excluded_candidates)),
                )
            },
            old(self).carries() ==> final(self).carries(),
            // after a parent that accounts for its documents, a drain that
            // ends before its limit has lost none
            old(self).keeps_near() ==> final(self).keeps_near(),
            old(self).reads() ==> final(self).reads() && buckets is Ok,
            // there is a bucket, where one is asked for and the parent has one
            buckets matches Ok(found) ==> (old(self).has_more() && limit > 0 ==> found@.len()
                > 0),
            // the first bucket has the documents of the first criterion's
            // bucket, as the parent says them
            buckets matches Ok(found) ==> (old(self).starts() && old(self).keeps_near()
                && found@.len() > 0 ==> (old(self).whole(&old(self).near()) matches Some(all)
                ==> members(&found@[0].bucket_candidates) == all)),
            buckets matches Ok(found) ==> (found@.len() < limit ==> is_complete(
                old(self).starts(),
                old(self).counts(),
                old(self).reach(),
                found@,
                old(self).returned().union(members(excluded_candidates)),
            )),
    {
        let mut found: Vec<FinalResult> = Vec::new();
        proof {
            assert(documents_of(found@, 0) =~= Set::<u32>::empty());
            assert(self.returned() =~= old(self).returned().union(documents_of(found@, 0)));
        }
        while found.len() < limit
            invariant
                self.index() == old(self).index(),
                self.index().wf(),
                old(self).starts() && found@.len() == 0 ==> self.starts(),
                old(self).keeps_near() ==> self.keeps_near(),
                old(self).reads() ==> self.reads(),
                found@.len() == 0 ==> *self == *old(self),
                old(self).starts() && old(self).keeps_near() && found@.len() > 0 ==> (old(
                    self,
                ).whole(&old(self).near()) matches Some(all) ==> members(
                    &found@[0].bucket_candidates,
                ) == all),
                old(self).starts() && found@.len() > 0 ==> {
                    let all = members(&found@[0].bucket_candidates);
                    let docs = documents_of(found@, found@.len() as int);
                    &&& self.counts()
                    &&& docs.subset_of(all)
                    &&& self.reach().subset_of(all)
                    &&& all.subset_of(
                        docs.union(self.reach()).union(
                            old(self).returned().union(members(excluded_candidates)),
                        ),
                    )
                },
                old(self).counts() ==> {
                    let docs = documents_of(found@, found@.len() as int);
                    &&& self.counts()
                    &&& self.reach().subset_of(old(self).reach())
                    &&& docs.subset_of(old(self).reach())
                    &&& old(self).reach().subset_of(
                        docs.union(self.reach()).union(
                            old(self).returned().union(members(excluded_candidates)),
                        ),
                    )
                },
                old(self).carries() ==> self.carries(),
                old(self).carries() ==> forall|i: int|
                    0 <= i < found@.len() ==> members(&(#[trigger] found@[i]).candidates).disjoint(
                        old(self).returned().union(members(excluded_candidates)).union(
                            documents_of(found@, i),
                        ),
                    ),
                found@.len() <= limit,
                self.returned() == old(self).returned().union(
                    documents_of(found@, found@.len() as int),
                ),
                forall|i: int|
                    0 <= i < found@.len() ==> is_apart_or_fetched(
                        self.index(),
                        #[trigger] found@[i],
                        old(self).returned().union(members(excluded_candidates)).union(
                            documents_of(found@, i),
                        ),
                    ),
            decreases limit - found@.len(),
        {
            let ghost before = found@;
            let ghost returned = self.returned();
            match self.next(excluded_candidates) {
                Err(error) => {
                    return Err(error);
                },
                Ok(None) => {
                    proof {
                        if old(self).carries() {
                            lemma_buckets_apart(
                                found@,
                                old(self).returned().union(members(excluded_candidates)),
                            );
                        }
                    }
                    return Ok(found);
                },
                Ok(Some(result)) => {
                    found.push(result);
                    proof {
                        let count = before.len() as int;
                        assert forall|i: int| 0 <= i <= count implies documents_of(found@, i)
                            =~= documents_of(before, i) by {
                            assert forall|d: u32| documents_of(found@, i).contains(d)
                                <==> documents_of(before, i).contains(d) by {
                                if documents_of(found@, i).contains(d) {
                                    let j = choose|j: int|
                                        0 <= j < i && j < found@.len() && members(
                                            &(#[trigger] found@[j]).candidates,
                                        ).contains(d);
                                    assert(found@[j] == before[j]);
                                }
                                if documents_of(before, i).contains(d) {
                                    let j = choose|j: int|
                                        0 <= j < i && j < before.len() && members(
                                            &(#[trigger] before[j]).candidates,
                                        ).contains(d);
                                    assert(found@[j] == before[j]);
                                }
                            }
                        }
                        assert(documents_of(found@, count + 1) =~= documents_of(
                            before,
                            count,
                        ).union(members(&result.candidates))) by {
                            assert forall|d: u32| documents_of(found@, count + 1).contains(d)
                                <==> documents_of(before, count).union(
                                members(&result.candidates),
                            ).contains(d) by {
                                if documents_of(found@, count + 1).contains(d) {
                                    let j = choose|j: int|
                                        0 <= j < count + 1 && j < found@.len() && members(
                                            &(#[trigger] found@[j]).candidates,
                                        ).contains(d);
                                    if j < count {
                                        assert(found@[j] == before[j]);
                                    }
                                }
                                if documents_of(before, count).contains(d) {
                                    let j = choose|j: int|
                                        0 <= j < count && j < before.len() && members(
                                            &(#[trigger] before[j]).candidates,
                                        ).contains(d);
                                    assert(found@[j] == before[j]);
                                }
                                if members(&result.candidates).contains(d) {
                                    assert(found@[count] == result);
                                }
                            }
                        }
                        assert(self.returned() =~= old(self).returned().union(
                            documents_of(found@, count + 1),
                        ));
                        assert(returned.union(members(excluded_candidates)) =~= old(
                            self,
                        ).returned().union(members(excluded_candidates)).union(
                            documents_of(found@, count),
                        ));
                        if old(self).carries() {
                            assert forall|i: int| 0 <= i < found@.len() implies members(
                                &(#[trigger] found@[i]).candidates,
                            ).disjoint(
                                old(self).returned().union(members(excluded_candidates)).union(
                                    documents_of(found@, i),
                                ),
                            ) by {
                                if i < count {
                                    assert(found@[i] == before[i]);
                                }
                            }
                        }
                        assert forall|i: int| 0 <= i < found@.len() implies is_apart_or_fetched(
                            self.index(),
                            #[trigger] found@[i],
                            old(self).returned().union(members(excluded_candidates)).union(
                                documents_of(found@, i),
                            ),
                        ) by {
                            if i < count {
                                assert(found@[i] == before[i]);
                            }
                        }
                    }
                },
            }
        }
        proof {
            if old(self).carries() {
                lemma_buckets_apart(
                    found@,
                    old(self).returned().union(members(excluded_candidates)),
                );
            }
        }
        Ok(found)
    }

    /// Makes a bucket of the parent the next bucket of the ranking: where it
    /// carries no documents, those that its query tree matches are fetched,
    /// or all the documents where it has no query tree, and they are added
    /// to the documents of the first criterion's bucket. The documents of
    /// the bucket count as handed out from now on.
    pub fn finish_bucket(&mut self, bucket: CriterionResult) -> (item: Result<
        FinalResult,
        SearchError,
    >)
        requires
            old(self).index().wf(),
        ensures
            final(self).index() == old(self).index(),
            final(self).near() == old(self).near(),
            final(self).carries() == old(self).carries(),
            final(self).starts() == old(self).starts(),
            final(self).counts() == old(self).counts(),
            final(self).reach() == old(self).reach(),
            final(self).keeps_near() == old(self).keeps_near(),
            final(self).has_more() == old(self).has_more(),
            final(self).reads() == old(self).reads(),
            forall|near: WordDerivationsCache| #[trigger]
                final(self).whole(&near) == old(self).whole(&near),
            match item {
                Ok(result) => {
                    &&& candidates_of(old(self).index(), &old(self).near(), bucket) == Ok::<
                        Set<u32>,
                        SearchError,
                    >(members(&result.candidates))
                    &&& result.query_tree == bucket.query_tree
                    &&& members(&result.bucket_candidates) == if bucket.candidates is Some {
                        members(&bucket.bucket_candidates)
                    } else {
                        members(&bucket.bucket_candidates).union(members(&result.candidates))
                    }
                    &&& final(self).returned() == old(self).returned().union(
                        members(&result.candidates),
                    )
                },
                Err(error) => {
                    &&& candidates_of(old(self).index(), &old(self).near(), bucket) == Err::<
                        Set<u32>,
                        SearchError,
                    >(error)
                    &&& final(self).returned() == old(self).returned()
                },
            },
    {
        let CriterionResult { query_tree, candidates, bucket_candidates } = bucket;
        let mut bucket_candidates = bucket_candidates;
        let candidates: RoaringBitmap = match candidates {
            Some(candidates) => candidates,
            None => {
                let fetched: Result<RoaringBitmap, SearchError> = match &query_tree {
                    Some(tree) => {
                        let mut cache = ResolveCache::new();
                        resolve_query_tree(self.ctx, tree, &mut cache, &self.wdcache)
                    },
                    None => self.ctx.documents_ids(),
                };
                match fetched {
                    Err(error) => {
                        return Err(error);
                    },
                    Ok(candidates) => {
                        union_with(&mut bucket_candidates, &candidates);
                        candidates
                    },
                }
            },
        };
        union_with(&mut self.returned_candidates, &candidates);
        Ok(FinalResult { query_tree, candidates, bucket_candidates })
    }
}

/// The buckets that came with their documents have no document in common
/// with what was handed out before: where a bucket carries documents that
/// leave out those handed out so far, its documents were not handed out,
/// and every later bucket of that kind leaves them out in turn.
pub proof fn lemma_buckets_disjoint(
    index: &Index,
    near: &WordDerivationsCache,
    returned: Set<u32>,
    excluded: Set<u32>,
    bucket: CriterionResult,
)
    requires
        bucket.candidates matches Some(candidates) && members(&candidates).disjoint(
            returned.union(excluded),
        ),
    ensures
        candidates_of(index, near, bucket) matches Ok(found) && found.disjoint(returned)
            && found.subset_of(returned.union(found)),
{
}

} // verus!
