//! Ranking by relaxing the query step by step: the documents that match the
//! query as it is come first, then those that match it when one more typo
//! is allowed in its words, or one more of its last words is left out.

use roaring::RoaringBitmap;
use vstd::prelude::*;

use crate::bitmap::{
    copy_bitmap,
    difference_with,
    intersect_with,
    is_empty_bitmap,
    members,
    union_with,
};
use crate::criteria::CriterionResult;
use crate::error::SearchError;
use crate::index::Index;
use crate::query_tree::{
    copy_operation,
    lemma_tree_reads,
    lemma_model_branches,
    model_of,
    models_of,
    resolve_query_tree,
    resolved,
    Operation,
    OperationModel,
    ResolveCache,
    WordDerivationsCache,
};
use crate::store::copy_bytes;

verus! {

/// The tree with at most `typos` typos allowed in each of its words: a word
/// that tolerates more tolerates `typos` only, and none is the word itself.
pub open spec fn limited(tree: OperationModel, typos: u8) -> OperationModel
    decreases tree,
{
    match tree {
        OperationModel::And(branches) => OperationModel::And(
            Seq::new(
                branches.len(),
                |i: int|
                    if 0 <= i < branches.len() {
                        limited(branches[i], typos)
                    } else {
                        OperationModel::Word(Seq::empty())
                    },
            ),
        ),
        OperationModel::Or(branches) => OperationModel::Or(
            Seq::new(
                branches.len(),
                |i: int|
                    if 0 <= i < branches.len() {
                        limited(branches[i], typos)
                    } else {
                        OperationModel::Word(Seq::empty())
                    },
            ),
        ),
        OperationModel::Word(word) => OperationModel::Word(word),
        OperationModel::TolerantWord(word, max_typos) => if typos == 0 {
            OperationModel::Word(word)
        } else if max_typos < typos {
            OperationModel::TolerantWord(word, max_typos)
        } else {
            OperationModel::TolerantWord(word, typos)
        },
        OperationModel::Phrase(words) => OperationModel::Phrase(words),
    }
}

/// The most typos that a word of the tree tolerates.
pub open spec fn most_typos(tree: OperationModel) -> int
    decreases tree, 0int,
{
    match tree {
        OperationModel::And(branches) => most_typos_among(branches, branches.len() as int),
        OperationModel::Or(branches) => most_typos_among(branches, branches.len() as int),
        OperationModel::Word(_) => 0,
        OperationModel::TolerantWord(_, max_typos) => max_typos as int,
        OperationModel::Phrase(_) => 0,
    }
}

/// The most typos that a word of the first `upto` branches tolerates.
pub open spec fn most_typos_among(branches: Seq<OperationModel>, upto: int) -> int
    decreases branches, upto,
{
    if 0 < upto <= branches.len() {
        let before = most_typos_among(branches, upto - 1);
        let here = most_typos(branches[upto - 1]);
        if before < here {
            here
        } else {
            before
        }
    } else {
        0
    }
}

/// The tree with at most `typos` typos allowed in each of its words.
pub fn limit_tree(tree: &Operation, typos: u8) -> (limit: Operation)
    ensures
        model_of(limit) == limited(model_of(*tree), typos),
    decreases tree,
{
    match tree {
        Operation::And(branches) => {
            let limits = limit_branches(branches, typos);
            proof {
                lemma_limited_branches(*branches, limits, typos);
            }
            Operation::And(limits)
        },
        Operation::Or(branches) => {
            let limits = limit_branches(branches, typos);
            proof {
                lemma_limited_branches(*branches, limits, typos);
            }
            Operation::Or(limits)
        },
        Operation::TolerantWord(word, max_typos) => {
            if typos == 0 {
                Operation::Word(copy_bytes(word.as_slice()))
            } else if *max_typos < typos {
                Operation::TolerantWord(copy_bytes(word.as_slice()), *max_typos)
            } else {
                Operation::TolerantWord(copy_bytes(word.as_slice()), typos)
            }
        },
        Operation::Word(_) => copy_operation(tree),
        Operation::Phrase(_) => copy_operation(tree),
    }
}

/// The branches, each with at most `typos` typos allowed in its words.
fn limit_branches(branches: &Vec<Operation>, typos: u8) -> (limits: Vec<Operation>)
    ensures
        limits@.len() == branches@.len(),
        forall|j: int|
            0 <= j < branches@.len() ==> model_of(#[trigger] limits@[j]) == limited(
                model_of(branches@[j]),
                typos,
            ),
    decreases branches,
{
    let mut limits: Vec<Operation> = Vec::new();
    let mut at: usize = 0;
    while at < branches.len()
        invariant
            at <= branches@.len(),
            limits@.len() == at,
            forall|j: int|
                0 <= j < at ==> model_of(#[trigger] limits@[j]) == limited(
                    model_of(branches@[j]),
                    typos,
                ),
            forall|j: int|
                0 <= j < branches@.len() ==> decreases_to!(*branches => #[trigger] branches@[j]),
        decreases branches@.len() - at,
    {
        limits.push(limit_tree(&branches[at], typos));
        at += 1;
    }
    limits
}

/// The limited branches of a node are the branches of the limited node.
proof fn lemma_limited_branches(branches: Vec<Operation>, limits: Vec<Operation>, typos: u8)
    requires
        limits@.len() == branches@.len(),
        forall|j: int|
            0 <= j < branches@.len() ==> model_of(#[trigger] limits@[j]) == limited(
                model_of(branches@[j]),
                typos,
            ),
    ensures
        model_of(Operation::And(limits)) == limited(model_of(Operation::And(branches)), typos),
        model_of(Operation::Or(limits)) == limited(model_of(Operation::Or(branches)), typos),
{
    let all = model_of(Operation::And(branches));
    let some = model_of(Operation::Or(branches));
    let limit_all = model_of(Operation::And(limits));
    let limit_some = model_of(Operation::Or(limits));
    assert(all is And && some is Or && limit_all is And && limit_some is Or);
    assert(all->And_0 =~= models_of(branches@));
    assert(some->Or_0 =~= models_of(branches@));
    assert(limited(all, typos) is And && limited(some, typos) is Or);
    assert(limit_all->And_0 =~= limited(all, typos)->And_0);
    assert(limit_some->Or_0 =~= limited(some, typos)->Or_0);
}

/// The most typos that a word of the tree tolerates.
pub fn max_typos(tree: &Operation) -> (most: u8)
    ensures
        most == most_typos(model_of(*tree)),
    decreases tree,
{
    match tree {
        Operation::And(branches) => {
            let most = max_typos_among(branches);
            proof {
                lemma_most_typos_branches(*branches);
            }
            most
        },
        Operation::Or(branches) => {
            let most = max_typos_among(branches);
            proof {
                lemma_most_typos_branches(*branches);
            }
            most
        },
        Operation::TolerantWord(_, max_typos) => *max_typos,
        Operation::Word(_) => 0,
        Operation::Phrase(_) => 0,
    }
}

/// The most typos that a word of the branches tolerates.
fn max_typos_among(branches: &Vec<Operation>) -> (most: u8)
    ensures
        most == most_typos_among(models_of(branches@), branches@.len() as int),
    decreases branches,
{
    let mut most: u8 = 0;
    let mut at: usize = 0;
    while at < branches.len()
        invariant
            at <= branches@.len(),
            most == most_typos_among(models_of(branches@), at as int),
            forall|j: int|
                0 <= j < branches@.len() ==> decreases_to!(*branches => #[trigger] branches@[j]),
        decreases branches@.len() - at,
    {
        let here = max_typos(&branches[at]);
        assert(models_of(branches@)[at as int] == model_of(branches@[at as int]));
        if most < here {
            most = here;
        }
        at += 1;
    }
    most
}

proof fn lemma_most_typos_branches(branches: Vec<Operation>)
    ensures
        most_typos(model_of(Operation::And(branches))) == most_typos_among(
            models_of(branches@),
            branches@.len() as int,
        ),
        most_typos(model_of(Operation::Or(branches))) == most_typos_among(
            models_of(branches@),
            branches@.len() as int,
        ),
{
    let all = model_of(Operation::And(branches));
    let some = model_of(Operation::Or(branches));
    assert(all is And && some is Or);
    assert(all->And_0 =~= models_of(branches@));
    assert(some->Or_0 =~= models_of(branches@));
}

/// The tree without its last `dropped` branches, where it is an `And` that
/// has more branches than that; any other tree as it is.
pub open spec fn without_last(tree: OperationModel, dropped: int) -> OperationModel {
    match tree {
        OperationModel::And(branches) => if 0 < dropped < branches.len() {
            OperationModel::And(branches.take(branches.len() - dropped))
        } else {
            tree
        },
        _ => tree,
    }
}

/// The most branches that can be left out of the tree: all but one of the
/// branches of an `And`.
pub open spec fn most_dropped(tree: OperationModel) -> int {
    match tree {
        OperationModel::And(branches) => if branches.len() == 0 {
            0
        } else if branches.len() - 1 < u32::MAX - 1 {
            branches.len() - 1
        } else {
            u32::MAX - 1
        },
        _ => 0,
    }
}

/// The tree without its last `dropped` branches.
pub fn drop_last(tree: &Operation, dropped: u32) -> (shorter: Operation)
    ensures
        model_of(shorter) == without_last(model_of(*tree), dropped as int),
{
    match tree {
        Operation::And(branches) => {
            proof {
                lemma_model_branches(*branches);
            }
            if 0 < dropped && (dropped as usize) < branches.len() {
                let keep: usize = branches.len() - dropped as usize;
                let mut copies: Vec<Operation> = Vec::new();
                let mut at: usize = 0;
                while at < keep
                    invariant
                        at <= keep <= branches@.len(),
                        copies@.len() == at,
                        forall|j: int|
                            0 <= j < at ==> model_of(#[trigger] copies@[j]) == model_of(
                                branches@[j],
                            ),
                    decreases keep - at,
                {
                    copies.push(copy_operation(&branches[at]));
                    at += 1;
                }
                proof {
                    lemma_model_branches(copies);
                    assert(models_of(copies@) =~= models_of(branches@).take(keep as int));
                }
                Operation::And(copies)
            } else {
                copy_operation(tree)
            }
        },
        _ => copy_operation(tree),
    }
}

/// The most branches that can be left out of the tree.
pub fn max_dropped(tree: &Operation) -> (most: u32)
    ensures
        most == most_dropped(model_of(*tree)),
        most < u32::MAX,
{
    match tree {
        Operation::And(branches) => {
            proof {
                lemma_model_branches(*branches);
            }
            if branches.len() == 0 {
                0
            } else if branches.len() - 1 < (u32::MAX - 1) as usize {
                (branches.len() - 1) as u32
            } else {
                u32::MAX - 1
            }
        },
        _ => 0,
    }
}

/// The way in which a query is relaxed from one bucket to the next.
#[derive(Debug, Clone, Copy, PartialEq, Eq, Structural)]
pub enum Relaxation {
    /// One more typo is allowed in each word.
    Typos,
    /// One more of the last words is left out.
    Words,
    /// The query stays as it is.
    Nothing,
}

/// The tree at a level of the relaxation.
pub open spec fn relaxed(kind: Relaxation, tree: OperationModel, level: int) -> OperationModel {
    match kind {
        Relaxation::Typos => limited(tree, level as u8),
        Relaxation::Words => without_last(tree, level),
        Relaxation::Nothing => tree,
    }
}

/// The last level of the relaxation of a tree.
pub open spec fn last_level(kind: Relaxation, tree: OperationModel) -> int {
    match kind {
        Relaxation::Typos => most_typos(tree),
        Relaxation::Words => most_dropped(tree),
        Relaxation::Nothing => 0,
    }
}

/// The tree at a level of the relaxation.
pub fn relax(kind: Relaxation, tree: &Operation, level: u32) -> (looser: Operation)
    requires
        level <= last_level(kind, model_of(*tree)),
    ensures
        model_of(looser) == relaxed(kind, model_of(*tree), level as int),
{
    match kind {
        Relaxation::Typos => {
            proof {
                lemma_most_typos_bound(model_of(*tree));
            }
            limit_tree(tree, level as u8)
        },
        Relaxation::Words => drop_last(tree, level),
        Relaxation::Nothing => copy_operation(tree),
    }
}

/// The last level of the relaxation of a tree.
pub fn max_level(kind: Relaxation, tree: &Operation) -> (most: u32)
    ensures
        most == last_level(kind, model_of(*tree)),
        most < u32::MAX,
{
    match kind {
        Relaxation::Typos => max_typos(tree) as u32,
        Relaxation::Words => max_dropped(tree),
        Relaxation::Nothing => 0,
    }
}

/// No word tolerates more than 255 typos.
pub proof fn lemma_most_typos_bound(tree: OperationModel)
    ensures
        0 <= most_typos(tree) <= u8::MAX,
    decreases tree, 0int,
{
    match tree {
        OperationModel::And(branches) => lemma_most_typos_among_bound(
            branches,
            branches.len() as int,
        ),
        OperationModel::Or(branches) => lemma_most_typos_among_bound(
            branches,
            branches.len() as int,
        ),
        _ => {},
    }
}

proof fn lemma_most_typos_among_bound(branches: Seq<OperationModel>, upto: int)
    ensures
        0 <= most_typos_among(branches, upto) <= u8::MAX,
    decreases branches, upto,
{
    if 0 < upto <= branches.len() {
        lemma_most_typos_among_bound(branches, upto - 1);
        lemma_most_typos_bound(branches[upto - 1]);
    }
}

/// The documents that match the tree at a level of the relaxation.
pub open spec fn level_docs(
    index: &Index,
    near: &WordDerivationsCache,
    kind: Relaxation,
    tree: OperationModel,
    level: int,
) -> Result<Set<u32>, SearchError> {
    resolved(index, near, relaxed(kind, tree, level))
}

/// The documents of a level that are handed out: those that are still to
/// rank and not excluded.
pub open spec fn level_bucket(
    index: &Index,
    near: &WordDerivationsCache,
    kind: Relaxation,
    tree: OperationModel,
    level: int,
    left: Set<u32>,
    excluded: Set<u32>,
) -> Set<u32> {
    match level_docs(index, near, kind, tree, level) {
        Ok(docids) => docids.intersect(left).difference(excluded),
        Err(_) => Set::empty(),
    }
}

/// The documents of a bucket that are ranked: those that it carries, or
/// those that its query matches at the last level of the relaxation.
pub open spec fn asked_of(
    index: &Index,
    near: &WordDerivationsCache,
    kind: Relaxation,
    bucket: CriterionResult,
) -> Result<Set<u32>, SearchError> {
    match bucket.candidates {
        Some(candidates) => Ok(members(&candidates)),
        None => level_docs(
            index,
            near,
            kind,
            model_of(bucket.query_tree->Some_0),
            last_level(kind, model_of(bucket.query_tree->Some_0)),
        ),
    }
}

/// The documents of the first criterion's bucket, as the first bucket has
/// them of a criterion that ranks the buckets of a parent by `kind`: those
/// of the parent where it carries the documents of its buckets, and else
/// the documents that the query tree of the parent matches at the last
/// level of the relaxation.
pub open spec fn whole_after(
    index: &Index,
    kind: Relaxation,
    carries: bool,
    first_tree: Option<Operation>,
    parent_whole: Option<Set<u32>>,
    near: &WordDerivationsCache,
) -> Option<Set<u32>> {
    if carries {
        parent_whole
    } else {
        match first_tree {
            Some(tree) => match level_docs(
                index,
                near,
                kind,
                model_of(tree),
                last_level(kind, model_of(tree)),
            ) {
                Ok(asked) => Some(asked),
                Err(_) => None,
            },
            None => None,
        }
    }
}

/// A bucket of the parent whose documents are being ranked.
struct Ranked {
    query_tree: Operation,
    left: RoaringBitmap,
    bucket_candidates: RoaringBitmap,
    level: u32,
    most: u32,
}

/// The ranking of the buckets of a parent by the levels of a relaxation.
pub struct TreeRanking<'t> {
    index: &'t Index,
    kind: Relaxation,
    current: Option<Ranked>,
}

impl<'t> TreeRanking<'t> {
    /// The tables of the index are in order, and the ranking is within the
    /// levels of the relaxation of its query.
    #[verifier::type_invariant]
    spec fn inv(self) -> bool {
        &&& self.index.wf()
        &&& self.current matches Some(ranked) ==> ranked.most == last_level(
            self.kind,
            model_of(ranked.query_tree),
        ) && ranked.level <= ranked.most + 1 && ranked.most < u32::MAX
    }

    /// The index that the search reads.
    pub closed spec fn index(&self) -> &Index {
        self.index
    }

    /// A bucket of the parent is being ranked.
    pub closed spec fn is_ranking(&self) -> bool {
        self.current is Some
    }

    /// The query tree of the bucket that is being ranked.
    pub closed spec fn tree(&self) -> OperationModel {
        model_of(self.current->Some_0.query_tree)
    }

    /// The documents that are still to rank.
    pub closed spec fn left(&self) -> Set<u32> {
        members(&self.current->Some_0.left)
    }

    /// The documents of the first criterion's bucket.
    pub closed spec fn bucket(&self) -> Set<u32> {
        members(&self.current->Some_0.bucket_candidates)
    }

    /// The level of the bucket that comes next.
    pub closed spec fn level(&self) -> int {
        self.current->Some_0.level as int
    }

    /// The way in which the query is relaxed.
    pub closed spec fn kind(&self) -> Relaxation {
        self.kind
    }

    /// A ranking that has no bucket to rank yet.
    pub fn new(index: &'t Index, kind: Relaxation) -> (ranking: TreeRanking<'t>)
        requires
            index.wf(),
        ensures
            ranking.index() == index,
            ranking.kind() == kind,
            !ranking.is_ranking(),
    {
        TreeRanking { index, kind, current: None }
    }

    /// Whether a bucket of the parent is being ranked.
    pub fn has_bucket(&self) -> (ranking: bool)
        ensures
            ranking == self.is_ranking(),
    {
        self.current.is_some()
    }

    /// Whether `handed` is what the ranking answers when it takes `bucket`
    /// from the parent, and `after` the ranking that it then is. A bucket
    /// without a query tree is handed on, without the excluded documents;
    /// any other is ranked from then on, and nothing is handed out yet.
    pub open spec fn starts_to(
        &self,
        after: &TreeRanking<'t>,
        bucket: CriterionResult,
        wdcache: &WordDerivationsCache,
        excluded: Set<u32>,
        handed: Result<Option<CriterionResult>, SearchError>,
    ) -> bool {
        &&& after.index() == self.index()
        &&& after.kind() == self.kind()
        &&& match bucket.query_tree {
            None => {
                &&& !after.is_ranking()
                &&& handed matches Ok(Some(found))
                &&& found.query_tree is None
                &&& members(&found.bucket_candidates) == members(&bucket.bucket_candidates)
                &&& match bucket.candidates {
                    None => found.candidates is None,
                    Some(candidates) => found.candidates matches Some(kept) && members(&kept)
                        == members(&candidates).difference(excluded),
                }
            },
            Some(tree) => match asked_of(self.index(), wdcache, self.kind(), bucket) {
                Err(error) => {
                    &&& handed == Err::<Option<CriterionResult>, SearchError>(error)
                    &&& !after.is_ranking()
                },
                Ok(asked) => {
                    &&& handed matches Ok(None)
                    &&& after.is_ranking()
                    &&& after.tree() == model_of(tree)
                    &&& after.level() == 0
                    &&& after.left() == asked.difference(excluded)
                    &&& after.bucket() == if bucket.candidates is Some {
                        members(&bucket.bucket_candidates)
                    } else {
                        members(&bucket.bucket_candidates).union(asked)
                    }
                },
            },
        }
    }

    /// Takes a bucket of the parent. A bucket without a query tree is handed
    /// on at once, without the excluded documents where it carries
    /// documents. The documents of any other bucket are ranked from now on:
    /// those that it carries, or those that its query matches at the last
    /// level of the relaxation, without the excluded ones.
    pub fn start(
        &mut self,
        bucket: CriterionResult,
        wdcache: &WordDerivationsCache,
        excluded_candidates: &RoaringBitmap,
    ) -> (handed: Result<Option<CriterionResult>, SearchError>)
        ensures
            old(self).starts_to(final(self), bucket, wdcache, members(excluded_candidates), handed),
    {
        proof {
            use_type_invariant(&*self);
        }
        let CriterionResult { query_tree, candidates, bucket_candidates } = bucket;
        let mut bucket_candidates = bucket_candidates;
        match query_tree {
            None => {
                self.current = None;
                let candidates = match candidates {
                    None => None,
                    Some(mut candidates) => {
                        difference_with(&mut candidates, excluded_candidates);
                        Some(candidates)
                    },
                };
                Ok(Some(CriterionResult { query_tree: None, candidates, bucket_candidates }))
            },
            Some(tree) => {
                let most: u32 = max_level(self.kind, &tree);
                let mut left: RoaringBitmap = match candidates {
                    Some(candidates) => candidates,
                    None => {
                        let loosest = relax(self.kind, &tree, most);
                        let mut cache = ResolveCache::new();
                        match resolve_query_tree(self.index, &loosest, &mut cache, wdcache) {
                            Err(error) => {
                                self.current = None;
                                return Err(error);
                            },
                            Ok(matching) => {
                                union_with(&mut bucket_candidates, &matching);
                                matching
                            },
                        }
                    },
                };
                difference_with(&mut left, excluded_candidates);
                self.current = Some(Ranked { query_tree: tree, left, bucket_candidates, level: 0, most });
                Ok(None)
            },
        }
    }

    /// Whether `handed` is what the ranking hands out next, and `after` the
    /// ranking that it then is. The bucket is that of the first level, from
    /// the level reached, at which documents are left; the last bucket holds
    /// what no level matched. An error is a bitmap that cannot be read at
    /// one of these levels.
    pub open spec fn ranks_to(
        &self,
        after: &TreeRanking<'t>,
        wdcache: &WordDerivationsCache,
        excluded: Set<u32>,
        handed: Result<CriterionResult, SearchError>,
    ) -> bool {
        match handed {
            Ok(found) => {
                &&& found.candidates matches Some(candidates)
                &&& members(&candidates).disjoint(excluded)
                &&& members(&candidates).subset_of(self.left())
                &&& members(&found.bucket_candidates) == self.bucket()
                &&& found.query_tree matches Some(limit)
                &&& if after.is_ranking() {
                    let level = after.level() - 1;
                    // the bucket of the first level that has documents
                    &&& self.level() < after.level() <= last_level(
                        self.kind(),
                        self.tree(),
                    ) + 1
                    &&& after.tree() == self.tree()
                    &&& after.bucket() == self.bucket()
                    &&& model_of(limit) == relaxed(self.kind(), self.tree(), level)
                    &&& members(&candidates) != Set::<u32>::empty()
                    &&& members(&candidates) == level_bucket(
                        self.index(),
                        wdcache,
                        self.kind(),
                        self.tree(),
                        level,
                        self.left(),
                        excluded,
                    )
                    &&& after.left() == self.left().difference(members(&candidates))
                    &&& forall|fewer: int|
                        self.level() <= fewer < level ==> #[trigger] level_bucket(
                            self.index(),
                            wdcache,
                            self.kind(),
                            self.tree(),
                            fewer,
                            self.left(),
                            excluded,
                        ) == Set::<u32>::empty()
                } else {
                    // no level is left: what is still to rank
                    &&& model_of(limit) == self.tree()
                    &&& members(&candidates) == self.left().difference(
                        excluded,
                    )
                    &&& forall|fewer: int|
                        self.level() <= fewer <= last_level(
                            self.kind(),
                            self.tree(),
                        ) ==> #[trigger] level_bucket(
                            self.index(),
                            wdcache,
                            self.kind(),
                            self.tree(),
                            fewer,
                            self.left(),
                            excluded,
                        ) == Set::<u32>::empty()
                }
            },
            Err(error) => {
                &&& error == SearchError::Bitmap
                &&& after.is_ranking()
                &&& after.left() == self.left()
                &&& exists|level: int|
                    self.level() <= level <= last_level(
                        self.kind(),
                        self.tree(),
                    ) && (#[trigger] level_docs(
                        self.index(),
                        wdcache,
                        self.kind(),
                        self.tree(),
                        level,
                    )) is Err
            },
        }
    }

    /// The next bucket of the bucket that is being ranked: the documents,
    /// among those still to rank and not excluded, that match the query at
    /// the first level for which there are any, counted from the level
    /// reached. When no level is left, the documents that are still to rank
    /// make the last bucket, and the ranking of the bucket is over.
    pub fn rank(&mut self, wdcache: &WordDerivationsCache, excluded_candidates: &RoaringBitmap) -> (handed:
        Result<CriterionResult, SearchError>)
        requires
            old(self).is_ranking(),
        ensures
            final(self).index() == old(self).index(),
            final(self).kind() == old(self).kind(),
            old(self).ranks_to(final(self), wdcache, members(excluded_candidates), handed),
    {
        proof {
            use_type_invariant(&*self);
        }
        let mut current: Option<Ranked> = None;
        std::mem::swap(&mut self.current, &mut current);
        let ranked: Ranked = match current {
            Some(ranked) => ranked,
            None => vstd::pervasive::unreached(),
        };
        let Ranked { query_tree, left, bucket_candidates, level, most } = ranked;
        let kind: Relaxation = self.kind;
        let ghost tree = model_of(query_tree);
        let ghost asked = members(&left);
        let ghost excluded = members(excluded_candidates);
        let mut left = left;
        let mut level: u32 = level;
        let ghost first = level;
        while level <= most
            invariant
                self.index.wf(),
                self.index == old(self).index,
                self.kind == kind,
                kind == old(self).kind,
                self.current is None,
                first <= level <= most + 1,
                most < u32::MAX,
                most == last_level(kind, tree),
                tree == model_of(query_tree),
                members(&left) == asked,
                excluded == members(excluded_candidates),
                old(self).is_ranking(),
                first == old(self).level(),
                tree == old(self).tree(),
                asked == old(self).left(),
                members(&bucket_candidates) == old(self).bucket(),
                forall|fewer: int|
                    first <= fewer < level ==> #[trigger] level_bucket(
                        self.index,
                        wdcache,
                        kind,
                        tree,
                        fewer,
                        asked,
                        excluded,
                    ) == Set::<u32>::empty(),
            decreases most + 1 - level,
        {
            let limit = relax(kind, &query_tree, level);
            let mut cache = ResolveCache::new();
            let mut candidates = match resolve_query_tree(self.index, &limit, &mut cache, wdcache) {
                Ok(candidates) => candidates,
                Err(error) => {
                    assert(level_docs(self.index, wdcache, kind, tree, level as int) is Err);
                    assert(error == SearchError::Bitmap);
                    self.current = Some(
                        Ranked { query_tree, left, bucket_candidates, level, most },
                    );
                    assert(old(self).level() <= level <= last_level(
                        old(self).kind(),
                        old(self).tree(),
                    ));
                    assert(level_docs(
                        old(self).index(),
                        wdcache,
                        old(self).kind(),
                        old(self).tree(),
                        level as int,
                    ) is Err);
                    return Err(error);
                },
            };
            intersect_with(&mut candidates, &left);
            difference_with(&mut candidates, excluded_candidates);
            assert(members(&candidates) == level_bucket(
                self.index,
                wdcache,
                kind,
                tree,
                level as int,
                asked,
                excluded,
            ));
            level = level + 1;
            if !is_empty_bitmap(&candidates) {
                difference_with(&mut left, &candidates);
                let handed = CriterionResult {
                    query_tree: Some(limit),
                    candidates: Some(candidates),
                    bucket_candidates: copy_bitmap(&bucket_candidates),
                };
                self.current = Some(Ranked { query_tree, left, bucket_candidates, level, most });
                return Ok(handed);
            }
        }
        difference_with(&mut left, excluded_candidates);
        Ok(
            CriterionResult {
                query_tree: Some(query_tree),
                candidates: Some(left),
                bucket_candidates,
            },
        )
    }

    /// Whether `handed` is the next bucket of the ranking, which is never
    /// missing while a bucket of the parent is being ranked, and `after` the
    /// ranking that it then is.
    pub open spec fn ranks_on(
        &self,
        after: &TreeRanking<'t>,
        wdcache: &WordDerivationsCache,
        excluded: Set<u32>,
        handed: Result<Option<CriterionResult>, SearchError>,
    ) -> bool {
        &&& after.index() == self.index()
        &&& after.kind() == self.kind()
        &&& match handed {
            Ok(Some(found)) => self.ranks_to(after, wdcache, excluded, Ok(found)),
            Ok(None) => false,
            Err(error) => self.ranks_to(after, wdcache, excluded, Err(error)),
        }
    }

    /// The next bucket of the bucket that is being ranked, as a criterion
    /// hands it out.
    pub fn rank_on(&mut self, wdcache: &WordDerivationsCache, excluded_candidates: &RoaringBitmap) -> (handed: Result<
        Option<CriterionResult>,
        SearchError,
    >)
        requires
            old(self).is_ranking(),
        ensures
            old(self).ranks_on(final(self), wdcache, members(excluded_candidates), handed),
    {
        match self.rank(wdcache, excluded_candidates) {
            Ok(found) => Ok(Some(found)),
            Err(error) => Err(error),
        }
    }

    /// Whether `handed` is what the ranking hands out for `answer`, the
    /// answer of its parent, while no bucket is being ranked, and `after`
    /// the ranking that it then is. An error of the parent, and its end,
    /// are handed on as they are. A bucket of the parent is taken, and
    /// where it is ranked, the first bucket of its ranking is handed out.
    pub open spec fn resumes_to(
        &self,
        after: &TreeRanking<'t>,
        answer: Result<Option<CriterionResult>, SearchError>,
        wdcache: &WordDerivationsCache,
        excluded: Set<u32>,
        handed: Result<Option<CriterionResult>, SearchError>,
    ) -> bool {
        match answer {
            Err(error) => handed == Err::<Option<CriterionResult>, SearchError>(error) && *after
                == *self,
            Ok(None) => handed matches Ok(None) && *after == *self,
            Ok(Some(bucket)) => exists|mid: TreeRanking<'t>, started: Result<Option<CriterionResult>, SearchError>|
                #[trigger] self.starts_to(&mid, bucket, wdcache, excluded, started)
                    && match started {
                    Ok(None) => mid.ranks_on(after, wdcache, excluded, handed),
                    _ => handed == started && *after == mid,
                },
        }
    }

    /// What the ranking hands out for `answer`, the answer of its parent,
    /// while no bucket is being ranked.
    pub fn resume(
        &mut self,
        answer: Result<Option<CriterionResult>, SearchError>,
        wdcache: &WordDerivationsCache,
        excluded_candidates: &RoaringBitmap,
    ) -> (handed: Result<Option<CriterionResult>, SearchError>)
        requires
            !old(self).is_ranking(),
        ensures
            old(self).resumes_to(final(self), answer, wdcache, members(excluded_candidates), handed),
    {
        match answer {
            Err(error) => Err(error),
            Ok(None) => Ok(None),
            Ok(Some(bucket)) => {
                let started = self.start(bucket, wdcache, excluded_candidates);
                let ghost mid = *self;
                assert(old(self).starts_to(
                    &mid,
                    bucket,
                    wdcache,
                    members(excluded_candidates),
                    started,
                ));
                match started {
                    Ok(None) => self.rank_on(wdcache, excluded_candidates),
                    Ok(Some(found)) => Ok(Some(found)),
                    Err(error) => Err(error),
                }
            },
        }
    }

    /// In an index whose bitmaps can all be read, the ranking of a
    /// bucket does not fail.
    pub proof fn lemma_ranks_read(
        &self,
        after: &TreeRanking<'t>,
        wdcache: &WordDerivationsCache,
        excluded: Set<u32>,
        handed: Result<Option<CriterionResult>, SearchError>,
    )
        requires
            self.index().wf(),
            self.index().reads_well(),
            self.ranks_on(after, wdcache, excluded, handed),
        ensures
            handed is Ok,
    {
        if handed is Err {
            let level = choose|level: int|
                self.level() <= level <= last_level(self.kind(), self.tree()) && (
                #[trigger] level_docs(self.index(), wdcache, self.kind(), self.tree(), level)) is Err;
            lemma_tree_reads(self.index(), wdcache, relaxed(self.kind(), self.tree(), level));
        }
    }

    /// In an index whose bitmaps can all be read, an answer of the
    /// parent that is no error is taken without an error.
    pub proof fn lemma_resumes_read(
        &self,
        after: &TreeRanking<'t>,
        answer: Result<Option<CriterionResult>, SearchError>,
        wdcache: &WordDerivationsCache,
        excluded: Set<u32>,
        handed: Result<Option<CriterionResult>, SearchError>,
    )
        requires
            self.index().wf(),
            self.index().reads_well(),
            answer is Ok,
            self.resumes_to(after, answer, wdcache, excluded, handed),
        ensures
            handed is Ok,
    {
        if answer->Ok_0 is Some {
            let bucket = answer->Ok_0->Some_0;
            let (mid, started) = choose|mid: TreeRanking<'t>, started: Result<Option<CriterionResult>, SearchError>|
                #[trigger] self.starts_to(&mid, bucket, wdcache, excluded, started)
                    && match started {
                    Ok(None) => mid.ranks_on(after, wdcache, excluded, handed),
                    _ => handed == started && *after == mid,
                };
            if bucket.query_tree is Some && bucket.candidates is None {
                let tree = model_of(bucket.query_tree->Some_0);
                lemma_tree_reads(
                    self.index(),
                    wdcache,
                    relaxed(self.kind(), tree, last_level(self.kind(), tree)),
                );
            }
            if !(started matches Ok(None)) {
                assert(handed == started);
            }
            if started matches Ok(None) {
                mid.lemma_ranks_read(after, wdcache, excluded, handed);
            }
        }
    }
}

/// No document is lost where a bucket is handed out: a document that was
/// still to rank is in the bucket, or is excluded, or is still to rank.
pub proof fn lemma_rank_keeps_all<'t>(
    before: &TreeRanking<'t>,
    after: &TreeRanking<'t>,
    wdcache: &WordDerivationsCache,
    excluded: Set<u32>,
    found: CriterionResult,
)
    requires
        before.ranks_to(after, wdcache, excluded, Ok(found)),
    ensures
        found.candidates is Some,
        members(&found.candidates->Some_0).subset_of(before.left()),
        members(&found.candidates->Some_0).disjoint(excluded),
        before.left().subset_of(
            members(&found.candidates->Some_0).union(excluded).union(
                if after.is_ranking() {
                    after.left()
                } else {
                    Set::<u32>::empty()
                },
            ),
        ),
{
}

} // verus!
