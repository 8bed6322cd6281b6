//! The criterion of the proximity: the documents in which the words of the
//! query stand closest to each other come first.

use roaring::RoaringBitmap;
use vstd::prelude::*;

use crate::best_proximity::{candidates_of, pair_cost, positions_at, strictly_increasing};
use crate::bitmap::{
    copy_bitmap,
    difference_with,
    empty_bitmap,
    intersect_with,
    is_empty_bitmap,
    members,
    union_with,
};
use crate::criteria::finalizer;
use crate::criteria::{Criterion, CriterionParameters, CriterionResult};
use crate::enumerator::{
    lemma_total_cost_bounds,
    lemma_total_cost_prefix,
    lemma_total_cost_push,
    total_cost,
    MAX_WORDS,
};
use crate::error::SearchError;
use crate::index::Index;
use crate::phrase::{
    occurrence_docids,
    occurrence_docs,
    occurrence_fails,
    positions_of,
    read_positions,
};
use crate::query_tree::{
    copy_operation,
    model_of,
    models_of,
    resolve_query_tree,
    words_of,
    Operation,
    OperationModel,
    ResolveCache,
    WordDerivationsCache,
};
use crate::store::copy_bytes;

verus! {

/// `chosen` gives each word a position at which it stands in some document.
pub open spec fn is_chosen(index: &Index, words: Seq<Seq<u8>>, chosen: Seq<u32>) -> bool {
    &&& chosen.len() == words.len()
    &&& forall|i: int|
        0 <= i < words.len() ==> positions_of(index, words[i]).contains(#[trigger] chosen[i])
}

/// `chosen` gives each of the first words a position at which it stands.
pub open spec fn is_chosen_so_far(index: &Index, words: Seq<Seq<u8>>, chosen: Seq<u32>) -> bool {
    &&& chosen.len() <= words.len()
    &&& forall|i: int|
        0 <= i < chosen.len() ==> positions_of(index, words[i]).contains(#[trigger] chosen[i])
}

/// `whole` gives each word a position, starts with `start`, and has the
/// proximity `cost`.
pub open spec fn extends(
    index: &Index,
    words: Seq<Seq<u8>>,
    start: Seq<u32>,
    cost: int,
    whole: Seq<u32>,
) -> bool {
    &&& is_chosen(index, words, whole)
    &&& whole.take(start.len() as int) == start
    &&& total_cost(whole) == cost
}

/// The documents that have the words at positions of the proximity `cost`.
pub open spec fn cost_docs(index: &Index, words: Seq<Seq<u8>>, cost: int) -> Set<u32> {
    Set::new(
        |d: u32|
            exists|chosen: Seq<u32>| #[trigger]
                extends(index, words, Seq::empty(), cost, chosen) && occurrence_docs(
                    index,
                    words,
                    chosen,
                ).contains(d),
    )
}

/// Some bitmap of the documents that have the words at positions of the
/// proximity `cost` cannot be read.
pub open spec fn cost_fails(index: &Index, words: Seq<Seq<u8>>, cost: int) -> bool {
    exists|chosen: Seq<u32>| #[trigger]
        extends(index, words, Seq::empty(), cost, chosen) && occurrence_fails(index, words, chosen)
}

/// Every document of `found` was in `before`, or has the words at positions
/// that start with `start` and have the proximity `cost`.
pub open spec fn is_gathered(
    index: &Index,
    words: Seq<Seq<u8>>,
    start: Seq<u32>,
    cost: int,
    before: Set<u32>,
    found: Set<u32>,
) -> bool {
    forall|d: u32|
        found.contains(d) ==> before.contains(d) || exists|whole: Seq<u32>| #[trigger]
            extends(index, words, start, cost, whole) && occurrence_docs(
                index,
                words,
                whole,
            ).contains(d)
}

/// The lists hold the positions of the words, in increasing order.
pub open spec fn are_positions(index: &Index, words: Seq<Seq<u8>>, lists: Seq<Vec<u32>>) -> bool {
    &&& lists.len() == words.len()
    &&& forall|i: int| 0 <= i < lists.len() ==> strictly_increasing((#[trigger] lists[i])@)
    &&& forall|i: int, p: u32|
        0 <= i < lists.len() ==> ((#[trigger] lists[i])@.contains(p) <==> #[trigger] positions_of(
            index,
            words[i],
        ).contains(p))
}

/// Adds to `found` the documents that have the words at positions that
/// start with `chosen` and have the proximity `target`.
fn gather(
    index: &Index,
    words: &Vec<Vec<u8>>,
    lists: &Vec<Vec<u32>>,
    chosen: &mut Vec<u32>,
    cost: u32,
    target: u32,
    found: &mut RoaringBitmap,
) -> (done: Result<(), SearchError>)
    requires
        index.wf(),
        0 < words@.len() <= MAX_WORDS,
        are_positions(index, words_of(words@), lists@),
        is_chosen_so_far(index, words_of(words@), old(chosen)@),
        cost == total_cost(old(chosen)@),
        cost <= target,
    ensures
        match done {
            Ok(_) => {
                &&& final(chosen)@ == old(chosen)@
                &&& members(old(found)).subset_of(members(final(found)))
                &&& is_gathered(
                    index,
                    words_of(words@),
                    old(chosen)@,
                    target as int,
                    members(old(found)),
                    members(final(found)),
                )
                &&& forall|whole: Seq<u32>| #[trigger]
                    extends(index, words_of(words@), old(chosen)@, target as int, whole)
                        ==> !occurrence_fails(index, words_of(words@), whole) && occurrence_docs(
                        index,
                        words_of(words@),
                        whole,
                    ).subset_of(members(final(found)))
            },
            Err(error) => error == SearchError::Bitmap && cost_fails(
                index,
                words_of(words@),
                target as int,
            ),
        },
    decreases words@.len() - old(chosen)@.len(),
{
    let ghost names = words_of(words@);
    let ghost start = chosen@;
    let ghost before = members(found);
    let level: usize = chosen.len();
    if level == words.len() {
        proof {
            assert forall|whole: Seq<u32>| #[trigger]
                extends(index, names, start, target as int, whole) implies whole == start by {
                assert(whole.take(start.len() as int) =~= whole);
            }
        }
        if cost == target {
            match occurrence_docids(index, words, chosen) {
                Err(error) => {
                    proof {
                        assert(start.take(0) =~= Seq::<u32>::empty());
                        assert(extends(index, names, Seq::empty(), target as int, start));
                    }
                    return Err(error);
                },
                Ok(docids) => {
                    union_with(found, &docids);
                    proof {
                        assert(start.take(start.len() as int) =~= start);
                        assert(extends(index, names, start, target as int, start));
                    }
                },
            }
        }
        return Ok(());
    }
    let list: &Vec<u32> = &lists[level];
    assert(list@ == lists@[level as int]@);
    if level == 0 {
        let mut at: usize = 0;
        while at < list.len()
            invariant
                index.wf(),
                0 < words@.len() <= MAX_WORDS,
                names == words_of(words@),
                are_positions(index, names, lists@),
                level == 0,
                list@ == lists@[0]@,
                at <= list@.len(),
                chosen@ == start,
                start == old(chosen)@,
                start.len() == 0,
                cost == 0,
                before == members(old(found)),
                before.subset_of(members(found)),
                is_gathered(index, names, start, target as int, before, members(found)),
                forall|whole: Seq<u32>, k: int|
                    #![trigger extends(index, names, start, target as int, whole), list@[k]]
                    extends(index, names, start, target as int, whole) && 0 <= k < at && list@[k]
                        == whole[0] ==> !occurrence_fails(index, names, whole) && occurrence_docs(
                        index,
                        names,
                        whole,
                    ).subset_of(members(found)),
            decreases list@.len() - at,
        {
            let next: u32 = list[at];
            let ghost held = members(found);
            proof {
                lemma_total_cost_push(start, next);
                assert(lists@[0]@.contains(list@[at as int]));
                assert(positions_of(index, names[0]).contains(next));
            }
            chosen.push(next);
            proof {
                assert forall|i: int| 0 <= i < chosen@.len() implies positions_of(
                    index,
                    names[i],
                ).contains(#[trigger] chosen@[i]) by {}
            }
            match gather(index, words, lists, chosen, 0, target, found) {
                Err(error) => {
                    return Err(error);
                },
                Ok(_) => {},
            }
            chosen.pop();
            proof {
                assert(chosen@ =~= start);
                lemma_gathered_on(index, names, start, next, target as int, before, held, members(found));
                assert forall|whole: Seq<u32>, k: int|
                    #![trigger extends(index, names, start, target as int, whole), list@[k]]
                    extends(index, names, start, target as int, whole) && 0 <= k < at + 1
                        && list@[k] == whole[0] implies !occurrence_fails(index, names, whole)
                    && occurrence_docs(index, names, whole).subset_of(members(found)) by {
                    if k == at {
                        assert(whole.take(1) =~= start.push(next));
                        assert(extends(index, names, start.push(next), target as int, whole));
                    }
                }
            }
            at += 1;
        }
        proof {
            assert forall|whole: Seq<u32>| #[trigger]
                extends(index, names, start, target as int, whole) implies !occurrence_fails(
                index,
                names,
                whole,
            ) && occurrence_docs(index, names, whole).subset_of(members(found)) by {
                assert(positions_of(index, names[0]).contains(whole[0]));
                assert(lists@[0]@.contains(whole[0]));
                let k = choose|k: int| 0 <= k < list@.len() && list@[k] == whole[0];
                assert(list@[k] == whole[0]);
            }
        }
        Ok(())
    } else {
        let previous: u32 = chosen[level - 1];
        proof {
            lemma_total_cost_bounds(start);
        }
        let mut step: u32 = 0;
        while step <= 8 && step <= target - cost
            invariant
                index.wf(),
                0 < words@.len() <= MAX_WORDS,
                names == words_of(words@),
                are_positions(index, names, lists@),
                0 < level < words@.len(),
                level == start.len(),
                list@ == lists@[level as int]@,
                step <= 9,
                chosen@ == start,
                start == old(chosen)@,
                previous == start[level - 1],
                is_chosen_so_far(index, names, start),
                cost == total_cost(start),
                cost <= target,
                cost <= 8 * (level - 1),
                before == members(old(found)),
                before.subset_of(members(found)),
                is_gathered(index, names, start, target as int, before, members(found)),
                forall|whole: Seq<u32>| #[trigger]
                    extends(index, names, start, target as int, whole) && pair_cost(
                        previous,
                        whole[level as int],
                    ) < step ==> !occurrence_fails(index, names, whole) && occurrence_docs(
                        index,
                        names,
                        whole,
                    ).subset_of(members(found)),
            decreases 9 - step,
        {
            let positions = positions_at(previous, step, list.as_slice());
            let mut at: usize = 0;
            while at < positions.len()
                invariant
                    index.wf(),
                    0 < words@.len() <= MAX_WORDS,
                    names == words_of(words@),
                    are_positions(index, names, lists@),
                    0 < level < words@.len(),
                    level == start.len(),
                    list@ == lists@[level as int]@,
                    step <= 8,
                    cost + step <= target,
                    at <= positions@.len(),
                    candidates_of(previous, step as int, list@, positions@),
                    chosen@ == start,
                    start == old(chosen)@,
                    previous == start[level - 1],
                    is_chosen_so_far(index, names, start),
                    cost == total_cost(start),
                    cost <= 8 * (level - 1),
                    before == members(old(found)),
                    before.subset_of(members(found)),
                    is_gathered(index, names, start, target as int, before, members(found)),
                    forall|whole: Seq<u32>| #[trigger]
                        extends(index, names, start, target as int, whole) && pair_cost(
                            previous,
                            whole[level as int],
                        ) < step ==> !occurrence_fails(index, names, whole) && occurrence_docs(
                            index,
                            names,
                            whole,
                        ).subset_of(members(found)),
                    forall|whole: Seq<u32>, k: int|
                        #![trigger extends(index, names, start, target as int, whole), positions@[k]]
                        extends(index, names, start, target as int, whole) && 0 <= k < at
                            && positions@[k] == whole[level as int] ==> !occurrence_fails(
                            index,
                            names,
                            whole,
                        ) && occurrence_docs(index, names, whole).subset_of(members(found)),
                decreases positions@.len() - at,
            {
                let next: u32 = positions[at];
                let ghost held = members(found);
                proof {
                    lemma_total_cost_push(start, next);
                    assert(list@.contains(positions@[at as int]));
                    assert(lists@[level as int]@.contains(next));
                    assert(positions_of(index, names[level as int]).contains(next));
                }
                chosen.push(next);
                proof {
                    assert forall|i: int| 0 <= i < chosen@.len() implies positions_of(
                        index,
                        names[i],
                    ).contains(#[trigger] chosen@[i]) by {
                        if i < level {
                            assert(chosen@[i] == start[i]);
                        }
                    }
                }
                match gather(index, words, lists, chosen, cost + step, target, found) {
                    Err(error) => {
                        return Err(error);
                    },
                    Ok(_) => {},
                }
                chosen.pop();
                proof {
                    assert(chosen@ =~= start);
                    lemma_gathered_on(
                        index,
                        names,
                        start,
                        next,
                        target as int,
                        before,
                        held,
                        members(found),
                    );
                    assert forall|whole: Seq<u32>, k: int|
                        #![trigger extends(index, names, start, target as int, whole), positions@[k]]
                        extends(index, names, start, target as int, whole) && 0 <= k < at + 1
                            && positions@[k] == whole[level as int] implies !occurrence_fails(
                        index,
                        names,
                        whole,
                    ) && occurrence_docs(index, names, whole).subset_of(members(found)) by {
                        if k == at {
                            assert(whole.take(level + 1) =~= start.push(next));
                            assert(extends(index, names, start.push(next), target as int, whole));
                        }
                    }
                }
                at += 1;
            }
            proof {
                assert forall|whole: Seq<u32>| #[trigger]
                    extends(index, names, start, target as int, whole) && pair_cost(
                        previous,
                        whole[level as int],
                    ) < step + 1 implies !occurrence_fails(index, names, whole) && occurrence_docs(
                    index,
                    names,
                    whole,
                ).subset_of(members(found)) by {
                    let q = whole[level as int];
                    if pair_cost(previous, q) == step {
                        assert(positions_of(index, names[level as int]).contains(q));
                        assert(lists@[level as int]@.contains(q));
                        let k = choose|k: int| 0 <= k < list@.len() && list@[k] == q;
                        assert(positions@.contains(list@[k]));
                        let m = choose|m: int| 0 <= m < positions@.len() && positions@[m] == q;
                        assert(positions@[m] == whole[level as int]);
                    }
                }
            }
            step += 1;
        }
        proof {
            assert forall|whole: Seq<u32>| #[trigger]
                extends(index, names, start, target as int, whole) implies !occurrence_fails(
                index,
                names,
                whole,
            ) && occurrence_docs(index, names, whole).subset_of(members(found)) by {
                let q = whole[level as int];
                crate::best_proximity::lemma_pair_cost_bounds(previous, q);
                // the first words of `whole`, with `q`, are no closer than `whole`
                lemma_total_cost_prefix(whole, level + 1);
                assert(whole.take(level + 1) =~= start.push(q));
                lemma_total_cost_push(start, q);
            }
        }
        Ok(())
    }
}

/// What was gathered for the choices that start with one more position was
/// gathered for the choices that start without it.
proof fn lemma_gathered_on(
    index: &Index,
    words: Seq<Seq<u8>>,
    start: Seq<u32>,
    next: u32,
    cost: int,
    before: Set<u32>,
    held: Set<u32>,
    found: Set<u32>,
)
    requires
        start.len() < words.len(),
        is_gathered(index, words, start, cost, before, held),
        is_gathered(index, words, start.push(next), cost, held, found),
    ensures
        is_gathered(index, words, start, cost, before, found),
{
    assert forall|d: u32| found.contains(d) implies before.contains(d) || exists|whole: Seq<u32>| #[trigger]
        extends(index, words, start, cost, whole) && occurrence_docs(index, words, whole).contains(
            d,
        ) by {
        if !held.contains(d) {
            let whole = choose|whole: Seq<u32>| #[trigger]
                extends(index, words, start.push(next), cost, whole) && occurrence_docs(
                    index,
                    words,
                    whole,
                ).contains(d);
            assert(whole.take(start.len() as int) =~= start) by {
                assert(whole.len() == words.len());
                assert(whole.take(start.len() as int + 1) == start.push(next));
                assert forall|i: int| 0 <= i < start.len() implies whole[i] == start[i] by {
                    assert(whole.take(start.len() as int + 1)[i] == whole[i]);
                    assert(start.push(next)[i] == start[i]);
                }
            }
            assert(extends(index, words, start, cost, whole));
        }
    }
}

/// The documents that have the words at positions of the proximity `cost`.
pub fn docids_at_cost(index: &Index, words: &Vec<Vec<u8>>, lists: &Vec<Vec<u32>>, cost: u32) -> (docids:
    Result<RoaringBitmap, SearchError>)
    requires
        index.wf(),
        0 < words@.len() <= MAX_WORDS,
        are_positions(index, words_of(words@), lists@),
    ensures
        match docids {
            Ok(found) => !cost_fails(index, words_of(words@), cost as int) && members(&found)
                == cost_docs(index, words_of(words@), cost as int),
            Err(error) => error == SearchError::Bitmap && cost_fails(
                index,
                words_of(words@),
                cost as int,
            ),
        },
{
    let mut found = empty_bitmap();
    let mut chosen: Vec<u32> = Vec::new();
    match gather(index, words, lists, &mut chosen, 0, cost, &mut found) {
        Err(error) => Err(error),
        Ok(_) => {
            proof {
                let names = words_of(words@);
                assert(chosen@ =~= Seq::<u32>::empty());
                assert(members(&found) =~= cost_docs(index, names, cost as int));
            }
            Ok(found)
        },
    }
}

/// The words of a query whose documents can be ranked by proximity: the
/// one word of a tree that is a word, or the words of a tree of which every
/// branch is a word; `None` for any other tree.
pub open spec fn query_words(tree: OperationModel) -> Option<Seq<Seq<u8>>> {
    match tree {
        OperationModel::Word(word) => Some(seq![word]),
        OperationModel::And(branches) => if branches.len() > 0 && forall|k: int|
            0 <= k < branches.len() ==> (#[trigger] branches[k]) is Word {
            Some(Seq::new(branches.len(), |k: int| branches[k]->Word_0))
        } else {
            None
        },
        _ => None,
    }
}

/// What an optional list of words stands for.
pub open spec fn words_view(words: Option<Vec<Vec<u8>>>) -> Option<Seq<Seq<u8>>> {
    match words {
        Some(found) => Some(words_of(found@)),
        None => None,
    }
}

/// The words of a query whose documents can be ranked by proximity.
pub fn words_of_query(tree: &Operation) -> (words: Option<Vec<Vec<u8>>>)
    ensures
        words_view(words) == query_words(model_of(*tree)),
{
    match tree {
        Operation::Word(word) => {
            let mut words: Vec<Vec<u8>> = Vec::new();
            words.push(copy_bytes(word.as_slice()));
            assert(words_of(words@) =~= seq![word@]);
            Some(words)
        },
        Operation::And(branches) => {
            let ghost all = model_of(*tree);
            proof {
                assert(all is And);
                assert(all->And_0 =~= models_of(branches@));
            }
            if branches.len() == 0 {
                return None;
            }
            let mut words: Vec<Vec<u8>> = Vec::new();
            let mut at: usize = 0;
            while at < branches.len()
                invariant
                    at <= branches@.len(),
                    branches@.len() > 0,
                    words@.len() == at,
                    model_of(*tree) == OperationModel::And(models_of(branches@)),
                    forall|k: int|
                        0 <= k < at ==> (#[trigger] models_of(branches@)[k]) is Word && words@[k]@
                            == models_of(branches@)[k]->Word_0,
                decreases branches@.len() - at,
            {
                assert(models_of(branches@)[at as int] == model_of(branches@[at as int]));
                match &branches[at] {
                    Operation::Word(word) => {
                        words.push(copy_bytes(word.as_slice()));
                    },
                    _ => {
                        assert(!(models_of(branches@)[at as int] is Word));
                        return None;
                    },
                }
                at += 1;
            }
            proof {
                assert(words_of(words@) =~= Seq::new(
                    models_of(branches@).len(),
                    |k: int| models_of(branches@)[k]->Word_0,
                ));
            }
            Some(words)
        },
        _ => None,
    }
}

/// Whether the documents of a bucket can be ranked by proximity: its query
/// has words, and no more of them than a choice of positions may have.
pub open spec fn is_rankable(query_tree: Option<Operation>) -> bool {
    query_tree matches Some(tree) && query_words(model_of(tree)) matches Some(words)
        && words.len() <= MAX_WORDS
}

/// The documents of a proximity that are handed out: those that are still
/// to rank and not excluded.
pub open spec fn cost_bucket(
    index: &Index,
    words: Seq<Seq<u8>>,
    cost: int,
    left: Set<u32>,
    excluded: Set<u32>,
) -> Set<u32> {
    cost_docs(index, words, cost).intersect(left).difference(excluded)
}

/// A bucket of the parent whose documents are being ranked.
struct RankedWords {
    query_tree: Operation,
    words: Vec<Vec<u8>>,
    lists: Vec<Vec<u32>>,
    left: RoaringBitmap,
    bucket_candidates: RoaringBitmap,
    proximity: u32,
    most: u32,
}

/// The ranking of the buckets of a parent by the proximity of their words.
pub struct ProximityRanking<'t> {
    index: &'t Index,
    current: Option<RankedWords>,
}

/// The criterion of the proximity.
pub struct Proximity<'t, P: Criterion> {
    parent: P,
    ranking: ProximityRanking<'t>,
}

impl<'t> ProximityRanking<'t> {
    /// The tables of the index are in order, and the ranking holds the
    /// positions of the words of the query and is within the proximities
    /// that they can have.
    #[verifier::type_invariant]
    spec fn inv(self) -> bool {
        &&& self.index.wf()
        &&& self.current matches Some(ranked) ==> {
            &&& 0 < ranked.words@.len() <= MAX_WORDS
            &&& query_words(model_of(ranked.query_tree)) == Some(words_of(ranked.words@))
            &&& are_positions(self.index, words_of(ranked.words@), ranked.lists@)
            &&& ranked.most == 8 * (ranked.words@.len() - 1)
            &&& ranked.proximity <= ranked.most + 1
        }
    }

    /// The index that the search reads.
    pub closed spec fn index(&self) -> &Index {
        self.index
    }

    /// A bucket of the parent is being ranked.
    pub closed spec fn is_ranking(&self) -> bool {
        self.current is Some
    }

    /// The query tree of the bucket that is being ranked.
    pub closed spec fn tree(&self) -> OperationModel {
        model_of(self.current->Some_0.query_tree)
    }

    /// The words of the bucket that is being ranked.
    pub closed spec fn words(&self) -> Seq<Seq<u8>> {
        words_of(self.current->Some_0.words@)
    }

    /// The documents that are still to rank.
    pub closed spec fn left(&self) -> Set<u32> {
        members(&self.current->Some_0.left)
    }

    /// The documents of the first criterion's bucket.
    pub closed spec fn bucket(&self) -> Set<u32> {
        members(&self.current->Some_0.bucket_candidates)
    }

    /// The proximity of the bucket that comes next.
    pub closed spec fn level(&self) -> int {
        self.current->Some_0.proximity as int
    }

    /// A ranking that has no bucket to rank yet.
    pub fn new(index: &'t Index) -> (ranking: ProximityRanking<'t>)
        requires
            index.wf(),
        ensures
            ranking.index() == index,
            !ranking.is_ranking(),
    {
        ProximityRanking { index, current: None }
    }

    /// Whether a bucket of the parent is being ranked.
    pub fn has_bucket(&self) -> (ranking: bool)
        ensures
            ranking == self.is_ranking(),
    {
        self.current.is_some()
    }

    /// Whether `handed` is what the ranking answers when it takes `bucket`
    /// from the parent, and `after` the ranking that it then is. A bucket
    /// that cannot be ranked by proximity is handed on, without the
    /// excluded documents; any other is ranked from then on, and nothing is
    /// handed out yet.
    pub open spec fn starts_to(
        &self,
        after: &ProximityRanking<'t>,
        bucket: CriterionResult,
        wdcache: &WordDerivationsCache,
        excluded: Set<u32>,
        handed: Result<Option<CriterionResult>, SearchError>,
    ) -> bool {
        &&& after.index() == self.index()
        &&& if !is_rankable(bucket.query_tree) {
            &&& !after.is_ranking()
            &&& handed matches Ok(Some(found))
            &&& found.query_tree == bucket.query_tree
            &&& members(&found.bucket_candidates) == members(&bucket.bucket_candidates)
            &&& match bucket.candidates {
                None => found.candidates is None,
                Some(candidates) => found.candidates matches Some(kept) && members(&kept)
                    == members(&candidates).difference(excluded),
            }
        } else {
            let words = query_words(model_of(bucket.query_tree->Some_0))->Some_0;
            match finalizer::candidates_of(self.index(), wdcache, bucket) {
                Err(error) => {
                    &&& handed == Err::<Option<CriterionResult>, SearchError>(error)
                    &&& !after.is_ranking()
                },
                Ok(asked) => if exists|i: int|
                    0 <= i < words.len() && (#[trigger] self.index().postings_attrs.bitmap_under(words[i])) is Err {
                    &&& handed == Err::<Option<CriterionResult>, SearchError>(
                        SearchError::Bitmap,
                    )
                    &&& !after.is_ranking()
                } else {
                    &&& handed matches Ok(None)
                    &&& after.is_ranking()
                    &&& after.tree() == model_of(bucket.query_tree->Some_0)
                    &&& after.words() == words
                    &&& after.level() == 0
                    &&& after.left() == asked.difference(excluded)
                    &&& after.bucket() == if bucket.candidates is Some {
                        members(&bucket.bucket_candidates)
                    } else {
                        members(&bucket.bucket_candidates).union(asked)
                    }
                },
            }
        }
    }

    /// Takes a bucket of the parent. A bucket whose documents cannot be
    /// ranked by proximity is handed on at once, without the excluded
    /// documents where it carries documents. The documents of any other
    /// bucket are ranked from now on: those that it carries, or those that
    /// its query tree matches, without the excluded ones.
    pub fn start(
        &mut self,
        bucket: CriterionResult,
        wdcache: &WordDerivationsCache,
        excluded_candidates: &RoaringBitmap,
    ) -> (handed: Result<Option<CriterionResult>, SearchError>)
        ensures
            old(self).starts_to(final(self), bucket, wdcache, members(excluded_candidates), handed),
    {
        proof {
            use_type_invariant(&*self);
        }
        let CriterionResult { query_tree, candidates, bucket_candidates } = bucket;
        let mut bucket_candidates = bucket_candidates;
        let words: Option<Vec<Vec<u8>>> = match &query_tree {
            None => None,
            Some(tree) => match words_of_query(tree) {
                None => None,
                Some(words) => if words.len() <= MAX_WORDS {
                    Some(words)
                } else {
                    None
                },
            },
        };
        match (query_tree, words) {
            (Some(tree), Some(words)) => {
                let ghost names = words_of(words@);
                let mut left: RoaringBitmap = match candidates {
                    Some(candidates) => candidates,
                    None => {
                        let mut cache = ResolveCache::new();
                        match resolve_query_tree(self.index, &tree, &mut cache, wdcache) {
                            Err(error) => {
                                self.current = None;
                                return Err(error);
                            },
                            Ok(matching) => {
                                union_with(&mut bucket_candidates, &matching);
                                matching
                            },
                        }
                    },
                };
                let lists = match read_positions(self.index, &words) {
                    Ok(lists) => lists,
                    Err(error) => {
                        proof {
                            let i = choose|i: int|
                                0 <= i < words@.len() && (
                                #[trigger] self.index.postings_attrs.bitmap_under(words@[i]@)) is Err;
                            assert(self.index.postings_attrs.bitmap_under(names[i]) is Err);
                        }
                        self.current = None;
                        return Err(error);
                    },
                };
                proof {
                    assert forall|i: int| 0 <= i < names.len() implies !((
                    #[trigger] self.index.postings_attrs.bitmap_under(names[i])) is Err) by {
                        assert(self.index.postings_attrs.bitmap_under(words@[i]@) is Ok);
                    }
                    assert(are_positions(self.index, names, lists@)) by {
                        assert forall|i: int, p: u32| 0 <= i < lists@.len() implies ((
                        #[trigger] lists@[i])@.contains(p) <==> #[trigger] positions_of(
                            self.index,
                            names[i],
                        ).contains(p)) by {
                            assert(names[i] == words@[i]@);
                        }
                    }
                }
                difference_with(&mut left, excluded_candidates);
                let most: u32 = 8 * (words.len() as u32 - 1);
                self.current = Some(
                    RankedWords {
                        query_tree: tree,
                        words,
                        lists,
                        left,
                        bucket_candidates,
                        proximity: 0,
                        most,
                    },
                );
                Ok(None)
            },
            (query_tree, _) => {
                self.current = None;
                let candidates = match candidates {
                    None => None,
                    Some(mut candidates) => {
                        difference_with(&mut candidates, excluded_candidates);
                        Some(candidates)
                    },
                };
                Ok(Some(CriterionResult { query_tree, candidates, bucket_candidates }))
            },
        }
    }

    /// Whether `handed` is what the ranking hands out next, and `after` the
    /// ranking that it then is. The bucket is that of the smallest
    /// proximity, from the one reached, at which documents are left; the
    /// last bucket holds what no proximity matched. An error is a bitmap
    /// that cannot be read at one of these proximities.
    pub open spec fn ranks_to(
        &self,
        after: &ProximityRanking<'t>,
        excluded: Set<u32>,
        handed: Result<CriterionResult, SearchError>,
    ) -> bool {
        match handed {
            Ok(found) => {
                &&& found.candidates matches Some(candidates)
                &&& members(&candidates).disjoint(excluded)
                &&& members(&candidates).subset_of(self.left())
                &&& members(&found.bucket_candidates) == self.bucket()
                &&& found.query_tree matches Some(tree)
                &&& model_of(tree) == self.tree()
                &&& if after.is_ranking() {
                    let proximity = after.level() - 1;
                    // the bucket of the first proximity that has documents
                    &&& self.level() < after.level() <= 8 * (self.words().len()
                        - 1) + 1
                    &&& after.tree() == self.tree()
                    &&& after.words() == self.words()
                    &&& after.bucket() == self.bucket()
                    &&& members(&candidates) != Set::<u32>::empty()
                    &&& members(&candidates) == cost_bucket(
                        self.index(),
                        self.words(),
                        proximity,
                        self.left(),
                        excluded,
                    )
                    &&& after.left() == self.left().difference(members(&candidates))
                    &&& forall|closer: int|
                        self.level() <= closer < proximity ==> #[trigger] cost_bucket(
                            self.index(),
                            self.words(),
                            closer,
                            self.left(),
                            excluded,
                        ) == Set::<u32>::empty()
                } else {
                    // no proximity is left: what is still to rank
                    &&& members(&candidates) == self.left().difference(
                        excluded,
                    )
                    &&& forall|closer: int|
                        self.level() <= closer <= 8 * (self.words().len() - 1)
                            ==> #[trigger] cost_bucket(
                            self.index(),
                            self.words(),
                            closer,
                            self.left(),
                            excluded,
                        ) == Set::<u32>::empty()
                }
            },
            Err(error) => {
                &&& error == SearchError::Bitmap
                &&& after.is_ranking()
                &&& after.left() == self.left()
                &&& exists|proximity: int|
                    self.level() <= proximity <= 8 * (self.words().len() - 1)
                        && #[trigger] cost_fails(
                        self.index(),
                        self.words(),
                        proximity,
                    )
            },
        }
    }

    /// The next bucket of the bucket that is being ranked: the documents,
    /// among those still to rank and not excluded, that have the words of
    /// the query at positions of the smallest proximity for which there
    /// are any, counted from the proximity reached. When no proximity is
    /// left, the documents that are still to rank make the last bucket,
    /// and the ranking of the bucket is over.
    pub fn rank(&mut self, excluded_candidates: &RoaringBitmap) -> (handed: Result<
        CriterionResult,
        SearchError,
    >)
        requires
            old(self).is_ranking(),
        ensures
            final(self).index() == old(self).index(),
            old(self).ranks_to(final(self), members(excluded_candidates), handed),
    {
        proof {
            use_type_invariant(&*self);
        }
        let mut current: Option<RankedWords> = None;
        std::mem::swap(&mut self.current, &mut current);
        let ranked: RankedWords = match current {
            Some(ranked) => ranked,
            None => vstd::pervasive::unreached(),
        };
        let RankedWords { query_tree, words, lists, left, bucket_candidates, proximity, most } =
            ranked;
        let ghost names = words_of(words@);
        let ghost asked = members(&left);
        let ghost excluded = members(excluded_candidates);
        let mut left = left;
        let mut proximity: u32 = proximity;
        let ghost first = proximity;
        while proximity <= most
            invariant
                self.index.wf(),
                self.index == old(self).index,
                self.current is None,
                first <= proximity <= most + 1,
                0 < words@.len() <= MAX_WORDS,
                most == 8 * (words@.len() - 1),
                names == words_of(words@),
                query_words(model_of(query_tree)) == Some(names),
                are_positions(self.index, names, lists@),
                members(&left) == asked,
                excluded == members(excluded_candidates),
                old(self).is_ranking(),
                first == old(self).level(),
                names == old(self).words(),
                model_of(query_tree) == old(self).tree(),
                asked == old(self).left(),
                members(&bucket_candidates) == old(self).bucket(),
                forall|closer: int|
                    first <= closer < proximity ==> #[trigger] cost_bucket(
                        self.index,
                        names,
                        closer,
                        asked,
                        excluded,
                    ) == Set::<u32>::empty(),
            decreases most + 1 - proximity,
        {
            let mut candidates = match docids_at_cost(self.index, &words, &lists, proximity) {
                Ok(candidates) => candidates,
                Err(error) => {
                    self.current = Some(
                        RankedWords {
                            query_tree,
                            words,
                            lists,
                            left,
                            bucket_candidates,
                            proximity,
                            most,
                        },
                    );
                    assert(cost_fails(old(self).index(), old(self).words(), proximity as int));
                    return Err(error);
                },
            };
            intersect_with(&mut candidates, &left);
            difference_with(&mut candidates, excluded_candidates);
            assert(members(&candidates) == cost_bucket(
                self.index,
                names,
                proximity as int,
                asked,
                excluded,
            ));
            proximity = proximity + 1;
            if !is_empty_bitmap(&candidates) {
                difference_with(&mut left, &candidates);
                let handed = CriterionResult {
                    query_tree: Some(copy_operation(&query_tree)),
                    candidates: Some(candidates),
                    bucket_candidates: copy_bitmap(&bucket_candidates),
                };
                self.current = Some(
                    RankedWords {
                        query_tree,
                        words,
                        lists,
                        left,
                        bucket_candidates,
                        proximity,
                        most,
                    },
                );
                return Ok(handed);
            }
        }
        difference_with(&mut left, excluded_candidates);
        Ok(
            CriterionResult {
                query_tree: Some(query_tree),
                candidates: Some(left),
                bucket_candidates,
            },
        )
    }

    /// Whether `handed` is the next bucket of the ranking, which is never
    /// missing while a bucket of the parent is being ranked, and `after` the
    /// ranking that it then is.
    pub open spec fn ranks_on(
        &self,
        after: &ProximityRanking<'t>,
        excluded: Set<u32>,
        handed: Result<Option<CriterionResult>, SearchError>,
    ) -> bool {
        &&& after.index() == self.index()
        &&& match handed {
            Ok(Some(found)) => self.ranks_to(after, excluded, Ok(found)),
            Ok(None) => false,
            Err(error) => self.ranks_to(after, excluded, Err(error)),
        }
    }

    /// The next bucket of the bucket that is being ranked, as a criterion
    /// hands it out.
    pub fn rank_on(&mut self, excluded_candidates: &RoaringBitmap) -> (handed: Result<
        Option<CriterionResult>,
        SearchError,
    >)
        requires
            old(self).is_ranking(),
        ensures
            old(self).ranks_on(final(self), members(excluded_candidates), handed),
    {
        match self.rank(excluded_candidates) {
            Ok(found) => Ok(Some(found)),
            Err(error) => Err(error),
        }
    }

    /// Whether `handed` is what the ranking hands out for `answer`, the
    /// answer of its parent, while no bucket is being ranked, and `after`
    /// the ranking that it then is. An error of the parent, and its end,
    /// are handed on as they are. A bucket of the parent is taken, and
    /// where it is ranked, the first bucket of its ranking is handed out.
    pub open spec fn resumes_to(
        &self,
        after: &ProximityRanking<'t>,
        answer: Result<Option<CriterionResult>, SearchError>,
        wdcache: &WordDerivationsCache,
        excluded: Set<u32>,
        handed: Result<Option<CriterionResult>, SearchError>,
    ) -> bool {
        match answer {
            Err(error) => handed == Err::<Option<CriterionResult>, SearchError>(error) && *after
                == *self,
            Ok(None) => handed matches Ok(None) && *after == *self,
            Ok(Some(bucket)) => exists|mid: ProximityRanking<'t>, started: Result<Option<CriterionResult>, SearchError>|
                #[trigger] self.starts_to(&mid, bucket, wdcache, excluded, started)
                    && match started {
                    Ok(None) => mid.ranks_on(after, excluded, handed),
                    _ => handed == started && *after == mid,
                },
        }
    }

    /// What the ranking hands out for `answer`, the answer of its parent,
    /// while no bucket is being ranked.
    pub fn resume(
        &mut self,
        answer: Result<Option<CriterionResult>, SearchError>,
        wdcache: &WordDerivationsCache,
        excluded_candidates: &RoaringBitmap,
    ) -> (handed: Result<Option<CriterionResult>, SearchError>)
        requires
            !old(self).is_ranking(),
        ensures
            old(self).resumes_to(final(self), answer, wdcache, members(excluded_candidates), handed),
    {
        match answer {
            Err(error) => Err(error),
            Ok(None) => Ok(None),
            Ok(Some(bucket)) => {
                let started = self.start(bucket, wdcache, excluded_candidates);
                let ghost mid = *self;
                assert(old(self).starts_to(
                    &mid,
                    bucket,
                    wdcache,
                    members(excluded_candidates),
                    started,
                ));
                match started {
                    Ok(None) => self.rank_on(excluded_candidates),
                    Ok(Some(found)) => Ok(Some(found)),
                    Err(error) => Err(error),
                }
            },
        }
    }

    /// In an index whose bitmaps can all be read, the ranking of a
    /// bucket does not fail.
    pub proof fn lemma_ranks_read(
        &self,
        after: &ProximityRanking<'t>,
        excluded: Set<u32>,
        handed: Result<Option<CriterionResult>, SearchError>,
    )
        requires
            self.index().wf(),
            self.index().reads_well(),
            self.ranks_on(after, excluded, handed),
        ensures
            handed is Ok,
    {
        if handed is Err {
            let proximity = choose|proximity: int|
                self.level() <= proximity <= 8 * (self.words().len() - 1) && #[trigger] cost_fails(
                    self.index(),
                    self.words(),
                    proximity,
                );
            let chosen = choose|chosen: Seq<u32>| #[trigger]
                extends(self.index(), self.words(), Seq::empty(), proximity, chosen)
                    && occurrence_fails(self.index(), self.words(), chosen);
            let i = choose|i: int|
                0 <= i < self.words().len() && (#[trigger] self.index().postings_ids.bitmap_under(
                    crate::index::posting_key(self.words()[i], chosen[i]),
                )) is Err;
            self.index().lemma_reads(crate::index::posting_key(self.words()[i], chosen[i]));
        }
    }

    /// In an index whose bitmaps can all be read, an answer of the
    /// parent that is no error is taken without an error.
    pub proof fn lemma_resumes_read(
        &self,
        after: &ProximityRanking<'t>,
        answer: Result<Option<CriterionResult>, SearchError>,
        wdcache: &WordDerivationsCache,
        excluded: Set<u32>,
        handed: Result<Option<CriterionResult>, SearchError>,
    )
        requires
            self.index().wf(),
            self.index().reads_well(),
            answer is Ok,
            self.resumes_to(after, answer, wdcache, excluded, handed),
        ensures
            handed is Ok,
    {
        if answer->Ok_0 is Some {
            let bucket = answer->Ok_0->Some_0;
            let (mid, started) = choose|mid: ProximityRanking<'t>, started: Result<Option<CriterionResult>, SearchError>|
                #[trigger] self.starts_to(&mid, bucket, wdcache, excluded, started)
                    && match started {
                    Ok(None) => mid.ranks_on(after, excluded, handed),
                    _ => handed == started && *after == mid,
                };
            if is_rankable(bucket.query_tree) {
                let words = query_words(model_of(bucket.query_tree->Some_0))->Some_0;
                if bucket.candidates is None {
                    crate::query_tree::lemma_tree_reads(
                        self.index(),
                        wdcache,
                        model_of(bucket.query_tree->Some_0),
                    );
                }
                assert forall|i: int| 0 <= i < words.len() implies !(
                #[trigger] self.index().postings_attrs.bitmap_under(words[i]) is Err) by {
                    self.index().lemma_reads(words[i]);
                }
            }
            if !(started matches Ok(None)) {
                assert(handed == started);
            }
            if started matches Ok(None) {
                mid.lemma_ranks_read(after, excluded, handed);
            }
        }
    }
}

impl<'t, P: Criterion> Proximity<'t, P> {
    /// The ranking of the buckets.
    pub closed spec fn ranking(&self) -> ProximityRanking<'t> {
        self.ranking
    }

    /// A criterion of the proximity after `parent`.
    pub fn new(index: &'t Index, parent: P) -> (proximity: Proximity<'t, P>)
        requires
            index.wf(),
        ensures
            proximity.ranking().index() == index,
            !proximity.ranking().is_ranking(),
            proximity.starts() == (parent.starts() && parent.carries()),
            proximity.counts() == parent.counts(),
            proximity.reach() == parent.reach(),
            proximity.keeps_near() == parent.keeps_near(),
            proximity.has_more() == parent.has_more(),
            proximity.reads() == (parent.reads() && index.reads_well()),
            forall|near: WordDerivationsCache| #[trigger] proximity.whole(&near) == parent.whole(&near),
            proximity.carries() == parent.carries(),
            proximity.has_trees() == parent.has_trees(),
    {
        Proximity { parent, ranking: ProximityRanking::new(index) }
    }
}

impl<'t, P: Criterion> Criterion for Proximity<'t, P> {
    /// The parent does not fail, and the bitmaps of the index can all be
    /// read.
    closed spec fn reads(&self) -> bool {
        self.parent.reads() && self.ranking.index().wf() && self.ranking.index().reads_well()
    }

    /// A bucket is being ranked, or the parent has a bucket to hand out.
    closed spec fn has_more(&self) -> bool {
        self.ranking.is_ranking() || self.parent.has_more()
    }

    /// The parent leaves the words near the words of the query as they are.
    closed spec fn keeps_near(&self) -> bool {
        self.parent.keeps_near()
    }

    /// The documents of the first criterion's bucket, as the first bucket
    /// of the criterion has them.
    closed spec fn whole(&self, near: &WordDerivationsCache) -> Option<Set<u32>> {
        self.parent.whole(near)
    }

    /// No bucket is being ranked, and the parent accounts for the
    /// documents of its first bucket, which this criterion can take.
    closed spec fn starts(&self) -> bool {
        !self.ranking.is_ranking() && self.parent.starts() && self.parent.carries()
    }

    /// The parent accounts for the documents that it has still to hand out.
    closed spec fn counts(&self) -> bool {
        self.parent.counts()
    }

    /// The documents that are still to rank, and those that the parent has
    /// still to hand out.
    closed spec fn reach(&self) -> Set<u32> {
        if self.ranking.is_ranking() {
            self.ranking.left().union(self.parent.reach())
        } else {
            self.parent.reach()
        }
    }

    /// Each bucket of the criterion carries its documents.
    closed spec fn carries(&self) -> bool {
        self.parent.carries()
    }

    /// Each bucket of the criterion has a query tree.
    closed spec fn has_trees(&self) -> bool {
        self.parent.has_trees()
    }

    /// The next bucket of the bucket that is being ranked, or of the next
    /// bucket of the parent where none is: the documents in which the words
    /// of the query stand closest come first. A bucket of the parent whose
    /// documents cannot be ranked by proximity is handed on as it is.
    fn next(&mut self, params: &mut CriterionParameters<'_>) -> (bucket: Result<
        Option<CriterionResult>,
        SearchError,
    >)
        ensures
            // while a bucket of the parent is being ranked, the parent is not
            // asked; else it is asked, and its answer decides
            if old(self).ranking().is_ranking() {
                old(self).ranking().ranks_on(
                    &final(self).ranking(),
                    members(old(params).excluded_candidates),
                    bucket,
                )
            } else {
                exists|answer: Result<Option<CriterionResult>, SearchError>|
                    #[trigger] old(self).ranking().resumes_to(
                        &final(self).ranking(),
                        answer,
                        &*final(params).wdcache,
                        members(old(params).excluded_candidates),
                        bucket,
                    )
            },
            // the buckets of one bucket of the parent come in their order
            old(self).ranking().is_ranking() && final(self).ranking().is_ranking() && bucket is Ok
                ==> old(self).ranking().level() < final(self).ranking().level(),
    {
        if !self.ranking.has_bucket() {
            let answer = self.parent.next(params);
            let handed = self.ranking.resume(answer, params.wdcache, params.excluded_candidates);
            proof {
                if old(self).reads() && answer is Ok {
                    old(self).ranking().lemma_resumes_read(
                        &self.ranking(),
                        answer,
                        &*params.wdcache,
                        members(params.excluded_candidates),
                        handed,
                    );
                }
            }
            handed
        } else {
            let handed = self.ranking.rank_on(params.excluded_candidates);
            proof {
                if old(self).reads() {
                    old(self).ranking().lemma_ranks_read(
                        &self.ranking(),
                        members(params.excluded_candidates),
                        handed,
                    );
                }
            }
            handed
        }
    }
}

/// No document is lost where a bucket is handed out: a document that was
/// still to rank is in the bucket, or is excluded, or is still to rank.
pub proof fn lemma_rank_keeps_all<'t>(
    before: &ProximityRanking<'t>,
    after: &ProximityRanking<'t>,
    excluded: Set<u32>,
    found: CriterionResult,
)
    requires
        before.ranks_to(after, excluded, Ok(found)),
    ensures
        found.candidates is Some,
        members(&found.candidates->Some_0).subset_of(before.left()),
        members(&found.candidates->Some_0).disjoint(excluded),
        before.left().subset_of(
            members(&found.candidates->Some_0).union(excluded).union(
                if after.is_ranking() {
                    after.left()
                } else {
                    Set::<u32>::empty()
                },
            ),
        ),
{
}

} // verus!
