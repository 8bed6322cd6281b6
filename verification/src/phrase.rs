//! The documents that have the words of a phrase one after the other.

use roaring::RoaringBitmap;
use vstd::prelude::*;

use crate::best_proximity::{best_proximity_for, pair_cost, strictly_increasing};
use crate::bitmap::{bitmap_values, empty_bitmap, intersect_with, members, union_with};
use crate::error::SearchError;
use crate::index::{posting_key, Index};
use crate::position::{attribute_of, index_of};
use crate::query_tree::{docids_of, words_of};

verus! {

/// The longest phrase that a document can hold: its words stand in one
/// attribute.
pub const MAX_PHRASE: usize = 1000;

/// The positions at which `word` stands in some document.
pub open spec fn positions_of(index: &Index, word: Seq<u8>) -> Set<u32> {
    match index.postings_attrs.bitmap_under(word) {
        Ok(Some(positions)) => positions,
        _ => Set::empty(),
    }
}

/// The documents that have `word` at `position`.
pub open spec fn posting_docs(index: &Index, word: Seq<u8>, position: u32) -> Set<u32> {
    match index.postings_ids.bitmap_under(posting_key(word, position)) {
        Ok(Some(docids)) => docids,
        _ => Set::empty(),
    }
}

/// Each position is followed by the next position of the same attribute.
pub open spec fn is_adjacent(chosen: Seq<u32>) -> bool {
    forall|i: int| 0 <= i < chosen.len() - 1 ==> pair_cost(#[trigger] chosen[i], chosen[i + 1]) == 1
}

/// `chosen` gives each word of the phrase a position at which it stands,
/// each next to the one before.
pub open spec fn is_occurrence(index: &Index, words: Seq<Seq<u8>>, chosen: Seq<u32>) -> bool {
    &&& chosen.len() == words.len()
    &&& forall|i: int|
        0 <= i < words.len() ==> positions_of(index, words[i]).contains(#[trigger] chosen[i])
    &&& is_adjacent(chosen)
}

/// The documents that have each word of the phrase at its chosen position.
pub open spec fn occurrence_docs(index: &Index, words: Seq<Seq<u8>>, chosen: Seq<u32>) -> Set<u32> {
    Set::new(
        |d: u32|
            forall|i: int|
                0 <= i < words.len() ==> (#[trigger] posting_docs(
                    index,
                    words[i],
                    chosen[i],
                )).contains(d),
    )
}

/// Some bitmap of the documents of an occurrence cannot be read.
pub open spec fn occurrence_fails(index: &Index, words: Seq<Seq<u8>>, chosen: Seq<u32>) -> bool {
    exists|i: int|
        0 <= i < words.len() && (#[trigger] index.postings_ids.bitmap_under(
            posting_key(words[i], chosen[i]),
        )) is Err
}

/// Some bitmap that the phrase needs cannot be read: the positions of one
/// of its words, or the documents of one of its occurrences. A phrase
/// without words, or too long for an attribute, needs none.
pub open spec fn phrase_fails(index: &Index, words: Seq<Seq<u8>>) -> bool {
    0 < words.len() <= MAX_PHRASE && ((exists|i: int|
        0 <= i < words.len() && (#[trigger] index.postings_attrs.bitmap_under(words[i])) is Err)
        || exists|chosen: Seq<u32>| #[trigger]
        is_occurrence(index, words, chosen) && occurrence_fails(index, words, chosen))
}

/// The documents that have the words of the phrase one after the other.
pub open spec fn phrase_members(index: &Index, words: Seq<Seq<u8>>) -> Set<u32> {
    Set::new(
        |d: u32|
            words.len() > 0 && exists|chosen: Seq<u32>| #[trigger]
                is_occurrence(index, words, chosen) && occurrence_docs(
                    index,
                    words,
                    chosen,
                ).contains(d),
    )
}

/// The position after `from` is the one position at distance 1 from it.
pub proof fn lemma_next_position(from: u32, to: u32)
    ensures
        pair_cost(from, to) == 1 <==> (to == from + 1 && attribute_of(from) == attribute_of(to)),
{
}

/// Positions that follow each other lie in one attribute, one place apart.
pub proof fn lemma_adjacent_chain(chosen: Seq<u32>, i: int)
    requires
        is_adjacent(chosen),
        0 <= i < chosen.len(),
    ensures
        chosen[i] == chosen[0] + i,
        attribute_of(chosen[i]) == attribute_of(chosen[0]),
        index_of(chosen[i]) == index_of(chosen[0]) + i,
    decreases i,
{
    if i > 0 {
        lemma_adjacent_chain(chosen, i - 1);
        assert(pair_cost(chosen[i - 1], chosen[i - 1 + 1]) == 1);
    }
}

/// A phrase that is longer than an attribute stands nowhere.
pub proof fn lemma_long_phrase(chosen: Seq<u32>)
    requires
        is_adjacent(chosen),
    ensures
        chosen.len() <= MAX_PHRASE,
{
    if chosen.len() > 0 {
        lemma_adjacent_chain(chosen, chosen.len() - 1);
    }
}

/// Two chains of positions that start at the same place are the same.
pub proof fn lemma_one_chain(a: Seq<u32>, b: Seq<u32>)
    requires
        is_adjacent(a),
        is_adjacent(b),
        a.len() == b.len(),
        a.len() > 0,
        a[0] == b[0],
    ensures
        a == b,
{
    assert forall|i: int| 0 <= i < a.len() implies a[i] == b[i] by {
        lemma_adjacent_chain(a, i);
        lemma_adjacent_chain(b, i);
    }
    assert(a =~= b);
}

/// The positions of each word of the phrase, in increasing order.
pub fn read_positions(index: &Index, words: &Vec<Vec<u8>>) -> (lists: Result<
    Vec<Vec<u32>>,
    SearchError,
>)
    requires
        index.wf(),
    ensures
        match lists {
            Ok(found) => {
                &&& found@.len() == words@.len()
                &&& forall|i: int|
                    0 <= i < words@.len() ==> (#[trigger] index.postings_attrs.bitmap_under(
                        words@[i]@,
                    )) is Ok
                &&& forall|i: int|
                    0 <= i < words@.len() ==> strictly_increasing((#[trigger] found@[i])@)
                &&& forall|i: int, p: u32|
                    0 <= i < words@.len() ==> ((#[trigger] found@[i])@.contains(p)
                        <==> #[trigger] positions_of(index, words@[i]@).contains(p))
            },
            Err(error) => error == SearchError::Bitmap && exists|i: int|
                0 <= i < words@.len() && (#[trigger] index.postings_attrs.bitmap_under(
                    words@[i]@,
                )) is Err,
        },
{
    let mut found: Vec<Vec<u32>> = Vec::new();
    let mut at: usize = 0;
    while at < words.len()
        invariant
            index.wf(),
            at <= words@.len(),
            found@.len() == at,
            forall|i: int|
                0 <= i < at ==> (#[trigger] index.postings_attrs.bitmap_under(words@[i]@)) is Ok,
            forall|i: int| 0 <= i < at ==> strictly_increasing((#[trigger] found@[i])@),
            forall|i: int, p: u32|
                0 <= i < at ==> ((#[trigger] found@[i])@.contains(p) <==> #[trigger] positions_of(
                    index,
                    words@[i]@,
                ).contains(p)),
        decreases words@.len() - at,
    {
        let ghost before = found@;
        let list: Vec<u32> = match index.word_positions(words[at].as_slice()) {
            Err(error) => {
                assert(index.postings_attrs.bitmap_under(words@[at as int]@) is Err);
                return Err(error);
            },
            Ok(None) => Vec::new(),
            Ok(Some(positions)) => bitmap_values(&positions),
        };
        found.push(list);
        proof {
            assert forall|i: int| 0 <= i < at + 1 implies strictly_increasing(
                (#[trigger] found@[i])@,
            ) by {
                if i < at {
                    assert(found@[i] == before[i]);
                }
            }
            assert forall|i: int, p: u32| 0 <= i < at + 1 implies ((#[trigger] found@[i])@.contains(
                p,
            ) <==> #[trigger] positions_of(index, words@[i]@).contains(p)) by {
                if i < at {
                    assert(found@[i] == before[i]);
                }
            }
        }
        at += 1;
    }
    Ok(found)
}

/// The positions that follow `first`, one per list, each next to the one
/// before; `None` where some list lacks the next position.
fn chain_from(lists: &Vec<Vec<u32>>, first: u32) -> (chain: Option<Vec<u32>>)
    requires
        lists@.len() > 0,
        forall|i: int| 0 <= i < lists@.len() ==> strictly_increasing((#[trigger] lists@[i])@),
    ensures
        match chain {
            Some(chosen) => {
                &&& chosen@.len() == lists@.len()
                &&& chosen@[0] == first
                &&& is_adjacent(chosen@)
                &&& forall|i: int|
                    1 <= i < lists@.len() ==> lists@[i]@.contains(#[trigger] chosen@[i])
            },
            None => forall|other: Seq<u32>|
                #![trigger is_adjacent(other)]
                other.len() == lists@.len() && other[0] == first && is_adjacent(other) ==> exists|
                    i: int,
                | 1 <= i < lists@.len() && !lists@[i]@.contains(#[trigger] other[i]),
        },
{
    let mut chosen: Vec<u32> = Vec::new();
    chosen.push(first);
    let mut at: usize = 1;
    while at < lists.len()
        invariant
            1 <= at <= lists@.len(),
            chosen@.len() == at,
            chosen@[0] == first,
            is_adjacent(chosen@),
            forall|i: int| 0 <= i < lists@.len() ==> strictly_increasing((#[trigger] lists@[i])@),
            forall|i: int| 1 <= i < at ==> lists@[i]@.contains(#[trigger] chosen@[i]),
        decreases lists@.len() - at,
    {
        let current: u32 = chosen[at - 1];
        let ghost before = chosen@;
        let list: &Vec<u32> = &lists[at];
        let next: Option<u32> = match best_proximity_for(current, 1, list.as_slice()) {
            Some((found, positions)) => {
                if found == 1 {
                    let next: u32 = positions[0];
                    assert(list@.contains(positions@[0]) && pair_cost(current, positions@[0]) == 1);
                    Some(next)
                } else {
                    assert forall|j: int| 0 <= j < list@.len() implies pair_cost(
                        current,
                        #[trigger] list@[j],
                    ) != 1 by {}
                    None
                }
            },
            None => {
                assert forall|j: int| 0 <= j < list@.len() implies pair_cost(
                    current,
                    #[trigger] list@[j],
                ) != 1 by {}
                None
            },
        };
        match next {
            Some(position) => {
                chosen.push(position);
                proof {
                    assert forall|i: int| 0 <= i < chosen@.len() - 1 implies pair_cost(
                        #[trigger] chosen@[i],
                        chosen@[i + 1],
                    ) == 1 by {
                        if i < at - 1 {
                            assert(chosen@[i] == before[i] && chosen@[i + 1] == before[i + 1]);
                            assert(pair_cost(before[i], before[i + 1]) == 1);
                        }
                    }
                    assert forall|i: int| 1 <= i < at + 1 implies lists@[i]@.contains(
                        #[trigger] chosen@[i],
                    ) by {
                        if i < at {
                            assert(chosen@[i] == before[i]);
                        }
                    }
                }
            },
            None => {
                proof {
                    assert forall|other: Seq<u32>|
                        #![trigger is_adjacent(other)]
                        other.len() == lists@.len() && other[0] == first && is_adjacent(
                            other,
                        ) implies exists|i: int|
                        1 <= i < lists@.len() && !lists@[i]@.contains(#[trigger] other[i]) by {
                        lemma_adjacent_chain(other, at - 1);
                        lemma_adjacent_chain(chosen@, at - 1);
                        assert(other[at - 1] == current);
                        assert(pair_cost(other[at - 1], other[at - 1 + 1]) == 1);
                        if list@.contains(other[at as int]) {
                            let j = choose|j: int|
                                0 <= j < list@.len() && list@[j] == other[at as int];
                            assert(pair_cost(current, list@[j]) != 1);
                        }
                        assert(!lists@[at as int]@.contains(other[at as int]));
                    }
                }
                return None;
            },
        }
        at += 1;
    }
    Some(chosen)
}

/// The documents that have each word of the phrase at its chosen position.
pub fn occurrence_docids(index: &Index, words: &Vec<Vec<u8>>, chosen: &Vec<u32>) -> (docids: Result<
    RoaringBitmap,
    SearchError,
>)
    requires
        index.wf(),
        chosen@.len() == words@.len(),
        words@.len() > 0,
    ensures
        match docids {
            Ok(found) => !occurrence_fails(index, words_of(words@), chosen@) && members(&found)
                == occurrence_docs(index, words_of(words@), chosen@),
            Err(error) => error == SearchError::Bitmap && occurrence_fails(
                index,
                words_of(words@),
                chosen@,
            ),
        },
{
    let ghost names = words_of(words@);
    let mut found = empty_bitmap();
    let mut at: usize = 0;
    while at < words.len()
        invariant
            index.wf(),
            at <= words@.len() == chosen@.len(),
            names == words_of(words@),
            forall|i: int|
                0 <= i < at ==> (#[trigger] index.postings_ids.bitmap_under(
                    posting_key(names[i], chosen@[i]),
                )) is Ok,
            forall|d: u32|
                members(&found).contains(d) <==> (at > 0 && forall|i: int|
                    0 <= i < at ==> (#[trigger] posting_docs(index, names[i], chosen@[i])).contains(
                        d,
                    )),
        decreases words@.len() - at,
    {
        assert(names[at as int] == words@[at as int]@);
        let docids: RoaringBitmap = match index.word_position_docids(
            words[at].as_slice(),
            chosen[at],
        ) {
            Err(error) => {
                assert(index.postings_ids.bitmap_under(
                    posting_key(names[at as int], chosen@[at as int]),
                ) is Err);
                return Err(error);
            },
            Ok(None) => empty_bitmap(),
            Ok(Some(docids)) => docids,
        };
        assert(members(&docids) == posting_docs(index, names[at as int], chosen@[at as int]));
        if at == 0 {
            found = docids;
        } else {
            intersect_with(&mut found, &docids);
        }
        at += 1;
    }
    proof {
        assert(members(&found) =~= occurrence_docs(index, names, chosen@));
        assert forall|i: int| 0 <= i < names.len() implies !((
        #[trigger] index.postings_ids.bitmap_under(posting_key(names[i], chosen@[i]))) is Err) by {}
    }
    Ok(found)
}

/// The documents that have the words of the phrase one after the other:
/// for each position of the first word, the documents that have each
/// following word at the next position.
pub fn resolve_phrase(index: &Index, words: &Vec<Vec<u8>>) -> (docids: Result<
    RoaringBitmap,
    SearchError,
>)
    requires
        index.wf(),
    ensures
        docids_of(docids) == if phrase_fails(index, words_of(words@)) {
            Err::<Set<u32>, SearchError>(SearchError::Bitmap)
        } else {
            Ok(phrase_members(index, words_of(words@)))
        },
{
    let ghost names = words_of(words@);
    let mut found = empty_bitmap();
    if words.len() == 0 || words.len() > MAX_PHRASE {
        proof {
            assert forall|d: u32| !phrase_members(index, names).contains(d) by {
                if phrase_members(index, names).contains(d) {
                    let chosen = choose|chosen: Seq<u32>| #[trigger]
                        is_occurrence(index, names, chosen) && occurrence_docs(
                            index,
                            names,
                            chosen,
                        ).contains(d);
                    lemma_long_phrase(chosen);
                }
            }
            assert(members(&found) =~= phrase_members(index, names));
        }
        return Ok(found);
    }
    let lists: Vec<Vec<u32>> = match read_positions(index, words) {
        Ok(lists) => lists,
        Err(error) => {
            proof {
                let i = choose|i: int|
                    0 <= i < words@.len() && (#[trigger] index.postings_attrs.bitmap_under(
                        words@[i]@,
                    )) is Err;
                assert(index.postings_attrs.bitmap_under(names[i]) is Err);
            }
            return Err(error);
        },
    };
    proof {
        assert forall|i: int| 0 <= i < names.len() implies !((
        #[trigger] index.postings_attrs.bitmap_under(names[i])) is Err) by {
            assert(index.postings_attrs.bitmap_under(words@[i]@) is Ok);
        }
    }
    let mut at: usize = 0;
    while at < lists[0].len()
        invariant
            index.wf(),
            names == words_of(words@),
            0 < words@.len() <= MAX_PHRASE,
            lists@.len() == words@.len(),
            at <= lists@[0]@.len(),
            forall|i: int| 0 <= i < words@.len() ==> strictly_increasing((#[trigger] lists@[i])@),
            forall|i: int, p: u32|
                0 <= i < words@.len() ==> ((#[trigger] lists@[i])@.contains(p)
                    <==> #[trigger] positions_of(index, words@[i]@).contains(p)),
            forall|i: int|
                0 <= i < names.len() ==> !((#[trigger] index.postings_attrs.bitmap_under(
                    names[i],
                )) is Err),
            forall|chosen: Seq<u32>, k: int|
                #![trigger is_occurrence(index, names, chosen), lists@[0]@[k]]
                is_occurrence(index, names, chosen) && 0 <= k < at && lists@[0]@[k] == chosen[0]
                    ==> !occurrence_fails(index, names, chosen),
            forall|d: u32|
                members(&found).contains(d) <==> exists|chosen: Seq<u32>, k: int|
                    #![trigger is_occurrence(index, names, chosen), lists@[0]@[k]]
                    is_occurrence(index, names, chosen) && 0 <= k < at && lists@[0]@[k] == chosen[0]
                        && occurrence_docs(index, names, chosen).contains(d),
        decreases lists@[0]@.len() - at,
    {
        let first: u32 = lists[0][at];
        let ghost before = members(&found);
        match chain_from(&lists, first) {
            None => {
                proof {
                    assert forall|chosen: Seq<u32>|
                        #![trigger is_occurrence(index, names, chosen)]
                        is_occurrence(index, names, chosen) implies chosen[0] != first by {
                        if chosen[0] == first {
                            let i = choose|i: int|
                                1 <= i < lists@.len() && !lists@[i]@.contains(
                                    #[trigger] chosen[i],
                                );
                            assert(names[i] == words@[i]@);
                            assert(positions_of(index, words@[i]@).contains(chosen[i]));
                            assert(lists@[i]@.contains(chosen[i]));
                        }
                    }
                }
            },
            Some(chain) => {
                proof {
                    assert forall|i: int| 0 <= i < names.len() implies positions_of(
                        index,
                        names[i],
                    ).contains(#[trigger] chain@[i]) by {
                        assert(names[i] == words@[i]@);
                        if i == 0 {
                            assert(lists@[0]@.contains(lists@[0]@[at as int]));
                        } else {
                            assert(lists@[i]@.contains(chain@[i]));
                        }
                    }
                    assert(is_occurrence(index, names, chain@));
                    assert forall|chosen: Seq<u32>|
                        #![trigger is_occurrence(index, names, chosen)]
                        is_occurrence(index, names, chosen) && chosen[0] == first implies chosen
                        == chain@ by {
                        lemma_one_chain(chosen, chain@);
                    }
                }
                match occurrence_docids(index, words, &chain) {
                    Err(error) => {
                        return Err(error);
                    },
                    Ok(docids) => {
                        union_with(&mut found, &docids);
                        proof {
                            assert forall|d: u32| members(&found).contains(d) implies exists|
                                chosen: Seq<u32>,
                                k: int,
                            |
                                #![trigger is_occurrence(index, names, chosen), lists@[0]@[k]]
                                is_occurrence(index, names, chosen) && 0 <= k < at + 1
                                    && lists@[0]@[k] == chosen[0] && occurrence_docs(
                                    index,
                                    names,
                                    chosen,
                                ).contains(d) by {
                                if before.contains(d) {
                                    let (chosen, k) = choose|chosen: Seq<u32>, k: int|
                                        #![trigger is_occurrence(index, names, chosen), lists@[0]@[k]]
                                        is_occurrence(index, names, chosen) && 0 <= k < at
                                            && lists@[0]@[k] == chosen[0] && occurrence_docs(
                                            index,
                                            names,
                                            chosen,
                                        ).contains(d);
                                    assert(is_occurrence(index, names, chosen) && lists@[0]@[k]
                                        == chosen[0]);
                                } else {
                                    assert(is_occurrence(index, names, chain@) && lists@[0]@[at as int]
                                        == chain@[0]);
                                }
                            }
                        }
                    },
                }
            },
        }
        proof {
            let here = lists@[0]@[at as int];
        }
        at += 1;
    }
    proof {
        assert forall|d: u32| members(&found).contains(d) <==> phrase_members(
            index,
            names,
        ).contains(d) by {
            if members(&found).contains(d) {
                let (chosen, k) = choose|chosen: Seq<u32>, k: int|
                    #![trigger is_occurrence(index, names, chosen), lists@[0]@[k]]
                    is_occurrence(index, names, chosen) && 0 <= k < at && lists@[0]@[k] == chosen[0]
                        && occurrence_docs(index, names, chosen).contains(d);
                assert(is_occurrence(index, names, chosen));
            }
            if phrase_members(index, names).contains(d) {
                let chosen = choose|chosen: Seq<u32>| #[trigger]
                    is_occurrence(index, names, chosen) && occurrence_docs(
                        index,
                        names,
                        chosen,
                    ).contains(d);
                assert(names[0] == words@[0]@);
                assert(positions_of(index, words@[0]@).contains(chosen[0]));
                assert(lists@[0]@.contains(chosen[0]));
                let k = choose|k: int| 0 <= k < lists@[0]@.len() && lists@[0]@[k] == chosen[0];
                assert(is_occurrence(index, names, chosen) && lists@[0]@[k] == chosen[0]);
            }
        }
        assert(members(&found) =~= phrase_members(index, names));
        if phrase_fails(index, names) {
            let chosen = choose|chosen: Seq<u32>| #[trigger]
                is_occurrence(index, names, chosen) && occurrence_fails(index, names, chosen);
            assert(names[0] == words@[0]@);
            assert(positions_of(index, words@[0]@).contains(chosen[0]));
            assert(lists@[0]@.contains(chosen[0]));
            let k = choose|k: int| 0 <= k < lists@[0]@.len() && lists@[0]@[k] == chosen[0];
            assert(is_occurrence(index, names, chosen) && lists@[0]@[k] == chosen[0]);
        }
    }
    Ok(found)
}

} // verus!
