//! Enumeration of the ways to choose one position per query word, from the
//! closest choice to the farthest.

use vstd::prelude::*;

use crate::best_proximity::{
    best_proximity_for,
    candidates_of,
    lemma_pair_cost_bounds,
    pair_cost,
    is_sorted,
};

verus! {

/// Largest number of query words that an enumeration accepts: the proximity
/// of a choice must fit in a `u32`.
pub const MAX_WORDS: usize = 0x1000_0000;

/// The proximity of a choice of positions: the sum of the proximities of its
/// consecutive pairs.
pub open spec fn total_cost(chosen: Seq<u32>) -> int
    decreases chosen.len(),
{
    if chosen.len() < 2 {
        0
    } else {
        total_cost(chosen.drop_last()) + pair_cost(
            chosen[chosen.len() - 2],
            chosen[chosen.len() - 1],
        )
    }
}

/// `chosen` takes one position from each list, in the order of the lists.
pub open spec fn is_assignment(lists: Seq<Seq<u32>>, chosen: Seq<u32>) -> bool {
    &&& chosen.len() == lists.len()
    &&& forall|i: int| 0 <= i < chosen.len() ==> lists[i].contains(#[trigger] chosen[i])
}

/// `chosen` takes one position from each of the first lists.
pub open spec fn is_partial_assignment(lists: Seq<Seq<u32>>, chosen: Seq<u32>) -> bool {
    &&& chosen.len() <= lists.len()
    &&& forall|i: int| 0 <= i < chosen.len() ==> lists[i].contains(#[trigger] chosen[i])
}

/// `a` comes before `b` in the order of a dictionary.
pub open spec fn lex_before(a: Seq<u32>, b: Seq<u32>) -> bool {
    exists|k: int|
        0 <= k < a.len() && k < b.len() && #[trigger] a[k] < b[k] && forall|j: int|
            0 <= j < k ==> a[j] == b[j]
}

/// The order in which choices are handed out: by proximity, and among
/// choices of one proximity by the positions, as in a dictionary.
pub open spec fn ranks_before(a: Seq<u32>, b: Seq<u32>) -> bool {
    total_cost(a) < total_cost(b) || (total_cost(a) == total_cost(b) && lex_before(a, b))
}

/// `chosen` is still to come when `last` was the choice handed out last.
pub open spec fn comes_after(last: Option<(u32, Seq<u32>)>, chosen: Seq<u32>) -> bool {
    match last {
        None => true,
        Some((_, previous)) => ranks_before(previous, chosen),
    }
}

/// The lists of a vector of vectors.
pub open spec fn lists_of(positions: Seq<Vec<u32>>) -> Seq<Seq<u32>> {
    Seq::new(positions.len(), |i: int| positions[i]@)
}

/// What a choice kept in memory stands for.
pub open spec fn choice_of(kept: Option<(u32, Vec<u32>)>) -> Option<(u32, Seq<u32>)> {
    match kept {
        None => None,
        Some((cost, chosen)) => Some((cost, chosen@)),
    }
}

/// The positions of a kept choice.
pub open spec fn chosen_in(kept: Option<(u32, Seq<u32>)>) -> Seq<u32> {
    match kept {
        None => Seq::empty(),
        Some((_, chosen)) => chosen,
    }
}

/// The proximity of a kept choice.
pub open spec fn cost_in(kept: Option<(u32, Seq<u32>)>) -> int {
    match kept {
        None => 0,
        Some((cost, _)) => cost as int,
    }
}

/// A kept choice takes one position per list, and carries its proximity.
pub open spec fn is_choice(lists: Seq<Seq<u32>>, kept: Option<(u32, Seq<u32>)>) -> bool {
    match kept {
        None => true,
        Some((cost, chosen)) => is_assignment(lists, chosen) && cost == total_cost(chosen),
    }
}

/// Lists that an enumeration can run on: each sorted, and not more of them
/// than `MAX_WORDS`.
pub open spec fn are_position_lists(lists: Seq<Seq<u32>>) -> bool {
    &&& lists.len() <= MAX_WORDS
    &&& forall|i: int| 0 <= i < lists.len() ==> is_sorted(#[trigger] lists[i])
}

/// The proximity of a choice is at most 8 per pair of consecutive words.
pub proof fn lemma_total_cost_bounds(chosen: Seq<u32>)
    ensures
        0 <= total_cost(chosen),
        chosen.len() >= 1 ==> total_cost(chosen) <= 8 * (chosen.len() - 1),
        chosen.len() == 0 ==> total_cost(chosen) == 0,
    decreases chosen.len(),
{
    if chosen.len() >= 2 {
        lemma_total_cost_bounds(chosen.drop_last());
        lemma_pair_cost_bounds(chosen[chosen.len() - 2], chosen[chosen.len() - 1]);
    }
}

/// Adding a position to a choice adds the proximity of the new pair.
pub proof fn lemma_total_cost_push(chosen: Seq<u32>, next: u32)
    ensures
        total_cost(chosen.push(next)) == if chosen.len() == 0 {
            0
        } else {
            total_cost(chosen) + pair_cost(chosen[chosen.len() - 1], next)
        },
{
    let longer = chosen.push(next);
    assert(longer.drop_last() =~= chosen);
    if chosen.len() == 0 {
    } else {
        assert(longer[longer.len() - 2] == chosen[chosen.len() - 1]);
    }
}

/// A choice is never closer than its first words alone.
pub proof fn lemma_total_cost_prefix(chosen: Seq<u32>, k: int)
    requires
        0 <= k <= chosen.len(),
    ensures
        total_cost(chosen.take(k)) <= total_cost(chosen),
    decreases chosen.len() - k,
{
    if k == chosen.len() {
        assert(chosen.take(k) =~= chosen);
    } else {
        let shorter = chosen.drop_last();
        assert(shorter.take(k) =~= chosen.take(k));
        lemma_total_cost_prefix(shorter, k);
        if chosen.len() >= 2 {
            lemma_pair_cost_bounds(chosen[chosen.len() - 2], chosen[chosen.len() - 1]);
        } else {
            lemma_total_cost_bounds(shorter);
        }
    }
}

/// The dictionary order is transitive.
pub proof fn lemma_lex_transitive(a: Seq<u32>, b: Seq<u32>, c: Seq<u32>)
    requires
        lex_before(a, b),
        lex_before(b, c),
    ensures
        lex_before(a, c),
{
    let k1 = choose|k: int|
        0 <= k < a.len() && k < b.len() && #[trigger] a[k] < b[k] && forall|j: int|
            0 <= j < k ==> a[j] == b[j];
    let k2 = choose|k: int|
        0 <= k < b.len() && k < c.len() && #[trigger] b[k] < c[k] && forall|j: int|
            0 <= j < k ==> b[j] == c[j];
    let k = if k1 <= k2 {
        k1
    } else {
        k2
    };
    assert(a[k] < c[k]);
    assert(forall|j: int| 0 <= j < k ==> a[j] == c[j]);
}

/// No choice comes before itself.
pub proof fn lemma_ranks_irreflexive(a: Seq<u32>)
    ensures
        !ranks_before(a, a),
{
}

/// The order of the choices is transitive.
pub proof fn lemma_ranks_transitive(a: Seq<u32>, b: Seq<u32>, c: Seq<u32>)
    requires
        ranks_before(a, b),
        ranks_before(b, c),
    ensures
        ranks_before(a, c),
{
    if total_cost(a) == total_cost(b) && total_cost(b) == total_cost(c) {
        lemma_lex_transitive(a, b, c);
    }
}

/// Of two different choices over the same lists, one comes before the other.
pub proof fn lemma_ranks_total(a: Seq<u32>, b: Seq<u32>)
    requires
        a.len() == b.len(),
    ensures
        a == b || ranks_before(a, b) || ranks_before(b, a),
{
    lemma_lex_total_from(a, b, 0);
}

proof fn lemma_lex_total_from(a: Seq<u32>, b: Seq<u32>, k: int)
    requires
        a.len() == b.len(),
        0 <= k <= a.len(),
        forall|j: int| 0 <= j < k ==> a[j] == b[j],
    ensures
        a == b || lex_before(a, b) || lex_before(b, a),
    decreases a.len() - k,
{
    if k == a.len() {
        assert(a =~= b);
    } else if a[k] < b[k] {
    } else if b[k] < a[k] {
    } else {
        lemma_lex_total_from(a, b, k + 1);
    }
}

/// What the search has found so far stays at least as good for a choice that
/// it was already compared with.
proof fn lemma_still_covered(b: Seq<u32>, before: Seq<u32>, after: Seq<u32>)
    requires
        !ranks_before(b, before),
        after == before || ranks_before(after, before),
    ensures
        !ranks_before(b, after),
{
    if ranks_before(b, after) && after != before {
        lemma_ranks_transitive(b, after, before);
    }
}

/// Whether the choice `a` comes before the choice `b`.
fn comes_before(cost_a: u32, a: &Vec<u32>, cost_b: u32, b: &Vec<u32>) -> (before: bool)
    requires
        a@.len() == b@.len(),
        cost_a == total_cost(a@),
        cost_b == total_cost(b@),
    ensures
        before == ranks_before(a@, b@),
{
    if cost_a != cost_b {
        return cost_a < cost_b;
    }
    let mut at: usize = 0;
    while at < a.len()
        invariant
            at <= a@.len() == b@.len(),
            total_cost(a@) == total_cost(b@),
            forall|j: int| 0 <= j < at ==> a@[j] == b@[j],
        decreases a@.len() - at,
    {
        if a[at] < b[at] {
            return true;
        }
        if a[at] > b[at] {
            assert(!lex_before(a@, b@)) by {
                if lex_before(a@, b@) {
                    let k = choose|k: int|
                        0 <= k < a@.len() && k < b@.len() && #[trigger] a@[k] < b@[k] && forall|
                            j: int,
                        | 0 <= j < k ==> a@[j] == b@[j];
                    assert(k <= at);
                }
            }
            return false;
        }
        at += 1;
    }
    assert(!lex_before(a@, b@));
    false
}

/// A copy of a choice.
fn copy_positions(chosen: &Vec<u32>) -> (copy: Vec<u32>)
    ensures
        copy@ == chosen@,
{
    let mut copy: Vec<u32> = Vec::new();
    let mut at: usize = 0;
    while at < chosen.len()
        invariant
            at <= chosen@.len(),
            copy@ == chosen@.take(at as int),
        decreases chosen@.len() - at,
    {
        copy.push(chosen[at]);
        at += 1;
        assert(chosen@.take(at as int) == chosen@.take(at - 1).push(chosen@[at - 1]));
    }
    assert(chosen@.take(at as int) == chosen@);
    copy
}

/// `best` is no worse than every choice that starts with `start`, is still to
/// come after `last`, and satisfies `among`.
pub open spec fn covers(
    lists: Seq<Seq<u32>>,
    last: Option<(u32, Seq<u32>)>,
    start: Seq<u32>,
    best: Option<(u32, Seq<u32>)>,
) -> bool {
    forall|b: Seq<u32>|
        #![trigger is_assignment(lists, b)]
        is_assignment(lists, b) && b.take(start.len() as int) == start && comes_after(last, b)
            ==> best is Some && !ranks_before(b, chosen_in(best))
}

/// `after` is the choice `before`, or a better one.
pub open spec fn improves(before: Option<(u32, Seq<u32>)>, after: Option<(u32, Seq<u32>)>) -> bool {
    match before {
        None => true,
        Some((_, old_choice)) => after is Some && (chosen_in(after) == old_choice || ranks_before(
            chosen_in(after),
            old_choice,
        )),
    }
}

/// A choice that the search may keep as the best one so far.
pub open spec fn is_found(
    lists: Seq<Seq<u32>>,
    last: Option<(u32, Seq<u32>)>,
    best: Option<(u32, Seq<u32>)>,
) -> bool {
    is_choice(lists, best) && (best is Some ==> comes_after(last, chosen_in(best)))
}

/// Looks, among the choices that start with `chosen`, for the one that comes
/// first after `last`, and keeps it in `best` if it comes before what `best`
/// held.
fn search(
    lists: &Vec<Vec<u32>>,
    last: &Option<(u32, Vec<u32>)>,
    chosen: &mut Vec<u32>,
    cost: u32,
    best: &mut Option<(u32, Vec<u32>)>,
)
    requires
        are_position_lists(lists_of(lists@)),
        is_choice(lists_of(lists@), choice_of(*last)),
        is_partial_assignment(lists_of(lists@), old(chosen)@),
        cost == total_cost(old(chosen)@),
        is_found(lists_of(lists@), choice_of(*last), choice_of(*old(best))),
    ensures
        final(chosen)@ == old(chosen)@,
        is_found(lists_of(lists@), choice_of(*last), choice_of(*final(best))),
        improves(choice_of(*old(best)), choice_of(*final(best))),
        covers(lists_of(lists@), choice_of(*last), old(chosen)@, choice_of(*final(best))),
    decreases lists@.len() - old(chosen)@.len(), 1int,
{
    let ghost all = lists_of(lists@);
    let ghost until = choice_of(*last);
    let ghost start = chosen@;
    let ghost best_before = choice_of(*best);
    let level: usize = chosen.len();
    if level == lists.len() {
        let is_next: bool = match last {
            None => true,
            Some((last_cost, last_chosen)) => comes_before(*last_cost, last_chosen, cost, chosen),
        };
        let is_better: bool = is_next && match best {
            None => true,
            Some((best_cost, best_chosen)) => comes_before(cost, chosen, *best_cost, best_chosen),
        };
        if is_better {
            *best = Some((cost, copy_positions(chosen)));
        }
        proof {
            assert forall|b: Seq<u32>|
                #![trigger is_assignment(all, b)]
                is_assignment(all, b) && b.take(start.len() as int) == start && comes_after(
                    until,
                    b,
                ) implies choice_of(*best) is Some && !ranks_before(b, chosen_in(choice_of(*best))) by {
                assert(b.take(start.len() as int) =~= b);
            }
        }
    } else if level == 0 {
        let list: &Vec<u32> = &lists[0];
        assert(list@ == all[0]);
        let mut at: usize = 0;
        while at < list.len()
            invariant
                at <= list@.len(),
                list@ == all[0],
                all == lists_of(lists@),
                until == choice_of(*last),
                lists@.len() > 0,
                chosen@ == start,
                start == old(chosen)@,
                start.len() == 0,
                are_position_lists(all),
                is_choice(all, until),
                is_found(all, until, choice_of(*best)),
                improves(best_before, choice_of(*best)),
                forall|b: Seq<u32>, k: int|
                    #![trigger is_assignment(all, b), list@[k]]
                    is_assignment(all, b) && 0 <= k < at && list@[k] == b[0] && comes_after(
                        until,
                        b,
                    ) ==> choice_of(*best) is Some && !ranks_before(b, chosen_in(choice_of(*best))),
            decreases list@.len() - at,
        {
            let next: u32 = list[at];
            let ghost held = choice_of(*best);
            proof {
                lemma_total_cost_push(start, next);
                assert(all[0].contains(next));
            }
            descend(lists, last, chosen, next, 0, best);
            proof {
                let now = choice_of(*best);
                assert forall|b: Seq<u32>, k: int|
                    #![trigger is_assignment(all, b), list@[k]]
                    is_assignment(all, b) && 0 <= k < at + 1 && list@[k] == b[0] && comes_after(
                        until,
                        b,
                    ) implies now is Some && !ranks_before(b, chosen_in(now)) by {
                    if k < at {
                        lemma_still_covered(b, chosen_in(held), chosen_in(now));
                    } else {
                        assert(b.take(1) =~= start.push(next));
                    }
                }
                lemma_improves_chain(best_before, held, now);
            }
            at += 1;
        }
        proof {
            let now = choice_of(*best);
            assert forall|b: Seq<u32>|
                #![trigger is_assignment(all, b)]
                is_assignment(all, b) && b.take(start.len() as int) == start && comes_after(
                    until,
                    b,
                ) implies now is Some && !ranks_before(b, chosen_in(now)) by {
                assert(all[0].contains(b[0]));
                let k = choose|k: int| 0 <= k < list@.len() && list@[k] == b[0];
                assert(list@[k] == b[0]);
            }
        }
    } else {
        let list: &Vec<u32> = &lists[level];
        let previous: u32 = chosen[level - 1];
        assert(list@ == all[level as int]);
        proof {
            lemma_total_cost_bounds(start);
        }
        let mut proximity: u32 = 0;
        while proximity <= 8
            invariant
                proximity <= 9,
                list@ == all[level as int],
                is_sorted(list@),
                all == lists_of(lists@),
                until == choice_of(*last),
                0 < level < lists@.len(),
                level == start.len(),
                chosen@ == start,
                start == old(chosen)@,
                previous == start[level - 1],
                cost == total_cost(start),
                cost <= 8 * (level - 1),
                is_partial_assignment(all, start),
                are_position_lists(all),
                is_choice(all, until),
                is_found(all, until, choice_of(*best)),
                improves(best_before, choice_of(*best)),
                forall|b: Seq<u32>|
                    #![trigger is_assignment(all, b)]
                    is_assignment(all, b) && b.take(level as int) == start && pair_cost(
                        previous,
                        b[level as int],
                    ) < proximity && comes_after(until, b) ==> choice_of(*best) is Some
                        && !ranks_before(b, chosen_in(choice_of(*best))),
            decreases 9 - proximity,
        {
            match best_proximity_for(previous, proximity, list.as_slice()) {
                None => {
                    proof {
                        assert forall|b: Seq<u32>|
                            #![trigger is_assignment(all, b)]
                            is_assignment(all, b) && b.take(level as int) == start implies pair_cost(
                                previous,
                                b[level as int],
                            ) < proximity by {
                            assert(all[level as int].contains(b[level as int]));
                            let k = choose|k: int|
                                0 <= k < list@.len() && list@[k] == b[level as int];
                            assert(pair_cost(previous, list@[k]) < proximity);
                        }
                    }
                    proximity = 9;
                },
                Some((found, positions)) => {
                    let mut at: usize = 0;
                    while at < positions.len()
                        invariant
                            at <= positions@.len(),
                            proximity <= found <= 8,
                            candidates_of(previous, found as int, list@, positions@),
                            list@ == all[level as int],
                            all == lists_of(lists@),
                            until == choice_of(*last),
                            0 < level < lists@.len(),
                            level == start.len(),
                            chosen@ == start,
                            start == old(chosen)@,
                            previous == start[level - 1],
                            cost == total_cost(start),
                            cost <= 8 * (level - 1),
                            is_partial_assignment(all, start),
                            are_position_lists(all),
                            is_choice(all, until),
                            is_found(all, until, choice_of(*best)),
                            improves(best_before, choice_of(*best)),
                            forall|b: Seq<u32>|
                                #![trigger is_assignment(all, b)]
                                is_assignment(all, b) && b.take(level as int) == start && pair_cost(
                                    previous,
                                    b[level as int],
                                ) < proximity && comes_after(until, b) ==> choice_of(*best) is Some
                                    && !ranks_before(b, chosen_in(choice_of(*best))),
                            forall|b: Seq<u32>, k: int|
                                #![trigger is_assignment(all, b), positions@[k]]
                                is_assignment(all, b) && b.take(level as int) == start && 0 <= k
                                    < at && positions@[k] == b[level as int] && comes_after(
                                    until,
                                    b,
                                ) ==> choice_of(*best) is Some && !ranks_before(
                                    b,
                                    chosen_in(choice_of(*best)),
                                ),
                        decreases positions@.len() - at,
                    {
                        let next: u32 = positions[at];
                        let ghost held = choice_of(*best);
                        proof {
                            lemma_total_cost_push(start, next);
                            assert(list@.contains(positions@[at as int]));
                        }
                        descend(lists, last, chosen, next, cost + found, best);
                        proof {
                            let now = choice_of(*best);
                            lemma_improves_chain(best_before, held, now);
                            assert forall|b: Seq<u32>|
                                #![trigger is_assignment(all, b)]
                                is_assignment(all, b) && b.take(level as int) == start && pair_cost(
                                    previous,
                                    b[level as int],
                                ) < proximity && comes_after(until, b) implies now is Some
                                && !ranks_before(b, chosen_in(now)) by {
                                lemma_still_covered(b, chosen_in(held), chosen_in(now));
                            }
                            assert forall|b: Seq<u32>, k: int|
                                #![trigger is_assignment(all, b), positions@[k]]
                                is_assignment(all, b) && b.take(level as int) == start && 0 <= k
                                    < at + 1 && positions@[k] == b[level as int] && comes_after(
                                    until,
                                    b,
                                ) implies now is Some && !ranks_before(b, chosen_in(now)) by {
                                if k < at {
                                    lemma_still_covered(b, chosen_in(held), chosen_in(now));
                                } else {
                                    assert(b.take(level + 1) =~= start.push(next));
                                }
                            }
                        }
                        at += 1;
                    }
                    proof {
                        let now = choice_of(*best);
                        assert forall|b: Seq<u32>|
                            #![trigger is_assignment(all, b)]
                            is_assignment(all, b) && b.take(level as int) == start && pair_cost(
                                previous,
                                b[level as int],
                            ) < found + 1 && comes_after(until, b) implies now is Some
                            && !ranks_before(b, chosen_in(now)) by {
                            let q = b[level as int];
                            assert(all[level as int].contains(q));
                            let k = choose|k: int| 0 <= k < list@.len() && list@[k] == q;
                            assert(!(proximity <= pair_cost(previous, list@[k]) < found));
                            if pair_cost(previous, q) == found {
                                assert(positions@.contains(list@[k]));
                                let m = choose|m: int|
                                    0 <= m < positions@.len() && positions@[m] == q;
                                assert(positions@[m] == b[level as int]);
                            }
                        }
                    }
                    proximity = found + 1;
                },
            }
        }
        proof {
            let now = choice_of(*best);
            assert forall|b: Seq<u32>|
                #![trigger is_assignment(all, b)]
                is_assignment(all, b) && b.take(start.len() as int) == start && comes_after(
                    until,
                    b,
                ) implies now is Some && !ranks_before(b, chosen_in(now)) by {
                lemma_pair_cost_bounds(previous, b[level as int]);
            }
        }
    }
}

/// One improvement after another is an improvement.
proof fn lemma_improves_chain(
    first: Option<(u32, Seq<u32>)>,
    second: Option<(u32, Seq<u32>)>,
    third: Option<(u32, Seq<u32>)>,
)
    requires
        improves(first, second),
        improves(second, third),
    ensures
        improves(first, third),
{
    if first is Some && chosen_in(third) != chosen_in(first) {
        if chosen_in(second) != chosen_in(first) && chosen_in(third) != chosen_in(second) {
            lemma_ranks_transitive(chosen_in(third), chosen_in(second), chosen_in(first));
        }
    }
}

/// Chooses `next` for the word after those of `chosen`, and searches among
/// the choices that start so, unless none of them can come before `best`.
fn descend(
    lists: &Vec<Vec<u32>>,
    last: &Option<(u32, Vec<u32>)>,
    chosen: &mut Vec<u32>,
    next: u32,
    cost: u32,
    best: &mut Option<(u32, Vec<u32>)>,
)
    requires
        are_position_lists(lists_of(lists@)),
        is_choice(lists_of(lists@), choice_of(*last)),
        is_partial_assignment(lists_of(lists@), old(chosen)@),
        old(chosen)@.len() < lists@.len(),
        lists_of(lists@)[old(chosen)@.len() as int].contains(next),
        cost == total_cost(old(chosen)@.push(next)),
        is_found(lists_of(lists@), choice_of(*last), choice_of(*old(best))),
    ensures
        final(chosen)@ == old(chosen)@,
        is_found(lists_of(lists@), choice_of(*last), choice_of(*final(best))),
        improves(choice_of(*old(best)), choice_of(*final(best))),
        covers(
            lists_of(lists@),
            choice_of(*last),
            old(chosen)@.push(next),
            choice_of(*final(best)),
        ),
    decreases lists@.len() - old(chosen)@.len(), 0int,
{
    let ghost all = lists_of(lists@);
    let ghost start = chosen@.push(next);
    let too_far: bool = match best {
        None => false,
        Some((best_cost, _)) => cost > *best_cost,
    };
    if too_far {
        proof {
            assert forall|b: Seq<u32>|
                #![trigger is_assignment(all, b)]
                is_assignment(all, b) && b.take(start.len() as int) == start implies !ranks_before(
                    b,
                    chosen_in(choice_of(*best)),
                ) by {
                lemma_total_cost_prefix(b, start.len() as int);
            }
        }
        return ;
    }
    chosen.push(next);
    search(lists, last, chosen, cost, best);
    chosen.pop();
    assert(chosen@ =~= old(chosen)@);
}

/// The choices of one position per query word, from the closest to the
/// farthest.
pub struct BestProximity {
    positions: Vec<Vec<u32>>,
    current_proximity: Option<(u32, Vec<u32>)>,
}

impl BestProximity {
    /// The lists of positions, one per query word.
    pub closed spec fn lists(&self) -> Seq<Seq<u32>> {
        lists_of(self.positions@)
    }

    /// The choice that was handed out last, with its proximity.
    pub closed spec fn last_emitted(&self) -> Option<(u32, Seq<u32>)> {
        choice_of(self.current_proximity)
    }

    /// The lists are sorted and few enough, and the choice handed out last
    /// is one of theirs.
    pub open spec fn wf(&self) -> bool {
        are_position_lists(self.lists()) && is_choice(self.lists(), self.last_emitted())
    }

    /// An enumeration over `positions`, the positions of each query word in
    /// the order of the query, that has handed out nothing yet.
    pub fn new(positions: Vec<Vec<u32>>) -> (iter: BestProximity)
        ensures
            iter.lists() == lists_of(positions@),
            iter.last_emitted() is None,
    {
        BestProximity { positions, current_proximity: None }
    }

    /// Hands out the next choice with its proximity: among the choices that
    /// have not been handed out, the one of the smallest proximity, and among
    /// those of one proximity the first in the order of a dictionary. `None`
    /// when every choice has been handed out.
    pub fn next(&mut self) -> (item: Option<(u32, Vec<u32>)>)
        requires
            old(self).wf(),
        ensures
            final(self).wf(),
            final(self).lists() == old(self).lists(),
            match item {
                None => {
                    &&& final(self).last_emitted() == old(self).last_emitted()
                    &&& forall|b: Seq<u32>|
                        #![trigger is_assignment(old(self).lists(), b)]
                        is_assignment(old(self).lists(), b) ==> !comes_after(
                            old(self).last_emitted(),
                            b,
                        )
                },
                Some((cost, chosen)) => {
                    &&& final(self).last_emitted() == Some((cost, chosen@))
                    &&& is_assignment(old(self).lists(), chosen@)
                    &&& cost == total_cost(chosen@)
                    &&& comes_after(old(self).last_emitted(), chosen@)
                    &&& forall|b: Seq<u32>|
                        #![trigger is_assignment(old(self).lists(), b)]
                        is_assignment(old(self).lists(), b) && comes_after(
                            old(self).last_emitted(),
                            b,
                        ) ==> !ranks_before(b, chosen@)
                },
            },
            // the proximities handed out never go down
            old(self).last_emitted() is Some && item is Some ==> cost_in(old(self).last_emitted())
                <= cost_in(choice_of(item)),
            // a word without positions leaves nothing to choose
            (exists|i: int| 0 <= i < old(self).lists().len() && #[trigger] old(self).lists()[i].len()
                == 0) ==> item is None,
    {
        let mut chosen: Vec<u32> = Vec::new();
        let mut best: Option<(u32, Vec<u32>)> = None;
        search(&self.positions, &self.current_proximity, &mut chosen, 0, &mut best);
        let ghost all = self.lists();
        let ghost until = self.last_emitted();
        proof {
            assert forall|b: Seq<u32>|
                #![trigger is_assignment(all, b)]
                is_assignment(all, b) && comes_after(until, b) implies choice_of(best) is Some
                && !ranks_before(b, chosen_in(choice_of(best))) by {
                assert(b.take(0) =~= chosen@);
            }
        }
        match best {
            None => None,
            Some((cost, found)) => {
                proof {
                    if exists|i: int| 0 <= i < all.len() && #[trigger] all[i].len() == 0 {
                        let i = choose|i: int| 0 <= i < all.len() && #[trigger] all[i].len() == 0;
                        assert(all[i].contains(found@[i]));
                    }
                }
                self.current_proximity = Some((cost, copy_positions(&found)));
                Some((cost, found))
            },
        }
    }
}

} // verus!
