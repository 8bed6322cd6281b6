//! The proximity of two consecutive query words, and the search for the
//! positions of the next word that are closest to a chosen position.

use vstd::prelude::*;

use crate::position::{attribute_of, MAX_DISTANCE, ONE_ATTRIBUTE};

verus! {

/// The proximity of a word at `to` that follows, in the query, a word at `from`.
///
/// Words of different attributes are at the largest distance. In one
/// attribute, a word that comes `k` places later is at distance `k`, the same
/// position is at distance 0, and a word that comes `k` places earlier is at
/// distance `k + 1`: being out of order costs one more. Nothing is farther
/// than 8.
pub open spec fn pair_cost(from: u32, to: u32) -> int {
    if attribute_of(from) != attribute_of(to) {
        8
    } else if to >= from {
        if to - from < 8 {
            to - from
        } else {
            8
        }
    } else {
        if from - to + 1 < 8 {
            from - to + 1
        } else {
            8
        }
    }
}

/// Every proximity lies between 0 and the largest distance.
pub proof fn lemma_pair_cost_bounds(from: u32, to: u32)
    ensures
        0 <= pair_cost(from, to) <= MAX_DISTANCE,
{
}

/// A list of positions in which each one is larger than the one before.
pub open spec fn strictly_increasing(list: Seq<u32>) -> bool {
    forall|i: int, j: int| 0 <= i < j < list.len() ==> list[i] < list[j]
}

/// A list of positions in which none is smaller than the one before.
pub open spec fn is_sorted(list: Seq<u32>) -> bool {
    forall|i: int, j: int| 0 <= i <= j < list.len() ==> list[i] <= list[j]
}

/// A list in which each position is larger than the one before is sorted.
pub proof fn lemma_increasing_is_sorted(list: Seq<u32>)
    requires
        strictly_increasing(list),
    ensures
        is_sorted(list),
{
}

/// `out` holds, in increasing order and once each, the positions of `list`
/// that are at distance `proximity` from `current`.
pub open spec fn candidates_of(current: u32, proximity: int, list: Seq<u32>, out: Seq<u32>) -> bool {
    &&& strictly_increasing(out)
    &&& forall|i: int|
        0 <= i < out.len() ==> list.contains(#[trigger] out[i]) && pair_cost(current, out[i])
            == proximity
    &&& forall|j: int|
        0 <= j < list.len() && pair_cost(current, #[trigger] list[j]) == proximity
            ==> out.contains(list[j])
}

/// Two lists that hold the candidates of one search are the same list.
pub proof fn lemma_candidates_unique(
    current: u32,
    proximity: int,
    list: Seq<u32>,
    a: Seq<u32>,
    b: Seq<u32>,
)
    requires
        candidates_of(current, proximity, list, a),
        candidates_of(current, proximity, list, b),
    ensures
        a == b,
    decreases a.len(),
{
    lemma_same_members(current, proximity, list, a, b);
    lemma_same_members(current, proximity, list, b, a);
    lemma_increasing_determined(a, b);
}

proof fn lemma_same_members(current: u32, proximity: int, list: Seq<u32>, a: Seq<u32>, b: Seq<u32>)
    requires
        candidates_of(current, proximity, list, a),
        candidates_of(current, proximity, list, b),
    ensures
        forall|i: int| 0 <= i < a.len() ==> b.contains(#[trigger] a[i]),
{
    assert forall|i: int| 0 <= i < a.len() implies b.contains(#[trigger] a[i]) by {
        assert(list.contains(a[i]));
        let j = choose|j: int| 0 <= j < list.len() && list[j] == a[i];
        assert(pair_cost(current, list[j]) == proximity);
    }
}

/// Two increasing lists with the same members are equal.
proof fn lemma_increasing_determined(a: Seq<u32>, b: Seq<u32>)
    requires
        strictly_increasing(a),
        strictly_increasing(b),
        forall|i: int| 0 <= i < a.len() ==> b.contains(#[trigger] a[i]),
        forall|i: int| 0 <= i < b.len() ==> a.contains(#[trigger] b[i]),
    ensures
        a == b,
    decreases a.len(),
{
    if a.len() == 0 {
        if b.len() > 0 {
            assert(a.contains(b[0]));
        }
        assert(a =~= b);
    } else if b.len() == 0 {
        assert(b.contains(a[0]));
    } else {
        let la = a.len() - 1;
        let lb = b.len() - 1;
        // the largest members agree
        assert(b.contains(a[la]));
        assert(a.contains(b[lb]));
        let ib = choose|k: int| 0 <= k < b.len() && b[k] == a[la];
        let ia = choose|k: int| 0 <= k < a.len() && a[k] == b[lb];
        assert(a[la] == b[lb]);
        let a0 = a.drop_last();
        let b0 = b.drop_last();
        assert forall|i: int| 0 <= i < a0.len() implies b0.contains(#[trigger] a0[i]) by {
            assert(a0[i] == a[i]);
            assert(b.contains(a[i]));
            let k = choose|k: int| 0 <= k < b.len() && b[k] == a[i];
            assert(k != lb);
            assert(b0[k] == a0[i]);
        }
        assert forall|i: int| 0 <= i < b0.len() implies a0.contains(#[trigger] b0[i]) by {
            assert(b0[i] == b[i]);
            assert(a.contains(b[i]));
            let k = choose|k: int| 0 <= k < a.len() && a[k] == b[i];
            assert(k != la);
            assert(a0[k] == b0[i]);
        }
        lemma_increasing_determined(a0, b0);
        assert(a =~= a0.push(a[la]));
        assert(b =~= b0.push(b[lb]));
    }
}

/// The number of positions of `list` that are smaller than `bound`.
fn lower_bound(list: &[u32], bound: u64) -> (count: usize)
    requires
        is_sorted(list@),
    ensures
        count <= list@.len(),
        forall|i: int| 0 <= i < count ==> list@[i] < bound,
        forall|i: int| count <= i < list@.len() ==> list@[i] >= bound,
{
    let mut low: usize = 0;
    let mut high: usize = list.len();
    while low < high
        invariant
            low <= high <= list@.len(),
            is_sorted(list@),
            forall|i: int| 0 <= i < low ==> list@[i] < bound,
            forall|i: int| high <= i < list@.len() ==> list@[i] >= bound,
        decreases high - low,
    {
        let middle: usize = low + (high - low) / 2;
        if (list[middle] as u64) < bound {
            low = middle + 1;
        } else {
            high = middle;
        }
    }
    low
}

/// Whether `position` is one of the positions of `list`.
fn holds_position(list: &[u32], position: u64) -> (found: bool)
    requires
        is_sorted(list@),
    ensures
        found <==> (position <= u32::MAX && list@.contains(position as u32)),
{
    let at: usize = lower_bound(list, position);
    if at < list.len() && list[at] as u64 == position {
        assert(list@[at as int] == position as u32);
        true
    } else {
        proof {
            if position <= u32::MAX && list@.contains(position as u32) {
                let k = choose|k: int| 0 <= k < list@.len() && list@[k] == position as u32;
                assert(k >= at);
                assert(list@[at as int] >= position);
            }
        }
        false
    }
}

/// Appends the positions `list[from..to]` to `out`, each of them once.
fn push_distinct(out: &mut Vec<u32>, list: &[u32], from: usize, to: usize)
    requires
        from <= to <= list@.len(),
        is_sorted(list@),
        strictly_increasing(old(out)@),
        old(out)@.len() > 0 && from < to ==> old(out)@.last() < list@[from as int],
    ensures
        strictly_increasing(final(out)@),
        forall|i: int| 0 <= i < old(out)@.len() ==> final(out)@.contains(#[trigger] old(out)@[i]),
        forall|i: int| from <= i < to ==> final(out)@.contains(#[trigger] list@[i]),
        forall|k: int|
            0 <= k < final(out)@.len() ==> old(out)@.contains(#[trigger] final(out)@[k]) || exists|
                i: int,
            | from <= i < to && list@[i] == final(out)@[k],
{
    let mut at: usize = from;
    while at < to
        invariant
            from <= at <= to <= list@.len(),
            is_sorted(list@),
            strictly_increasing(out@),
            old(out)@.len() > 0 && from < to ==> old(out)@.last() < list@[from as int],
            out@.len() >= old(out)@.len(),
            at == from ==> out@ == old(out)@,
            at > from ==> out@.len() > 0 && out@.last() == list@[at - 1],
            forall|i: int| 0 <= i < old(out)@.len() ==> out@.contains(#[trigger] old(out)@[i]),
            forall|i: int| from <= i < at ==> out@.contains(#[trigger] list@[i]),
            forall|k: int|
                0 <= k < out@.len() ==> old(out)@.contains(#[trigger] out@[k]) || exists|i: int|
                    from <= i < at && list@[i] == out@[k],
        decreases to - at,
    {
        let position: u32 = list[at];
        let ghost before = out@;
        let length: usize = out.len();
        if length == 0 || out[length - 1] < position {
            out.push(position);
            proof {
                assert(out@[length as int] == position);
                assert forall|i: int| 0 <= i < old(out)@.len() implies out@.contains(
                    #[trigger] old(out)@[i],
                ) by {
                    let k = choose|k: int| 0 <= k < before.len() && before[k] == old(out)@[i];
                    assert(out@[k] == old(out)@[i]);
                }
                assert forall|i: int| from <= i < at + 1 implies out@.contains(
                    #[trigger] list@[i],
                ) by {
                    if i < at {
                        let k = choose|k: int| 0 <= k < before.len() && before[k] == list@[i];
                        assert(out@[k] == list@[i]);
                    }
                }
                assert forall|k: int| 0 <= k < out@.len() implies old(out)@.contains(
                    #[trigger] out@[k],
                ) || exists|i: int| from <= i < at + 1 && list@[i] == out@[k] by {
                    if k < length {
                        assert(out@[k] == before[k]);
                    }
                }
                assert forall|i: int, j: int| 0 <= i < j < out@.len() implies out@[i] < out@[j] by {
                    if j == length && i < length - 1 {
                        assert(before[i] < before[length - 1]);
                    }
                }
            }
        } else {
            proof {
                // the position was appended already
                assert(at > from);
                assert(list@[at - 1] <= position);
                assert(out@[length - 1] == position);
            }
        }
        at += 1;
    }
}

/// Returns the positions to focus that will give the best possible proximity.
///
/// The search starts at `proximity` and goes up to the largest distance. It
/// returns the first distance at which `next_positions` holds a position, with
/// all the positions at that distance, or `None` when every position of the
/// list is closer than `proximity`.
pub fn best_proximity_for(current_position: u32, proximity: u32, next_positions: &[u32]) -> (best:
    Option<(u32, Vec<u32>)>)
    requires
        is_sorted(next_positions@),
    ensures
        match best {
            None => forall|i: int|
                0 <= i < next_positions@.len() ==> pair_cost(
                    current_position,
                    #[trigger] next_positions@[i],
                ) < proximity,
            Some((found, positions)) => {
                &&& proximity <= found <= MAX_DISTANCE
                &&& positions@.len() > 0
                &&& candidates_of(current_position, found as int, next_positions@, positions@)
                &&& forall|i: int|
                    0 <= i < next_positions@.len() ==> !(proximity <= pair_cost(
                        current_position,
                        #[trigger] next_positions@[i],
                    ) < found)
            },
        },
    decreases 9 - proximity,
{
    if proximity > MAX_DISTANCE {
        return None;
    }
    let output = positions_at(current_position, proximity, next_positions);
    if output.len() > 0 {
        Some((proximity, output))
    } else {
        best_proximity_for(current_position, proximity + 1, next_positions)
    }
}

/// The positions of `next_positions` that are at distance `proximity` from
/// `current_position`, in increasing order.
pub fn positions_at(current_position: u32, proximity: u32, next_positions: &[u32]) -> (output: Vec<
    u32,
>)
    requires
        is_sorted(next_positions@),
        proximity <= MAX_DISTANCE,
    ensures
        candidates_of(current_position, proximity as int, next_positions@, output@),
{
    let current: u64 = current_position as u64;
    let one_attribute: u64 = ONE_ATTRIBUTE as u64;
    let current_attr: u64 = current / one_attribute;
    let mut output: Vec<u32> = Vec::new();
    if proximity == 0 {
        // look at i+0
        if holds_position(next_positions, current) {
            output.push(current_position);
            assert(output@[0] == current_position);
        }
    } else if proximity < MAX_DISTANCE {
        // look at i-(p-1), i+p
        let behind: u64 = (proximity - 1) as u64;
        // Behind the current position: being out of order, a word one place
        // behind is already at distance 2. We must make sure we are not
        // looking at a word at the end of another attribute.
        let has_behind: bool = proximity >= 2 && current >= behind && (current - behind)
            / one_attribute == current_attr && holds_position(next_positions, current - behind);
        // In front of the current position. We must make sure we are not
        // looking at a word at the start of another attribute.
        let front: u64 = current + proximity as u64;
        let has_front: bool = front / one_attribute == current_attr && holds_position(
            next_positions,
            front,
        );
        if has_behind {
            output.push((current - behind) as u32);
        }
        if has_front {
            output.push(front as u32);
        }
        proof {
            let list = next_positions@;
            assert forall|i: int| 0 <= i < output@.len() implies list.contains(
                #[trigger] output@[i],
            ) && pair_cost(current_position, output@[i]) == proximity by {
                if has_behind && i == 0 {
                    assert(output@[i] == (current - behind) as u32);
                } else {
                    assert(output@[i] == front as u32);
                }
            }
            assert forall|j: int|
                0 <= j < list.len() && pair_cost(current_position, #[trigger] list[j])
                    == proximity implies output@.contains(list[j]) by {
                let q = list[j];
                assert(list.contains(q));
                if q >= current_position {
                    assert(q == front);
                    assert(has_front);
                    assert(output@[output@.len() - 1] == q);
                } else {
                    assert(q == current - behind);
                    assert(has_behind);
                    assert(output@[0] == q);
                }
            }
        }
    } else {
        // look at i+8 and all above and i-(8-1) and all below
        let start_of_attr: u64 = current_attr * one_attribute;
        let window_start: u64 = if current >= 6 {
            current - 6
        } else {
            0
        };
        // Every position of an earlier attribute, and every position at least 7 places behind.
        let below: u64 = if window_start > start_of_attr {
            window_start
        } else {
            start_of_attr
        };
        // Every position at least 8 places in front, and every position of a later attribute.
        let end_of_attr: u64 = start_of_attr + one_attribute;
        let above: u64 = if current + 8 < end_of_attr {
            current + 8
        } else {
            end_of_attr
        };
        let low: usize = lower_bound(next_positions, below);
        let high: usize = lower_bound(next_positions, above);
        assert(low <= high) by {
            if high < low {
                assert(next_positions@[high as int] < below);
                assert(next_positions@[high as int] >= above);
            }
        }
        push_distinct(&mut output, next_positions, 0, low);
        proof {
            if output@.len() > 0 && high < next_positions@.len() {
                let k = choose|k: int| 0 <= k < low && next_positions@[k] == output@.last();
                assert(next_positions@[k] < below);
                assert(next_positions@[high as int] >= above);
            }
        }
        let ghost first = output@;
        push_distinct(&mut output, next_positions, high, next_positions.len());
        proof {
            let list = next_positions@;
            assert forall|i: int| 0 <= i < output@.len() implies list.contains(
                #[trigger] output@[i],
            ) && pair_cost(current_position, output@[i]) == 8 by {
                if first.contains(output@[i]) {
                    let k = choose|k: int| 0 <= k < first.len() && first[k] == output@[i];
                    let j = choose|j: int| 0 <= j < low && list[j] == first[k];
                    assert(list[j] == output@[i]);
                } else {
                    let j = choose|j: int| high <= j < list.len() && list[j] == output@[i];
                    assert(list[j] == output@[i]);
                }
            }
            assert forall|j: int|
                0 <= j < list.len() && pair_cost(current_position, #[trigger] list[j])
                    == 8 implies output@.contains(list[j]) by {
                if j < low {
                    assert(first.contains(list[j]));
                    let k = choose|k: int| 0 <= k < first.len() && first[k] == list[j];
                    assert(output@.contains(first[k]));
                } else {
                    assert(j >= high);
                }
            }
        }
    }
    output
}

} // verus!
