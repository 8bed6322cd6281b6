//! The descent through the levels of the facet tree of a field: the values
//! of the field in order, each with the documents that have it.

use roaring::RoaringBitmap;
use vstd::prelude::*;

use crate::bitmap::{
    decoded_members,
    difference_with,
    intersect_with,
    is_empty_bitmap,
    members,
};
use crate::error::SearchError;
use crate::facet::facet_range::{
    ends_within,
    entry_at,
    item_of,
    starts_within,
    FacetRange,
    FacetRevRange,
};
use crate::facet::store::{key_before, Bound, FacetKey, FacetStore, FieldId};

verus! {

/// The scan of one level, in the direction of the descent.
enum LevelRange {
    Ascending(FacetRange),
    Descending(FacetRevRange),
}

/// One level of a descent: the documents that are still looked for below
/// the ranges of this level, and the scan of the ranges that are left.
struct LevelIter {
    documents_ids: RoaringBitmap,
    level: u8,
    range: LevelRange,
}

/// The scan has the entry at `index` still before it.
spec fn is_remaining(range: LevelRange, index: int) -> bool {
    match range {
        LevelRange::Ascending(range) => range.position() <= index < range.limit(),
        LevelRange::Descending(range) => range.limit() <= index < range.position(),
    }
}

/// The number of entries that the scan has still before it.
spec fn steps_left(range: LevelRange) -> int {
    match range {
        LevelRange::Ascending(range) => range.limit() - range.position(),
        LevelRange::Descending(range) => range.position() - range.limit(),
    }
}

/// The bound within which the ranges that a scan hands out must end.
spec fn bound_of(range: LevelRange) -> Bound {
    match range {
        LevelRange::Ascending(range) => range.end(),
        LevelRange::Descending(range) => range.end(),
    }
}

/// The scan lies inside the table.
spec fn range_wf(range: LevelRange, store: &FacetStore) -> bool {
    match range {
        LevelRange::Ascending(range) => range.wf(store),
        LevelRange::Descending(range) => range.wf(store),
    }
}

/// The scan of a level runs over entries of its field and level.
spec fn level_wf(frame: LevelIter, store: &FacetStore, field_id: FieldId) -> bool {
    &&& range_wf(frame.range, store)
    &&& forall|i: int|
        is_remaining(frame.range, i) ==> (#[trigger] store.keys()[i]).field_id == field_id
            && store.keys()[i].level == frame.level
}

/// The levels of a descent, from the one it started at to the one it is at:
/// each lies below the one before, and in a descent that reduces no document
/// is looked for at two levels.
spec fn levels_wf(
    frames: Seq<LevelIter>,
    store: &FacetStore,
    field_id: FieldId,
    must_reduce: bool,
) -> bool {
    &&& forall|k: int| 0 <= k < frames.len() ==> level_wf(#[trigger] frames[k], store, field_id)
    &&& forall|k: int, m: int|
        0 <= k < m < frames.len() ==> (#[trigger] frames[m]).level < (#[trigger] frames[k]).level
    &&& must_reduce ==> forall|k: int, m: int|
        0 <= k < m < frames.len() ==> members(&(#[trigger] frames[k]).documents_ids).disjoint(
            members(&(#[trigger] frames[m]).documents_ids),
        )
}

/// The documents that are looked for at some level.
spec fn pending_of(frames: Seq<LevelIter>) -> Set<u32> {
    Set::new(
        |d: u32|
            exists|k: int|
                0 <= k < frames.len() && members(&(#[trigger] frames[k]).documents_ids).contains(
                    d,
                ),
    )
}

/// The weight of one step of a scan of `level`, in a table of `size`
/// entries: more than all the steps of a scan of the level below.
spec fn weight(size: int, level: nat) -> int
    decreases level,
{
    if level == 0 {
        1
    } else {
        (size + 2) * weight(size, (level - 1) as nat)
    }
}

proof fn lemma_weight_positive(size: int, level: nat)
    requires
        size >= 0,
    ensures
        weight(size, level) >= 1,
    decreases level,
{
    if level > 0 {
        lemma_weight_positive(size, (level - 1) as nat);
        assert((size + 2) * weight(size, (level - 1) as nat) >= 1) by (nonlinear_arith)
            requires
                size >= 0,
                weight(size, (level - 1) as nat) >= 1,
        ;
    }
}

/// What is left to do at one level.
spec fn level_effort(frame: LevelIter, size: int) -> int {
    (steps_left(frame.range) + 1) * weight(size, frame.level as nat)
}

/// What is left to do in a descent: a bound on the number of steps until
/// the next stop.
spec fn effort(frames: Seq<LevelIter>, size: int) -> int
    decreases frames.len(),
{
    if frames.len() == 0 {
        0
    } else {
        effort(frames.drop_last(), size) + level_effort(frames.last(), size)
    }
}

proof fn lemma_effort_bounds(frames: Seq<LevelIter>, store: &FacetStore)
    requires
        forall|k: int| 0 <= k < frames.len() ==> range_wf((#[trigger] frames[k]).range, store),
    ensures
        effort(frames, store.keys().len() as int) >= 0,
    decreases frames.len(),
{
    if frames.len() > 0 {
        let rest = frames.drop_last();
        assert forall|k: int| 0 <= k < rest.len() implies range_wf(
            (#[trigger] rest[k]).range,
            store,
        ) by {
            assert(rest[k] == frames[k]);
        }
        lemma_effort_bounds(rest, store);
        let last = frames.last();
        assert(range_wf(frames[frames.len() - 1].range, store));
        lemma_weight_positive(store.keys().len() as int, last.level as nat);
        assert((steps_left(last.range) + 1) * weight(
            store.keys().len() as int,
            last.level as nat,
        ) >= 0) by (nonlinear_arith)
            requires
                steps_left(last.range) >= 0,
                weight(store.keys().len() as int, last.level as nat) >= 1,
        ;
    }
}

/// A step at one level weighs more than a whole scan of the level below.
proof fn lemma_step_pays_for_level(size: int, steps: int, below: int, level: nat)
    requires
        size >= 0,
        level > 0,
        steps >= 1,
        0 <= below <= size,
    ensures
        (steps - 1 + 1) * weight(size, level) + (below + 1) * weight(size, (level - 1) as nat) < (
        steps + 1) * weight(size, level),
{
    lemma_weight_positive(size, (level - 1) as nat);
    let w = weight(size, (level - 1) as nat);
    assert(weight(size, level) == (size + 2) * w);
    assert(steps * ((size + 2) * w) + (below + 1) * w < (steps + 1) * ((size + 2) * w))
        by (nonlinear_arith)
        requires
            w >= 1,
            0 <= below <= size,
            steps >= 1,
    ;
}

/// The documents of the entry at `index`: what its bytes hold, and nothing
/// where they cannot be read.
pub open spec fn docids_at(store: &FacetStore, index: int) -> Set<u32> {
    match decoded_members(store.values()[index]) {
        Some(docids) => docids,
        None => Set::empty(),
    }
}

/// The entry at `child` lies one level below the entry at `parent`, in the
/// same field and inside its range.
pub open spec fn is_child(store: &FacetStore, parent: int, child: int) -> bool {
    let above = store.keys()[parent];
    let below = store.keys()[child];
    &&& 0 <= child < store.keys().len()
    &&& below.field_id == above.field_id
    &&& below.level + 1 == above.level
    &&& above.left <= below.left
    &&& below.right <= above.right
}

/// The entries of `field_id` form a tree: each can be read and spans a range
/// of values, the ranges of one level follow each other without meeting,
/// every entry below the highest level lies inside an entry of the level
/// above, and an entry above level 0 has the documents of the entries below
/// it.
pub open spec fn is_facet_tree(store: &FacetStore, field_id: FieldId) -> bool {
    &&& forall|i: int|
        0 <= i < store.keys().len() && (#[trigger] store.keys()[i]).field_id == field_id ==> {
            &&& decoded_members(store.values()[i]) is Some
            &&& store.keys()[i].left <= store.keys()[i].right
        }
    &&& forall|i: int, j: int|
        0 <= i < j < store.keys().len() && (#[trigger] store.keys()[i]).field_id == field_id && (
        #[trigger] store.keys()[j]).field_id == field_id && store.keys()[i].level
            == store.keys()[j].level ==> store.keys()[i].right < store.keys()[j].left
    &&& forall|c: int, top: int|
        0 <= c < store.keys().len() && 0 <= top < store.keys().len() && (
        #[trigger] store.keys()[c]).field_id == field_id && (#[trigger] store.keys()[top]).field_id
            == field_id && store.keys()[c].level < store.keys()[top].level ==> exists|p: int|
            0 <= p < store.keys().len() && #[trigger] is_child(store, p, c)
    &&& forall|p: int, d: u32|
        0 <= p < store.keys().len() && store.keys()[p].field_id == field_id && store.keys()[p].level
            > 0 && #[trigger] docids_at(store, p).contains(d) ==> exists|c: int|
            #[trigger] is_child(store, p, c) && docids_at(store, c).contains(d)
    &&& forall|p: int, c: int, d: u32|
        0 <= p < store.keys().len() && store.keys()[p].field_id == field_id && #[trigger] is_child(
            store,
            p,
            c,
        ) && #[trigger] docids_at(store, c).contains(d) ==> docids_at(store, p).contains(d)
}

/// The documents that have a value in `field_id` at `level` of its tree.
pub open spec fn docs_at_level(store: &FacetStore, field_id: FieldId, level: int) -> Set<u32> {
    Set::new(
        |d: u32|
            exists|i: int|
                0 <= i < store.keys().len() && (#[trigger] store.keys()[i]).field_id == field_id
                    && store.keys()[i].level == level && docids_at(store, i).contains(d),
    )
}

/// The documents that have a value in `field_id`.
pub open spec fn facet_docs(store: &FacetStore, field_id: FieldId) -> Set<u32> {
    docs_at_level(store, field_id, 0)
}

/// In a tree, every level that is not above the highest one holds the
/// documents that have a value in the field.
pub proof fn lemma_levels_agree(store: &FacetStore, field_id: FieldId, level: int, top: int)
    requires
        is_facet_tree(store, field_id),
        0 <= top < store.keys().len(),
        store.keys()[top].field_id == field_id,
        0 <= level <= store.keys()[top].level,
    ensures
        docs_at_level(store, field_id, level) == facet_docs(store, field_id),
    decreases level,
{
    if level > 0 {
        lemma_levels_agree(store, field_id, level - 1, top);
        let upper = docs_at_level(store, field_id, level);
        let lower = docs_at_level(store, field_id, level - 1);
        assert forall|d: u32| upper.contains(d) implies lower.contains(d) by {
            let p = choose|i: int|
                0 <= i < store.keys().len() && (#[trigger] store.keys()[i]).field_id == field_id
                    && store.keys()[i].level == level && docids_at(store, i).contains(d);
            let c = choose|c: int| #[trigger]
                is_child(store, p, c) && docids_at(store, c).contains(d);
            assert(store.keys()[c].field_id == field_id);
        }
        assert forall|d: u32| lower.contains(d) implies upper.contains(d) by {
            let c = choose|i: int|
                0 <= i < store.keys().len() && (#[trigger] store.keys()[i]).field_id == field_id
                    && store.keys()[i].level == level - 1 && docids_at(store, i).contains(d);
            assert(store.keys()[top].field_id == field_id);
            let p = choose|p: int| 0 <= p < store.keys().len() && #[trigger] is_child(store, p, c);
            assert(docids_at(store, p).contains(d));
            assert(store.keys()[p].field_id == field_id);
        }
        assert(upper =~= lower);
    }
}

/// The scan hands out the entry at `index`, if it goes on to its end.
spec fn to_visit(store: &FacetStore, range: LevelRange, index: int) -> bool {
    is_remaining(range, index) && ends_within(store.keys()[index].right, bound_of(range))
}

/// The documents among `docs` that the entries of a scan still hold.
spec fn level_owed(store: &FacetStore, docs: Set<u32>, range: LevelRange) -> Set<u32> {
    Set::new(
        |d: u32|
            docs.contains(d) && exists|i: int| #[trigger]
                to_visit(store, range, i) && docids_at(store, i).contains(d),
    )
}

/// The documents that a descent over a tree still hands out.
spec fn owed_of(store: &FacetStore, frames: Seq<LevelIter>) -> Set<u32> {
    Set::new(
        |d: u32|
            exists|k: int|
                0 <= k < frames.len() && level_owed(
                    store,
                    members(&(#[trigger] frames[k]).documents_ids),
                    frames[k].range,
                ).contains(d),
    )
}

proof fn lemma_push_level(store: &FacetStore, frames: Seq<LevelIter>, frame: LevelIter)
    ensures
        owed_of(store, frames.push(frame)) == owed_of(store, frames).union(
            level_owed(store, members(&frame.documents_ids), frame.range),
        ),
        pending_of(frames.push(frame)) == pending_of(frames).union(members(&frame.documents_ids)),
        effort(frames.push(frame), store.keys().len() as int) == effort(
            frames,
            store.keys().len() as int,
        ) + level_effort(frame, store.keys().len() as int),
{
    let longer = frames.push(frame);
    assert(longer.drop_last() =~= frames);
    assert(longer.last() == frame);
    let own = level_owed(store, members(&frame.documents_ids), frame.range);
    assert forall|d: u32| owed_of(store, longer).contains(d) implies owed_of(store, frames).union(
        own,
    ).contains(d) by {
        let k = choose|k: int|
            0 <= k < longer.len() && level_owed(
                store,
                members(&(#[trigger] longer[k]).documents_ids),
                longer[k].range,
            ).contains(d);
        if k < frames.len() {
            assert(longer[k] == frames[k]);
        }
    }
    assert forall|d: u32| owed_of(store, frames).union(own).contains(d) implies owed_of(
        store,
        longer,
    ).contains(d) by {
        if own.contains(d) {
            assert(longer[frames.len() as int] == frame);
        } else {
            let k = choose|k: int|
                0 <= k < frames.len() && level_owed(
                    store,
                    members(&(#[trigger] frames[k]).documents_ids),
                    frames[k].range,
                ).contains(d);
            assert(longer[k] == frames[k]);
        }
    }
    assert(owed_of(store, longer) =~= owed_of(store, frames).union(own));
    assert forall|d: u32| pending_of(longer).contains(d) implies pending_of(frames).union(
        members(&frame.documents_ids),
    ).contains(d) by {
        let k = choose|k: int|
            0 <= k < longer.len() && members(&(#[trigger] longer[k]).documents_ids).contains(d);
        if k < frames.len() {
            assert(longer[k] == frames[k]);
        }
    }
    assert forall|d: u32|
        pending_of(frames).union(members(&frame.documents_ids)).contains(d) implies pending_of(
        longer,
    ).contains(d) by {
        if members(&frame.documents_ids).contains(d) {
            assert(longer[frames.len() as int] == frame);
        } else {
            let k = choose|k: int|
                0 <= k < frames.len() && members(&(#[trigger] frames[k]).documents_ids).contains(
                    d,
                );
            assert(longer[k] == frames[k]);
        }
    }
    assert(pending_of(longer) =~= pending_of(frames).union(members(&frame.documents_ids)));
}

/// What a descent still hands out is among the documents it looks for.
proof fn lemma_owed_is_pending(store: &FacetStore, frames: Seq<LevelIter>)
    ensures
        owed_of(store, frames).subset_of(pending_of(frames)),
{
    assert forall|d: u32| owed_of(store, frames).contains(d) implies pending_of(frames).contains(
        d,
    ) by {
        let k = choose|k: int|
            0 <= k < frames.len() && level_owed(
                store,
                members(&(#[trigger] frames[k]).documents_ids),
                frames[k].range,
            ).contains(d);
        assert(members(&frames[k].documents_ids).contains(d));
    }
}

/// The levels above the last one of a descent are levels of a descent.
proof fn lemma_levels_without_last(
    frames: Seq<LevelIter>,
    store: &FacetStore,
    field_id: FieldId,
    must_reduce: bool,
)
    requires
        levels_wf(frames, store, field_id, must_reduce),
        frames.len() > 0,
    ensures
        levels_wf(frames.drop_last(), store, field_id, must_reduce),
        level_wf(frames.last(), store, field_id),
        forall|k: int|
            0 <= k < frames.len() - 1 ==> frames.last().level < (
            #[trigger] frames.drop_last()[k]).level,
        must_reduce ==> forall|k: int|
            0 <= k < frames.len() - 1 ==> members(
                &(#[trigger] frames.drop_last()[k]).documents_ids,
            ).disjoint(members(&frames.last().documents_ids)),
        must_reduce ==> pending_of(frames.drop_last()).disjoint(
            members(&frames.last().documents_ids),
        ),
{
    let rest = frames.drop_last();
    let n = frames.len() - 1;
    assert(frames[n] == frames.last());
    assert forall|k: int| 0 <= k < rest.len() implies level_wf(
        #[trigger] rest[k],
        store,
        field_id,
    ) by {
        assert(rest[k] == frames[k]);
    }
    assert forall|k: int, m: int| 0 <= k < m < rest.len() implies (#[trigger] rest[m]).level < (
    #[trigger] rest[k]).level by {
        assert(rest[k] == frames[k] && rest[m] == frames[m]);
    }
    assert forall|k: int| 0 <= k < n implies frames.last().level < (#[trigger] rest[k]).level by {
        assert(rest[k] == frames[k]);
        assert(frames[n].level < frames[k].level);
    }
    if must_reduce {
        assert forall|k: int, m: int| 0 <= k < m < rest.len() implies members(
            &(#[trigger] rest[k]).documents_ids,
        ).disjoint(members(&(#[trigger] rest[m]).documents_ids)) by {
            assert(rest[k] == frames[k] && rest[m] == frames[m]);
        }
        assert forall|k: int| 0 <= k < n implies members(
            &(#[trigger] rest[k]).documents_ids,
        ).disjoint(members(&frames.last().documents_ids)) by {
            assert(rest[k] == frames[k]);
            assert(members(&frames[k].documents_ids).disjoint(members(&frames[n].documents_ids)));
        }
        assert forall|d: u32| pending_of(rest).contains(d) implies !members(
            &frames.last().documents_ids,
        ).contains(d) by {
            let k = choose|k: int|
                0 <= k < rest.len() && members(&(#[trigger] rest[k]).documents_ids).contains(d);
            assert(members(&rest[k].documents_ids).disjoint(members(&frames.last().documents_ids)));
        }
    }
}

/// Levels with one more level below them are levels of a descent.
proof fn lemma_levels_with_next(
    frames: Seq<LevelIter>,
    frame: LevelIter,
    store: &FacetStore,
    field_id: FieldId,
    must_reduce: bool,
)
    requires
        levels_wf(frames, store, field_id, must_reduce),
        level_wf(frame, store, field_id),
        forall|k: int| 0 <= k < frames.len() ==> frame.level < (#[trigger] frames[k]).level,
        must_reduce ==> forall|k: int|
            0 <= k < frames.len() ==> members(&(#[trigger] frames[k]).documents_ids).disjoint(
                members(&frame.documents_ids),
            ),
    ensures
        levels_wf(frames.push(frame), store, field_id, must_reduce),
{
    let longer = frames.push(frame);
    assert forall|k: int| 0 <= k < longer.len() implies level_wf(
        #[trigger] longer[k],
        store,
        field_id,
    ) by {
        if k < frames.len() {
            assert(longer[k] == frames[k]);
        }
    }
    assert forall|k: int, m: int| 0 <= k < m < longer.len() implies (#[trigger] longer[m]).level
        < (#[trigger] longer[k]).level by {
        assert(longer[k] == frames[k]);
        if m < frames.len() {
            assert(longer[m] == frames[m]);
        }
    }
    if must_reduce {
        assert forall|k: int, m: int| 0 <= k < m < longer.len() implies members(
            &(#[trigger] longer[k]).documents_ids,
        ).disjoint(members(&(#[trigger] longer[m]).documents_ids)) by {
            assert(longer[k] == frames[k]);
            if m < frames.len() {
                assert(longer[m] == frames[m]);
            }
        }
    }
}


/// The place in the table of the entry that a step of a scan handed out.
spec fn handed_index(before: LevelRange, after: LevelRange) -> int {
    match before {
        LevelRange::Ascending(range) => range.position(),
        LevelRange::Descending(_) => match after {
            LevelRange::Ascending(range) => range.position(),
            LevelRange::Descending(range) => range.position(),
        },
    }
}

/// What a step of a scan leaves of it, and what it found.
spec fn is_step(
    store: &FacetStore,
    before: LevelRange,
    after: LevelRange,
    item: Option<Result<(FacetKey, Set<u32>), SearchError>>,
) -> bool {
    let index = handed_index(before, after);
    &&& (before is Ascending <==> after is Ascending)
    &&& range_wf(after, store)
    &&& bound_of(after) == bound_of(before)
    &&& steps_left(after) <= steps_left(before)
    &&& forall|i: int| is_remaining(after, i) ==> is_remaining(before, i)
    &&& match item {
        Some(entry) => {
            &&& is_remaining(before, index)
            &&& !is_remaining(after, index)
            &&& steps_left(after) < steps_left(before)
            &&& ends_within(store.keys()[index].right, bound_of(before))
            &&& entry == entry_at(store, index)
            &&& forall|i: int|
                is_remaining(before, i) && !is_remaining(after, i) && i != index ==> !ends_within(
                    (#[trigger] store.keys()[i]).right,
                    bound_of(before),
                )
        },
        None => match before {
            LevelRange::Ascending(range) => range.position() == range.limit() || !ends_within(
                store.keys()[range.position()].right,
                range.end(),
            ),
            LevelRange::Descending(range) => forall|i: int|
                is_remaining(before, i) ==> !ends_within(
                    (#[trigger] store.keys()[i]).right,
                    range.end(),
                ),
        },
    }
}

/// What an item of a scan stands for, where there is one.
spec fn found_of(item: Option<Result<(FacetKey, RoaringBitmap), SearchError>>) -> Option<
    Result<(FacetKey, Set<u32>), SearchError>,
> {
    match item {
        Some(entry) => Some(item_of(entry)),
        None => None,
    }
}

/// One step of the scan of a level.
fn advance(range: LevelRange, store: &FacetStore) -> (step: (
    LevelRange,
    Option<Result<(FacetKey, RoaringBitmap), SearchError>>,
))
    requires
        store.wf(),
        range_wf(range, store),
    ensures
        is_step(store, range, step.0, found_of(step.1)),
{
    match range {
        LevelRange::Ascending(mut scan) => {
            let item = scan.next(store);
            (LevelRange::Ascending(scan), item)
        },
        LevelRange::Descending(mut scan) => {
            let item = scan.next(store);
            (LevelRange::Descending(scan), item)
        },
    }
}

/// A scan that found nothing has nothing left to hand out.
proof fn lemma_nothing_left(
    store: &FacetStore,
    field_id: FieldId,
    frame: LevelIter,
    after: LevelRange,
    docs: Set<u32>,
)
    requires
        store.wf(),
        is_facet_tree(store, field_id),
        level_wf(frame, store, field_id),
        is_step(store, frame.range, after, None),
    ensures
        level_owed(store, docs, frame.range) == Set::<u32>::empty(),
{
    assert forall|i: int| !to_visit(store, frame.range, i) by {
        if is_remaining(frame.range, i) {
            match frame.range {
                LevelRange::Ascending(range) => {
                    let first = range.position();
                    assert(is_remaining(frame.range, first));
                    assert(store.keys()[first].field_id == field_id);
                    assert(store.keys()[i].field_id == field_id);
                    if first < i {
                        assert(store.keys()[first].right < store.keys()[i].left);
                    }
                },
                LevelRange::Descending(range) => {},
            }
        }
    }
    assert(level_owed(store, docs, frame.range) =~= Set::<u32>::empty());
}

/// A step that found an entry leaves the documents of the other entries.
proof fn lemma_step_owed(
    store: &FacetStore,
    before: LevelRange,
    after: LevelRange,
    entry: Result<(FacetKey, Set<u32>), SearchError>,
    docs: Set<u32>,
)
    requires
        is_step(store, before, after, Some(entry)),
    ensures
        level_owed(store, docs, before) == docs.intersect(
            docids_at(store, handed_index(before, after)),
        ).union(level_owed(store, docs, after)),
{
    let index = handed_index(before, after);
    let left = level_owed(store, docs, before);
    let right = docs.intersect(docids_at(store, index)).union(level_owed(store, docs, after));
    assert forall|d: u32| left.contains(d) implies right.contains(d) by {
        let i = choose|i: int| #[trigger]
            to_visit(store, before, i) && docids_at(store, i).contains(d);
        if i != index {
            assert(to_visit(store, after, i));
        }
    }
    assert forall|d: u32| right.contains(d) implies left.contains(d) by {
        if docs.intersect(docids_at(store, index)).contains(d) {
            assert(to_visit(store, before, index));
        } else {
            let i = choose|i: int| #[trigger]
                to_visit(store, after, i) && docids_at(store, i).contains(d);
            assert(to_visit(store, before, i));
        }
    }
    assert(left =~= right);
}

/// Looking for fewer documents leaves fewer to hand out.
proof fn lemma_reduced_owed(store: &FacetStore, docs: Set<u32>, found: Set<u32>, range: LevelRange)
    ensures
        level_owed(store, docs.difference(found), range) == level_owed(
            store,
            docs,
            range,
        ).difference(found),
{
    assert(level_owed(store, docs.difference(found), range) =~= level_owed(
        store,
        docs,
        range,
    ).difference(found));
}

/// The scan of the entries below an entry hands out all its documents.
proof fn lemma_children_owed(
    store: &FacetStore,
    field_id: FieldId,
    parent: int,
    below: LevelRange,
    docs: Set<u32>,
)
    requires
        store.wf(),
        is_facet_tree(store, field_id),
        0 <= parent < store.keys().len(),
        store.keys()[parent].field_id == field_id,
        store.keys()[parent].level > 0,
        bound_of(below) == Bound::Included(store.keys()[parent].right),
        forall|i: int|
            0 <= i < store.keys().len() ==> (is_remaining(below, i) <==> starts_within(
                #[trigger] store.keys()[i],
                field_id,
                (store.keys()[parent].level - 1) as u8,
                Bound::Included(store.keys()[parent].left),
            )),
        range_wf(below, store),
        docs.subset_of(docids_at(store, parent)),
    ensures
        level_owed(store, docs, below) == docs,
{
    assert forall|d: u32| docs.contains(d) implies level_owed(store, docs, below).contains(d) by {
        assert(docids_at(store, parent).contains(d));
        let c = choose|c: int| #[trigger]
            is_child(store, parent, c) && docids_at(store, c).contains(d);
        assert(starts_within(
            store.keys()[c],
            field_id,
            (store.keys()[parent].level - 1) as u8,
            Bound::Included(store.keys()[parent].left),
        ));
        assert(to_visit(store, below, c));
    }
    assert(level_owed(store, docs, below) =~= docs);
}

/// One step less at a level is less to do.
proof fn lemma_less_effort(size: int, level: nat, before: int, after: int)
    requires
        size >= 0,
        0 <= after < before,
    ensures
        (after + 1) * weight(size, level) < (before + 1) * weight(size, level),
        (after + 1) * weight(size, level) <= before * weight(size, level),
        0 < (after + 1) * weight(size, level),
{
    lemma_weight_positive(size, level);
    let w = weight(size, level);
    assert((after + 1) * w < (before + 1) * w && (after + 1) * w <= before * w && 0 < (after + 1)
        * w) by (nonlinear_arith)
        requires
            w >= 1,
            0 <= after < before,
    ;
}

/// A level that is not over leaves something to do.
proof fn lemma_some_effort(size: int, level: nat, steps: int)
    requires
        size >= 0,
        0 <= steps,
    ensures
        0 < (steps + 1) * weight(size, level),
{
    lemma_weight_positive(size, level);
    let w = weight(size, level);
    assert(0 < (steps + 1) * w) by (nonlinear_arith)
        requires
            w >= 1,
            0 <= steps,
    ;
}


/// The documents of the `index`-th of `items`.
pub open spec fn docs_at(items: Seq<(i64, RoaringBitmap)>, index: int) -> Set<u32> {
    let (_, docids) = items[index];
    members(&docids)
}

/// The value of the `index`-th of `items`.
pub open spec fn value_at(items: Seq<(i64, RoaringBitmap)>, index: int) -> i64 {
    let (value, _) = items[index];
    value
}

/// The values of `items` go up, or down, without two of them the same.
pub open spec fn values_in_order(items: Seq<(i64, RoaringBitmap)>, ascending: bool) -> bool {
    forall|k: int, m: int|
        0 <= k < m < items.len() ==> if ascending {
            #[trigger] value_at(items, k) < #[trigger] value_at(items, m)
        } else {
            value_at(items, k) > value_at(items, m)
        }
}

/// The documents that `items` hold, whatever their value.
pub open spec fn docs_of(items: Seq<(i64, RoaringBitmap)>) -> Set<u32> {
    Set::new(|d: u32| exists|k: int| 0 <= k < items.len() && #[trigger] docs_at(items, k).contains(d))
}

/// No document comes with two of `items`.
pub open spec fn are_disjoint(items: Seq<(i64, RoaringBitmap)>) -> bool {
    forall|k: int, m: int|
        0 <= k < m < items.len() ==> #[trigger] docs_at(items, k).disjoint(
            #[trigger] docs_at(items, m),
        )
}

proof fn lemma_docs_of_push(items: Seq<(i64, RoaringBitmap)>, value: i64, docids: RoaringBitmap)
    ensures
        docs_of(items.push((value, docids))) == docs_of(items).union(members(&docids)),
        are_disjoint(items) && docs_of(items).disjoint(members(&docids)) ==> are_disjoint(
            items.push((value, docids)),
        ),
{
    let longer = items.push((value, docids));
    assert(docs_at(longer, items.len() as int) == members(&docids));
    assert forall|k: int| 0 <= k < items.len() implies docs_at(longer, k) == docs_at(items, k) by {
        assert(longer[k] == items[k]);
    }
    assert forall|d: u32| docs_of(longer).contains(d) implies docs_of(items).union(
        members(&docids),
    ).contains(d) by {
        let k = choose|k: int| 0 <= k < longer.len() && #[trigger] docs_at(longer, k).contains(d);
        if k < items.len() {
            assert(docs_at(items, k).contains(d));
        }
    }
    assert forall|d: u32| docs_of(items).union(members(&docids)).contains(d) implies docs_of(
        longer,
    ).contains(d) by {
        if members(&docids).contains(d) {
            assert(docs_at(longer, items.len() as int).contains(d));
        } else {
            let k = choose|k: int| 0 <= k < items.len() && #[trigger] docs_at(items, k).contains(d);
            assert(docs_at(longer, k).contains(d));
        }
    }
    assert(docs_of(longer) =~= docs_of(items).union(members(&docids)));
    if are_disjoint(items) && docs_of(items).disjoint(members(&docids)) {
        assert forall|k: int, m: int| 0 <= k < m < longer.len() implies #[trigger] docs_at(
            longer,
            k,
        ).disjoint(#[trigger] docs_at(longer, m)) by {
            if m < items.len() {
                assert(docs_at(items, k).disjoint(docs_at(items, m)));
            } else {
                assert forall|d: u32| docs_at(longer, k).contains(d) implies !members(
                    &docids,
                ).contains(d) by {
                    assert(docs_at(items, k).contains(d));
                    assert(docs_of(items).contains(d));
                }
            }
        }
    }
}


/// A scan of the whole highest level hands out every document that has a
/// value in the field.
proof fn lemma_first_level_owed(
    store: &FacetStore,
    field_id: FieldId,
    highest_level: u8,
    range: LevelRange,
    docs: Set<u32>,
)
    requires
        is_facet_tree(store, field_id),
        bound_of(range) == Bound::Unbounded,
        forall|i: int|
            0 <= i < store.keys().len() ==> (is_remaining(range, i) <==> starts_within(
                #[trigger] store.keys()[i],
                field_id,
                highest_level,
                Bound::Unbounded,
            )),
        range_wf(range, store),
        forall|i: int|
            0 <= i < store.keys().len() && (#[trigger] store.keys()[i]).field_id == field_id
                ==> store.keys()[i].level <= highest_level,
        (forall|i: int|
            0 <= i < store.keys().len() ==> (#[trigger] store.keys()[i]).field_id != field_id)
            || exists|i: int|
            0 <= i < store.keys().len() && (#[trigger] store.keys()[i]).field_id == field_id
                && store.keys()[i].level == highest_level,
    ensures
        level_owed(store, docs, range) == docs.intersect(facet_docs(store, field_id)),
{
    let wanted = docs.intersect(facet_docs(store, field_id));
    let owed = level_owed(store, docs, range);
    assert forall|d: u32| owed.contains(d) implies wanted.contains(d) by {
        let i = choose|i: int| #[trigger] to_visit(store, range, i) && docids_at(store, i).contains(d);
        assert(store.keys()[i].field_id == field_id);
        lemma_levels_agree(store, field_id, highest_level as int, i);
        assert(docs_at_level(store, field_id, highest_level as int).contains(d));
    }
    assert forall|d: u32| wanted.contains(d) implies owed.contains(d) by {
        let low = choose|i: int|
            0 <= i < store.keys().len() && (#[trigger] store.keys()[i]).field_id == field_id
                && store.keys()[i].level == 0 && docids_at(store, i).contains(d);
        assert(store.keys()[low].field_id == field_id);
        let top = choose|i: int|
            0 <= i < store.keys().len() && (#[trigger] store.keys()[i]).field_id == field_id
                && store.keys()[i].level == highest_level;
        lemma_levels_agree(store, field_id, highest_level as int, top);
        assert(docs_at_level(store, field_id, highest_level as int).contains(d));
        let i = choose|i: int|
            0 <= i < store.keys().len() && (#[trigger] store.keys()[i]).field_id == field_id
                && store.keys()[i].level == highest_level && docids_at(store, i).contains(d);
        assert(to_visit(store, range, i));
    }
    assert(owed =~= wanted);
}


/// The entry `inner` is visited, with all the values of its range, before
/// the entry `outer` is.
spec fn comes_first(ascending: bool, inner: FacetKey, outer: FacetKey) -> bool {
    if ascending {
        inner.right < outer.left
    } else {
        outer.right < inner.left
    }
}

/// The values of the entry lie beyond `value`, in the direction of the
/// descent.
spec fn lies_beyond(ascending: bool, key: FacetKey, value: i64) -> bool {
    if ascending {
        key.left > value
    } else {
        key.right < value
    }
}

/// Every scan goes in the direction of the descent.
spec fn directed(frames: Seq<LevelIter>, ascending: bool) -> bool {
    forall|k: int| 0 <= k < frames.len() ==> ((#[trigger] frames[k]).range is Ascending <==> ascending)
}

/// What is left to visit at a level comes before what is left to visit at
/// the levels above it.
spec fn in_order(store: &FacetStore, frames: Seq<LevelIter>, ascending: bool) -> bool {
    forall|k: int, m: int, i: int, j: int|
        0 <= k < m < frames.len() && #[trigger] to_visit(store, frames[k].range, i)
            && #[trigger] to_visit(store, frames[m].range, j) ==> comes_first(
            ascending,
            store.keys()[j],
            store.keys()[i],
        )
}

/// Every value that is left to visit lies beyond `value`.
spec fn beyond(store: &FacetStore, frames: Seq<LevelIter>, ascending: bool, value: i64) -> bool {
    forall|k: int, i: int|
        0 <= k < frames.len() && #[trigger] to_visit(store, frames[k].range, i) ==> lies_beyond(
            ascending,
            store.keys()[i],
            value,
        )
}

/// Without its last level, a descent is in order as it was with it.
proof fn lemma_order_without_last(
    store: &FacetStore,
    frames: Seq<LevelIter>,
    ascending: bool,
)
    requires
        frames.len() > 0,
    ensures
        directed(frames, ascending) ==> directed(frames.drop_last(), ascending),
        in_order(store, frames, ascending) ==> in_order(store, frames.drop_last(), ascending),
        forall|value: i64|
            beyond(store, frames, ascending, value) ==> #[trigger] beyond(
                store,
                frames.drop_last(),
                ascending,
                value,
            ),
{
    let rest = frames.drop_last();
    assert forall|k: int| 0 <= k < rest.len() implies #[trigger] rest[k] == frames[k] by {}
    if directed(frames, ascending) {
        assert forall|k: int| 0 <= k < rest.len() implies ((#[trigger] rest[k]).range is Ascending
            <==> ascending) by {
            assert(rest[k] == frames[k]);
        }
    }
    if in_order(store, frames, ascending) {
        assert forall|k: int, m: int, i: int, j: int|
            0 <= k < m < rest.len() && #[trigger] to_visit(store, rest[k].range, i)
                && #[trigger] to_visit(store, rest[m].range, j) implies comes_first(
            ascending,
            store.keys()[j],
            store.keys()[i],
        ) by {
            assert(rest[k] == frames[k] && rest[m] == frames[m]);
            assert(to_visit(store, frames[k].range, i) && to_visit(store, frames[m].range, j));
        }
    }
    assert forall|value: i64| beyond(store, frames, ascending, value) implies #[trigger] beyond(
        store,
        rest,
        ascending,
        value,
    ) by {
        assert forall|k: int, i: int|
            0 <= k < rest.len() && #[trigger] to_visit(store, rest[k].range, i) implies lies_beyond(
            ascending,
            store.keys()[i],
            value,
        ) by {
            assert(rest[k] == frames[k]);
            assert(to_visit(store, frames[k].range, i));
        }
    }
}

/// With a last level that has less left to visit, a descent is in order as
/// it was.
proof fn lemma_order_with_less(
    store: &FacetStore,
    rest: Seq<LevelIter>,
    before: LevelIter,
    back: LevelIter,
    ascending: bool,
)
    requires
        forall|i: int| to_visit(store, back.range, i) ==> to_visit(store, before.range, i),
        back.range is Ascending <==> before.range is Ascending,
    ensures
        directed(rest.push(before), ascending) ==> directed(rest.push(back), ascending),
        in_order(store, rest.push(before), ascending) ==> in_order(
            store,
            rest.push(back),
            ascending,
        ),
        forall|value: i64|
            beyond(store, rest.push(before), ascending, value) ==> #[trigger] beyond(
                store,
                rest.push(back),
                ascending,
                value,
            ),
{
    let old_frames = rest.push(before);
    let new_frames = rest.push(back);
    let n = rest.len() as int;
    assert(old_frames[n] == before && new_frames[n] == back);
    assert forall|k: int| 0 <= k < n implies old_frames[k] == rest[k] && new_frames[k]
        == rest[k] by {}
    if directed(old_frames, ascending) {
        assert forall|k: int| 0 <= k < new_frames.len() implies ((
        #[trigger] new_frames[k]).range is Ascending <==> ascending) by {
            if k < n {
                assert(old_frames[k] == rest[k]);
            } else {
                assert(old_frames[n] == before);
            }
        }
    }
    if in_order(store, old_frames, ascending) {
        assert forall|k: int, m: int, i: int, j: int|
            0 <= k < m < new_frames.len() && #[trigger] to_visit(store, new_frames[k].range, i)
                && #[trigger] to_visit(store, new_frames[m].range, j) implies comes_first(
            ascending,
            store.keys()[j],
            store.keys()[i],
        ) by {
            assert(old_frames[k] == new_frames[k]);
            assert(to_visit(store, old_frames[k].range, i));
            if m < n {
                assert(old_frames[m] == new_frames[m]);
            }
            assert(to_visit(store, old_frames[m].range, j));
        }
    }
    assert forall|value: i64|
        beyond(store, old_frames, ascending, value) implies #[trigger] beyond(
        store,
        new_frames,
        ascending,
        value,
    ) by {
        assert forall|k: int, i: int|
            0 <= k < new_frames.len() && #[trigger] to_visit(
                store,
                new_frames[k].range,
                i,
            ) implies lies_beyond(ascending, store.keys()[i], value) by {
            if k < n {
                assert(old_frames[k] == new_frames[k]);
            }
            assert(to_visit(store, old_frames[k].range, i));
        }
    }
}

/// After a step that found an entry, what is left of the scan comes after
/// this entry.
proof fn lemma_rest_of_scan(
    store: &FacetStore,
    field_id: FieldId,
    frame: LevelIter,
    after: LevelRange,
    entry: Result<(FacetKey, Set<u32>), SearchError>,
    ascending: bool,
)
    requires
        store.wf(),
        is_facet_tree(store, field_id),
        level_wf(frame, store, field_id),
        is_step(store, frame.range, after, Some(entry)),
        frame.range is Ascending <==> ascending,
    ensures
        forall|i: int|
            to_visit(store, after, i) ==> comes_first(
                ascending,
                store.keys()[handed_index(frame.range, after)],
                #[trigger] store.keys()[i],
            ),
        forall|i: int| to_visit(store, after, i) ==> to_visit(store, frame.range, i),
        to_visit(store, frame.range, handed_index(frame.range, after)),
{
    let index = handed_index(frame.range, after);
    assert forall|i: int| to_visit(store, after, i) implies comes_first(
        ascending,
        store.keys()[index],
        #[trigger] store.keys()[i],
    ) by {
        assert(is_remaining(frame.range, i));
        assert(is_remaining(frame.range, index));
        assert(store.keys()[i].field_id == field_id && store.keys()[index].field_id == field_id);
        assert(store.keys()[i].level == store.keys()[index].level);
        assert(i != index);
        match frame.range {
            LevelRange::Ascending(range) => {
                assert(index < i);
            },
            LevelRange::Descending(range) => {
                assert(i < index);
            },
        }
    }
}

/// After an entry of the lowest level was handed out, every value that is
/// left to visit lies beyond its value.
proof fn lemma_beyond_handed(
    store: &FacetStore,
    rest: Seq<LevelIter>,
    before: LevelIter,
    back: LevelIter,
    index: int,
    ascending: bool,
)
    requires
        in_order(store, rest.push(before), ascending),
        to_visit(store, before.range, index),
        store.keys()[index].left <= store.keys()[index].right,
        forall|i: int|
            to_visit(store, back.range, i) ==> comes_first(
                ascending,
                store.keys()[index],
                #[trigger] store.keys()[i],
            ),
    ensures
        beyond(store, rest.push(back), ascending, store.keys()[index].left),
        forall|value: i64|
            #![trigger beyond(store, rest.push(before), ascending, value)]
            beyond(store, rest.push(before), ascending, value) ==> if ascending {
                value < store.keys()[index].left
            } else {
                store.keys()[index].left < value
            },
{
    let old_frames = rest.push(before);
    let new_frames = rest.push(back);
    let n = rest.len() as int;
    assert(old_frames[n] == before && new_frames[n] == back);
    assert forall|k: int, i: int|
        0 <= k < new_frames.len() && #[trigger] to_visit(
            store,
            new_frames[k].range,
            i,
        ) implies lies_beyond(ascending, store.keys()[i], store.keys()[index].left) by {
        if k < n {
            assert(old_frames[k] == new_frames[k]);
            assert(to_visit(store, old_frames[k].range, i) && to_visit(
                store,
                old_frames[n].range,
                index,
            ));
        }
    }
    assert forall|value: i64|
        #![trigger beyond(store, old_frames, ascending, value)]
        beyond(store, old_frames, ascending, value) implies if ascending {
        value < store.keys()[index].left
    } else {
        store.keys()[index].left < value
    } by {
        assert(to_visit(store, old_frames[n].range, index));
    }
}

/// With the scan of the entries below an entry as its last level, a
/// descent is in order as it was when this entry was left to visit.
proof fn lemma_order_with_children(
    store: &FacetStore,
    rest: Seq<LevelIter>,
    before: LevelIter,
    back: LevelIter,
    lower: LevelIter,
    index: int,
    ascending: bool,
)
    requires
        to_visit(store, before.range, index),
        forall|i: int| to_visit(store, back.range, i) ==> to_visit(store, before.range, i),
        back.range is Ascending <==> before.range is Ascending,
        lower.range is Ascending <==> before.range is Ascending,
        forall|c: int|
            to_visit(store, lower.range, c) ==> store.keys()[index].left <= (
            #[trigger] store.keys()[c]).left && store.keys()[c].right
                <= store.keys()[index].right,
    ensures
        directed(rest.push(before), ascending) ==> directed(rest.push(back).push(lower), ascending),
        in_order(store, rest.push(before), ascending) && (forall|i: int|
            to_visit(store, back.range, i) ==> comes_first(
                ascending,
                store.keys()[index],
                #[trigger] store.keys()[i],
            )) ==> in_order(store, rest.push(back).push(lower), ascending),
        forall|value: i64|
            beyond(store, rest.push(before), ascending, value) ==> #[trigger] beyond(
                store,
                rest.push(back).push(lower),
                ascending,
                value,
            ),
{
    let old_frames = rest.push(before);
    let middle = rest.push(back);
    let new_frames = middle.push(lower);
    let n = rest.len() as int;
    lemma_order_with_less(store, rest, before, back, ascending);
    assert(old_frames[n] == before && middle[n] == back && new_frames[n] == back && new_frames[n
        + 1] == lower);
    assert forall|k: int| 0 <= k < n implies old_frames[k] == rest[k] && new_frames[k]
        == rest[k] && middle[k] == rest[k] by {}
    if directed(old_frames, ascending) {
        assert forall|k: int| 0 <= k < new_frames.len() implies ((
        #[trigger] new_frames[k]).range is Ascending <==> ascending) by {
            if k <= n {
                assert(middle[k] == new_frames[k]);
            } else {
                assert(old_frames[n] == before);
            }
        }
    }
    if in_order(store, old_frames, ascending) && (forall|i: int|
        to_visit(store, back.range, i) ==> comes_first(
            ascending,
            store.keys()[index],
            #[trigger] store.keys()[i],
        )) {
        assert forall|k: int, m: int, i: int, j: int|
            0 <= k < m < new_frames.len() && #[trigger] to_visit(store, new_frames[k].range, i)
                && #[trigger] to_visit(store, new_frames[m].range, j) implies comes_first(
            ascending,
            store.keys()[j],
            store.keys()[i],
        ) by {
            if m <= n {
                assert(middle[k] == new_frames[k] && middle[m] == new_frames[m]);
                assert(to_visit(store, middle[k].range, i) && to_visit(store, middle[m].range, j));
            } else if k == n {
                assert(comes_first(ascending, store.keys()[index], store.keys()[i]));
            } else {
                assert(old_frames[k] == new_frames[k]);
                assert(to_visit(store, old_frames[k].range, i) && to_visit(
                    store,
                    old_frames[n].range,
                    index,
                ));
                assert(comes_first(ascending, store.keys()[index], store.keys()[i]));
            }
        }
    }
    assert forall|value: i64|
        beyond(store, old_frames, ascending, value) implies #[trigger] beyond(
        store,
        new_frames,
        ascending,
        value,
    ) by {
        assert(beyond(store, middle, ascending, value));
        assert forall|k: int, i: int|
            0 <= k < new_frames.len() && #[trigger] to_visit(
                store,
                new_frames[k].range,
                i,
            ) implies lies_beyond(ascending, store.keys()[i], value) by {
            if k <= n {
                assert(middle[k] == new_frames[k]);
                assert(to_visit(store, middle[k].range, i));
            } else {
                assert(to_visit(store, old_frames[n].range, index));
            }
        }
    }
}


/// What a level is still to visit holds no document that a level above it
/// looks for.
spec fn apart(store: &FacetStore, frames: Seq<LevelIter>) -> bool {
    forall|k: int, m: int, j: int, d: u32|
        0 <= k < m < frames.len() && #[trigger] to_visit(store, frames[m].range, j)
            && #[trigger] members(&frames[k].documents_ids).contains(d) ==> !docids_at(
            store,
            j,
        ).contains(d)
}

/// Without its last level, the levels of a descent are apart as they were.
proof fn lemma_apart_without_last(store: &FacetStore, frames: Seq<LevelIter>)
    requires
        frames.len() > 0,
        apart(store, frames),
    ensures
        apart(store, frames.drop_last()),
        forall|j: int, d: u32|
            #![trigger to_visit(store, frames.last().range, j), pending_of(frames.drop_last()).contains(d)]
            to_visit(store, frames.last().range, j) && pending_of(frames.drop_last()).contains(d)
                ==> !docids_at(store, j).contains(d),
{
    let rest = frames.drop_last();
    let n = rest.len() as int;
    assert(frames[n] == frames.last());
    assert forall|k: int, m: int, j: int, d: u32|
        0 <= k < m < rest.len() && #[trigger] to_visit(store, rest[m].range, j)
            && #[trigger] members(&rest[k].documents_ids).contains(d) implies !docids_at(
        store,
        j,
    ).contains(d) by {
        assert(rest[k] == frames[k] && rest[m] == frames[m]);
        assert(to_visit(store, frames[m].range, j));
        assert(members(&frames[k].documents_ids).contains(d));
    }
    assert forall|j: int, d: u32|
        #![trigger to_visit(store, frames.last().range, j), pending_of(rest).contains(d)]
        to_visit(store, frames.last().range, j) && pending_of(rest).contains(d) implies !docids_at(
        store,
        j,
    ).contains(d) by {
        let k = choose|k: int|
            0 <= k < rest.len() && members(&(#[trigger] rest[k]).documents_ids).contains(d);
        assert(rest[k] == frames[k]);
        assert(to_visit(store, frames[n].range, j));
        assert(members(&frames[k].documents_ids).contains(d));
    }
}

/// With a last level that has less left to visit and looks for fewer
/// documents, the levels of a descent are apart as they were.
proof fn lemma_apart_with_less(
    store: &FacetStore,
    rest: Seq<LevelIter>,
    before: LevelIter,
    back: LevelIter,
)
    requires
        forall|i: int| to_visit(store, back.range, i) ==> to_visit(store, before.range, i),
        apart(store, rest.push(before)),
    ensures
        apart(store, rest.push(back)),
{
    let old_frames = rest.push(before);
    let new_frames = rest.push(back);
    let n = rest.len() as int;
    assert(old_frames[n] == before && new_frames[n] == back);
    assert forall|k: int, m: int, j: int, d: u32|
        0 <= k < m < new_frames.len() && #[trigger] to_visit(store, new_frames[m].range, j)
            && #[trigger] members(&new_frames[k].documents_ids).contains(d) implies !docids_at(
        store,
        j,
    ).contains(d) by {
        assert(old_frames[k] == new_frames[k]);
        if m < n {
            assert(old_frames[m] == new_frames[m]);
        }
        assert(to_visit(store, old_frames[m].range, j));
        assert(members(&old_frames[k].documents_ids).contains(d));
    }
}

/// With the scan of the entries below an entry as its last level, the
/// levels of a descent are apart as they were when this entry was left to
/// visit, where the level above looks no longer for its documents.
proof fn lemma_apart_with_children(
    store: &FacetStore,
    rest: Seq<LevelIter>,
    before: LevelIter,
    back: LevelIter,
    lower: LevelIter,
    index: int,
)
    requires
        to_visit(store, before.range, index),
        forall|i: int| to_visit(store, back.range, i) ==> to_visit(store, before.range, i),
        members(&back.documents_ids).disjoint(docids_at(store, index)),
        forall|c: int, d: u32|
            #![trigger to_visit(store, lower.range, c), docids_at(store, c).contains(d)]
            to_visit(store, lower.range, c) && docids_at(store, c).contains(d) ==> docids_at(
                store,
                index,
            ).contains(d),
        apart(store, rest.push(before)),
    ensures
        apart(store, rest.push(back).push(lower)),
{
    let old_frames = rest.push(before);
    let middle = rest.push(back);
    let new_frames = middle.push(lower);
    let n = rest.len() as int;
    lemma_apart_with_less(store, rest, before, back);
    assert(old_frames[n] == before && middle[n] == back && new_frames[n] == back && new_frames[n
        + 1] == lower);
    assert forall|k: int, m: int, j: int, d: u32|
        0 <= k < m < new_frames.len() && #[trigger] to_visit(store, new_frames[m].range, j)
            && #[trigger] members(&new_frames[k].documents_ids).contains(d) implies !docids_at(
        store,
        j,
    ).contains(d) by {
        if m <= n {
            assert(middle[k] == new_frames[k] && middle[m] == new_frames[m]);
            assert(to_visit(store, middle[m].range, j));
            assert(members(&middle[k].documents_ids).contains(d));
        } else if k == n {
            if docids_at(store, j).contains(d) {
                assert(docids_at(store, index).contains(d));
            }
        } else {
            assert(old_frames[k] == new_frames[k]);
            assert(to_visit(store, old_frames[n].range, index));
            assert(members(&old_frames[k].documents_ids).contains(d));
            if docids_at(store, j).contains(d) {
                assert(docids_at(store, index).contains(d));
            }
        }
    }
}


/// In a descent that does not reduce, each level looks for documents that
/// the first level looks for; and over a tree, a document of an entry that
/// a level is still to visit, which a level above looks for, is looked for
/// at that level too.
spec fn spread(store: &FacetStore, frames: Seq<LevelIter>, tree: bool) -> bool {
    &&& forall|k: int, d: u32|
        0 <= k < frames.len() && #[trigger] members(&frames[k].documents_ids).contains(d)
            ==> members(&frames[0].documents_ids).contains(d)
    &&& tree ==> forall|k: int, m: int, j: int, d: u32|
        0 <= k < m < frames.len() && #[trigger] to_visit(store, frames[m].range, j)
            && #[trigger] members(&frames[k].documents_ids).contains(d) && docids_at(
            store,
            j,
        ).contains(d) ==> members(&frames[m].documents_ids).contains(d)
}

/// What the levels of such a descent look for is what the first level looks for.
proof fn lemma_spread_pending(store: &FacetStore, frames: Seq<LevelIter>, tree: bool)
    requires
        frames.len() > 0,
        spread(store, frames, tree),
    ensures
        pending_of(frames) == members(&frames[0].documents_ids),
{
    assert forall|d: u32| pending_of(frames).contains(d) <==> members(
        &frames[0].documents_ids,
    ).contains(d) by {
        if pending_of(frames).contains(d) {
            let k = choose|k: int|
                0 <= k < frames.len() && members(&(#[trigger] frames[k]).documents_ids).contains(d);
            assert(members(&frames[k].documents_ids).contains(d));
        }
    }
    assert(pending_of(frames) =~= members(&frames[0].documents_ids));
}

/// Without its last level, such a descent is as it was; and over a tree its
/// last level looks for every document of an entry that it is still to
/// visit, which the first level looks for.
proof fn lemma_spread_without_last(store: &FacetStore, frames: Seq<LevelIter>, tree: bool)
    requires
        frames.len() > 0,
        spread(store, frames, tree),
    ensures
        spread(store, frames.drop_last(), tree),
        tree ==> forall|j: int, d: u32|
            #![trigger to_visit(store, frames.last().range, j), docids_at(store, j).contains(d)]
            to_visit(store, frames.last().range, j) && docids_at(store, j).contains(d) && members(
                &frames[0].documents_ids,
            ).contains(d) ==> members(&frames.last().documents_ids).contains(d),
{
    let rest = frames.drop_last();
    let n = rest.len() as int;
    assert(frames[n] == frames.last());
    assert forall|k: int, d: u32|
        0 <= k < rest.len() && #[trigger] members(&rest[k].documents_ids).contains(
            d,
        ) implies members(&rest[0].documents_ids).contains(d) by {
        assert(rest[k] == frames[k] && rest[0] == frames[0]);
        assert(members(&frames[k].documents_ids).contains(d));
    }
    if tree {
        assert forall|k: int, m: int, j: int, d: u32|
            0 <= k < m < rest.len() && #[trigger] to_visit(store, rest[m].range, j)
                && #[trigger] members(&rest[k].documents_ids).contains(d) && docids_at(
                store,
                j,
            ).contains(d) implies members(&rest[m].documents_ids).contains(d) by {
            assert(rest[k] == frames[k] && rest[m] == frames[m]);
            assert(to_visit(store, frames[m].range, j));
            assert(members(&frames[k].documents_ids).contains(d));
        }
        assert forall|j: int, d: u32|
            #![trigger to_visit(store, frames.last().range, j), docids_at(store, j).contains(d)]
            to_visit(store, frames.last().range, j) && docids_at(store, j).contains(d) && members(
                &frames[0].documents_ids,
            ).contains(d) implies members(&frames.last().documents_ids).contains(d) by {
            if n > 0 {
                assert(to_visit(store, frames[n].range, j));
                assert(members(&frames[0].documents_ids).contains(d));
            }
        }
    }
}

/// With a last level that has less left to visit and looks for the same
/// documents, such a descent is as it was.
proof fn lemma_spread_with_less(
    store: &FacetStore,
    rest: Seq<LevelIter>,
    before: LevelIter,
    back: LevelIter,
    tree: bool,
)
    requires
        forall|i: int| to_visit(store, back.range, i) ==> to_visit(store, before.range, i),
        members(&back.documents_ids) == members(&before.documents_ids),
        spread(store, rest.push(before), tree),
    ensures
        spread(store, rest.push(back), tree),
{
    let old_frames = rest.push(before);
    let new_frames = rest.push(back);
    let n = rest.len() as int;
    assert(old_frames[n] == before && new_frames[n] == back);
    assert forall|k: int, d: u32|
        0 <= k < new_frames.len() && #[trigger] members(&new_frames[k].documents_ids).contains(
            d,
        ) implies members(&new_frames[0].documents_ids).contains(d) by {
        if k < n {
            assert(old_frames[k] == new_frames[k]);
        }
        if 0 < n {
            assert(old_frames[0] == new_frames[0]);
        }
        assert(members(&old_frames[k].documents_ids).contains(d));
    }
    if tree {
        assert forall|k: int, m: int, j: int, d: u32|
            0 <= k < m < new_frames.len() && #[trigger] to_visit(store, new_frames[m].range, j)
                && #[trigger] members(&new_frames[k].documents_ids).contains(d) && docids_at(
                store,
                j,
            ).contains(d) implies members(&new_frames[m].documents_ids).contains(d) by {
            assert(old_frames[k] == new_frames[k]);
            if m < n {
                assert(old_frames[m] == new_frames[m]);
            }
            assert(to_visit(store, old_frames[m].range, j));
            assert(members(&old_frames[k].documents_ids).contains(d));
        }
    }
}

/// With the scan of the entries below an entry as its last level, which
/// looks for the documents of that entry that the level above looks for,
/// such a descent is as it was when this entry was left to visit.
proof fn lemma_spread_with_children(
    store: &FacetStore,
    rest: Seq<LevelIter>,
    before: LevelIter,
    back: LevelIter,
    lower: LevelIter,
    index: int,
    tree: bool,
)
    requires
        to_visit(store, before.range, index),
        forall|i: int| to_visit(store, back.range, i) ==> to_visit(store, before.range, i),
        members(&back.documents_ids) == members(&before.documents_ids),
        members(&lower.documents_ids) == members(&before.documents_ids).intersect(
            docids_at(store, index),
        ),
        tree ==> forall|c: int, d: u32|
            #![trigger to_visit(store, lower.range, c), docids_at(store, c).contains(d)]
            to_visit(store, lower.range, c) && docids_at(store, c).contains(d) ==> docids_at(
                store,
                index,
            ).contains(d),
        spread(store, rest.push(before), tree),
    ensures
        spread(store, rest.push(back).push(lower), tree),
{
    let old_frames = rest.push(before);
    let middle = rest.push(back);
    let new_frames = middle.push(lower);
    let n = rest.len() as int;
    lemma_spread_with_less(store, rest, before, back, tree);
    assert(old_frames[n] == before && middle[n] == back && new_frames[n] == back && new_frames[n
        + 1] == lower);
    assert(new_frames[0] == middle[0]);
    assert forall|k: int, d: u32|
        0 <= k < new_frames.len() && #[trigger] members(&new_frames[k].documents_ids).contains(
            d,
        ) implies members(&new_frames[0].documents_ids).contains(d) by {
        if k <= n {
            assert(middle[k] == new_frames[k]);
            assert(members(&middle[k].documents_ids).contains(d));
        } else {
            assert(members(&middle[n].documents_ids).contains(d));
        }
    }
    if tree {
        assert forall|k: int, m: int, j: int, d: u32|
            0 <= k < m < new_frames.len() && #[trigger] to_visit(store, new_frames[m].range, j)
                && #[trigger] members(&new_frames[k].documents_ids).contains(d) && docids_at(
                store,
                j,
            ).contains(d) implies members(&new_frames[m].documents_ids).contains(d) by {
            if m <= n {
                assert(middle[k] == new_frames[k] && middle[m] == new_frames[m]);
                assert(to_visit(store, middle[m].range, j));
                assert(members(&middle[k].documents_ids).contains(d));
            } else {
                assert(docids_at(store, index).contains(d));
                if k < n {
                    assert(old_frames[k] == new_frames[k]);
                    assert(to_visit(store, old_frames[n].range, index));
                    assert(members(&old_frames[k].documents_ids).contains(d));
                    assert(members(&old_frames[n].documents_ids).contains(d));
                }
            }
        }
    }
}

/// The order in which a descent visits the ranges of a level.
#[derive(Debug, Clone, Copy, PartialEq, Eq, Structural)]
pub enum Direction {
    Ascending,
    Descending,
}

/// The values of a field in order, each with the documents that have it,
/// among a set of documents given at the start.
pub struct FacetIter {
    field_id: FieldId,
    level_iters: Vec<LevelIter>,
    must_reduce: bool,
    ascending: bool,
}

impl FacetIter {
    /// The field whose values are visited.
    pub closed spec fn field_id(&self) -> FieldId {
        self.field_id
    }

    /// Whether a document that was handed out with one value is left out
    /// from then on.
    pub closed spec fn must_reduce(&self) -> bool {
        self.must_reduce
    }

    /// The documents that can still be handed out.
    pub closed spec fn pending(&self) -> Set<u32> {
        pending_of(self.level_iters@)
    }

    /// No level is left to visit.
    pub closed spec fn is_done(&self) -> bool {
        self.level_iters@.len() == 0
    }

    /// Whether the values are visited from the smallest one up.
    pub closed spec fn is_ascending(&self) -> bool {
        self.ascending
    }

    /// Every value that the descent still hands out, over a tree, lies
    /// beyond `value`: above it where the descent goes up, below it where
    /// it goes down.
    pub closed spec fn is_beyond(&self, store: &FacetStore, value: i64) -> bool {
        beyond(store, self.level_iters@, self.ascending, value)
    }

    /// The levels of the descent fit the table.
    pub closed spec fn wf(&self, store: &FacetStore) -> bool {
        &&& levels_wf(self.level_iters@, store, self.field_id, self.must_reduce)
        &&& directed(self.level_iters@, self.ascending)
        &&& is_facet_tree(store, self.field_id) ==> in_order(
            store,
            self.level_iters@,
            self.ascending,
        )
        &&& is_facet_tree(store, self.field_id) && self.must_reduce ==> apart(
            store,
            self.level_iters@,
        )
        &&& !self.must_reduce ==> spread(
            store,
            self.level_iters@,
            is_facet_tree(store, self.field_id),
        )
    }

    /// The documents that the descent still hands out, where the entries of
    /// its field form a tree.
    pub closed spec fn owed(&self, store: &FacetStore) -> Set<u32> {
        owed_of(store, self.level_iters@)
    }

    /// A bound on the number of steps that the descent still takes.
    pub closed spec fn effort(&self, store: &FacetStore) -> int {
        effort(self.level_iters@, store.keys().len() as int)
    }

    /// The highest level that the tree of `field_id` has.
    pub fn highest_level(store: &FacetStore, field_id: FieldId) -> (level: Option<u8>)
        requires
            store.wf(),
        ensures
            match level {
                None => forall|i: int|
                    0 <= i < store.keys().len() ==> (#[trigger] store.keys()[i]).field_id
                        != field_id,
                Some(level) => (exists|i: int|
                    0 <= i < store.keys().len() && (#[trigger] store.keys()[i]).field_id
                        == field_id && store.keys()[i].level == level) && forall|i: int|
                    0 <= i < store.keys().len() && (#[trigger] store.keys()[i]).field_id
                        == field_id ==> store.keys()[i].level <= level,
            },
    {
        let after = FacetKey { field_id, level: u8::MAX, left: i64::MAX, right: i64::MAX };
        let count: usize = store.entries_before(&after, true);
        proof {
            assert forall|i: int| count <= i < store.keys().len() implies (
            #[trigger] store.keys()[i]).field_id != field_id by {
                let key = store.keys()[i];
                if key.field_id == field_id {
                    assert(key.level <= after.level && key.left <= after.left && key.right
                        <= after.right);
                    assert(key_before(key, after) || key == after);
                }
            }
        }
        if count == 0 {
            return None;
        }
        let last: FacetKey = store.key_at(count - 1);
        proof {
            assert forall|i: int| 0 <= i < count implies key_before(
                #[trigger] store.keys()[i],
                last,
            ) || store.keys()[i] == last by {
                if i < count - 1 {
                    assert(key_before(store.keys()[i], store.keys()[count - 1]));
                }
            }
        }
        if last.field_id == field_id {
            Some(last.level)
        } else {
            None
        }
    }

    /// A descent that starts at the highest level of the tree of `field_id`.
    fn new(
        store: &FacetStore,
        field_id: FieldId,
        documents_ids: RoaringBitmap,
        direction: Direction,
        must_reduce: bool,
    ) -> (iter: FacetIter)
        requires
            store.wf(),
        ensures
            iter.wf(store),
            iter.field_id() == field_id,
            iter.must_reduce() == must_reduce,
            iter.is_ascending() == (direction == Direction::Ascending),
            iter.pending() == members(&documents_ids),
            is_facet_tree(store, field_id) ==> iter.owed(store) == members(
                &documents_ids,
            ).intersect(facet_docs(store, field_id)),
    {
        let highest_level: u8 = match FacetIter::highest_level(store, field_id) {
            Some(level) => level,
            None => 0,
        };
        let range = match direction {
            Direction::Ascending => LevelRange::Ascending(
                FacetRange::new(store, field_id, highest_level, Bound::Unbounded, Bound::Unbounded),
            ),
            Direction::Descending => LevelRange::Descending(
                FacetRevRange::new(
                    store,
                    field_id,
                    highest_level,
                    Bound::Unbounded,
                    Bound::Unbounded,
                ),
            ),
        };
        let mut level_iters: Vec<LevelIter> = Vec::new();
        level_iters.push(LevelIter { documents_ids, level: highest_level, range });
        proof {
            let frame = level_iters@[0];
            let docs = members(&documents_ids);
            assert(frame.documents_ids == documents_ids);
            assert(level_iters@ =~= Seq::<LevelIter>::empty().push(frame));
            lemma_push_level(store, Seq::<LevelIter>::empty(), frame);
            assert(pending_of(Seq::<LevelIter>::empty()) =~= Set::<u32>::empty());
            assert(owed_of(store, Seq::<LevelIter>::empty()) =~= Set::<u32>::empty());
            assert(pending_of(level_iters@) =~= docs);
            if is_facet_tree(store, field_id) {
                lemma_first_level_owed(store, field_id, highest_level, frame.range, docs);
                assert(owed_of(store, level_iters@) =~= docs.intersect(
                    facet_docs(store, field_id),
                ));
            }
        }
        let ascending: bool = match direction {
            Direction::Ascending => true,
            Direction::Descending => false,
        };
        FacetIter { field_id, level_iters, must_reduce, ascending }
    }

    /// Create a `FacetIter` that will iterate on the different facet entries
    /// (facet value + documents ids) and that will reduce the given documents ids
    /// while iterating on the different facet levels.
    pub fn new_reducing(store: &FacetStore, field_id: FieldId, documents_ids: RoaringBitmap) -> (iter:
        FacetIter)
        requires
            store.wf(),
        ensures
            iter.wf(store),
            iter.field_id() == field_id,
            iter.must_reduce(),
            iter.is_ascending(),
            iter.pending() == members(&documents_ids),
            is_facet_tree(store, field_id) ==> iter.owed(store) == members(
                &documents_ids,
            ).intersect(facet_docs(store, field_id)),
    {
        FacetIter::new(store, field_id, documents_ids, Direction::Ascending, true)
    }

    /// Create a `FacetIter` that will iterate on the different facet entries in reverse
    /// (facet value + documents ids) and that will reduce the given documents ids
    /// while iterating on the different facet levels.
    pub fn new_reverse_reducing(
        store: &FacetStore,
        field_id: FieldId,
        documents_ids: RoaringBitmap,
    ) -> (iter: FacetIter)
        requires
            store.wf(),
        ensures
            iter.wf(store),
            iter.field_id() == field_id,
            iter.must_reduce(),
            !iter.is_ascending(),
            iter.pending() == members(&documents_ids),
            is_facet_tree(store, field_id) ==> iter.owed(store) == members(
                &documents_ids,
            ).intersect(facet_docs(store, field_id)),
    {
        FacetIter::new(store, field_id, documents_ids, Direction::Descending, true)
    }

    /// Create a `FacetIter` that will iterate on the different facet entries
    /// (facet value + documents ids) and that will not reduce the given documents ids
    /// while iterating on the different facet levels, possibly returning multiple times
    /// a document id associated with multiple facet values.
    pub fn new_non_reducing(
        store: &FacetStore,
        field_id: FieldId,
        documents_ids: RoaringBitmap,
    ) -> (iter: FacetIter)
        requires
            store.wf(),
        ensures
            iter.wf(store),
            iter.field_id() == field_id,
            !iter.must_reduce(),
            iter.is_ascending(),
            iter.pending() == members(&documents_ids),
            is_facet_tree(store, field_id) ==> iter.owed(store) == members(
                &documents_ids,
            ).intersect(facet_docs(store, field_id)),
    {
        FacetIter::new(store, field_id, documents_ids, Direction::Ascending, false)
    }
    /// The next value of the field with the documents that have it, among
    /// those that the descent looks for. In a descent that reduces, these
    /// documents are looked for no longer. `None` when the descent is over.
    #[verifier::rlimit(50)]
    #[verifier::spinoff_prover]
    pub fn next(&mut self, store: &FacetStore) -> (item: Option<
        Result<(i64, RoaringBitmap), SearchError>,
    >)
        requires
            store.wf(),
            old(self).wf(store),
        ensures
            final(self).wf(store),
            final(self).field_id() == old(self).field_id(),
            final(self).must_reduce() == old(self).must_reduce(),
            final(self).is_ascending() == old(self).is_ascending(),
            final(self).pending().subset_of(old(self).pending()),
            // a descent that does not reduce looks for the same documents to its end
            !old(self).must_reduce() && item is Some ==> final(self).pending()
                == old(self).pending(),
            0 <= final(self).effort(store) <= old(self).effort(store),
            item is Some ==> final(self).effort(store) < old(self).effort(store),
            old(self).is_done() ==> item is None,
            forall|bound: i64|
                old(self).is_beyond(store, bound) ==> #[trigger] final(self).is_beyond(
                    store,
                    bound,
                ),
            // over a tree, the values come in the order of the descent
            is_facet_tree(store, old(self).field_id()) ==> (item matches Some(Ok((value, _)))
                ==> final(self).is_beyond(store, value) && forall|bound: i64|
                #![trigger old(self).is_beyond(store, bound)]
                old(self).is_beyond(store, bound) ==> if old(self).is_ascending() {
                    bound < value
                } else {
                    value < bound
                }),
            match item {
                None => {
                    &&& final(self).is_done()
                    &&& is_facet_tree(store, old(self).field_id()) ==> old(self).owed(store)
                        == Set::<u32>::empty()
                },
                Some(Err(error)) => {
                    &&& error == SearchError::Bitmap
                    &&& !is_facet_tree(store, old(self).field_id())
                },
                Some(Ok((value, docids))) => {
                    &&& members(&docids) != Set::<u32>::empty()
                    &&& members(&docids).subset_of(old(self).pending())
                    &&& old(self).must_reduce() ==> final(self).pending().disjoint(members(&docids))
                    &&& exists|i: int|
                        0 <= i < store.keys().len() && (#[trigger] store.keys()[i]).field_id
                            == old(self).field_id() && store.keys()[i].level == 0
                            && store.keys()[i].left == value && members(&docids).subset_of(
                            docids_at(store, i),
                        ) && (is_facet_tree(store, old(self).field_id()) && old(self).must_reduce()
                            ==> members(&docids) == docids_at(store, i).intersect(
                            old(self).owed(store),
                        ))
                    &&& is_facet_tree(store, old(self).field_id()) ==> old(self).owed(store)
                        == final(self).owed(store).union(members(&docids))
                    // over a tree, a descent that does not reduce hands out all
                    // the documents of the value that it looks for
                    &&& is_facet_tree(store, old(self).field_id()) && !old(self).must_reduce()
                        ==> forall|i: int|
                        0 <= i < store.keys().len() && (#[trigger] store.keys()[i]).field_id
                            == old(self).field_id() && store.keys()[i].level == 0
                            && store.keys()[i].left == value ==> members(&docids) == docids_at(
                            store,
                            i,
                        ).intersect(old(self).pending())
                },
            },
    {
        let ghost size = store.keys().len() as int;
        let ghost field_id = self.field_id;
        let ghost must_reduce = self.must_reduce;
        let ghost ascending = self.ascending;
        proof {
            lemma_effort_bounds(self.level_iters@, store);
            if !must_reduce && self.level_iters@.len() > 0 {
                lemma_spread_pending(store, self.level_iters@, is_facet_tree(store, field_id));
            }
        }
        loop
            invariant
                store.wf(),
                size == store.keys().len(),
                self.field_id == field_id,
                field_id == old(self).field_id,
                self.must_reduce == must_reduce,
                must_reduce == old(self).must_reduce,
                levels_wf(self.level_iters@, store, field_id, must_reduce),
                self.ascending == ascending,
                ascending == old(self).ascending,
                old(self).level_iters@.len() == 0 ==> self.level_iters@.len() == 0,
                directed(self.level_iters@, ascending),
                is_facet_tree(store, field_id) ==> in_order(store, self.level_iters@, ascending),
                is_facet_tree(store, field_id) && must_reduce ==> apart(store, self.level_iters@),
                !must_reduce ==> spread(store, self.level_iters@, is_facet_tree(store, field_id)),
                !must_reduce && self.level_iters@.len() > 0 ==> members(
                    &self.level_iters@[0].documents_ids,
                ) == pending_of(old(self).level_iters@),
                forall|bound: i64|
                    beyond(store, old(self).level_iters@, ascending, bound) ==> #[trigger] beyond(
                        store,
                        self.level_iters@,
                        ascending,
                        bound,
                    ),
                pending_of(self.level_iters@).subset_of(pending_of(old(self).level_iters@)),
                is_facet_tree(store, field_id) ==> owed_of(store, self.level_iters@) == owed_of(
                    store,
                    old(self).level_iters@,
                ),
                0 <= effort(self.level_iters@, size) <= effort(old(self).level_iters@, size),
            decreases effort(self.level_iters@, size),
        {
            let ghost frames = self.level_iters@;
            let top = match self.level_iters.pop() {
                None => {
                    assert(owed_of(store, frames) =~= Set::<u32>::empty());
                    return None;
                },
                Some(top) => top,
            };
            let ghost rest = frames.drop_last();
            proof {
                assert(frames =~= rest.push(top));
                lemma_levels_without_last(frames, store, field_id, must_reduce);
                lemma_order_without_last(store, frames, ascending);
                assert(frames[frames.len() - 1] == top);
                if is_facet_tree(store, field_id) && must_reduce {
                    lemma_apart_without_last(store, frames);
                }
                if !must_reduce {
                    lemma_spread_without_last(store, frames, is_facet_tree(store, field_id));
                    lemma_spread_pending(store, frames, is_facet_tree(store, field_id));
                    if rest.len() > 0 {
                        assert(rest[0] == frames[0]);
                    }
                }
                lemma_push_level(store, rest, top);
                lemma_effort_bounds(rest, store);
                lemma_some_effort(size, top.level as nat, steps_left(top.range));
            }
            let LevelIter { documents_ids, level, range } = top;
            let ghost docs = members(&documents_ids);
            // If the last iterator must find an empty set of documents it means
            // that we found all the documents in the sub level iterations already,
            // we can pop this level iterator.
            if is_empty_bitmap(&documents_ids) {
                assert(level_owed(store, docs, range) =~= Set::<u32>::empty());
            } else {
                let is_ascending: bool = self.ascending;
                assert(range is Ascending <==> is_ascending);
                let (after, result) = advance(range, store);
                let ghost index = handed_index(range, after);
                match result {
                    None => {
                        proof {
                            if is_facet_tree(store, field_id) {
                                lemma_nothing_left(store, field_id, top, after, docs);
                            }
                        }
                    },
                    Some(Err(error)) => {
                        let back = LevelIter { documents_ids, level, range: after };
                        self.level_iters.push(back);
                        proof {
                            assert(store.keys()[index].field_id == field_id);
                            lemma_levels_with_next(rest, back, store, field_id, must_reduce);
                            lemma_order_with_less(store, rest, top, back, ascending);
                            if is_facet_tree(store, field_id) && must_reduce {
                                lemma_apart_with_less(store, rest, top, back);
                            }
                            if !must_reduce {
                                lemma_spread_with_less(
                                    store,
                                    rest,
                                    top,
                                    back,
                                    is_facet_tree(store, field_id),
                                );
                                assert(rest.push(back)[0].documents_ids
                                    == frames[0].documents_ids);
                                lemma_spread_pending(
                                    store,
                                    self.level_iters@,
                                    is_facet_tree(store, field_id),
                                );
                            }
                            lemma_push_level(store, rest, back);
                            lemma_less_effort(
                                size,
                                level as nat,
                                steps_left(range),
                                steps_left(after),
                            );
                        }
                        return Some(Err(error));
                    },
                    Some(Ok((key, mut docids))) => {
                        let ghost held = members(&docids);
                        intersect_with(&mut docids, &documents_ids);
                        let ghost found = members(&docids);
                        proof {
                            assert(key == store.keys()[index]);
                            assert(held == docids_at(store, index));
                            assert(key.field_id == field_id && key.level == level);
                            lemma_step_owed(store, range, after, Ok((key, held)), docs);
                            if is_facet_tree(store, field_id) {
                                lemma_rest_of_scan(
                                    store,
                                    field_id,
                                    top,
                                    after,
                                    Ok((key, held)),
                                    ascending,
                                );
                            }
                            lemma_less_effort(
                                size,
                                level as nat,
                                steps_left(range),
                                steps_left(after),
                            );
                        }
                        if is_empty_bitmap(&docids) {
                            let back = LevelIter { documents_ids, level, range: after };
                            self.level_iters.push(back);
                            proof {
                                lemma_levels_with_next(rest, back, store, field_id, must_reduce);
                                lemma_order_with_less(store, rest, top, back, ascending);
                                if is_facet_tree(store, field_id) && must_reduce {
                                    lemma_apart_with_less(store, rest, top, back);
                                }
                                if !must_reduce {
                                    lemma_spread_with_less(
                                        store,
                                        rest,
                                        top,
                                        back,
                                        is_facet_tree(store, field_id),
                                    );
                                    assert(rest.push(back)[0].documents_ids
                                        == frames[0].documents_ids);
                                }
                                lemma_push_level(store, rest, back);
                                assert(docs.intersect(held) =~= found);
                                assert(owed_of(store, self.level_iters@) =~= owed_of(
                                    store,
                                    frames,
                                ));
                            }
                        } else {
                            let mut documents_ids = documents_ids;
                            if self.must_reduce {
                                difference_with(&mut documents_ids, &docids);
                            }
                            let ghost kept = members(&documents_ids);
                            let back = LevelIter { documents_ids, level, range: after };
                            proof {
                                assert(docs.intersect(held) =~= found);
                                if must_reduce {
                                    lemma_reduced_owed(store, docs, found, after);
                                }
                                lemma_levels_with_next(rest, back, store, field_id, must_reduce);
                                lemma_order_with_less(store, rest, top, back, ascending);
                                if is_facet_tree(store, field_id) && must_reduce {
                                    lemma_apart_with_less(store, rest, top, back);
                                }
                                if !must_reduce {
                                    lemma_spread_with_less(
                                        store,
                                        rest,
                                        top,
                                        back,
                                        is_facet_tree(store, field_id),
                                    );
                                    assert(rest.push(back)[0].documents_ids
                                        == frames[0].documents_ids);
                                }
                                lemma_push_level(store, rest, back);
                            }
                            if key.level == 0 {
                                self.level_iters.push(back);
                                proof {
                                    if !must_reduce {
                                        lemma_spread_pending(
                                            store,
                                            self.level_iters@,
                                            is_facet_tree(store, field_id),
                                        );
                                    }
                                    if is_facet_tree(store, field_id) && !must_reduce {
                                        let start = members(&frames[0].documents_ids);
                                        assert(to_visit(store, top.range, index));
                                        assert forall|d: u32|
                                            held.contains(d) && start.contains(
                                                d,
                                            ) implies docs.contains(d) by {
                                            assert(docids_at(store, index).contains(d));
                                        }
                                        assert(found =~= held.intersect(start));
                                        assert forall|i: int|
                                            0 <= i < store.keys().len() && (
                                            #[trigger] store.keys()[i]).field_id == field_id
                                                && store.keys()[i].level == 0
                                                && store.keys()[i].left
                                                == key.left implies i == index by {
                                            assert(store.keys()[index].field_id == field_id);
                                        }
                                    }
                                    if is_facet_tree(store, field_id) && must_reduce {
                                        assert forall|d: u32|
                                            owed_of(store, rest).contains(d) implies !held.contains(
                                            d,
                                        ) by {
                                            lemma_owed_is_pending(store, rest);
                                            assert(pending_of(rest).contains(d));
                                            assert(to_visit(store, top.range, index));
                                        }
                                        assert(found =~= held.intersect(owed_of(store, frames)));
                                        assert(found =~= docids_at(store, index).intersect(
                                            owed_of(store, old(self).level_iters@),
                                        ));
                                    }
                                    if is_facet_tree(store, field_id) {
                                        lemma_beyond_handed(
                                            store,
                                            rest,
                                            top,
                                            back,
                                            index,
                                            ascending,
                                        );
                                        assert forall|bound: i64|
                                            #![trigger beyond(store, old(self).level_iters@, ascending, bound)]
                                            beyond(
                                                store,
                                                old(self).level_iters@,
                                                ascending,
                                                bound,
                                            ) implies if ascending {
                                            bound < key.left
                                        } else {
                                            key.left < bound
                                        } by {
                                            assert(beyond(store, frames, ascending, bound));
                                            assert(beyond(
                                                store,
                                                rest.push(top),
                                                ascending,
                                                bound,
                                            ));
                                        }
                                    }
                                    assert(owed_of(store, frames) =~= owed_of(
                                        store,
                                        self.level_iters@,
                                    ).union(found));
                                    if must_reduce {
                                        assert(pending_of(self.level_iters@).disjoint(found));
                                    }
                                }
                                return Some(Ok((key.left, docids)));
                            }
                            let below = if is_ascending {
                                LevelRange::Ascending(
                                    FacetRange::new(
                                        store,
                                        self.field_id,
                                        key.level - 1,
                                        Bound::Included(key.left),
                                        Bound::Included(key.right),
                                    ),
                                )
                            } else {
                                LevelRange::Descending(
                                    FacetRevRange::new(
                                        store,
                                        self.field_id,
                                        key.level - 1,
                                        Bound::Included(key.left),
                                        Bound::Included(key.right),
                                    ),
                                )
                            };
                            let lower = LevelIter {
                                documents_ids: docids,
                                level: key.level - 1,
                                range: below,
                            };
                            self.level_iters.push(back);
                            self.level_iters.push(lower);
                            proof {
                                let middle = rest.push(back);
                                assert forall|k: int| 0 <= k < middle.len() implies lower.level < (
                                #[trigger] middle[k]).level by {
                                    if k < rest.len() {
                                        assert(middle[k] == rest[k]);
                                    }
                                }
                                if must_reduce {
                                    assert forall|k: int| 0 <= k < middle.len() implies members(
                                        &(#[trigger] middle[k]).documents_ids,
                                    ).disjoint(found) by {
                                        if k < rest.len() {
                                            assert(middle[k] == rest[k]);
                                        }
                                    }
                                }
                                lemma_levels_with_next(middle, lower, store, field_id, must_reduce);
                                if !must_reduce {
                                    if is_facet_tree(store, field_id) {
                                        assert forall|c: int, d: u32|
                                            #![trigger to_visit(store, below, c), docids_at(store, c).contains(d)]
                                            to_visit(store, below, c) && docids_at(
                                                store,
                                                c,
                                            ).contains(d) implies docids_at(store, index).contains(
                                            d,
                                        ) by {
                                            assert(is_child(store, index, c));
                                        }
                                    }
                                    assert(to_visit(store, top.range, index));
                                    lemma_spread_with_children(
                                        store,
                                        rest,
                                        top,
                                        back,
                                        lower,
                                        index,
                                        is_facet_tree(store, field_id),
                                    );
                                    assert(rest.push(back).push(lower)[0] == rest.push(back)[0]);
                                }
                                lemma_order_with_children(
                                    store,
                                    rest,
                                    top,
                                    back,
                                    lower,
                                    index,
                                    ascending,
                                );
                                if is_facet_tree(store, field_id) && must_reduce {
                                    assert forall|c: int, d: u32|
                                        #![trigger to_visit(store, below, c), docids_at(store, c).contains(d)]
                                        to_visit(store, below, c) && docids_at(store, c).contains(
                                            d,
                                        ) implies docids_at(store, index).contains(d) by {
                                        assert(is_child(store, index, c));
                                    }
                                    lemma_apart_with_children(store, rest, top, back, lower, index);
                                }
                                lemma_push_level(store, middle, lower);
                                if is_facet_tree(store, field_id) {
                                    lemma_children_owed(store, field_id, index, below, found);
                                    assert(owed_of(store, self.level_iters@) =~= owed_of(
                                        store,
                                        frames,
                                    ));
                                }
                                lemma_step_pays_for_level(
                                    size,
                                    steps_left(range),
                                    steps_left(below),
                                    level as nat,
                                );
                                lemma_some_effort(size, lower.level as nat, steps_left(below));
                                assert(effort(self.level_iters@, size) == effort(rest, size)
                                    + level_effort(back, size) + level_effort(lower, size));
                                assert(level_effort(back, size) <= steps_left(range) * weight(
                                    size,
                                    level as nat,
                                ));
                                assert(level_effort(lower, size) == (steps_left(below) + 1)
                                    * weight(size, (level - 1) as nat));
                                assert(effort(frames, size) == effort(rest, size) + (steps_left(
                                    range,
                                ) + 1) * weight(size, level as nat));
                                assert(effort(self.level_iters@, size) < effort(frames, size));
                            }
                        }
                    },
                }
            }
        }
    }
    /// Runs the descent to its end and returns what it hands out, in order.
    /// Over a tree, these are all the documents that the descent owed, and
    /// where it reduces, no document comes twice.
    pub fn collect(&mut self, store: &FacetStore) -> (items: Result<
        Vec<(i64, RoaringBitmap)>,
        SearchError,
    >)
        requires
            store.wf(),
            old(self).wf(store),
        ensures
            final(self).wf(store),
            is_facet_tree(store, old(self).field_id()) ==> items is Ok,
            items matches Ok(found) ==> {
                &&& final(self).is_done()
                &&& docs_of(found@).subset_of(old(self).pending())
                &&& old(self).must_reduce() ==> are_disjoint(found@)
                &&& is_facet_tree(store, old(self).field_id()) ==> docs_of(found@) == old(
                    self,
                ).owed(store) && values_in_order(found@, old(self).is_ascending())
            },
    {
        let mut found: Vec<(i64, RoaringBitmap)> = Vec::new();
        proof {
            assert(docs_of(found@) =~= Set::<u32>::empty());
            lemma_effort_bounds(self.level_iters@, store);
        }
        loop
            invariant
                store.wf(),
                self.wf(store),
                self.field_id() == old(self).field_id(),
                self.must_reduce() == old(self).must_reduce(),
                self.pending().subset_of(old(self).pending()),
                docs_of(found@).subset_of(old(self).pending()),
                self.must_reduce() ==> are_disjoint(found@) && self.pending().disjoint(
                    docs_of(found@),
                ),
                is_facet_tree(store, self.field_id()) ==> old(self).owed(store) == self.owed(
                    store,
                ).union(docs_of(found@)),
                self.is_ascending() == old(self).is_ascending(),
                is_facet_tree(store, self.field_id()) ==> values_in_order(
                    found@,
                    self.is_ascending(),
                ) && forall|k: int|
                    0 <= k < found@.len() ==> self.is_beyond(store, #[trigger] value_at(found@, k)),
                0 <= self.effort(store),
            decreases self.effort(store),
        {
            let ghost before = found@;
            match self.next(store) {
                None => {
                    return Ok(found);
                },
                Some(Err(error)) => {
                    return Err(error);
                },
                Some(Ok((value, docids))) => {
                    found.push((value, docids));
                    proof {
                        lemma_docs_of_push(before, value, docids);
                        if is_facet_tree(store, self.field_id()) {
                            let n = before.len() as int;
                            assert(value_at(found@, n) == value);
                            assert forall|k: int| 0 <= k < n implies value_at(found@, k)
                                == value_at(before, k) by {
                                assert(found@[k] == before[k]);
                            }
                            assert forall|k: int| 0 <= k < found@.len() implies self.is_beyond(
                                store,
                                #[trigger] value_at(found@, k),
                            ) by {
                                if k < n {
                                    assert(value_at(found@, k) == value_at(before, k));
                                }
                            }
                            assert forall|k: int, m: int| 0 <= k < m < found@.len() implies if self.is_ascending() {
                                #[trigger] value_at(found@, k) < #[trigger] value_at(found@, m)
                            } else {
                                value_at(found@, k) > value_at(found@, m)
                            } by {
                                assert(value_at(found@, k) == value_at(before, k));
                                if m < n {
                                    assert(value_at(found@, m) == value_at(before, m));
                                }
                            }
                        }
                    }
                },
            }
        }
    }
}

} // verus!
