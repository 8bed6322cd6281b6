//! Scans over one level of the facet tree, upwards and downwards.

use roaring::RoaringBitmap;
use vstd::prelude::*;

use crate::bitmap::{bitmap_from_bytes, decoded_members, members};
use crate::error::SearchError;
use crate::facet::store::{Bound, FacetKey, FacetStore, FieldId};

verus! {

/// Whether a key is one that a scan of `level` of `field_id` meets when it
/// starts at `left`. An excluded `left` leaves out the one key whose range
/// starts at `left` and ends at the smallest value.
pub open spec fn starts_within(key: FacetKey, field_id: FieldId, level: u8, left: Bound) -> bool {
    key.field_id == field_id && key.level == level && match left {
        Bound::Included(start) => key.left >= start,
        Bound::Excluded(start) => key.left > start || (key.left == start && key.right > i64::MIN),
        Bound::Unbounded => true,
    }
}

/// Whether a range that ends at `right` ends within the bound `end`.
pub open spec fn ends_within(right: i64, end: Bound) -> bool {
    match end {
        Bound::Included(end) => right <= end,
        Bound::Excluded(end) => right < end,
        Bound::Unbounded => true,
    }
}

/// What a scan hands out for the entry at `index`: its key with the documents
/// that its bytes hold, or the failure to read them.
pub open spec fn entry_at(store: &FacetStore, index: int) -> Result<(FacetKey, Set<u32>), SearchError> {
    match decoded_members(store.values()[index]) {
        Some(docids) => Ok((store.keys()[index], docids)),
        None => Err(SearchError::Bitmap),
    }
}

/// What an item of a scan stands for.
pub open spec fn item_of(item: Result<(FacetKey, RoaringBitmap), SearchError>) -> Result<
    (FacetKey, Set<u32>),
    SearchError,
> {
    match item {
        Ok((key, docids)) => Ok((key, members(&docids))),
        Err(error) => Err(error),
    }
}

/// Whether a range that ends at `right` ends within the bound `end`.
pub fn is_within_end(right: i64, end: &Bound) -> (within: bool)
    ensures
        within == ends_within(right, *end),
{
    match end {
        Bound::Included(end) => right <= *end,
        Bound::Excluded(end) => right < *end,
        Bound::Unbounded => true,
    }
}

/// Reads the entry at `index`.
fn read_entry(store: &FacetStore, index: usize) -> (item: Result<
    (FacetKey, RoaringBitmap),
    SearchError,
>)
    requires
        store.wf(),
        index < store.keys().len(),
    ensures
        item_of(item) == entry_at(store, index as int),
{
    match bitmap_from_bytes(store.docids_at(index)) {
        Some(docids) => Ok((store.key_at(index), docids)),
        None => Err(SearchError::Bitmap),
    }
}

/// The first and the last place of a scan of `level` of `field_id` that starts at `left`.
fn scan_limits(store: &FacetStore, field_id: FieldId, level: u8, left: &Bound) -> (limits: (
    usize,
    usize,
))
    requires
        store.wf(),
    ensures
        limits.0 <= limits.1 <= store.keys().len(),
        forall|i: int|
            0 <= i < store.keys().len() ==> (limits.0 <= i < limits.1 <==> starts_within(
                #[trigger] store.keys()[i],
                field_id,
                level,
                *left,
            )),
{
    let (left_value, excluded): (i64, bool) = match left {
        Bound::Included(left) => (*left, false),
        Bound::Excluded(left) => (*left, true),
        Bound::Unbounded => (i64::MIN, false),
    };
    let left_bound = FacetKey { field_id, level, left: left_value, right: i64::MIN };
    let right_bound = FacetKey { field_id, level, left: i64::MAX, right: i64::MAX };
    let first: usize = store.entries_before(&left_bound, excluded);
    let last: usize = store.entries_before(&right_bound, true);
    assert(first <= last) by {
        if last < first {
            let key = store.keys()[last as int];
            assert(key.field_id == field_id && key.level == level);
        }
    }
    (first, last)
}

/// A scan of one level of the facet tree of a field, from the smallest
/// values up.
pub struct FacetRange {
    next: usize,
    stop: usize,
    end: Bound,
}

impl FacetRange {
    /// The place in the table of the entry that comes next.
    pub closed spec fn position(&self) -> int {
        self.next as int
    }

    /// The place in the table where the scan ends.
    pub closed spec fn limit(&self) -> int {
        self.stop as int
    }

    /// The bound within which the ranges handed out must end.
    pub closed spec fn end(&self) -> Bound {
        self.end
    }

    /// The scan lies inside the table.
    pub open spec fn wf(&self, store: &FacetStore) -> bool {
        0 <= self.position() <= self.limit() <= store.keys().len()
    }

    /// A scan of `level` of `field_id`. It starts at the first range that
    /// begins at `left` or later, and hands out ranges as long as they end
    /// within `right`.
    pub fn new(store: &FacetStore, field_id: FieldId, level: u8, left: Bound, right: Bound) -> (range:
        FacetRange)
        requires
            store.wf(),
        ensures
            range.wf(store),
            range.end() == right,
            forall|i: int|
                0 <= i < store.keys().len() ==> (range.position() <= i < range.limit()
                    <==> starts_within(#[trigger] store.keys()[i], field_id, level, left)),
    {
        let (first, last) = scan_limits(store, field_id, level, &left);
        FacetRange { next: first, stop: last, end: right }
    }

    /// The next entry of the scan. The scan is over, and `None` is returned,
    /// at the end of the level and at the first range that ends beyond the
    /// bound.
    pub fn next(&mut self, store: &FacetStore) -> (item: Option<
        Result<(FacetKey, RoaringBitmap), SearchError>,
    >)
        requires
            store.wf(),
            old(self).wf(store),
        ensures
            final(self).wf(store),
            final(self).end() == old(self).end(),
            final(self).limit() == old(self).limit(),
            old(self).position() == old(self).limit() ==> item is None && final(self).position()
                == old(self).position(),
            old(self).position() < old(self).limit() ==> {
                &&& final(self).position() == old(self).position() + 1
                &&& match item {
                    None => !ends_within(
                        store.keys()[old(self).position()].right,
                        old(self).end(),
                    ),
                    Some(entry) => ends_within(
                        store.keys()[old(self).position()].right,
                        old(self).end(),
                    ) && item_of(entry) == entry_at(store, old(self).position()),
                }
            },
    {
        if self.next >= self.stop {
            return None;
        }
        let index: usize = self.next;
        self.next = index + 1;
        let key: FacetKey = store.key_at(index);
        if is_within_end(key.right, &self.end) {
            Some(read_entry(store, index))
        } else {
            None
        }
    }
}

/// A scan of one level of the facet tree of a field, from the largest values
/// down.
pub struct FacetRevRange {
    start: usize,
    next_end: usize,
    end: Bound,
}

impl FacetRevRange {
    /// The place in the table where the scan ends.
    pub closed spec fn limit(&self) -> int {
        self.start as int
    }

    /// The place in the table after the entry that comes next.
    pub closed spec fn position(&self) -> int {
        self.next_end as int
    }

    /// The bound within which the ranges handed out must end.
    pub closed spec fn end(&self) -> Bound {
        self.end
    }

    /// The scan lies inside the table.
    pub open spec fn wf(&self, store: &FacetStore) -> bool {
        0 <= self.limit() <= self.position() <= store.keys().len()
    }

    /// A scan of `level` of `field_id`. It goes down to the first range that
    /// begins at `left` or later, and hands out the ranges that end within
    /// `right`.
    pub fn new(store: &FacetStore, field_id: FieldId, level: u8, left: Bound, right: Bound) -> (range:
        FacetRevRange)
        requires
            store.wf(),
        ensures
            range.wf(store),
            range.end() == right,
            forall|i: int|
                0 <= i < store.keys().len() ==> (range.limit() <= i < range.position()
                    <==> starts_within(#[trigger] store.keys()[i], field_id, level, left)),
    {
        let (first, last) = scan_limits(store, field_id, level, &left);
        FacetRevRange { start: first, next_end: last, end: right }
    }

    /// The next entry of the scan: the last one not yet seen whose range ends
    /// within the bound. `None` when no such entry is left.
    pub fn next(&mut self, store: &FacetStore) -> (item: Option<
        Result<(FacetKey, RoaringBitmap), SearchError>,
    >)
        requires
            store.wf(),
            old(self).wf(store),
        ensures
            final(self).wf(store),
            final(self).end() == old(self).end(),
            final(self).limit() == old(self).limit(),
            final(self).position() <= old(self).position(),
            forall|i: int|
                final(self).position() < i < old(self).position() ==> !ends_within(
                    (#[trigger] store.keys()[i]).right,
                    old(self).end(),
                ),
            match item {
                None => final(self).position() == old(self).limit() && (final(self).position()
                    < old(self).position() ==> !ends_within(
                    store.keys()[final(self).position()].right,
                    old(self).end(),
                )),
                Some(entry) => final(self).position() < old(self).position() && ends_within(
                    store.keys()[final(self).position()].right,
                    old(self).end(),
                ) && item_of(entry) == entry_at(store, final(self).position()),
            },
    {
        loop
            invariant
                store.wf(),
                self.wf(store),
                self.end == old(self).end,
                self.start == old(self).start,
                self.next_end <= old(self).next_end,
                forall|i: int|
                    self.next_end <= i < old(self).next_end ==> !ends_within(
                        (#[trigger] store.keys()[i]).right,
                        self.end,
                    ),
            decreases self.next_end - self.start,
        {
            if self.next_end <= self.start {
                return None;
            }
            let index: usize = self.next_end - 1;
            self.next_end = index;
            let key: FacetKey = store.key_at(index);
            if is_within_end(key.right, &self.end) {
                return Some(read_entry(store, index));
            }
        }
    }
}

} // verus!
