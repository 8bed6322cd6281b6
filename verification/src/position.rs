//! Word positions: an attribute and an index inside it, packed in one `u32`.

use vstd::prelude::*;

verus! {

/// Number of positions that one attribute spans.
pub const ONE_ATTRIBUTE: u32 = 1000;

/// Largest index that a word can have inside its attribute.
pub const MAX_INDEX: u32 = 999;

/// Largest proximity that two consecutive words can have.
pub const MAX_DISTANCE: u32 = 8;

/// The attribute that a position lies in.
pub open spec fn attribute_of(position: u32) -> int {
    position as int / 1000
}

/// The index of a position inside its attribute.
pub open spec fn index_of(position: u32) -> int {
    position as int % 1000
}

/// Returns the attribute and index parts.
pub fn extract_position(position: u32) -> (parts: (u32, u32))
    ensures
        parts.0 == attribute_of(position),
        parts.1 == index_of(position),
        parts.1 <= MAX_INDEX,
        parts.0 * ONE_ATTRIBUTE + parts.1 == position,
{
    (position / ONE_ATTRIBUTE, position % ONE_ATTRIBUTE)
}

/// Returns a position from the two parts of it.
pub fn construct_position(attr: u32, index: u32) -> (position: u32)
    requires
        attr * ONE_ATTRIBUTE + index <= u32::MAX,
    ensures
        position == attr * ONE_ATTRIBUTE + index,
        index <= MAX_INDEX ==> attribute_of(position) == attr && index_of(position) == index,
{
    attr * ONE_ATTRIBUTE + index
}

/// Splitting a position and packing the parts again gives the position back.
pub proof fn lemma_position_round_trip(position: u32)
    ensures
        attribute_of(position) * 1000 + index_of(position) == position,
        0 <= index_of(position) <= MAX_INDEX,
        0 <= attribute_of(position) <= u32::MAX / 1000,
{
}

} // verus!
