//! Sets of document identifiers, kept as compressed bitmaps.

use roaring::RoaringBitmap;
use vstd::prelude::*;

verus! {

#[verifier::external_type_specification]
#[verifier::external_body]
pub struct ExRoaringBitmap(roaring::RoaringBitmap);

/// The integers that a bitmap holds.
pub uninterp spec fn members(bitmap: &RoaringBitmap) -> Set<u32>;

/// The set that `RoaringBitmap::deserialize_from` reads from `bytes`, `None`
/// where it refuses them.
pub uninterp spec fn decoded_members(bytes: Seq<u8>) -> Option<Set<u32>>;

/// `RoaringBitmap::new`: a bitmap that holds nothing.
#[verifier::external_body]
pub(crate) fn empty_bitmap() -> (bitmap: RoaringBitmap)
    ensures
        members(&bitmap) == Set::<u32>::empty(),
{
    RoaringBitmap::new()
}

/// `Clone::clone` of a bitmap: a bitmap that holds the same integers.
#[verifier::external_body]
pub(crate) fn copy_bitmap(bitmap: &RoaringBitmap) -> (copy: RoaringBitmap)
    ensures
        members(&copy) == members(bitmap),
{
    bitmap.clone()
}

/// `RoaringBitmap::is_empty`: whether the bitmap holds no integer.
#[verifier::external_body]
pub(crate) fn is_empty_bitmap(bitmap: &RoaringBitmap) -> (empty: bool)
    ensures
        empty <==> members(bitmap) == Set::<u32>::empty(),
{
    bitmap.is_empty()
}

/// `RoaringBitmap::insert`: `target` takes `value` too. Returns whether it
/// did not hold it before.
#[verifier::external_body]
pub(crate) fn insert_into(target: &mut RoaringBitmap, value: u32) -> (added: bool)
    ensures
        members(final(target)) == members(old(target)).insert(value),
        added == !members(old(target)).contains(value),
{
    target.insert(value)
}

/// `RoaringBitmap::iter`, gathered in a vector: the integers of the bitmap,
/// from the smallest to the largest.
#[verifier::external_body]
pub(crate) fn bitmap_values(bitmap: &RoaringBitmap) -> (values: Vec<u32>)
    ensures
        forall|i: int, j: int| 0 <= i < j < values@.len() ==> values@[i] < values@[j],
        forall|value: u32| values@.contains(value) <==> members(bitmap).contains(value),
{
    bitmap.iter().collect()
}

/// `BitOrAssign` of bitmaps: `target` takes the integers of `other` too.
#[verifier::external_body]
pub(crate) fn union_with(target: &mut RoaringBitmap, other: &RoaringBitmap)
    ensures
        members(final(target)) == members(old(target)).union(members(other)),
{
    *target |= other;
}

/// `BitAndAssign` of bitmaps: `target` keeps the integers that `other` holds.
#[verifier::external_body]
pub(crate) fn intersect_with(target: &mut RoaringBitmap, other: &RoaringBitmap)
    ensures
        members(final(target)) == members(old(target)).intersect(members(other)),
{
    *target &= other;
}

/// `SubAssign` of bitmaps: `target` loses the integers that `other` holds.
#[verifier::external_body]
pub(crate) fn difference_with(target: &mut RoaringBitmap, other: &RoaringBitmap)
    ensures
        members(final(target)) == members(old(target)).difference(members(other)),
{
    *target -= other;
}

/// `RoaringBitmap::serialize_into` a vector of bytes. It fails only where
/// the writer fails, and a vector takes every byte, so the bytes are always
/// there. What it writes, `RoaringBitmap::deserialize_from` reads back as a
/// bitmap of the same integers.
#[verifier::external_body]
pub(crate) fn bitmap_to_bytes(bitmap: &RoaringBitmap) -> (bytes: Option<Vec<u8>>)
    ensures
        bytes is Some,
        bytes matches Some(written) ==> decoded_members(written@) == Some(members(bitmap)),
{
    let mut written = Vec::new();
    bitmap.serialize_into(&mut written).ok().map(|_| written)
}

/// `RoaringBitmap::deserialize_from` a slice of bytes.
#[verifier::external_body]
pub(crate) fn bitmap_from_bytes(bytes: &[u8]) -> (bitmap: Option<RoaringBitmap>)
    ensures
        match bitmap {
            Some(read) => decoded_members(bytes@) == Some(members(&read)),
            None => decoded_members(bytes@) is None,
        },
{
    RoaringBitmap::deserialize_from(bytes).ok()
}

} // verus!
