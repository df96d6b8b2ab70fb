//! Trusted interface to `roaring::RoaringBitmap`, the compressed bitmap used
//! for article-membership sets and traversal visited-sets.
//!
//! The bitmap itself is opaque to verification; its mathematical content is
//! named by [`bitmap_elems`], and each wrapper states over that name what the
//! crate's source shows of the call.

use vstd::prelude::*;

verus! {

#[verifier::external_type_specification]
#[verifier::external_body]
pub struct ExRoaringBitmap(roaring::RoaringBitmap);

/// The set of integers a `RoaringBitmap` holds.
pub uninterp spec fn bitmap_elems(b: roaring::RoaringBitmap) -> Set<u32>;

/// Relies on roaring::RoaringBitmap::new: creates an empty set.
#[verifier::external_body]
pub(crate) fn bitmap_new() -> (r: roaring::RoaringBitmap)
    ensures
        bitmap_elems(r) == Set::<u32>::empty(),
{
    roaring::RoaringBitmap::new()
}

/// Relies on roaring::RoaringBitmap::insert: adds `value` to the set and
/// reports whether it was absent before.
#[verifier::external_body]
pub(crate) fn bitmap_insert(b: &mut roaring::RoaringBitmap, value: u32) -> (r: bool)
    ensures
        bitmap_elems(*final(b)) == bitmap_elems(*old(b)).insert(value),
        r == !bitmap_elems(*old(b)).contains(value),
{
    b.insert(value)
}

/// Relies on roaring::RoaringBitmap::contains.
#[verifier::external_body]
pub(crate) fn bitmap_contains(b: &roaring::RoaringBitmap, value: u32) -> (r: bool)
    ensures
        r == bitmap_elems(*b).contains(value),
{
    b.contains(value)
}

/// Relies on roaring's `BitOrAssign<&RoaringBitmap>`: unions `other` into `b`
/// in place.
#[verifier::external_body]
pub(crate) fn bitmap_union_with(b: &mut roaring::RoaringBitmap, other: &roaring::RoaringBitmap)
    ensures
        bitmap_elems(*final(b)) == bitmap_elems(*old(b)).union(bitmap_elems(*other)),
{
    *b |= other;
}

/// Relies on roaring::RoaringBitmap::iter, which guarantees values are
/// ordered by value: hands the whole set out as a strictly ascending vector.
#[verifier::external_body]
pub(crate) fn bitmap_to_vec(b: &roaring::RoaringBitmap) -> (r: Vec<u32>)
    ensures
        forall|v: u32| r@.contains(v) <==> bitmap_elems(*b).contains(v),
        forall|i: int, j: int| 0 <= i < j < r@.len() ==> r@[i] < r@[j],
{
    b.iter().collect()
}

} // verus!
