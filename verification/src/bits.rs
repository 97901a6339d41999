//! Compressed bitmaps over `u32` values, supplied by the `roaring` crate.
//!
//! The engines store agreement sets over document-id pairs and per-path value
//! sets in `roaring::RoaringBitmap`.  The bitmap type is opaque to the
//! verifier; `bitmap_model` names the set of values a bitmap holds, and each
//! wrapper below states what one `roaring` operation does to that set.

use vstd::prelude::*;

verus! {

#[verifier::external_type_specification]
#[verifier::external_body]
pub struct ExRoaringBitmap(roaring::RoaringBitmap);

/// The set of `u32` values stored in a bitmap.
pub uninterp spec fn bitmap_model(b: roaring::RoaringBitmap) -> Set<u32>;

/// Relies on roaring::RoaringBitmap::new: the returned bitmap holds no values.
#[verifier::external_body]
pub fn bm_new() -> (r: roaring::RoaringBitmap)
    ensures
        bitmap_model(r) == Set::<u32>::empty(),
{
    roaring::RoaringBitmap::new()
}

/// Relies on roaring::RoaringBitmap::insert: adds one value to the set.
#[verifier::external_body]
pub fn bm_insert(b: &mut roaring::RoaringBitmap, v: u32)
    ensures
        bitmap_model(*final(b)) == bitmap_model(*old(b)).insert(v),
{
    b.insert(v);
}

/// Relies on roaring::RoaringBitmap::insert_range: adds every value of the
/// range to the set.
#[verifier::external_body]
pub fn bm_insert_below(b: &mut roaring::RoaringBitmap, end: u32)
    ensures
        bitmap_model(*final(b)) == bitmap_model(*old(b)).union(
            Set::new(|x: u32| x < end),
        ),
        bitmap_model(*old(b)).finite() ==> bitmap_model(*final(b)).finite(),
{
    b.insert_range(0..end);
}

/// Relies on roaring::RoaringBitmap::contains: membership in the set.
#[verifier::external_body]
pub fn bm_contains(b: &roaring::RoaringBitmap, v: u32) -> (r: bool)
    ensures
        r == bitmap_model(*b).contains(v),
{
    b.contains(v)
}

/// Relies on roaring::RoaringBitmap::len: the number of stored values.
#[verifier::external_body]
pub fn bm_len(b: &roaring::RoaringBitmap) -> (r: u64)
    ensures
        r as nat == bitmap_model(*b).len(),
{
    b.len()
}

/// Relies on roaring::RoaringBitmap::is_empty: whether no value is stored.
#[verifier::external_body]
pub fn bm_is_empty(b: &roaring::RoaringBitmap) -> (r: bool)
    ensures
        r == (bitmap_model(*b) == Set::<u32>::empty()),
{
    b.is_empty()
}

/// Relies on roaring's `BitAnd` for `&RoaringBitmap`: set intersection.
#[verifier::external_body]
pub fn bm_and(a: &roaring::RoaringBitmap, b: &roaring::RoaringBitmap) -> (r:
    roaring::RoaringBitmap)
    ensures
        bitmap_model(r) == bitmap_model(*a).intersect(bitmap_model(*b)),
        bitmap_model(r).finite(),
{
    a & b
}

/// Relies on roaring's `Sub` for `&RoaringBitmap`: set difference.
#[verifier::external_body]
pub fn bm_sub(a: &roaring::RoaringBitmap, b: &roaring::RoaringBitmap) -> (r:
    roaring::RoaringBitmap)
    ensures
        bitmap_model(r) == bitmap_model(*a).difference(bitmap_model(*b)),
        bitmap_model(r).finite(),
{
    a - b
}

/// Relies on roaring::RoaringBitmap::is_subset: set containment.
#[verifier::external_body]
pub fn bm_is_subset(a: &roaring::RoaringBitmap, b: &roaring::RoaringBitmap) -> (r: bool)
    ensures
        r == bitmap_model(*a).subset_of(bitmap_model(*b)),
{
    a.is_subset(b)
}

/// Relies on roaring::RoaringBitmap::intersection_len: the cardinality of the
/// intersection, without building it.
#[verifier::external_body]
pub fn bm_intersection_len(a: &roaring::RoaringBitmap, b: &roaring::RoaringBitmap) -> (r: u64)
    ensures
        r as nat == bitmap_model(*a).intersect(bitmap_model(*b)).len(),
{
    a.intersection_len(b)
}

/// Relies on roaring::RoaringBitmap::iter, which yields the stored values in
/// increasing order.
#[verifier::external_body]
pub fn bm_sorted_values(b: &roaring::RoaringBitmap) -> (r: Vec<u32>)
    ensures
        forall|k1: int, k2: int| 0 <= k1 < k2 < r@.len() ==> r@[k1] < r@[k2],
        forall|v: u32| r@.contains(v) <==> bitmap_model(*b).contains(v),
{
    b.iter().collect()
}

/// Relies on roaring's `Clone`: the copy holds the same values.
#[verifier::external_body]
pub fn bm_clone(b: &roaring::RoaringBitmap) -> (r: roaring::RoaringBitmap)
    ensures
        bitmap_model(r) == bitmap_model(*b),
{
    b.clone()
}

} // verus!
