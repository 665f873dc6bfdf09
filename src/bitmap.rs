//! Document-id sets held in `roaring` bitmaps, seen through the set of ids they hold.
use roaring::RoaringBitmap;
use vstd::prelude::*;

verus! {

#[verifier::external_type_specification]
#[verifier::external_body]
pub struct ExRoaringBitmap(RoaringBitmap);

/// The set of document ids that a bitmap holds.
pub uninterp spec fn docs(b: RoaringBitmap) -> Set<u32>;

/// The ids appear in strictly increasing order.
pub open spec fn ascending(s: Seq<u32>) -> bool {
    forall|i: int, j: int| 0 <= i < j < s.len() ==> s[i] < s[j]
}

/// The ids of a finite set in increasing order (none for a set that has no such order).
pub open spec fn in_order(s: Set<u32>) -> Seq<u32> {
    if exists|q: Seq<u32>| ascending(q) && q.to_set() == s {
        choose|q: Seq<u32>| ascending(q) && q.to_set() == s
    } else {
        Seq::empty()
    }
}

/// Relies on `RoaringBitmap::new`: an empty bitmap.
#[verifier::external_body]
pub(crate) fn bitmap_new() -> (r: RoaringBitmap)
    ensures
        docs(r) == Set::<u32>::empty(),
{
    RoaringBitmap::new()
}

/// Relies on `RoaringBitmap::clone`: a copy holds the same ids.
#[verifier::external_body]
pub(crate) fn bitmap_clone(b: &RoaringBitmap) -> (r: RoaringBitmap)
    ensures
        docs(r) == docs(*b),
{
    b.clone()
}

/// Relies on `RoaringBitmap::len`: the number of ids held.
#[verifier::external_body]
pub(crate) fn bitmap_len(b: &RoaringBitmap) -> (r: u64)
    ensures
        r as nat == docs(*b).len(),
{
    b.len()
}

/// Relies on `RoaringBitmap::is_empty`: whether no id is held.
#[verifier::external_body]
pub(crate) fn bitmap_is_empty(b: &RoaringBitmap) -> (r: bool)
    ensures
        r == docs(*b).is_empty(),
{
    b.is_empty()
}

/// Relies on `BitOrAssign<&RoaringBitmap>`: in-place union.
#[verifier::external_body]
pub(crate) fn bitmap_union_with(a: &mut RoaringBitmap, b: &RoaringBitmap)
    ensures
        docs(*final(a)) == docs(*old(a)).union(docs(*b)),
{
    *a |= b;
}

/// Relies on `BitAndAssign<&RoaringBitmap>`: in-place intersection.
#[verifier::external_body]
pub(crate) fn bitmap_intersect_with(a: &mut RoaringBitmap, b: &RoaringBitmap)
    ensures
        docs(*final(a)) == docs(*old(a)).intersect(docs(*b)),
{
    *a &= b;
}

/// Relies on `SubAssign<&RoaringBitmap>`: in-place difference.
#[verifier::external_body]
pub(crate) fn bitmap_difference_with(a: &mut RoaringBitmap, b: &RoaringBitmap)
    ensures
        docs(*final(a)) == docs(*old(a)).difference(docs(*b)),
{
    *a -= b;
}

/// Relies on `RoaringBitmap::iter`, which yields the ids in increasing order.
#[verifier::external_body]
pub(crate) fn bitmap_to_vec(b: &RoaringBitmap) -> (r: Vec<u32>)
    ensures
        ascending(r@),
        r@.to_set() == docs(*b),
        r@.len() == docs(*b).len(),
        r@ == in_order(docs(*b)),
{
    b.iter().collect()
}

} // verus!
