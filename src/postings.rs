//! Posting lists: sets of document ids held in compressed Roaring bitmaps.

use roaring::RoaringBitmap;
use vstd::prelude::*;

verus! {

#[verifier::external_type_specification]
#[verifier::external_body]
pub struct ExRoaringBitmap(RoaringBitmap);

/// The set of document ids that a bitmap holds.
pub uninterp spec fn bitmap_ids(b: RoaringBitmap) -> Set<u32>;

/// What the standard Roaring on-disk format decodes to: the set of ids, or
/// `None` where the bytes do not hold a valid bitmap.
pub uninterp spec fn roaring_decode(bytes: Seq<u8>) -> Option<Set<u32>>;

/// Relies on `RoaringBitmap::new`: a bitmap with no ids.
#[verifier::external_body]
pub(crate) fn empty_bitmap() -> (r: RoaringBitmap)
    ensures
        bitmap_ids(r) == Set::<u32>::empty(),
{
    RoaringBitmap::new()
}

/// Relies on `RoaringBitmap::insert`: adds one id to the set.
#[verifier::external_body]
pub(crate) fn bitmap_insert(b: &mut RoaringBitmap, id: u32)
    ensures
        bitmap_ids(*final(b)) == bitmap_ids(*old(b)).insert(id),
{
    b.insert(id);
}

/// Relies on `RoaringBitmap`'s `Clone`: a copy of the same set.
#[verifier::external_body]
pub(crate) fn bitmap_clone(b: &RoaringBitmap) -> (r: RoaringBitmap)
    ensures
        bitmap_ids(r) == bitmap_ids(*b),
{
    b.clone()
}

/// Relies on `RoaringBitmap::contains`: membership of one id.
#[verifier::external_body]
pub(crate) fn bitmap_contains(b: &RoaringBitmap, id: u32) -> (r: bool)
    ensures
        r == bitmap_ids(*b).contains(id),
{
    b.contains(id)
}

/// Relies on `&RoaringBitmap & &RoaringBitmap`: the intersection of two sets.
#[verifier::external_body]
pub(crate) fn bitmap_intersection(a: &RoaringBitmap, b: &RoaringBitmap) -> (r: RoaringBitmap)
    ensures
        bitmap_ids(r) == bitmap_ids(*a).intersect(bitmap_ids(*b)),
{
    a & b
}

/// Relies on `&RoaringBitmap | &RoaringBitmap`: the union of two sets.
#[verifier::external_body]
pub(crate) fn bitmap_union(a: &RoaringBitmap, b: &RoaringBitmap) -> (r: RoaringBitmap)
    ensures
        bitmap_ids(r) == bitmap_ids(*a).union(bitmap_ids(*b)),
{
    a | b
}

/// Relies on `RoaringBitmap::serialize_into`, writing into a `Vec`: the
/// bytes of the standard on-disk format, which `deserialize_from` reads back
/// to the same set. It fails only where the writer fails, and writing into a
/// `Vec` does not fail.
#[verifier::external_body]
pub(crate) fn bitmap_serialize(b: &RoaringBitmap) -> (r: Vec<u8>)
    ensures
        roaring_decode(r@) == Some(bitmap_ids(*b)),
{
    let mut bytes = Vec::with_capacity(b.serialized_size());
    b.serialize_into(&mut bytes).expect("writing into a Vec does not fail");
    bytes
}

/// Relies on `RoaringBitmap::deserialize_from`: reads a bitmap in the
/// standard on-disk format, or fails on bytes that do not hold one.
#[verifier::external_body]
pub(crate) fn bitmap_deserialize(bytes: &[u8]) -> (r: Option<RoaringBitmap>)
    ensures
        r is Some <==> roaring_decode(bytes@) is Some,
        r is Some ==> Some(bitmap_ids(r->0)) == roaring_decode(bytes@),
{
    RoaringBitmap::deserialize_from(bytes).ok()
}

} // verus!
