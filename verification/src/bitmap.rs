use roaring::RoaringBitmap;
use vstd::prelude::*;

verus! {

#[verifier::external_type_specification]
#[verifier::external_body]
pub struct ExRoaringBitmap(RoaringBitmap);

/// The ids that a bitmap holds.
pub uninterp spec fn ids(bitmap: RoaringBitmap) -> Set<u32>;

/// `listing` names every id of `set` once, in ascending order.
pub open spec fn lists_ascending(listing: Seq<u32>, set: Set<u32>) -> bool {
    &&& forall|i: int, j: int| 0 <= i < j < listing.len() ==> listing[i] < listing[j]
    &&& forall|id: u32| #[trigger] set.contains(id) <==> listing.contains(id)
}

/// `RoaringBitmap::new` gives a bitmap without ids.
pub assume_specification[ RoaringBitmap::new ]() -> (bitmap: RoaringBitmap)
    ensures
        ids(bitmap) == Set::<u32>::empty(),
;

/// `RoaringBitmap::is_empty` tells whether a bitmap holds no id.
pub assume_specification[ RoaringBitmap::is_empty ](bitmap: &RoaringBitmap) -> (empty: bool)
    ensures
        empty == (ids(*bitmap) == Set::<u32>::empty()),
;

/// `RoaringBitmap::remove` takes one id out of a bitmap and tells whether it was there.
pub assume_specification[ RoaringBitmap::remove ](bitmap: &mut RoaringBitmap, value: u32) -> (present: bool)
    ensures
        present == ids(*old(bitmap)).contains(value),
        ids(*final(bitmap)) == ids(*old(bitmap)).remove(value),
;

/// `-=` of `roaring` on a bitmap and a borrowed bitmap: the difference of two sets.
#[verifier::external_body]
pub(crate) fn subtract(bitmap: &mut RoaringBitmap, other: &RoaringBitmap)
    ensures
        ids(*final(bitmap)) == ids(*old(bitmap)).difference(ids(*other)),
{
    *bitmap -= other;
}

/// `|=` of `roaring` on a bitmap and a borrowed bitmap: the union of two sets.
#[verifier::external_body]
pub(crate) fn unite(bitmap: &mut RoaringBitmap, other: &RoaringBitmap)
    ensures
        ids(*final(bitmap)) == ids(*old(bitmap)).union(ids(*other)),
{
    *bitmap |= other;
}

/// `&=` of `roaring` on a bitmap and a borrowed bitmap: the intersection of two sets.
#[verifier::external_body]
pub(crate) fn restrict(bitmap: &mut RoaringBitmap, other: &RoaringBitmap)
    ensures
        ids(*final(bitmap)) == ids(*old(bitmap)).intersect(ids(*other)),
{
    *bitmap &= other;
}

/// `&` of `roaring` on two borrowed bitmaps: a new bitmap with their intersection.
#[verifier::external_body]
pub(crate) fn shared(a: &RoaringBitmap, b: &RoaringBitmap) -> (bitmap: RoaringBitmap)
    ensures
        ids(bitmap) == ids(*a).intersect(ids(*b)),
{
    a & b
}

/// `MultiOps::intersection` of `roaring` on one bitmap followed by others: a new bitmap with
/// the ids that stand in all of them.
#[verifier::external_body]
pub(crate) fn intersection(first: &RoaringBitmap, others: Vec<&RoaringBitmap>) -> (bitmap: RoaringBitmap)
    ensures
        forall|id: u32| #[trigger] ids(bitmap).contains(id) <==> {
            &&& ids(*first).contains(id)
            &&& forall|i: int| 0 <= i < others.len() ==> ids(*#[trigger] others[i]).contains(id)
        },
{
    roaring::MultiOps::intersection(std::iter::once(first).chain(others))
}

/// `IntoIterator` of `RoaringBitmap` hands out every id of a bitmap once, in ascending order.
#[verifier::external_body]
pub(crate) fn into_ascending(bitmap: RoaringBitmap) -> (listing: Vec<u32>)
    ensures
        lists_ascending(listing@, ids(bitmap)),
{
    bitmap.into_iter().collect()
}

/// A set has at most one ascending listing.
pub proof fn lemma_listing_unique(a: Seq<u32>, b: Seq<u32>, set: Set<u32>)
    requires
        lists_ascending(a, set),
        lists_ascending(b, set),
    ensures
        a == b,
    decreases a.len(),
{
    if a.len() == 0 {
        if b.len() > 0 {
            assert(b.contains(b[0]));
            assert(set.contains(b[0]));
        }
        assert(a =~= b);
    } else {
        assert(a.contains(a.last()));
        assert(set.contains(a.last()));
        assert(b.contains(a.last()));
        assert(b.contains(b.last()));
        assert(set.contains(b.last()));
        assert(a.contains(b.last()));
        assert(a.last() == b.last());
        let rest = set.remove(a.last());
        assert forall|id: u32| #[trigger] rest.contains(id) <==> a.drop_last().contains(id) by {
            if rest.contains(id) {
                assert(a.contains(id));
                let i = choose|i: int| 0 <= i < a.len() && a[i] == id;
                assert(a.drop_last()[i] == id);
            }
            if a.drop_last().contains(id) {
                let i = choose|i: int| 0 <= i < a.drop_last().len() && a.drop_last()[i] == id;
                assert(a[i] == id);
            }
        }
        assert forall|id: u32| #[trigger] rest.contains(id) <==> b.drop_last().contains(id) by {
            if rest.contains(id) {
                assert(b.contains(id));
                let i = choose|i: int| 0 <= i < b.len() && b[i] == id;
                assert(b.drop_last()[i] == id);
            }
            if b.drop_last().contains(id) {
                let i = choose|i: int| 0 <= i < b.drop_last().len() && b.drop_last()[i] == id;
                assert(b[i] == id);
            }
        }
        lemma_listing_unique(a.drop_last(), b.drop_last(), rest);
        assert(a =~= a.drop_last().push(a.last()));
        assert(b =~= b.drop_last().push(b.last()));
    }
}

} // verus!
