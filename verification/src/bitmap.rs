//! Posting sets: ordered sets of document identifiers backed by
//! `roaring::RoaringBitmap`.
//!
//! Every secondary index stores posting sets as values. The bitmap is held
//! behind a small trusted interface; `bitmap_seq` names its contents as the
//! ascending sequence of members, which is how the crate's contracts speak
//! of postings.

use vstd::prelude::*;

use roaring::RoaringBitmap;

use crate::seqs::strict_sorted_u32;

verus! {

/// A posting with the members of `d` taken out, in their old order.
pub open spec fn diff_posting(p: Seq<u32>, d: Seq<u32>) -> Seq<u32>
    decreases p.len(),
{
    if p.len() == 0 {
        Seq::empty()
    } else if d.contains(p.first()) {
        diff_posting(p.drop_first(), d)
    } else {
        seq![p.first()] + diff_posting(p.drop_first(), d)
    }
}

/// What remains of a posting: exactly the members `d` does not hold.
pub proof fn lemma_diff_members(p: Seq<u32>, d: Seq<u32>)
    ensures
        forall|y: u32|
            #[trigger] diff_posting(p, d).contains(y) <==> (p.contains(y) && !d.contains(y)),
    decreases p.len(),
{
    if p.len() == 0 {
    } else {
        lemma_diff_members(p.drop_first(), d);
        let rest = diff_posting(p.drop_first(), d);
        assert forall|y: u32| #[trigger] diff_posting(p, d).contains(y) <==> (p.contains(y)
            && !d.contains(y)) by {
            if diff_posting(p, d).contains(y) {
                if d.contains(p.first()) {
                    assert(rest.contains(y));
                    assert(p.drop_first().contains(y));
                    let w = choose|w: int| 0 <= w < p.drop_first().len() && p.drop_first()[w] == y;
                    assert(p[w + 1] == y);
                } else {
                    if y == p.first() {
                        assert(p[0] == y);
                    } else {
                        let w0 = choose|w0: int|
                            0 <= w0 < diff_posting(p, d).len() && diff_posting(p, d)[w0] == y;
                        assert(rest[w0 - 1] == y);
                        assert(rest.contains(y));
                        assert(p.drop_first().contains(y));
                        let w = choose|w: int|
                            0 <= w < p.drop_first().len() && p.drop_first()[w] == y;
                        assert(p[w + 1] == y);
                    }
                }
            }
            if p.contains(y) && !d.contains(y) {
                let w = choose|w: int| 0 <= w < p.len() && p[w] == y;
                if w == 0 {
                    assert(diff_posting(p, d)[0] == y);
                } else {
                    assert(p.drop_first()[w - 1] == y);
                    assert(p.drop_first().contains(y));
                    assert(rest.contains(y));
                    let w2 = choose|w2: int| 0 <= w2 < rest.len() && rest[w2] == y;
                    if d.contains(p.first()) {
                        assert(diff_posting(p, d)[w2] == y);
                    } else {
                        assert(diff_posting(p, d)[w2 + 1] == y);
                    }
                }
            }
        }
    }
}

#[verifier::external_type_specification]
#[verifier::external_body]
pub struct ExRoaringBitmap(RoaringBitmap);

/// The members of a bitmap, in the ascending order its iterator yields.
pub uninterp spec fn bitmap_seq(b: RoaringBitmap) -> Seq<u32>;

/// Relies on `RoaringBitmap::new`: the new bitmap is empty.
#[verifier::external_body]
pub fn rb_new() -> (r: RoaringBitmap)
    ensures
        bitmap_seq(r) == Seq::<u32>::empty(),
{
    RoaringBitmap::new()
}

/// Relies on `RoaringBitmap::insert`: adds one value, reports whether it
/// was absent; members iterate in ascending order.
#[verifier::external_body]
pub fn rb_insert(b: &mut RoaringBitmap, x: u32) -> (r: bool)
    ensures
        r == !bitmap_seq(*old(b)).contains(x),
        strict_sorted_u32(bitmap_seq(*final(b))),
        forall|y: u32|
            bitmap_seq(*final(b)).contains(y) <==> (bitmap_seq(*old(b)).contains(y) || y == x),
        bitmap_seq(*final(b)).len() == bitmap_seq(*old(b)).len() + (if r {
            1int
        } else {
            0int
        }),
{
    b.insert(x)
}

/// Relies on `RoaringBitmap::contains`.
#[verifier::external_body]
pub fn rb_contains(b: &RoaringBitmap, x: u32) -> (r: bool)
    ensures
        r == bitmap_seq(*b).contains(x),
{
    b.contains(x)
}

/// Relies on `RoaringBitmap::len`: the number of members.
#[verifier::external_body]
pub fn rb_len(b: &RoaringBitmap) -> (r: u64)
    ensures
        r as nat == bitmap_seq(*b).len(),
{
    b.len()
}

/// Relies on `RoaringBitmap::is_empty`.
#[verifier::external_body]
pub fn rb_is_empty(b: &RoaringBitmap) -> (r: bool)
    ensures
        r == (bitmap_seq(*b).len() == 0),
{
    b.is_empty()
}

/// Relies on `RoaringBitmap::clone`: the copy has the same members.
#[verifier::external_body]
pub fn rb_clone(b: &RoaringBitmap) -> (r: RoaringBitmap)
    ensures
        bitmap_seq(r) == bitmap_seq(*b),
{
    b.clone()
}

/// Relies on `Sub for &RoaringBitmap`: the difference keeps, in order,
/// exactly the members of `a` absent from `b`.
#[verifier::external_body]
pub fn rb_difference(a: &RoaringBitmap, b: &RoaringBitmap) -> (r: RoaringBitmap)
    ensures
        bitmap_seq(r) == diff_posting(bitmap_seq(*a), bitmap_seq(*b)),
        strict_sorted_u32(bitmap_seq(r)),
{
    a - b
}

/// Relies on `BitOr for &RoaringBitmap`: the union holds the members of
/// both sides, in ascending order.
#[verifier::external_body]
pub fn rb_union(a: &RoaringBitmap, b: &RoaringBitmap) -> (r: RoaringBitmap)
    ensures
        strict_sorted_u32(bitmap_seq(r)),
        forall|y: u32|
            bitmap_seq(r).contains(y) <==> (bitmap_seq(*a).contains(y) || bitmap_seq(
                *b,
            ).contains(y)),
{
    a | b
}


} // verus!
