//! Model of the per-segment occupancy bitset.
//!
//! The executable bitset is `bitmaps::Bitmap<SEGMENTSIZE>`; its contents are
//! modelled as a `Seq<bool>` of width `SEGMENTSIZE` through the uninterpreted
//! function [`bitmap_bits`], and every operation the container needs is
//! wrapped in a trusted function whose contract states, over that sequence,
//! what the bitmaps crate documents.

use crate::SEGMENTSIZE;
use vstd::prelude::*;

verus! {

/// Fixed-width occupancy bitset, backed by `bitmaps::Bitmap<SEGMENTSIZE>`.
///
/// The backing bitmap is opaque to the verifier; all reasoning goes through
/// [`bitmap_bits`] and the trusted wrappers below.
#[verifier::external_body]
pub struct OccupancyBitmap {
    inner: bitmaps::Bitmap<SEGMENTSIZE>,
}

/// The contents of an occupancy bitset: one boolean per slot.
pub uninterp spec fn bitmap_bits(b: OccupancyBitmap) -> Seq<bool>;

/// Every bit of the sequence is clear and the sequence has full width.
pub open spec fn all_clear(s: Seq<bool>) -> bool {
    &&& s.len() == SEGMENTSIZE
    &&& forall|j: int| 0 <= j < s.len() ==> !s[j]
}

/// Bit `i` is the only set bit of `s`.
pub open spec fn only_bit(s: Seq<bool>, i: int) -> bool {
    &&& s[i]
    &&& forall|j: int| 0 <= j < s.len() && j != i ==> !s[j]
}

/// Index of the highest set bit, or -1 if no bit is set.
#[verifier::opaque]
pub open spec fn highest_set(s: Seq<bool>) -> int
    decreases s.len(),
{
    if s.len() == 0 {
        -1
    } else if s[s.len() - 1] {
        s.len() - 1
    } else {
        highest_set(s.drop_last())
    }
}

/// Index of the lowest set bit at position `i` or above, or -1 if none.
#[verifier::opaque]
pub open spec fn lowest_set_from(s: Seq<bool>, i: int) -> int
    decreases s.len() - i,
{
    if i >= s.len() {
        -1
    } else if i < 0 {
        lowest_set_from(s, 0)
    } else if s[i] {
        i
    } else {
        lowest_set_from(s, i + 1)
    }
}

/// Index of the lowest set bit, or -1 if none.
pub open spec fn lowest_set(s: Seq<bool>) -> int {
    lowest_set_from(s, 0)
}

/// Index of the lowest set bit strictly above `after`, or -1 if none.
pub open spec fn next_set(s: Seq<bool>, after: int) -> int {
    lowest_set_from(s, after + 1)
}

/// What `highest_set` returns: the greatest index carrying a set bit.
pub proof fn lemma_highest_set(s: Seq<bool>)
    ensures
        -1 <= highest_set(s) < s.len(),
        highest_set(s) >= 0 ==> s[highest_set(s)],
        forall|j: int| highest_set(s) < j < s.len() ==> !s[j],
    decreases s.len(),
{
    reveal(highest_set);
    if s.len() == 0 {
    } else if s[s.len() - 1] {
    } else {
        lemma_highest_set(s.drop_last());
        assert forall|j: int| highest_set(s) < j < s.len() implies !s[j] by {
            if j < s.len() - 1 {
                assert(s.drop_last()[j] == s[j]);
            }
        }
    }
}

/// `highest_set` is pinned down by having a set bit with everything above clear.
pub proof fn lemma_highest_set_is(s: Seq<bool>, i: int)
    requires
        0 <= i < s.len(),
        s[i],
        forall|j: int| i < j < s.len() ==> !s[j],
    ensures
        highest_set(s) == i,
{
    lemma_highest_set(s);
}

/// What `lowest_set_from` returns: the least index at or above `i` carrying a set bit.
pub proof fn lemma_lowest_set_from(s: Seq<bool>, i: int)
    requires
        0 <= i,
    ensures
        lowest_set_from(s, i) == -1 ==> forall|j: int| i <= j < s.len() ==> !s[j],
        lowest_set_from(s, i) >= 0 ==> {
            &&& i <= lowest_set_from(s, i) < s.len()
            &&& s[lowest_set_from(s, i)]
            &&& forall|j: int| i <= j < lowest_set_from(s, i) ==> !s[j]
        },
    decreases s.len() - i,
{
    reveal(lowest_set_from);
    if i >= s.len() {
    } else if s[i] {
    } else {
        lemma_lowest_set_from(s, i + 1);
    }
}

/// Clearing bit `i` empties the bitset exactly when `i` was its only set bit.
pub proof fn lemma_only_bit_after_clear(s: Seq<bool>, i: int)
    requires
        s.len() == SEGMENTSIZE,
        0 <= i < SEGMENTSIZE,
        s[i],
    ensures
        (highest_set(s.update(i, false)) == -1) <==> only_bit(s, i),
{
    lemma_highest_set(s.update(i, false));
    if highest_set(s.update(i, false)) == -1 {
        assert forall|j: int| 0 <= j < s.len() && j != i implies !s[j] by {
            assert(!s.update(i, false)[j]);
        }
    } else {
        let h = highest_set(s.update(i, false));
        assert(s.update(i, false)[h]);
        assert(s[h] && h != i);
    }
}

/// Relies on `bitmaps::Bitmap::new`: a bitmap with every bit clear.
#[verifier::external_body]
pub fn bitmap_new() -> (r: OccupancyBitmap)
    ensures
        all_clear(bitmap_bits(r)),
{
    OccupancyBitmap { inner: bitmaps::Bitmap::new() }
}

/// Relies on `bitmaps::Bitmap::get`: reads the bit at `index`.
#[verifier::external_body]
pub fn bitmap_get(b: &OccupancyBitmap, index: usize) -> (r: bool)
    requires
        index < SEGMENTSIZE,
    ensures
        r == bitmap_bits(*b)[index as int],
{
    b.inner.get(index)
}

/// Relies on `bitmaps::Bitmap::set`: writes the bit at `index`, returning its
/// previous value.
#[verifier::external_body]
pub fn bitmap_set(b: &mut OccupancyBitmap, index: usize, value: bool) -> (r: bool)
    requires
        index < SEGMENTSIZE,
    ensures
        bitmap_bits(*final(b)) == bitmap_bits(*old(b)).update(index as int, value),
        r == bitmap_bits(*old(b))[index as int],
{
    b.inner.set(index, value)
}

/// Relies on `bitmaps::Bitmap::first_index`: the lowest set bit, if any.
#[verifier::external_body]
pub fn bitmap_first_index(b: &OccupancyBitmap) -> (r: Option<usize>)
    ensures
        match r {
            Some(i) => i as int == lowest_set(bitmap_bits(*b)),
            None => lowest_set(bitmap_bits(*b)) == -1,
        },
{
    b.inner.first_index()
}

/// Relies on `bitmaps::Bitmap::next_index`: the lowest set bit strictly above
/// `index`, if any.
#[verifier::external_body]
pub fn bitmap_next_index(b: &OccupancyBitmap, index: usize) -> (r: Option<usize>)
    requires
        index < SEGMENTSIZE,
    ensures
        match r {
            Some(i) => i as int == next_set(bitmap_bits(*b), index as int),
            None => next_set(bitmap_bits(*b), index as int) == -1,
        },
{
    b.inner.next_index(index)
}

/// Relies on `bitmaps::Bitmap::last_index`: the highest set bit, if any.
#[verifier::external_body]
pub fn bitmap_last_index(b: &OccupancyBitmap) -> (r: Option<usize>)
    ensures
        match r {
            Some(i) => i as int == highest_set(bitmap_bits(*b)),
            None => highest_set(bitmap_bits(*b)) == -1,
        },
{
    b.inner.last_index()
}

} // verus!
