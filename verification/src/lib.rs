//! A stable-index, insertion-ordered container built from fixed-capacity
//! segments chained in a doubly linked list.
//!
//! Each segment owns `SEGMENTSIZE` optional payload slots and an occupancy
//! bitset; a directory maps segment ids to segments and translates a global
//! index into a `(segment id, slot)` pair. Indices handed out by `insert` stay
//! valid until they are removed, and iteration visits the occupied slots in
//! ascending global-index order.

pub mod bits;

use std::collections::hash_map::Entry;
use std::collections::HashMap;
use vstd::prelude::*;

verus! {

broadcast use vstd::std_specs::hash::group_hash_axioms;

/// Number of payload slots per segment; also the width of a segment's
/// occupancy bitset.
pub const SEGMENTSIZE: usize = 128;

/// One fixed-capacity block of the container: `SEGMENTSIZE` optional payload
/// slots, an occupancy bitset, and the segment ids of the chain neighbors.
///
/// The neighbor fields are lookup keys into the directory, never owning
/// references.
pub struct Segment<T> {
    pub data: Vec<Option<T>>,
    pub bitmap: bits::OccupancyBitmap,
    pub next_index: Option<usize>,
    pub previous_index: Option<usize>,
}

impl<T> Segment<T> {
    /// The occupancy bits of this segment.
    pub open spec fn bits(&self) -> Seq<bool> {
        bits::bitmap_bits(self.bitmap)
    }

    /// Slots and occupancy bits agree, and both have full width.
    pub open spec fn wf(&self) -> bool {
        &&& self.data@.len() == SEGMENTSIZE
        &&& self.bits().len() == SEGMENTSIZE
        &&& forall|i: int|
            0 <= i < SEGMENTSIZE ==> ((#[trigger] self.data@[i]) is Some <==> self.bits()[i])
    }

    /// The value held by an occupied slot.
    pub open spec fn value_at(&self, slot: int) -> T {
        self.data@[slot]->0
    }

    /// Where the next insertion into this segment lands: one past the highest
    /// occupied slot, or slot 0 when the segment is empty.
    pub open spec fn frontier(&self) -> int {
        bits::highest_set(self.bits()) + 1
    }

    pub open spec fn spec_is_full(&self) -> bool {
        bits::highest_set(self.bits()) == SEGMENTSIZE - 1
    }

    pub open spec fn spec_is_empty(&self) -> bool {
        bits::highest_set(self.bits()) == -1
    }

    fn new() -> (r: Self)
        ensures
            r.wf(),
            bits::all_clear(r.bits()),
            r.next_index is None,
            r.previous_index is None,
    {
        let mut data: Vec<Option<T>> = Vec::new();
        while data.len() < SEGMENTSIZE
            invariant
                data@.len() <= SEGMENTSIZE,
                forall|i: int| 0 <= i < data@.len() ==> (#[trigger] data@[i]) is None,
            decreases SEGMENTSIZE - data@.len(),
        {
            data.push(None);
        }
        Segment { data, bitmap: bits::bitmap_new(), next_index: None, previous_index: None }
    }

    /// The lowest occupied slot, if any.
    fn first_index(&self) -> (r: Option<usize>)
        ensures
            match r {
                Some(i) => i as int == bits::lowest_set(self.bits()),
                None => bits::lowest_set(self.bits()) == -1,
            },
    {
        bits::bitmap_first_index(&self.bitmap)
    }

    /// The lowest occupied slot strictly above `index`, if any.
    fn next_index(&self, index: usize) -> (r: Option<usize>)
        requires
            index < SEGMENTSIZE,
        ensures
            match r {
                Some(i) => i as int == bits::next_set(self.bits(), index as int),
                None => bits::next_set(self.bits(), index as int) == -1,
            },
    {
        bits::bitmap_next_index(&self.bitmap, index)
    }

    /// The slot the next insertion lands in.
    fn get_available_index(&self) -> (r: usize)
        requires
            self.wf(),
            !self.spec_is_full(),
        ensures
            r as int == self.frontier(),
            r < SEGMENTSIZE,
    {
        proof {
            bits::lemma_highest_set(self.bits());
        }
        match bits::bitmap_last_index(&self.bitmap) {
            Some(index) => index + 1,
            None => 0,
        }
    }

    fn get(&self, index: usize) -> (r: Option<&T>)
        requires
            self.wf(),
            index < SEGMENTSIZE,
        ensures
            match r {
                Some(v) => self.bits()[index as int] && *v == self.value_at(index as int),
                None => !self.bits()[index as int],
            },
    {
        self.data[index].as_ref()
    }

    fn get_mut(&mut self, index: usize) -> (r: Option<&mut T>)
        requires
            old(self).wf(),
            index < SEGMENTSIZE,
        ensures
            final(self).wf(),
            final(self).bitmap == old(self).bitmap,
            final(self).next_index == old(self).next_index,
            final(self).previous_index == old(self).previous_index,
            r is Some ==> {
                &&& old(self).bits()[index as int]
                &&& *r.unwrap() == old(self).value_at(index as int)
                &&& final(self).data@ == old(self).data@.update(
                    index as int,
                    Some(*final(r.unwrap())),
                )
            },
            r is None ==> !old(self).bits()[index as int] && *final(self) == *old(self),
    {
        if !bits::bitmap_get(&self.bitmap, index) {
            return None;
        }
        let slot = &mut self.data[index];
        slot.as_mut()
    }

    fn is_full(&self) -> (r: bool)
        ensures
            r == self.spec_is_full(),
    {
        match bits::bitmap_last_index(&self.bitmap) {
            Some(index) => index == SEGMENTSIZE - 1,
            None => false,
        }
    }

    fn is_empty(&self) -> (r: bool)
        ensures
            r == self.spec_is_empty(),
    {
        match bits::bitmap_last_index(&self.bitmap) {
            Some(_) => false,
            None => true,
        }
    }

    /// Stores `item` at the insertion frontier. The directory checks
    /// `is_full` first; inserting into a full segment would be a capacity
    /// breach, so it is ruled out here.
    fn insert(&mut self, item: T) -> (r: usize)
        requires
            old(self).wf(),
            !old(self).spec_is_full(),
        ensures
            r as int == old(self).frontier(),
            r < SEGMENTSIZE,
            !old(self).bits()[r as int],
            final(self).wf(),
            final(self).bits() == old(self).bits().update(r as int, true),
            final(self).data@ == old(self).data@.update(r as int, Some(item)),
            final(self).next_index == old(self).next_index,
            final(self).previous_index == old(self).previous_index,
            bits::highest_set(final(self).bits()) == r,
    {
        proof {
            bits::lemma_highest_set(self.bits());
        }
        let available_index = self.get_available_index();
        bits::bitmap_set(&mut self.bitmap, available_index, true);
        self.data[available_index] = Some(item);
        proof {
            bits::lemma_highest_set_is(final(self).bits(), available_index as int);
        }
        available_index
    }

    /// Overwrites the value in an occupied slot; occupancy is unchanged.
    fn replace(&mut self, index: usize, item: T)
        requires
            old(self).wf(),
            index < SEGMENTSIZE,
            old(self).bits()[index as int],
        ensures
            final(self).wf(),
            final(self).bitmap == old(self).bitmap,
            final(self).data@ == old(self).data@.update(index as int, Some(item)),
            final(self).next_index == old(self).next_index,
            final(self).previous_index == old(self).previous_index,
    {
        self.data[index] = Some(item);
    }

    /// Clears the slot and its bit, returning what the slot held.
    fn remove(&mut self, index: usize) -> (r: Option<T>)
        requires
            old(self).wf(),
            index < SEGMENTSIZE,
        ensures
            final(self).wf(),
            r == (if old(self).bits()[index as int] {
                Some(old(self).value_at(index as int))
            } else {
                None::<T>
            }),
            final(self).bits() == old(self).bits().update(index as int, false),
            final(self).data@ == old(self).data@.update(index as int, None::<T>),
            final(self).next_index == old(self).next_index,
            final(self).previous_index == old(self).previous_index,
    {
        let ret = self.data[index].take();
        bits::bitmap_set(&mut self.bitmap, index, false);
        ret
    }
}

/// The greatest segment id all of whose slots have global indices that fit in
/// a `usize`.
pub open spec fn seg_id_max() -> int {
    usize::MAX as int / SEGMENTSIZE as int
}

/// The segment id owning global index `k`.
#[verifier::opaque]
pub open spec fn sid_of(k: int) -> int {
    k / SEGMENTSIZE as int
}

/// The slot within its segment of global index `k`.
#[verifier::opaque]
pub open spec fn slot_of(k: int) -> int {
    k % SEGMENTSIZE as int
}

/// The global index of slot `slot` in segment `sid`.
pub open spec fn gidx(sid: int, slot: int) -> int {
    sid * SEGMENTSIZE as int + slot
}

/// The stable-index, insertion-ordered container: a directory of segments
/// keyed by segment id, with the ids of the head and tail of the chain.
///
/// A global index decomposes as `segment id * SEGMENTSIZE + slot`. Before the
/// first insertion, and again after the last segment empties, `first_index`
/// and `last_index` are the sentinel 0.
pub struct SegmentMap<T> {
    pub data: HashMap<usize, Segment<T>>,
    pub first_index: usize,
    pub last_index: usize,
}

impl<T> SegmentMap<T> {
    /// The directory contents as a map from segment id to segment.
    pub open spec fn segs(&self) -> Map<usize, Segment<T>> {
        self.data@
    }

    /// A segment's `next_index` is the least greater id present, or `None` at
    /// the tail.
    pub open spec fn seg_next_ok(&self, sid: usize) -> bool {
        match self.segs()[sid].next_index {
            Some(n) => {
                &&& self.segs().dom().contains(n)
                &&& sid < n
                &&& forall|j: usize| self.segs().dom().contains(j) && sid < j ==> n <= j
            },
            None => forall|j: usize| self.segs().dom().contains(j) ==> j <= sid,
        }
    }

    /// A segment's `previous_index` is the greatest smaller id present, or
    /// `None` at the head.
    pub open spec fn seg_prev_ok(&self, sid: usize) -> bool {
        match self.segs()[sid].previous_index {
            Some(p) => {
                &&& self.segs().dom().contains(p)
                &&& p < sid
                &&& forall|j: usize| self.segs().dom().contains(j) && j < sid ==> j <= p
            },
            None => forall|j: usize| self.segs().dom().contains(j) ==> sid <= j,
        }
    }

    /// Directory invariant: every present segment is well formed and holds at
    /// least one value; the chain links thread the present ids in ascending
    /// order; `first_index`/`last_index` are the least/greatest present id, or
    /// both 0 when no segment is present.
    pub open spec fn wf(&self) -> bool {
        &&& forall|sid: usize|
            #[trigger] self.segs().dom().contains(sid) ==> {
                &&& self.segs()[sid].wf()
                &&& !self.segs()[sid].spec_is_empty()
                &&& self.seg_next_ok(sid)
                &&& self.seg_prev_ok(sid)
                &&& self.first_index <= sid && sid <= self.last_index
            }
        &&& self.last_index as int <= seg_id_max()
        &&& if self.segs().dom().is_empty() {
            self.first_index == 0 && self.last_index == 0
        } else {
            self.segs().dom().contains(self.first_index) && self.segs().dom().contains(
                self.last_index,
            )
        }
    }

    /// Whether global index `k` addresses an occupied slot.
    pub open spec fn spec_contains(&self, k: int) -> bool {
        &&& 0 <= k
        &&& sid_of(k) <= usize::MAX as int
        &&& self.segs().dom().contains(sid_of(k) as usize)
        &&& self.segs()[sid_of(k) as usize].bits()[slot_of(k)]
    }

    /// The value stored at occupied global index `k`.
    pub open spec fn spec_at(&self, k: int) -> T {
        self.segs()[sid_of(k) as usize].value_at(slot_of(k))
    }
}

impl<T> View for SegmentMap<T> {
    type V = Map<int, T>;

    /// The container abstracts to the map from occupied global index to the
    /// value stored there.
    open spec fn view(&self) -> Map<int, T> {
        Map::new(|k: int| self.spec_contains(k), |k: int| self.spec_at(k))
    }
}

/// A global index is recovered from its (segment, slot) decomposition.
pub proof fn lemma_gidx_inverse(k: int)
    requires
        0 <= k,
    ensures
        k == gidx(sid_of(k), slot_of(k)),
        0 <= slot_of(k) < SEGMENTSIZE,
        0 <= sid_of(k),
{
    reveal(sid_of);
    reveal(slot_of);
    vstd::arithmetic::div_mod::lemma_fundamental_div_mod(k, SEGMENTSIZE as int);
}

/// The (segment, slot) decomposition of a composed global index.
pub proof fn lemma_gidx_decompose(sid: int, slot: int)
    requires
        0 <= sid,
        0 <= slot < SEGMENTSIZE,
    ensures
        sid_of(gidx(sid, slot)) == sid,
        slot_of(gidx(sid, slot)) == slot,
        gidx(sid, slot) >= 0,
{
    reveal(sid_of);
    reveal(slot_of);
    vstd::arithmetic::div_mod::lemma_fundamental_div_mod_converse(
        gidx(sid, slot),
        SEGMENTSIZE as int,
        sid,
        slot,
    );
}

/// How a `usize` key decomposes into its segment id and slot.
pub proof fn lemma_key_decompose(key: usize)
    ensures
        sid_of(key as int) == key / SEGMENTSIZE,
        slot_of(key as int) == key % SEGMENTSIZE,
        0 <= sid_of(key as int) <= usize::MAX as int,
        0 <= slot_of(key as int) < SEGMENTSIZE,
        key as int == gidx(sid_of(key as int), slot_of(key as int)),
{
    reveal(sid_of);
    reveal(slot_of);
    vstd::arithmetic::div_mod::lemma_fundamental_div_mod(key as int, SEGMENTSIZE as int);
}

/// Global indices of a lower segment all lie below those of a higher segment.
pub proof fn lemma_gidx_ordered(sid1: int, slot1: int, sid2: int, slot2: int)
    requires
        0 <= slot1 < SEGMENTSIZE,
        0 <= slot2 < SEGMENTSIZE,
        sid1 < sid2,
    ensures
        gidx(sid1, slot1) < gidx(sid2, slot2),
{
    assert(sid1 * SEGMENTSIZE as int + slot1 < sid2 * SEGMENTSIZE as int + slot2)
        by (nonlinear_arith)
        requires
            0 <= slot1 < SEGMENTSIZE as int,
            0 <= slot2,
            sid1 < sid2,
    ;
}

/// A global index composed from a segment id no greater than `seg_id_max`
/// fits in a `usize`.
proof fn lemma_index_fits(sid: usize, slot: usize)
    requires
        sid as int <= seg_id_max(),
        slot < SEGMENTSIZE,
    ensures
        sid * SEGMENTSIZE + slot <= usize::MAX,
{
    vstd::arithmetic::div_mod::lemma_fundamental_div_mod(usize::MAX as int, SEGMENTSIZE as int);
    assert(sid * SEGMENTSIZE + slot <= usize::MAX) by (nonlinear_arith)
        requires
            sid as int <= usize::MAX as int / SEGMENTSIZE as int,
            slot < SEGMENTSIZE,
            usize::MAX as int == SEGMENTSIZE as int * (usize::MAX as int / SEGMENTSIZE as int)
                + usize::MAX as int % SEGMENTSIZE as int,
            usize::MAX as int % SEGMENTSIZE as int == SEGMENTSIZE as int - 1,
    ;
}

/// `post` is `pre` with the value in the occupied slot of global index `k`
/// replaced by `v`: same segments, same occupancy, same chain, one cell
/// rewritten.
/// Well-formedness survives an in-place change to one segment's slots: same
/// ids, same chain links, same head and tail.
proof fn lemma_frame_wf<T>(pre: SegmentMap<T>, post: SegmentMap<T>, sid: usize)
    requires
        pre.wf(),
        pre.segs().dom().contains(sid),
        post.first_index == pre.first_index,
        post.last_index == pre.last_index,
        forall|x: usize| #[trigger]
            post.segs().dom().contains(x) <==> pre.segs().dom().contains(x),
        forall|x: usize|
            pre.segs().dom().contains(x) && x != sid ==> post.segs()[x] == #[trigger] pre.segs()[x],
        post.segs()[sid].wf(),
        !post.segs()[sid].spec_is_empty(),
        post.segs()[sid].next_index == pre.segs()[sid].next_index,
        post.segs()[sid].previous_index == pre.segs()[sid].previous_index,
    ensures
        post.wf(),
{
    assert forall|x: usize| #[trigger] post.segs().dom().contains(x) implies {
        &&& post.segs()[x].wf()
        &&& !post.segs()[x].spec_is_empty()
        &&& post.seg_next_ok(x)
        &&& post.seg_prev_ok(x)
        &&& post.first_index <= x && x <= post.last_index
    } by {
        assert(pre.segs().dom().contains(x));
        assert(pre.seg_next_ok(x));
        assert(pre.seg_prev_ok(x));
        assert(post.segs()[x].next_index == pre.segs()[x].next_index);
        assert(post.segs()[x].previous_index == pre.segs()[x].previous_index);
    }
    assert(!post.segs().dom().is_empty());
}

/// Rewriting one slot of one segment changes occupancy and contents at that
/// slot's global index alone.
proof fn lemma_slot_update_view<T>(
    pre: SegmentMap<T>,
    post: SegmentMap<T>,
    k: int,
    b: bool,
    o: Option<T>,
)
    requires
        0 <= k,
        sid_of(k) <= usize::MAX as int,
        pre.segs().dom().contains(sid_of(k) as usize),
        pre.segs()[sid_of(k) as usize].wf(),
        forall|x: usize| #[trigger]
            post.segs().dom().contains(x) <==> pre.segs().dom().contains(x),
        forall|x: usize|
            pre.segs().dom().contains(x) && x != sid_of(k) as usize ==> post.segs()[x]
                == #[trigger] pre.segs()[x],
        post.segs()[sid_of(k) as usize].bits() == pre.segs()[sid_of(k) as usize].bits().update(
            slot_of(k),
            b,
        ),
        post.segs()[sid_of(k) as usize].data@ == pre.segs()[sid_of(k) as usize].data@.update(
            slot_of(k),
            o,
        ),
        b ==> o is Some,
    ensures
        forall|j: int|
            j != k ==> (#[trigger] post.spec_contains(j) <==> pre.spec_contains(j)),
        forall|j: int|
            j != k && #[trigger] post.spec_contains(j) ==> post.spec_at(j) == pre.spec_at(j),
        post.spec_contains(k) == b,
        b ==> post.spec_at(k) == o->0,
        pre.spec_contains(k) == pre.segs()[sid_of(k) as usize].bits()[slot_of(k)],
{
    let sid = sid_of(k) as usize;
    lemma_gidx_inverse(k);
    assert forall|j: int|
        j != k implies (#[trigger] post.spec_contains(j) <==> pre.spec_contains(j)) by {
        if 0 <= j && sid_of(j) <= usize::MAX as int {
            lemma_gidx_inverse(j);
        }
    }
    assert forall|j: int|
        j != k && #[trigger] post.spec_contains(j) implies post.spec_at(j) == pre.spec_at(j) by {
        lemma_gidx_inverse(j);
    }
}

pub open spec fn value_updated<T>(pre: SegmentMap<T>, post: SegmentMap<T>, k: int, v: T) -> bool {
    let sid = sid_of(k) as usize;
    &&& pre.spec_contains(k)
    &&& post.first_index == pre.first_index
    &&& post.last_index == pre.last_index
    &&& forall|x: usize|
        #[trigger] post.segs().dom().contains(x) <==> pre.segs().dom().contains(x)
    &&& forall|x: usize|
        pre.segs().dom().contains(x) && x != sid ==> post.segs()[x] == #[trigger] pre.segs()[x]
    &&& post.segs()[sid].bitmap == pre.segs()[sid].bitmap
    &&& post.segs()[sid].next_index == pre.segs()[sid].next_index
    &&& post.segs()[sid].previous_index == pre.segs()[sid].previous_index
    &&& post.segs()[sid].data@ == pre.segs()[sid].data@.update(slot_of(k), Some(v))
}

/// Replacing the value in one occupied slot updates the abstract map at that
/// index alone, and keeps the directory well formed.
pub broadcast proof fn lemma_value_updated_view<T>(
    pre: SegmentMap<T>,
    post: SegmentMap<T>,
    k: int,
    v: T,
)
    ensures
        #![trigger post.view(), pre.view().insert(k, v)]
        pre.wf() && value_updated(pre, post, k, v) ==> {
            &&& post.wf()
            &&& post@ == pre@.insert(k, v)
        },
{
    if pre.wf() && value_updated(pre, post, k, v) {
        let sid = sid_of(k) as usize;
        lemma_gidx_inverse(k);
        assert(pre.segs()[sid].bits() =~= pre.segs()[sid].bits().update(slot_of(k), true));
        assert(post.segs()[sid].wf()) by {
            assert forall|i: int|
                0 <= i < SEGMENTSIZE implies ((#[trigger] post.segs()[sid].data@[i]) is Some
                <==> post.segs()[sid].bits()[i]) by {
                if i != slot_of(k) {
                    assert(post.segs()[sid].data@[i] == pre.segs()[sid].data@[i]);
                }
            }
        }
        lemma_frame_wf(pre, post, sid);
        lemma_slot_update_view(pre, post, k, true, Some(v));
        assert(post@ =~= pre@.insert(k, v));
    }
}

/// Mutable access to a present segment, through the map's entry interface.
fn seg_mut<'a, T>(m: &'a mut HashMap<usize, Segment<T>>, sid: usize) -> (r: &'a mut Segment<T>)
    requires
        old(m)@.contains_key(sid),
    ensures
        *r == old(m)@[sid],
        final(m)@ == old(m)@.insert(sid, *final(r)),
{
    match m.entry(sid) {
        Entry::Occupied(entry) => entry.into_mut(),
        Entry::Vacant(_) => vstd::pervasive::unreached(),
    }
}

impl<T> SegmentMap<T> {
    /// An empty container.
    pub fn new() -> (r: Self)
        ensures
            r.wf(),
            r@ == Map::<int, T>::empty(),
            r.segs() == Map::<usize, Segment<T>>::empty(),
            r.first_index == 0,
            r.last_index == 0,
    {
        let r = SegmentMap { data: HashMap::new(), first_index: 0, last_index: 0 };
        proof {
            assert(r@ =~= Map::<int, T>::empty());
        }
        r
    }

    /// Looks up the value at `key`; an unknown or unoccupied key is an
    /// ordinary absence, never an error.
    pub fn get(&self, key: usize) -> (r: Option<&T>)
        requires
            self.wf(),
        ensures
            match r {
                Some(v) => self@.contains_key(key as int) && *v == self@[key as int],
                None => !self@.contains_key(key as int),
            },
    {
        proof {
            lemma_key_decompose(key);
        }
        let segment_index = key / SEGMENTSIZE;
        let mantissa = key % SEGMENTSIZE;
        match self.data.get(&segment_index) {
            Some(segment) => segment.get(mantissa),
            None => None,
        }
    }

    /// Mutable counterpart of `get`: borrows the value at `key`, if occupied.
    #[verifier::rlimit(100)]
    pub fn get_mut(&mut self, key: usize) -> (r: Option<&mut T>)
        requires
            old(self).wf(),
        ensures
            final(self).wf(),
            final(self).first_index == old(self).first_index,
            final(self).last_index == old(self).last_index,
            r is Some ==> {
                &&& old(self)@.contains_key(key as int)
                &&& *r.unwrap() == old(self)@[key as int]
                &&& value_updated(*old(self), *final(self), key as int, *final(r.unwrap()))
                &&& final(self)@ == old(self)@.insert(key as int, *final(r.unwrap()))
            },
            r is None ==> !old(self)@.contains_key(key as int) && *final(self) == *old(self),
    {
        proof {
            broadcast use lemma_value_updated_view;

            lemma_key_decompose(key);
        }
        let segment_index = key / SEGMENTSIZE;
        let mantissa = key % SEGMENTSIZE;
        let occupied = match self.data.get(&segment_index) {
            Some(segment) => segment.get(mantissa).is_some(),
            None => false,
        };
        if !occupied {
            return None;
        }
        let segment = seg_mut(&mut self.data, segment_index);
        segment.get_mut(mantissa)
    }
}

impl<T> SegmentMap<T> {
    /// The global index the next insertion receives: slot 0 of segment 0 when
    /// no segment exists, slot 0 of a fresh segment when the tail is full, and
    /// the tail's insertion frontier otherwise.
    pub open spec fn spec_fresh_index(&self) -> int {
        if self.segs().dom().is_empty() {
            0
        } else if self.segs()[self.last_index].spec_is_full() {
            gidx(self.last_index as int + 1, 0)
        } else {
            gidx(self.last_index as int, self.segs()[self.last_index].frontier())
        }
    }
}

/// A single one-slot segment holds exactly its one value.
proof fn lemma_insert_view_empty<T>(pre: SegmentMap<T>, post: SegmentMap<T>, v: T)
    requires
        pre.wf(),
        pre.segs().dom().is_empty(),
        post.first_index == 0,
        post.last_index == 0,
        forall|x: usize| #[trigger] post.segs().dom().contains(x) <==> x == 0,
        post.segs()[0].wf(),
        post.segs()[0].next_index is None,
        post.segs()[0].previous_index is None,
        post.segs()[0].bits()[0],
        forall|i: int| 0 < i < SEGMENTSIZE ==> !post.segs()[0].bits()[i],
        post.segs()[0].value_at(0) == v,
    ensures
        post.wf(),
        !pre@.contains_key(0),
        post@ == pre@.insert(0, v),
{
    lemma_gidx_decompose(0, 0);
    bits::lemma_highest_set_is(post.segs()[0].bits(), 0);
    assert(post.wf());
    assert(post@ =~= pre@.insert(0, v)) by {
        assert forall|j: int| true implies #[trigger] post.spec_contains(j) <==> (pre.spec_contains(
            j,
        ) || j == 0) by {
            if 0 <= j {
                lemma_gidx_inverse(j);
            }
        }
    }
}

/// Filling the tail's frontier slot adds exactly that global index.
#[verifier::rlimit(100)]
proof fn lemma_insert_view_tail<T>(pre: SegmentMap<T>, post: SegmentMap<T>, v: T, f: int)
    requires
        pre.wf(),
        !pre.segs().dom().is_empty(),
        !pre.segs()[pre.last_index].spec_is_full(),
        f == pre.segs()[pre.last_index].frontier(),
        post.first_index == pre.first_index,
        post.last_index == pre.last_index,
        forall|x: usize| #[trigger]
            post.segs().dom().contains(x) <==> pre.segs().dom().contains(x),
        forall|x: usize|
            pre.segs().dom().contains(x) && x != pre.last_index ==> post.segs()[x]
                == #[trigger] pre.segs()[x],
        post.segs()[pre.last_index].wf(),
        post.segs()[pre.last_index].bits() == pre.segs()[pre.last_index].bits().update(f, true),
        post.segs()[pre.last_index].data@ == pre.segs()[pre.last_index].data@.update(f, Some(v)),
        post.segs()[pre.last_index].next_index == pre.segs()[pre.last_index].next_index,
        post.segs()[pre.last_index].previous_index == pre.segs()[pre.last_index].previous_index,
    ensures
        post.wf(),
        0 <= f < SEGMENTSIZE,
        !pre@.contains_key(gidx(pre.last_index as int, f)),
        post@ == pre@.insert(gidx(pre.last_index as int, f), v),
{
    let l = pre.last_index;
    let k = gidx(l as int, f);
    bits::lemma_highest_set(pre.segs()[l].bits());
    assert(0 <= f < SEGMENTSIZE);
    assert(!pre.segs()[l].bits()[f]);
    lemma_gidx_decompose(l as int, f);
    bits::lemma_highest_set(post.segs()[l].bits());
    assert(post.segs()[l].bits()[f]);
    lemma_frame_wf(pre, post, l);
    lemma_slot_update_view(pre, post, k, true, Some(v));
    assert(post@ =~= pre@.insert(k, v));
}

/// Opening a fresh tail segment and filling its slot 0 adds exactly that
/// global index.
proof fn lemma_insert_view_grow<T>(pre: SegmentMap<T>, post: SegmentMap<T>, v: T)
    requires
        pre.wf(),
        !pre.segs().dom().is_empty(),
        pre.segs()[pre.last_index].spec_is_full(),
        pre.last_index as int + 1 <= seg_id_max(),
        post.first_index == pre.first_index,
        post.last_index == pre.last_index + 1,
        forall|x: usize| #[trigger]
            post.segs().dom().contains(x) <==> (pre.segs().dom().contains(x) || x
                == pre.last_index + 1),
        forall|x: usize|
            pre.segs().dom().contains(x) && x != pre.last_index ==> post.segs()[x]
                == #[trigger] pre.segs()[x],
        post.segs()[pre.last_index].bits() == pre.segs()[pre.last_index].bits(),
        post.segs()[pre.last_index].data@ == pre.segs()[pre.last_index].data@,
        post.segs()[pre.last_index].previous_index == pre.segs()[pre.last_index].previous_index,
        post.segs()[pre.last_index].next_index == Some((pre.last_index + 1) as usize),
        post.segs()[post.last_index].wf(),
        post.segs()[post.last_index].previous_index == Some(pre.last_index),
        post.segs()[post.last_index].next_index is None,
        post.segs()[post.last_index].bits()[0],
        forall|i: int| 0 < i < SEGMENTSIZE ==> !post.segs()[post.last_index].bits()[i],
        post.segs()[post.last_index].value_at(0) == v,
    ensures
        post.wf(),
        !pre@.contains_key(gidx(pre.last_index as int + 1, 0)),
        post@ == pre@.insert(gidx(pre.last_index as int + 1, 0), v),
{
    let l = pre.last_index;
    let nid = (l + 1) as usize;
    let k = gidx(nid as int, 0);
    bits::lemma_highest_set_is(post.segs()[nid].bits(), 0);
    lemma_gidx_decompose(nid as int, 0);
    assert(!pre.segs().dom().contains(nid));
    assert forall|x: usize| #[trigger] post.segs().dom().contains(x) implies {
        &&& post.segs()[x].wf()
        &&& !post.segs()[x].spec_is_empty()
        &&& post.seg_next_ok(x)
        &&& post.seg_prev_ok(x)
        &&& post.first_index <= x && x <= post.last_index
    } by {
        if x != nid {
            assert(pre.segs().dom().contains(x));
            if x == l {
                assert(post.seg_next_ok(x));
            } else {
                match pre.segs()[x].next_index {
                    Some(n) => {
                        assert(n <= l);
                        assert(post.seg_next_ok(x));
                    },
                    None => {
                        assert(l <= x);
                        assert(x <= l);
                        assert(false);
                    },
                }
            }
        }
    }
    assert(post.wf());
    assert(post@ =~= pre@.insert(k, v)) by {
        assert forall|j: int| true implies #[trigger] post.spec_contains(j) <==> (pre.spec_contains(
            j,
        ) || j == k) by {
            if 0 <= j {
                lemma_gidx_inverse(j);
            }
        }
        assert forall|j: int| post.spec_contains(j) && j != k implies post.spec_at(j)
            == pre.spec_at(j) by {
            lemma_gidx_inverse(j);
        }
    }
}


/// The grow case assembled from its two steps: a fresh tail is linked in,
/// then its slot 0 is filled.
#[verifier::rlimit(100)]
proof fn lemma_insert_view_grow_steps<T>(
    pre: SegmentMap<T>,
    mid: SegmentMap<T>,
    post: SegmentMap<T>,
    v: T,
    f: int,
)
    requires
        pre.wf(),
        !pre.segs().dom().is_empty(),
        pre.segs()[pre.last_index].spec_is_full(),
        pre.last_index as int + 1 <= seg_id_max(),
        mid.first_index == pre.first_index,
        mid.last_index == pre.last_index + 1,
        forall|x: usize| #[trigger]
            mid.segs().dom().contains(x) <==> (pre.segs().dom().contains(x) || x == pre.last_index
                + 1),
        forall|x: usize|
            pre.segs().dom().contains(x) && x != pre.last_index ==> mid.segs()[x]
                == #[trigger] pre.segs()[x],
        mid.segs()[pre.last_index].bits() == pre.segs()[pre.last_index].bits(),
        mid.segs()[pre.last_index].data@ == pre.segs()[pre.last_index].data@,
        mid.segs()[pre.last_index].previous_index == pre.segs()[pre.last_index].previous_index,
        mid.segs()[pre.last_index].next_index == Some(mid.last_index),
        mid.segs()[mid.last_index].wf(),
        bits::all_clear(mid.segs()[mid.last_index].bits()),
        mid.segs()[mid.last_index].previous_index == Some(pre.last_index),
        mid.segs()[mid.last_index].next_index is None,
        f == mid.segs()[mid.last_index].frontier(),
        post.first_index == mid.first_index,
        post.last_index == mid.last_index,
        forall|x: usize| #[trigger]
            post.segs().dom().contains(x) <==> (mid.segs().dom().contains(x) || x
                == mid.last_index),
        forall|x: usize|
            mid.segs().dom().contains(x) && x != mid.last_index ==> post.segs()[x]
                == #[trigger] mid.segs()[x],
        post.segs()[mid.last_index].wf(),
        post.segs()[mid.last_index].bits() == mid.segs()[mid.last_index].bits().update(f, true),
        post.segs()[mid.last_index].data@ == mid.segs()[mid.last_index].data@.update(f, Some(v)),
        post.segs()[mid.last_index].next_index == mid.segs()[mid.last_index].next_index,
        post.segs()[mid.last_index].previous_index == mid.segs()[mid.last_index].previous_index,
    ensures
        post.wf(),
        f == 0,
        !pre@.contains_key(gidx(pre.last_index as int + 1, 0)),
        post@ == pre@.insert(gidx(pre.last_index as int + 1, 0), v),
{
    let nid = mid.last_index;
    bits::lemma_highest_set(mid.segs()[nid].bits());
    assert(f == 0);
    assert(post.first_index == pre.first_index);
    assert(post.last_index == pre.last_index + 1);
    assert forall|x: usize| #[trigger]
        post.segs().dom().contains(x) <==> (pre.segs().dom().contains(x) || x == pre.last_index
            + 1) by {}
    assert forall|x: usize|
        pre.segs().dom().contains(x) && x != pre.last_index implies post.segs()[x]
            == #[trigger] pre.segs()[x] by {
        assert(!pre.segs().dom().contains(nid));
        assert(mid.segs()[x] == pre.segs()[x]);
    }
    assert(post.segs()[pre.last_index].bits() == pre.segs()[pre.last_index].bits());
    assert(post.segs()[pre.last_index].data@ == pre.segs()[pre.last_index].data@);
    assert(post.segs()[nid].bits()[0]);
    assert forall|i: int| 0 < i < SEGMENTSIZE implies !post.segs()[nid].bits()[i] by {}
    assert(post.segs()[nid].value_at(0) == v);
    lemma_insert_view_grow(pre, post, v);
}

impl<T> SegmentMap<T> {
    /// Creates segment 0 for the very first insertion.
    fn initialize(&mut self)
        requires
            old(self).segs().dom().is_empty(),
        ensures
            forall|x: usize| #[trigger] final(self).segs().dom().contains(x) <==> x == 0,
            final(self).segs()[0].wf(),
            bits::all_clear(final(self).segs()[0].bits()),
            final(self).segs()[0].next_index is None,
            final(self).segs()[0].previous_index is None,
            final(self).first_index == 0,
            final(self).last_index == 0,
    {
        self.data.insert(0, Segment::new());
        self.first_index = 0;
        self.last_index = 0;
    }

    /// Appends a fresh, still-empty segment after the full tail and links it
    /// into the chain; the caller fills it at once.
    fn add_new_segment(&mut self)
        requires
            old(self).wf(),
            !old(self).segs().dom().is_empty(),
            old(self).last_index as int + 1 <= seg_id_max(),
        ensures
            final(self).first_index == old(self).first_index,
            final(self).last_index == old(self).last_index + 1,
            forall|x: usize| #[trigger]
                final(self).segs().dom().contains(x) <==> (old(self).segs().dom().contains(x) || x
                    == old(self).last_index + 1),
            forall|x: usize|
                old(self).segs().dom().contains(x) && x != old(self).last_index ==> final(self).segs()[x] == #[trigger] old(self).segs()[x],
            final(self).segs()[old(self).last_index].bits() == old(self).segs()[old(self).last_index].bits(),
            final(self).segs()[old(self).last_index].data@ == old(self).segs()[old(self).last_index].data@,
            final(self).segs()[old(self).last_index].previous_index == old(self).segs()[old(self).last_index].previous_index,
            final(self).segs()[old(self).last_index].next_index == Some(final(self).last_index),
            final(self).segs()[final(self).last_index].wf(),
            bits::all_clear(final(self).segs()[final(self).last_index].bits()),
            final(self).segs()[final(self).last_index].previous_index == Some(
                old(self).last_index,
            ),
            final(self).segs()[final(self).last_index].next_index is None,
    {
        proof {
            vstd::arithmetic::div_mod::lemma_fundamental_div_mod(
                usize::MAX as int,
                SEGMENTSIZE as int,
            );
        }
        let old_last_index = self.last_index;
        self.last_index = old_last_index + 1;
        let mut segment: Segment<T> = Segment::new();
        segment.previous_index = Some(old_last_index);
        self.data.insert(old_last_index + 1, segment);
        let tail = seg_mut(&mut self.data, old_last_index);
        tail.next_index = Some(old_last_index + 1);
    }

    /// The very first insertion: creates segment 0 and fills its slot 0.
    fn insert_first(&mut self, item: T) -> (r: usize)
        requires
            old(self).wf(),
            old(self).segs().dom().is_empty(),
        ensures
            final(self).wf(),
            r as int == old(self).spec_fresh_index(),
            !old(self)@.contains_key(r as int),
            final(self)@ == old(self)@.insert(r as int, item),
            final(self).last_index as int == sid_of(r as int),
            final(self).first_index == 0,
            forall|x: usize| #[trigger]
                final(self).segs().dom().contains(x) <==> (old(self).segs().dom().contains(x) || x
                    == final(self).last_index),
    {
        let ghost pre = *self;
        self.initialize();
        let segment = seg_mut(&mut self.data, 0);
        proof {
            bits::lemma_highest_set(segment.bits());
        }
        let mantissa = segment.insert(item);
        proof {
            lemma_insert_view_empty(pre, *self, item);
            lemma_gidx_decompose(0, 0);
        }
        mantissa
    }

    /// Insertion when the tail segment is full: opens a fresh tail segment
    /// and fills its slot 0.
    #[verifier::rlimit(100)]
    fn insert_grow(&mut self, item: T) -> (r: usize)
        requires
            old(self).wf(),
            !old(self).segs().dom().is_empty(),
            old(self).segs()[old(self).last_index].spec_is_full(),
            old(self).last_index as int + 1 <= seg_id_max(),
        ensures
            final(self).wf(),
            r as int == old(self).spec_fresh_index(),
            !old(self)@.contains_key(r as int),
            final(self)@ == old(self)@.insert(r as int, item),
            final(self).last_index as int == sid_of(r as int),
            final(self).first_index == old(self).first_index,
            forall|x: usize| #[trigger]
                final(self).segs().dom().contains(x) <==> (old(self).segs().dom().contains(x) || x
                    == final(self).last_index),
    {
        let ghost pre = *self;
        self.add_new_segment();
        let ghost mid = *self;
        let last = self.last_index;
        let segment = seg_mut(&mut self.data, last);
        proof {
            bits::lemma_highest_set(segment.bits());
        }
        let mantissa = segment.insert(item);
        proof {
            lemma_insert_view_grow_steps(pre, mid, *self, item, mantissa as int);
            lemma_gidx_decompose(last as int, 0);
            lemma_index_fits(last, mantissa);
        }
        last * SEGMENTSIZE + mantissa
    }

    /// Insertion when the tail segment still has room: fills its frontier
    /// slot.
    #[verifier::rlimit(100)]
    fn insert_tail(&mut self, item: T) -> (r: usize)
        requires
            old(self).wf(),
            !old(self).segs().dom().is_empty(),
            !old(self).segs()[old(self).last_index].spec_is_full(),
        ensures
            final(self).wf(),
            r as int == old(self).spec_fresh_index(),
            !old(self)@.contains_key(r as int),
            final(self)@ == old(self)@.insert(r as int, item),
            final(self).last_index as int == sid_of(r as int),
            final(self).first_index == old(self).first_index,
            forall|x: usize| #[trigger]
                final(self).segs().dom().contains(x) <==> (old(self).segs().dom().contains(x) || x
                    == final(self).last_index),
    {
        let ghost pre = *self;
        let last = self.last_index;
        let segment = seg_mut(&mut self.data, last);
        let mantissa = segment.insert(item);
        proof {
            lemma_insert_view_tail(pre, *self, item, mantissa as int);
            lemma_gidx_decompose(last as int, mantissa as int);
            lemma_index_fits(last, mantissa);
        }
        last * SEGMENTSIZE + mantissa
    }

    /// Inserts `item`, returning the stable global index it now occupies: the
    /// tail segment's insertion frontier, in a freshly created segment if none
    /// exists or the tail is full.
    pub fn insert(&mut self, item: T) -> (r: usize)
        requires
            old(self).wf(),
            !old(self).segs().dom().is_empty() && old(self).segs()[old(self).last_index].spec_is_full() ==> old(self).last_index as int + 1 <= seg_id_max(),
        ensures
            final(self).wf(),
            r as int == old(self).spec_fresh_index(),
            !old(self)@.contains_key(r as int),
            final(self)@ == old(self)@.insert(r as int, item),
            final(self).last_index as int == sid_of(r as int),
            final(self).first_index == (if old(self).segs().dom().is_empty() {
                0usize
            } else {
                old(self).first_index
            }),
            forall|x: usize| #[trigger]
                final(self).segs().dom().contains(x) <==> (old(self).segs().dom().contains(x) || x
                    == final(self).last_index),
    {
        let was_empty = self.data.is_empty();
        if was_empty {
            proof {
                vstd::set_lib::lemma_set_empty_equivalency_len(self.segs().dom());
            }
            self.insert_first(item)
        } else {
            proof {
                if self.segs().dom().is_empty() {
                    assert(self.segs().dom().len() == 0);
                }
            }
            let is_full = match self.data.get(&self.last_index) {
                Some(segment) => segment.is_full(),
                None => vstd::pervasive::unreached(),
            };
            if is_full {
                self.insert_grow(item)
            } else {
                self.insert_tail(item)
            }
        }
    }
}

/// Clearing one occupied slot of a segment that keeps other occupants
/// removes exactly that global index.
#[verifier::rlimit(100)]
proof fn lemma_remove_view_keep<T>(pre: SegmentMap<T>, post: SegmentMap<T>, k: int)
    requires
        pre.wf(),
        0 <= k,
        sid_of(k) <= usize::MAX as int,
        pre.segs().dom().contains(sid_of(k) as usize),
        pre.segs()[sid_of(k) as usize].bits()[slot_of(k)],
        !bits::only_bit(pre.segs()[sid_of(k) as usize].bits(), slot_of(k)),
        post.first_index == pre.first_index,
        post.last_index == pre.last_index,
        forall|x: usize| #[trigger]
            post.segs().dom().contains(x) <==> pre.segs().dom().contains(x),
        forall|x: usize|
            pre.segs().dom().contains(x) && x != sid_of(k) as usize ==> post.segs()[x]
                == #[trigger] pre.segs()[x],
        post.segs()[sid_of(k) as usize].wf(),
        post.segs()[sid_of(k) as usize].bits() == pre.segs()[sid_of(k) as usize].bits().update(
            slot_of(k),
            false,
        ),
        post.segs()[sid_of(k) as usize].data@ == pre.segs()[sid_of(k) as usize].data@.update(
            slot_of(k),
            None,
        ),
        post.segs()[sid_of(k) as usize].next_index == pre.segs()[sid_of(k) as usize].next_index,
        post.segs()[sid_of(k) as usize].previous_index == pre.segs()[sid_of(
            k,
        ) as usize].previous_index,
    ensures
        post.wf(),
        post@ == pre@.remove(k),
{
    let sid = sid_of(k) as usize;
    lemma_gidx_inverse(k);
    let pb = pre.segs()[sid].bits();
    let j = choose|j: int| 0 <= j < pb.len() && j != slot_of(k) && pb[j];
    assert(post.segs()[sid].bits()[j]);
    bits::lemma_highest_set(post.segs()[sid].bits());
    assert(!post.segs()[sid].spec_is_empty());
    lemma_frame_wf(pre, post, sid);
    lemma_slot_update_view(pre, post, k, false, None);
    assert(post@ =~= pre@.remove(k));
}

/// Clearing the sole occupant of a segment excises the segment: the abstract
/// map loses exactly that index, the neighbors are rewired to each other, and
/// head/tail move off the excised id.
#[verifier::rlimit(100)]
proof fn lemma_remove_view_excise<T>(pre: SegmentMap<T>, post: SegmentMap<T>, k: int)
    requires
        pre.wf(),
        0 <= k,
        sid_of(k) <= usize::MAX as int,
        pre.segs().dom().contains(sid_of(k) as usize),
        bits::only_bit(pre.segs()[sid_of(k) as usize].bits(), slot_of(k)),
        forall|x: usize| #[trigger]
            post.segs().dom().contains(x) <==> (pre.segs().dom().contains(x) && x != sid_of(
                k,
            ) as usize),
        ({
            let sid = sid_of(k) as usize;
            let prev = pre.segs()[sid].previous_index;
            let next = pre.segs()[sid].next_index;
            &&& (match next {
                Some(n) => {
                    &&& post.segs()[n].previous_index == prev
                    &&& post.segs()[n].bits() == pre.segs()[n].bits()
                    &&& post.segs()[n].data@ == pre.segs()[n].data@
                    &&& post.segs()[n].next_index == pre.segs()[n].next_index
                },
                None => true,
            })
            &&& (match prev {
                Some(p) => {
                    &&& post.segs()[p].next_index == next
                    &&& post.segs()[p].bits() == pre.segs()[p].bits()
                    &&& post.segs()[p].data@ == pre.segs()[p].data@
                    &&& post.segs()[p].previous_index == pre.segs()[p].previous_index
                },
                None => true,
            })
            &&& forall|x: usize|
                pre.segs().dom().contains(x) && x != sid && Some(x) != prev && Some(x) != next
                    ==> post.segs()[x] == #[trigger] pre.segs()[x]
            &&& post.first_index == (match (prev, next) {
                (None, Some(n)) => n,
                (None, None) => 0usize,
                _ => pre.first_index,
            })
            &&& post.last_index == (match (prev, next) {
                (Some(p), None) => p,
                (None, None) => 0usize,
                _ => pre.last_index,
            })
        }),
    ensures
        post.wf(),
        post@ == pre@.remove(k),
{
    let sid = sid_of(k) as usize;
    lemma_gidx_inverse(k);
    let prev = pre.segs()[sid].previous_index;
    let next = pre.segs()[sid].next_index;
    // The immediate neighbors are the only segments whose links mention the
    // excised id.
    assert forall|x: usize|
        pre.segs().dom().contains(x) && x != sid implies !(pre.segs()[x].next_index == Some(sid)
        && prev != Some(x)) && !(pre.segs()[x].previous_index == Some(sid) && next != Some(
        x,
    )) by {
        assert(pre.seg_next_ok(x));
        assert(pre.seg_prev_ok(x));
        assert(pre.seg_next_ok(sid));
        assert(pre.seg_prev_ok(sid));
        if pre.segs()[x].next_index == Some(sid) {
            match prev {
                Some(p) => {
                    if x != p {
                        assert(false);
                    }
                },
                None => {
                    assert(sid <= x);
                    assert(false);
                },
            }
        }
        if pre.segs()[x].previous_index == Some(sid) {
            match next {
                Some(n) => {
                    if x != n {
                        assert(false);
                    }
                },
                None => {
                    assert(x <= sid);
                    assert(false);
                },
            }
        }
    }
    assert forall|x: usize| #[trigger] post.segs().dom().contains(x) implies {
        &&& post.segs()[x].wf()
        &&& !post.segs()[x].spec_is_empty()
        &&& post.seg_next_ok(x)
        &&& post.seg_prev_ok(x)
        &&& post.first_index <= x && x <= post.last_index
    } by {
        assert(pre.segs().dom().contains(x));
        assert(pre.seg_next_ok(x));
        assert(pre.seg_prev_ok(x));
        assert(pre.seg_next_ok(sid));
        assert(pre.seg_prev_ok(sid));
        assert(post.segs()[x].wf() && !post.segs()[x].spec_is_empty());
        if Some(x) == prev {
            assert(pre.segs()[x].next_index == Some(sid));
            assert(post.seg_next_ok(x));
            assert(post.seg_prev_ok(x));
        } else if Some(x) == next {
            assert(pre.segs()[x].previous_index == Some(sid));
            assert(post.seg_next_ok(x));
            assert(post.seg_prev_ok(x));
        } else {
            assert(post.segs()[x] == pre.segs()[x]);
            assert(post.seg_next_ok(x));
            assert(post.seg_prev_ok(x));
        }
        assert(post.first_index <= x && x <= post.last_index);
    }
    assert(pre.seg_next_ok(sid));
    assert(pre.seg_prev_ok(sid));
    assert(post.last_index as int <= seg_id_max()) by {
        match (prev, next) {
            (Some(p), None) => {
                assert(pre.segs().dom().contains(p));
                assert(p <= pre.last_index);
            },
            _ => {},
        }
    }
    assert(post.wf()) by {
        if post.segs().dom().is_empty() {
            match (prev, next) {
                (None, None) => {},
                (None, Some(n)) => {
                    assert(post.segs().dom().contains(n));
                    assert(false);
                },
                (Some(p), None) => {
                    assert(post.segs().dom().contains(p));
                    assert(false);
                },
                (Some(p), Some(n)) => {
                    assert(post.segs().dom().contains(n));
                    assert(false);
                },
            }
        } else {
            match (prev, next) {
                (None, None) => {
                    let w = choose|w: usize| post.segs().dom().contains(w);
                    assert(pre.segs().dom().contains(w));
                    assert(w >= sid && w <= sid);
                    assert(false);
                },
                (None, Some(n)) => {
                    assert(post.segs().dom().contains(post.first_index));
                    assert(pre.last_index != sid);
                    assert(post.segs().dom().contains(post.last_index));
                },
                (Some(p), None) => {
                    assert(post.segs().dom().contains(post.last_index));
                    assert(pre.first_index != sid);
                    assert(post.segs().dom().contains(post.first_index));
                },
                (Some(p), Some(n)) => {
                    assert(pre.first_index != sid);
                    assert(pre.last_index != sid);
                    assert(post.segs().dom().contains(post.first_index));
                    assert(post.segs().dom().contains(post.last_index));
                },
            }
        }
    }
    assert(post@ =~= pre@.remove(k)) by {
        assert forall|j: int| true implies (#[trigger] post.spec_contains(j) <==> (
        pre.spec_contains(j) && j != k)) by {
            if 0 <= j && sid_of(j) <= usize::MAX as int {
                lemma_gidx_inverse(j);
            }
        }
        assert forall|j: int| #[trigger] post.spec_contains(j) implies post.spec_at(j)
            == pre.spec_at(j) by {
            lemma_gidx_inverse(j);
        }
    }
}

impl<T> SegmentMap<T> {
    /// Overwrites the value at an occupied `key`; occupancy, stable indices
    /// and iteration order are unchanged.
    #[verifier::rlimit(100)]
    pub fn replace(&mut self, key: usize, item: T)
        requires
            old(self).wf(),
            old(self)@.contains_key(key as int),
        ensures
            final(self).wf(),
            final(self)@ == old(self)@.insert(key as int, item),
            final(self).first_index == old(self).first_index,
            final(self).last_index == old(self).last_index,
            forall|x: usize| #[trigger]
                final(self).segs().dom().contains(x) <==> old(self).segs().dom().contains(x),
            forall|x: usize|
                old(self).segs().dom().contains(x) ==> final(self).segs()[x].bits()
                    == #[trigger] old(self).segs()[x].bits(),
    {
        proof {
            lemma_key_decompose(key);
        }
        let segment_index = key / SEGMENTSIZE;
        let mantissa = key % SEGMENTSIZE;
        let segment = seg_mut(&mut self.data, segment_index);
        segment.replace(mantissa, item);
        proof {
            assert(value_updated(*old(self), *self, key as int, item));
            lemma_value_updated_view(*old(self), *self, key as int, item);
        }
    }

    /// Excises the now-empty segment `segment_index` from the directory and
    /// the chain: the neighbors named by its links are rewired to each other,
    /// and head/tail move off the excised id (both reset to 0 when it was the
    /// sole segment).
    #[verifier::rlimit(100)]
    fn excise_segment(
        &mut self,
        segment_index: usize,
        previous_index: Option<usize>,
        next_index: Option<usize>,
        Ghost(pre): Ghost<SegmentMap<T>>,
        Ghost(k): Ghost<int>,
    )
        requires
            pre.wf(),
            0 <= k,
            sid_of(k) <= usize::MAX as int,
            segment_index == sid_of(k) as usize,
            pre.segs().dom().contains(segment_index),
            bits::only_bit(pre.segs()[segment_index].bits(), slot_of(k)),
            previous_index == pre.segs()[segment_index].previous_index,
            next_index == pre.segs()[segment_index].next_index,
            old(self).first_index == pre.first_index,
            old(self).last_index == pre.last_index,
            forall|x: usize| #[trigger]
                old(self).segs().dom().contains(x) <==> pre.segs().dom().contains(x),
            forall|x: usize|
                pre.segs().dom().contains(x) && x != segment_index ==> old(self).segs()[x]
                    == #[trigger] pre.segs()[x],
        ensures
            final(self).wf(),
            final(self)@ == pre@.remove(k),
            forall|x: usize| #[trigger]
                final(self).segs().dom().contains(x) <==> (pre.segs().dom().contains(x) && x
                    != segment_index),
    {
        proof {
            assert(pre.seg_next_ok(segment_index));
            assert(pre.seg_prev_ok(segment_index));
        }
        self.data.remove(&segment_index);
        match next_index {
            Some(index) => {
                let mut neighbor = match self.data.remove(&index) {
                    Some(segment) => segment,
                    None => vstd::pervasive::unreached(),
                };
                neighbor.previous_index = previous_index;
                self.data.insert(index, neighbor);
            },
            None => {
                match previous_index {
                    Some(index) => {
                        self.last_index = index;
                    },
                    None => {
                        self.last_index = 0;
                    },
                }
            },
        }
        match previous_index {
            Some(index) => {
                let mut neighbor = match self.data.remove(&index) {
                    Some(segment) => segment,
                    None => vstd::pervasive::unreached(),
                };
                neighbor.next_index = next_index;
                self.data.insert(index, neighbor);
            },
            None => {
                match next_index {
                    Some(index) => {
                        self.first_index = index;
                    },
                    None => {
                        self.first_index = 0;
                    },
                }
            },
        }
        proof {
            lemma_remove_view_excise(pre, *self, k);
        }
    }

    /// Removes and returns the value at an occupied `key`. A segment whose
    /// last occupant leaves is excised from the directory and the chain; its
    /// neighbors are rewired to each other, and head/tail move off it.
    #[verifier::rlimit(100)]
    pub fn remove(&mut self, key: usize) -> (r: T)
        requires
            old(self).wf(),
            old(self)@.contains_key(key as int),
        ensures
            final(self).wf(),
            r == old(self)@[key as int],
            final(self)@ == old(self)@.remove(key as int),
            ({
                let sid = sid_of(key as int) as usize;
                if bits::only_bit(old(self).segs()[sid].bits(), slot_of(key as int)) {
                    forall|x: usize| #[trigger]
                        final(self).segs().dom().contains(x) <==> (old(
                            self,
                        ).segs().dom().contains(x) && x != sid)
                } else {
                    &&& forall|x: usize| #[trigger]
                        final(self).segs().dom().contains(x) <==> old(self).segs().dom().contains(
                            x,
                        )
                    &&& final(self).first_index == old(self).first_index
                    &&& final(self).last_index == old(self).last_index
                }
            }),
    {
        proof {
            lemma_key_decompose(key);
        }
        let ghost pre = *self;
        let segment_index = key / SEGMENTSIZE;
        let mantissa = key % SEGMENTSIZE;
        let segment = seg_mut(&mut self.data, segment_index);
        let ret_opt = segment.remove(mantissa);
        let now_empty = segment.is_empty();
        let previous_index = segment.previous_index;
        let next_index = segment.next_index;
        let ret = match ret_opt {
            Some(v) => v,
            None => vstd::pervasive::unreached(),
        };
        proof {
            bits::lemma_only_bit_after_clear(pre.segs()[segment_index].bits(), mantissa as int);
        }
        if now_empty {
            self.excise_segment(
                segment_index,
                previous_index,
                next_index,
                Ghost(pre),
                Ghost(key as int),
            );
        } else {
            proof {
                lemma_remove_view_keep(pre, *self, key as int);
            }
        }
        ret
    }
}

/// Everything below the first occupied slot of the head segment is absent.
proof fn lemma_gap_before_head<T>(m: &SegmentMap<T>, l: int)
    requires
        m.wf(),
        m.segs().dom().contains(m.first_index),
        0 <= l < SEGMENTSIZE,
        forall|s: int| 0 <= s < l ==> !m.segs()[m.first_index].bits()[s],
    ensures
        forall|j: int| j < gidx(m.first_index as int, l) ==> !m@.contains_key(j),
{
    assert forall|j: int| j < gidx(m.first_index as int, l) implies !m@.contains_key(j) by {
        if m.spec_contains(j) {
            lemma_gidx_inverse(j);
            let sd = sid_of(j);
            assert(m.first_index <= sd as usize);
            assert(false);
        }
    }
}

/// Between an occupied slot and the next occupied slot of the same segment
/// nothing is occupied.
proof fn lemma_gap_within<T>(m: &SegmentMap<T>, o: usize, i: int, ni: int)
    requires
        m.wf(),
        m.segs().dom().contains(o),
        0 <= i < ni < SEGMENTSIZE,
        forall|s: int| i < s < ni ==> !m.segs()[o].bits()[s],
    ensures
        forall|j: int| gidx(o as int, i) < j < gidx(o as int, ni) ==> !m@.contains_key(j),
{
    assert forall|j: int|
        gidx(o as int, i) < j < gidx(o as int, ni) implies !m@.contains_key(j) by {
        if m.spec_contains(j) {
            lemma_gidx_inverse(j);
            let sd = sid_of(j);
            assert(sd == o);
            assert(false);
        }
    }
}

/// Past the last occupied slot of the tail segment nothing is occupied.
proof fn lemma_gap_after_tail<T>(m: &SegmentMap<T>, o: usize, i: int)
    requires
        m.wf(),
        m.segs().dom().contains(o),
        m.segs()[o].next_index is None,
        0 <= i < SEGMENTSIZE,
        forall|s: int| i < s < SEGMENTSIZE ==> !m.segs()[o].bits()[s],
    ensures
        forall|j: int| j > gidx(o as int, i) ==> !m@.contains_key(j),
{
    assert(m.seg_next_ok(o));
    assert forall|j: int| j > gidx(o as int, i) implies !m@.contains_key(j) by {
        if m.spec_contains(j) {
            lemma_gidx_inverse(j);
            let sd = sid_of(j);
            assert(m.segs().dom().contains(sd as usize));
            assert(sd as usize <= o);
            assert(sd == o);
            assert(false);
        }
    }
}

/// Between the last occupied slot of a segment and the first occupied slot of
/// the next chained segment nothing is occupied.
proof fn lemma_gap_across<T>(m: &SegmentMap<T>, o: usize, i: int, n: usize, l: int)
    requires
        m.wf(),
        m.segs().dom().contains(o),
        m.segs()[o].next_index == Some(n),
        0 <= i < SEGMENTSIZE,
        0 <= l < SEGMENTSIZE,
        forall|s: int| i < s < SEGMENTSIZE ==> !m.segs()[o].bits()[s],
        forall|s: int| 0 <= s < l ==> !m.segs()[n].bits()[s],
    ensures
        forall|j: int| gidx(o as int, i) < j < gidx(n as int, l) ==> !m@.contains_key(j),
{
    assert(m.seg_next_ok(o));
    assert forall|j: int| gidx(o as int, i) < j < gidx(n as int, l) implies !m@.contains_key(
        j,
    ) by {
        if m.spec_contains(j) {
            lemma_gidx_inverse(j);
            let sd = sid_of(j);
            assert(m.segs().dom().contains(sd as usize));
            if sd < o {
                assert(false);
            } else if sd == o {
                assert(false);
            } else if sd < n {
                assert(n <= sd as usize);
                assert(false);
            } else if sd == n {
                assert(false);
            } else {
                assert(false);
            }
        }
    }
}

/// Stateless walker over the occupied slots of a [`SegmentMap`], in ascending
/// global-index order.
pub struct SegmentMapIter<'a, T> {
    pub segmentmap: &'a SegmentMap<T>,
    pub outer_index: Option<usize>,
    pub inner_index: Option<usize>,
}

impl<'a, T> SegmentMapIter<'a, T> {
    /// The global index the iterator will yield next, if any.
    pub open spec fn cursor(&self) -> Option<int> {
        match (self.outer_index, self.inner_index) {
            (Some(o), Some(i)) => Some(gidx(o as int, i as int)),
            _ => None,
        }
    }

    /// The iterator either rests on an occupied slot or is exhausted.
    pub open spec fn wf(&self) -> bool {
        &&& self.segmentmap.wf()
        &&& match (self.outer_index, self.inner_index) {
            (Some(o), Some(i)) => {
                &&& self.segmentmap.segs().dom().contains(o)
                &&& i < SEGMENTSIZE
                &&& self.segmentmap.segs()[o].bits()[i as int]
            },
            (None, None) => true,
            _ => false,
        }
    }

    /// Yields the value under the cursor and advances to the next occupied
    /// slot in ascending global-index order, or exhausts.
    #[verifier::rlimit(100)]
    pub fn next(&mut self) -> (r: Option<&'a T>)
        requires
            old(self).wf(),
        ensures
            final(self).wf(),
            final(self).segmentmap == old(self).segmentmap,
            match old(self).cursor() {
                Some(c) => {
                    &&& r is Some
                    &&& *r.unwrap() == old(self).segmentmap@[c]
                    &&& old(self).segmentmap@.contains_key(c)
                    &&& match final(self).cursor() {
                        Some(c2) => {
                            &&& c < c2
                            &&& old(self).segmentmap@.contains_key(c2)
                            &&& forall|j: int|
                                c < j < c2 ==> !old(self).segmentmap@.contains_key(j)
                        },
                        None => forall|j: int| j > c ==> !old(self).segmentmap@.contains_key(j),
                    }
                },
                None => r is None && final(self).cursor() is None,
            },
    {
        let map: &'a SegmentMap<T> = self.segmentmap;
        match (self.outer_index, self.inner_index) {
            (Some(o), Some(i)) => {
                proof {
                    lemma_gidx_decompose(o as int, i as int);
                }
                let segment = match map.data.get(&o) {
                    Some(segment) => segment,
                    None => vstd::pervasive::unreached(),
                };
                let item = match segment.get(i) {
                    Some(v) => v,
                    None => vstd::pervasive::unreached(),
                };
                match segment.next_index(i) {
                    Some(ni) => {
                        self.inner_index = Some(ni);
                        proof {
                            bits::lemma_lowest_set_from(segment.bits(), i as int + 1);
                            lemma_gap_within(map, o, i as int, ni as int);
                            lemma_gidx_decompose(o as int, ni as int);
                        }
                    },
                    None => {
                        proof {
                            bits::lemma_lowest_set_from(segment.bits(), i as int + 1);
                        }
                        match segment.next_index {
                            Some(next_outer) => {
                                let next_segment = match map.data.get(&next_outer) {
                                    Some(segment) => segment,
                                    None => vstd::pervasive::unreached(),
                                };
                                proof {
                                    bits::lemma_highest_set(next_segment.bits());
                                    bits::lemma_lowest_set_from(next_segment.bits(), 0);
                                }
                                let first_inner = match next_segment.first_index() {
                                    Some(s) => s,
                                    None => vstd::pervasive::unreached(),
                                };
                                self.outer_index = Some(next_outer);
                                self.inner_index = Some(first_inner);
                                proof {
                                    lemma_gap_across(map, o, i as int, next_outer, first_inner as int);
                                    lemma_gidx_decompose(next_outer as int, first_inner as int);
                                    lemma_gidx_ordered(
                                        o as int,
                                        i as int,
                                        next_outer as int,
                                        first_inner as int,
                                    );
                                }
                            },
                            None => {
                                self.outer_index = None;
                                self.inner_index = None;
                                proof {
                                    lemma_gap_after_tail(map, o, i as int);
                                }
                            },
                        }
                    },
                }
                Some(item)
            },
            _ => None,
        }
    }
}

impl<T> SegmentMap<T> {
    /// A walker over the stored values in ascending global-index order. A
    /// fresh call starts over from the lowest occupied index.
    pub fn iter<'a>(&'a self) -> (r: SegmentMapIter<'a, T>)
        requires
            self.wf(),
        ensures
            r.wf(),
            r.segmentmap == self,
            match r.cursor() {
                Some(c) => self@.contains_key(c) && (forall|j: int|
                    j < c ==> !self@.contains_key(j)),
                None => forall|j: int| !(#[trigger] self@.contains_key(j)),
            },
    {
        let first_inner_index = match self.data.get(&self.first_index) {
            Some(segment) => {
                proof {
                    bits::lemma_highest_set(segment.bits());
                    bits::lemma_lowest_set_from(segment.bits(), 0);
                }
                segment.first_index()
            },
            None => None,
        };
        let outer_index = if first_inner_index.is_some() {
            Some(self.first_index)
        } else {
            None
        };
        let r = SegmentMapIter { segmentmap: self, outer_index, inner_index: first_inner_index };
        proof {
            match r.cursor() {
                Some(c) => {
                    let l = r.inner_index.unwrap() as int;
                    lemma_gidx_decompose(self.first_index as int, l);
                    lemma_gap_before_head(self, l);
                },
                None => {
                    assert forall|j: int| !(#[trigger] self@.contains_key(j)) by {
                        if self.spec_contains(j) {
                            assert(self.segs().dom().contains(sid_of(j) as usize));
                        }
                    }
                },
            }
        }
        r
    }
}

/// Stateless walker over the occupied slots of a [`SegmentMap`], yielding
/// each value together with its global index, in ascending order.
pub struct SegmentMapIndexIter<'a, T> {
    pub segmentmap: &'a SegmentMap<T>,
    pub outer_index: Option<usize>,
    pub inner_index: Option<usize>,
}

impl<'a, T> SegmentMapIndexIter<'a, T> {
    /// The global index the iterator will yield next, if any.
    pub open spec fn cursor(&self) -> Option<int> {
        match (self.outer_index, self.inner_index) {
            (Some(o), Some(i)) => Some(gidx(o as int, i as int)),
            _ => None,
        }
    }

    /// The iterator either rests on an occupied slot or is exhausted.
    pub open spec fn wf(&self) -> bool {
        &&& self.segmentmap.wf()
        &&& match (self.outer_index, self.inner_index) {
            (Some(o), Some(i)) => {
                &&& self.segmentmap.segs().dom().contains(o)
                &&& i < SEGMENTSIZE
                &&& self.segmentmap.segs()[o].bits()[i as int]
            },
            (None, None) => true,
            _ => false,
        }
    }

    /// Yields the value under the cursor with its global index and advances
    /// to the next occupied slot in ascending global-index order.
    #[verifier::rlimit(100)]
    pub fn next(&mut self) -> (r: Option<(&'a T, usize)>)
        requires
            old(self).wf(),
        ensures
            final(self).wf(),
            final(self).segmentmap == old(self).segmentmap,
            match old(self).cursor() {
                Some(c) => {
                    &&& r is Some
                    &&& *r.unwrap().0 == old(self).segmentmap@[c]
                    &&& r.unwrap().1 as int == c
                    &&& old(self).segmentmap@.contains_key(c)
                    &&& match final(self).cursor() {
                        Some(c2) => {
                            &&& c < c2
                            &&& old(self).segmentmap@.contains_key(c2)
                            &&& forall|j: int|
                                c < j < c2 ==> !old(self).segmentmap@.contains_key(j)
                        },
                        None => forall|j: int| j > c ==> !old(self).segmentmap@.contains_key(j),
                    }
                },
                None => r is None && final(self).cursor() is None,
            },
    {
        let map: &'a SegmentMap<T> = self.segmentmap;
        match (self.outer_index, self.inner_index) {
            (Some(o), Some(i)) => {
                proof {
                    lemma_gidx_decompose(o as int, i as int);
                    lemma_index_fits(o, i);
                }
                let segment = match map.data.get(&o) {
                    Some(segment) => segment,
                    None => vstd::pervasive::unreached(),
                };
                let item = match segment.get(i) {
                    Some(v) => v,
                    None => vstd::pervasive::unreached(),
                };
                let index = o * SEGMENTSIZE + i;
                match segment.next_index(i) {
                    Some(ni) => {
                        self.inner_index = Some(ni);
                        proof {
                            bits::lemma_lowest_set_from(segment.bits(), i as int + 1);
                            lemma_gap_within(map, o, i as int, ni as int);
                            lemma_gidx_decompose(o as int, ni as int);
                        }
                    },
                    None => {
                        proof {
                            bits::lemma_lowest_set_from(segment.bits(), i as int + 1);
                        }
                        match segment.next_index {
                            Some(next_outer) => {
                                let next_segment = match map.data.get(&next_outer) {
                                    Some(segment) => segment,
                                    None => vstd::pervasive::unreached(),
                                };
                                proof {
                                    bits::lemma_highest_set(next_segment.bits());
                                    bits::lemma_lowest_set_from(next_segment.bits(), 0);
                                }
                                let first_inner = match next_segment.first_index() {
                                    Some(s) => s,
                                    None => vstd::pervasive::unreached(),
                                };
                                self.outer_index = Some(next_outer);
                                self.inner_index = Some(first_inner);
                                proof {
                                    lemma_gap_across(map, o, i as int, next_outer, first_inner as int);
                                    lemma_gidx_decompose(next_outer as int, first_inner as int);
                                    lemma_gidx_ordered(
                                        o as int,
                                        i as int,
                                        next_outer as int,
                                        first_inner as int,
                                    );
                                }
                            },
                            None => {
                                self.outer_index = None;
                                self.inner_index = None;
                                proof {
                                    lemma_gap_after_tail(map, o, i as int);
                                }
                            },
                        }
                    },
                }
                Some((item, index))
            },
            _ => None,
        }
    }
}

impl<T> SegmentMap<T> {
    /// Like [`SegmentMap::iter`], but each value comes with its global index.
    pub fn iter_with_index<'a>(&'a self) -> (r: SegmentMapIndexIter<'a, T>)
        requires
            self.wf(),
        ensures
            r.wf(),
            r.segmentmap == self,
            match r.cursor() {
                Some(c) => self@.contains_key(c) && (forall|j: int|
                    j < c ==> !self@.contains_key(j)),
                None => forall|j: int| !(#[trigger] self@.contains_key(j)),
            },
    {
        let first_inner_index = match self.data.get(&self.first_index) {
            Some(segment) => {
                proof {
                    bits::lemma_highest_set(segment.bits());
                    bits::lemma_lowest_set_from(segment.bits(), 0);
                }
                segment.first_index()
            },
            None => None,
        };
        let outer_index = if first_inner_index.is_some() {
            Some(self.first_index)
        } else {
            None
        };
        let r = SegmentMapIndexIter {
            segmentmap: self,
            outer_index,
            inner_index: first_inner_index,
        };
        proof {
            match r.cursor() {
                Some(c) => {
                    let l = r.inner_index.unwrap() as int;
                    lemma_gidx_decompose(self.first_index as int, l);
                    lemma_gap_before_head(self, l);
                },
                None => {
                    assert forall|j: int| !(#[trigger] self@.contains_key(j)) by {
                        if self.spec_contains(j) {
                            assert(self.segs().dom().contains(sid_of(j) as usize));
                        }
                    }
                },
            }
        }
        r
    }
}

/// Index stability and removed absence over the abstract map: an occupied
/// index keeps its value across an insert at a fresh index and across the
/// removal of a different index, and a removed index is absent until an
/// insert reuses it. `insert`, `replace` and `remove` state their effect as
/// exactly these abstract-map updates, and `get` reads the abstract map, so
/// these equalities carry over to call sequences on the container.
pub proof fn lemma_index_stability<T>(m: Map<int, T>, k: int, j: int, v: T)
    requires
        m.contains_key(k),
        j != k,
    ensures
        m.insert(j, v).contains_key(k),
        m.insert(j, v)[k] == m[k],
        m.remove(j).contains_key(k),
        m.remove(j)[k] == m[k],
        !m.remove(k).contains_key(k),
{
}

/// Chain integrity: in a well-formed directory, consecutive surviving
/// segments link directly to each other — `next_index` names the least
/// greater present id and `previous_index` the greatest smaller one, so
/// excising an emptied middle segment rewires its former neighbors to each
/// other.
pub proof fn lemma_chain_integrity<T>(m: SegmentMap<T>, a: usize, b: usize)
    requires
        m.wf(),
        m.segs().dom().contains(a),
        m.segs().dom().contains(b),
        a < b,
        forall|c: usize| #[trigger] m.segs().dom().contains(c) ==> !(a < c && c < b),
    ensures
        m.segs()[a].next_index == Some(b),
        m.segs()[b].previous_index == Some(a),
{
    assert(m.seg_next_ok(a));
    assert(m.seg_prev_ok(b));
    match m.segs()[a].next_index {
        Some(nx) => {
            assert(nx <= b);
            assert(!(a < nx && nx < b));
            assert(nx == b);
        },
        None => {
            assert(b <= a);
            assert(false);
        },
    }
    match m.segs()[b].previous_index {
        Some(pv) => {
            assert(a <= pv);
            assert(!(a < pv && pv < b));
            assert(pv == a);
        },
        None => {
            assert(b <= a);
            assert(false);
        },
    }
}

/// Tail shrink: when the tail segment is excised (as `remove` does once the
/// tail's last occupant leaves), the tail pointer moves to the excised
/// segment's predecessor.
pub proof fn lemma_tail_shrink<T>(pre: SegmentMap<T>, post: SegmentMap<T>, p: usize)
    requires
        pre.wf(),
        post.wf(),
        pre.segs().dom().contains(pre.last_index),
        pre.segs()[pre.last_index].previous_index == Some(p),
        forall|x: usize| #[trigger]
            post.segs().dom().contains(x) <==> (pre.segs().dom().contains(x) && x
                != pre.last_index),
    ensures
        post.last_index == p,
{
    assert(pre.seg_prev_ok(pre.last_index));
    assert(post.segs().dom().contains(p));
    assert(!post.segs().dom().is_empty());
    assert(post.segs().dom().contains(post.last_index));
    assert(pre.segs().dom().contains(post.last_index));
    assert(post.last_index <= pre.last_index);
    assert(post.last_index != pre.last_index);
    assert(post.last_index <= p);
    assert(p <= post.last_index);
}

} // verus!
