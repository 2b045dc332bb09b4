use vstd::prelude::*;

use crate::allocator::{addr_of, align_up, align_up_spec, lemma_align_up};

verus! {

/// An arena allocator: a cursor moves forward through the heap, and the whole heap is reclaimed
/// at once when the last live allocation is freed.
pub struct BumpAllocator {
    heap_start: usize,
    heap_end: usize,
    next: usize,
    allocations: usize,
}

/// The state of a bump allocator as plain numbers.
pub struct BumpState {
    pub heap_start: int,
    pub heap_end: int,
    pub next: int,
    pub allocations: int,
}

impl BumpState {
    pub open spec fn wf(self) -> bool {
        &&& 0 <= self.heap_start <= self.next <= self.heap_end <= usize::MAX
        &&& 0 <= self.allocations <= usize::MAX
        &&& self.allocations == 0 ==> self.next == self.heap_start
    }

    /// Where an allocation of `size` bytes aligned to `align` would start.
    pub open spec fn start_of(self, align: int) -> int {
        align_up_spec(self.next, align)
    }

    /// Whether an allocation of `size` bytes aligned to `align` fits in what is left.
    pub open spec fn fits(self, size: int, align: int) -> bool {
        self.start_of(align) + size <= self.heap_end
    }

    /// The state after a successful allocation.
    pub open spec fn after_alloc(self, size: int, align: int) -> BumpState {
        BumpState {
            next: self.start_of(align) + size,
            allocations: self.allocations + 1,
            ..self
        }
    }

    /// The result of an allocation: the state after it, and the address handed out.
    pub open spec fn allocate(self, size: int, align: int) -> (BumpState, Option<int>) {
        if self.fits(size, align) {
            (self.after_alloc(size, align), Some(self.start_of(align)))
        } else {
            (self, None)
        }
    }

    /// The state after a free: one allocation fewer, and the whole arena back once none is left.
    pub open spec fn deallocate(self) -> BumpState {
        if self.allocations - 1 == 0 {
            BumpState { next: self.heap_start, allocations: 0, ..self }
        } else {
            BumpState { allocations: self.allocations - 1, ..self }
        }
    }
}

impl View for BumpAllocator {
    type V = BumpState;

    closed spec fn view(&self) -> BumpState {
        BumpState {
            heap_start: self.heap_start as int,
            heap_end: self.heap_end as int,
            next: self.next as int,
            allocations: self.allocations as int,
        }
    }
}

impl BumpAllocator {
    pub open spec fn wf(&self) -> bool {
        self@.wf()
    }

    /// An allocator over an empty heap.
    pub fn new() -> (r: Self)
        ensures
            r@ == (BumpState { heap_start: 0, heap_end: 0, next: 0, allocations: 0 }),
            r.wf(),
    {
        BumpAllocator { heap_start: 0, heap_end: 0, next: 0, allocations: 0 }
    }

    /// Hands the allocator the heap `[heap_start, heap_start + heap_size)`.
    pub fn init(&mut self, heap_start: usize, heap_size: usize)
        requires
            old(self).wf(),
            old(self)@.allocations == 0,
            heap_start + heap_size <= usize::MAX,
        ensures
            final(self)@ == (BumpState {
                heap_start: heap_start as int,
                heap_end: heap_start + heap_size,
                next: heap_start as int,
                allocations: 0,
            }),
            final(self).wf(),
    {
        self.heap_start = heap_start;
        self.heap_end = heap_start + heap_size;
        self.next = heap_start;
    }

    /// Takes `size` bytes aligned to `align` from the front of what is left of the heap.
    pub fn allocate(&mut self, size: usize, align: usize) -> (r: Option<usize>)
        requires
            old(self).wf(),
            align > 0,
            old(self)@.allocations < usize::MAX,
        ensures
            final(self).wf(),
            (final(self)@, addr_of(r)) == old(self)@.allocate(size as int, align as int),
    {
        proof {
            lemma_align_up(self.next as int, align as int);
        }
        let start = match align_up(self.next, align) {
            Some(s) => s,
            None => return None,
        };
        let end = match start.checked_add(size) {
            Some(e) => e,
            None => return None,
        };
        if end > self.heap_end {
            None
        } else {
            self.next = end;
            self.allocations = self.allocations + 1;
            Some(start)
        }
    }

    /// How many allocations are live.
    pub fn allocations(&self) -> (r: usize)
        ensures
            r == self@.allocations,
    {
        self.allocations
    }

    /// Gives back one allocation; which one does not matter.
    pub fn deallocate(&mut self)
        requires
            old(self).wf(),
            old(self)@.allocations > 0,
        ensures
            final(self).wf(),
            final(self)@ == old(self)@.deallocate(),
    {
        self.allocations = self.allocations - 1;
        if self.allocations == 0 {
            self.next = self.heap_start;
        }
    }
}

/// The addresses handed out by a run of allocations with no free in between.
pub open spec fn allocate_all(s: BumpState, sizes: Seq<int>, aligns: Seq<int>) -> Seq<Option<int>>
    decreases sizes.len(),
{
    if sizes.len() == 0 || aligns.len() == 0 {
        Seq::empty()
    } else {
        let (t, r) = s.allocate(sizes[0], aligns[0]);
        seq![r] + allocate_all(t, sizes.drop_first(), aligns.drop_first())
    }
}

/// Every address of such a run lies at or after the cursor, is aligned, and ends in the heap.
proof fn lemma_allocate_all_bounds(s: BumpState, sizes: Seq<int>, aligns: Seq<int>)
    requires
        0 <= s.heap_start <= s.next <= s.heap_end,
        sizes.len() == aligns.len(),
        forall|k: int| 0 <= k < sizes.len() ==> sizes[k] >= 0 && aligns[k] > 0,
    ensures
        allocate_all(s, sizes, aligns).len() == sizes.len(),
        forall|k: int|
            0 <= k < sizes.len() && #[trigger] allocate_all(s, sizes, aligns)[k] is Some ==> {
                let p = allocate_all(s, sizes, aligns)[k]->Some_0;
                &&& s.next <= p
                &&& p % aligns[k] == 0
                &&& p + sizes[k] <= s.heap_end
            },
    decreases sizes.len(),
{
    if sizes.len() > 0 {
        lemma_align_up(s.next, aligns[0]);
        let t = s.allocate(sizes[0], aligns[0]).0;
        lemma_allocate_all_bounds(t, sizes.drop_first(), aligns.drop_first());
        let rs = allocate_all(s, sizes, aligns);
        let ts = allocate_all(t, sizes.drop_first(), aligns.drop_first());
        assert forall|k: int| 0 < k < sizes.len() implies rs[k] == ts[k - 1] && sizes[k]
            == sizes.drop_first()[k - 1] && aligns[k] == aligns.drop_first()[k - 1] by {}
    }
}

/// Addresses that one run of allocations hands out are aligned as asked, lie inside the heap,
/// and never overlap: each one ends before any later one begins.
pub proof fn lemma_allocations_disjoint(s: BumpState, sizes: Seq<int>, aligns: Seq<int>)
    requires
        s.wf(),
        sizes.len() == aligns.len(),
        forall|k: int| 0 <= k < sizes.len() ==> sizes[k] >= 0 && aligns[k] > 0,
    ensures
        forall|k: int|
            0 <= k < sizes.len() && #[trigger] allocate_all(s, sizes, aligns)[k] is Some ==> {
                let p = allocate_all(s, sizes, aligns)[k]->Some_0;
                &&& s.heap_start <= p
                &&& p % aligns[k] == 0
                &&& p + sizes[k] <= s.heap_end
            },
        forall|i: int, j: int|
            0 <= i < j < sizes.len() && #[trigger] allocate_all(s, sizes, aligns)[i] is Some
                && #[trigger] allocate_all(s, sizes, aligns)[j] is Some ==> allocate_all(
                s,
                sizes,
                aligns,
            )[i]->Some_0 + sizes[i] <= allocate_all(s, sizes, aligns)[j]->Some_0,
{
    lemma_allocate_all_disjoint(s, sizes, aligns);
    lemma_allocate_all_bounds(s, sizes, aligns);
}

proof fn lemma_allocate_all_disjoint(s: BumpState, sizes: Seq<int>, aligns: Seq<int>)
    requires
        0 <= s.heap_start <= s.next <= s.heap_end,
        sizes.len() == aligns.len(),
        forall|k: int| 0 <= k < sizes.len() ==> sizes[k] >= 0 && aligns[k] > 0,
    ensures
        forall|i: int, j: int|
            0 <= i < j < sizes.len() && #[trigger] allocate_all(s, sizes, aligns)[i] is Some
                && #[trigger] allocate_all(s, sizes, aligns)[j] is Some ==> allocate_all(
                s,
                sizes,
                aligns,
            )[i]->Some_0 + sizes[i] <= allocate_all(s, sizes, aligns)[j]->Some_0,
    decreases sizes.len(),
{
    if sizes.len() > 0 {
        lemma_align_up(s.next, aligns[0]);
        let t = s.allocate(sizes[0], aligns[0]).0;
        let ds = sizes.drop_first();
        let da = aligns.drop_first();
        lemma_allocate_all_disjoint(t, ds, da);
        lemma_allocate_all_bounds(t, ds, da);
        let rs = allocate_all(s, sizes, aligns);
        let ts = allocate_all(t, ds, da);
        assert forall|k: int| 0 < k < sizes.len() implies rs[k] == ts[k - 1] && sizes[k] == ds[k
            - 1] && aligns[k] == da[k - 1] by {}
        assert forall|i: int, j: int|
            0 <= i < j < sizes.len() && #[trigger] rs[i] is Some && #[trigger] rs[j]
                is Some implies rs[i]->Some_0 + sizes[i] <= rs[j]->Some_0 by {
            if i > 0 {
                assert(ts[i - 1] is Some && ts[j - 1] is Some);
            } else {
                assert(ts[j - 1] is Some);
                assert(rs[0] == s.allocate(sizes[0], aligns[0]).1);
            }
        }
    }
}

/// Once the last live allocation is freed, the next allocation starts at the heap's start again.
pub proof fn lemma_reset_after_last_free(s: BumpState, size: int, align: int)
    requires
        s.wf(),
        s.allocations == 1,
        align > 0,
        s.heap_start % align == 0,
        0 <= size <= s.heap_end - s.heap_start,
    ensures
        s.deallocate().next == s.heap_start,
        s.deallocate().allocations == 0,
        s.deallocate().allocate(size, align).1 == Some(s.heap_start),
{
}

/// Allocating, freeing, and allocating the same request again on an allocator with nothing live
/// hands out the same address twice.
pub proof fn lemma_round_trip(s: BumpState, size: int, align: int)
    requires
        s.wf(),
        s.allocations == 0,
        align > 0,
        size >= 0,
        s.allocate(size, align).1 is Some,
    ensures
        s.allocate(size, align).0.deallocate().allocate(size, align).1 == s.allocate(size, align).1,
{
}

/// A request for no bytes fails only when the aligned cursor is past the heap's end; a request
/// larger than the whole heap fails and leaves the state as it was.
pub proof fn lemma_boundaries(s: BumpState, size: int, align: int)
    requires
        s.wf(),
        align > 0,
        size >= 0,
    ensures
        (s.allocate(0, align).1 is None) <==> s.start_of(align) > s.heap_end,
        size > s.heap_end - s.heap_start ==> s.allocate(size, align) == (s, None::<int>),
{
    lemma_align_up(s.next, align);
}

} // verus!
