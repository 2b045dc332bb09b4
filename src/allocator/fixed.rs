use vstd::prelude::*;

use crate::allocator::{addr_of, align_up, align_up_spec, lemma_align_up};

verus! {

/// The number of size classes.
pub const NUM_CLASSES: usize = 9;

/// The smallest size class, in bytes.
pub const MIN_BLOCK_SIZE: usize = 8;

/// The largest size class, in bytes.
pub const MAX_BLOCK_SIZE: usize = 2048;

/// The size in bytes of class `i`: 8, 16, 32, ..., 2048.
pub open spec fn class_size(i: int) -> int
    decreases i,
{
    if i <= 0 {
        MIN_BLOCK_SIZE as int
    } else {
        2 * class_size(i - 1)
    }
}

/// The first class at or after `k` whose blocks hold `size` bytes, or `NUM_CLASSES`.
pub open spec fn class_from(k: int, size: int) -> int
    decreases NUM_CLASSES - k,
{
    if k >= NUM_CLASSES || class_size(k) >= size {
        k
    } else {
        class_from(k + 1, size)
    }
}

/// The smallest class whose blocks hold `size` bytes.
pub open spec fn class_of(size: int) -> int {
    class_from(0, size)
}

/// The largest class at or after `k` whose blocks fit in `gap` bytes and whose size divides
/// the address `cur`.
pub open spec fn fitting_class_from(k: int, cur: int, gap: int) -> int
    decreases NUM_CLASSES - k,
{
    if k >= NUM_CLASSES - 1 || class_size(k + 1) > gap || cur % class_size(k + 1) != 0 {
        k
    } else {
        fitting_class_from(k + 1, cur, gap)
    }
}

/// A power of two: 1, 2, 4, 8, ...
pub open spec fn is_power_of_two(n: int) -> bool
    decreases n,
{
    if n <= 0 {
        false
    } else if n == 1 {
        true
    } else {
        n % 2 == 0 && is_power_of_two(n / 2)
    }
}

/// The alignment a fresh block of `block` bytes is carved at for a request aligned to `align`:
/// the stricter of the two.
pub open spec fn carve_align(block: int, align: int) -> int {
    if align > block {
        align
    } else {
        block
    }
}

/// Class sizes are at least the smallest class, grow with the class, are multiples of the
/// smallest class, and double at each step.
pub proof fn lemma_class_size(a: int, b: int)
    requires
        0 <= a <= b,
    ensures
        MIN_BLOCK_SIZE <= class_size(a) <= class_size(b),
        class_size(a) % (MIN_BLOCK_SIZE as int) == 0,
        class_size(a + 1) == 2 * class_size(a),
    decreases b,
{
    if a < b {
        lemma_class_size(a, b - 1);
    } else if a > 0 {
        lemma_class_size(a - 1, a - 1);
    }
}

/// `fitting_class_from` finds the largest class, from `k` on, whose blocks fit in `gap` bytes
/// and whose size divides `cur`.
proof fn lemma_fitting_class_from(k: int, cur: int, gap: int)
    requires
        0 <= k < NUM_CLASSES,
        class_size(k) <= gap,
        cur % class_size(k) == 0,
    ensures
        k <= fitting_class_from(k, cur, gap) < NUM_CLASSES,
        class_size(fitting_class_from(k, cur, gap)) <= gap,
        cur % class_size(fitting_class_from(k, cur, gap)) == 0,
    decreases NUM_CLASSES - k,
{
    if k < NUM_CLASSES - 1 && class_size(k + 1) <= gap && cur % class_size(k + 1) == 0 {
        lemma_fitting_class_from(k + 1, cur, gap);
    }
}

#[via_fn]
proof fn pad_decreases(free: Seq<Seq<usize>>, cur: int, target: int) {
    if target - cur >= MIN_BLOCK_SIZE && cur % (MIN_BLOCK_SIZE as int) == 0 {
        let c = fitting_class_from(0, cur, target - cur);
        lemma_fitting_class_from(0, cur, target - cur);
        lemma_class_size(c, c);
    }
}

/// How many blocks of the largest class a request of `size` bytes takes.
pub open spec fn blocks_needed(size: int) -> int {
    (size + MAX_BLOCK_SIZE - 1) / MAX_BLOCK_SIZE as int
}

/// Free lists with `addr` pushed on the list of class `c`.
pub open spec fn push(free: Seq<Seq<usize>>, c: int, addr: int) -> Seq<Seq<usize>> {
    free.update(c, free[c].push(addr as usize))
}

/// Free lists with the top of the list of class `c` taken off.
pub open spec fn pop(free: Seq<Seq<usize>>, c: int) -> Seq<Seq<usize>> {
    free.update(c, free[c].drop_last())
}

/// The top block of class `k` taken off and pushed back as its two halves on the list of class
/// `k - 1`: first the lower half, then the upper.
pub open spec fn split_block(free: Seq<Seq<usize>>, k: int) -> Seq<Seq<usize>> {
    let top = free[k].last();
    push(push(pop(free, k), k - 1, top as int), k - 1, top + class_size(k - 1))
}

/// The top block of class `j` split again and again down to class `idx`.
pub open spec fn split_from(free: Seq<Seq<usize>>, j: int, idx: int) -> Seq<Seq<usize>>
    decreases j - idx,
{
    if j <= idx || j >= free.len() || free[j].len() == 0 {
        free
    } else {
        split_from(split_block(free, j), j - 1, idx)
    }
}

/// The first class at or after `j` whose free list is not empty, or `NUM_CLASSES`.
pub open spec fn first_nonempty_from(free: Seq<Seq<usize>>, j: int) -> int
    decreases NUM_CLASSES - j,
{
    if j >= NUM_CLASSES || j < 0 {
        NUM_CLASSES as int
    } else if free[j].len() > 0 {
        j
    } else {
        first_nonempty_from(free, j + 1)
    }
}

/// The gap `[cur, target)` filled with padding blocks from the low end, each pushed on its own
/// free list. Each block is the largest class that fits the rest of the gap *and* that the
/// current address is a multiple of. The second condition is a deliberate departure from simply
/// taking the largest class that fits: that rule could put, say, a 32-byte block at an address
/// that is only a multiple of 8, and free blocks would then lose the alignment to their class
/// that reuse relies on. A rest under the smallest class is left unused, and so is the whole gap
/// when it starts at an address that is not a multiple of the smallest class (8 bytes).
pub open spec fn pad(free: Seq<Seq<usize>>, cur: int, target: int) -> Seq<Seq<usize>>
    decreases target - cur
    via pad_decreases
{
    if target - cur < MIN_BLOCK_SIZE || cur % (MIN_BLOCK_SIZE as int) != 0 {
        free
    } else {
        let c = fitting_class_from(0, cur, target - cur);
        pad(push(free, c, cur), cur + class_size(c), target)
    }
}

/// `n` blocks of the largest class starting at `ptr`, pushed in address order.
pub open spec fn push_run(free: Seq<Seq<usize>>, ptr: int, n: int) -> Seq<Seq<usize>>
    decreases n,
{
    if n <= 0 {
        free
    } else {
        push(
            push_run(free, ptr, n - 1),
            NUM_CLASSES - 1,
            ptr + MAX_BLOCK_SIZE * (n - 1),
        )
    }
}

/// Every block on the free lists lies in `[lo, hi)` whole.
pub open spec fn bounded(free: Seq<Seq<usize>>, lo: int, hi: int) -> bool {
    &&& free.len() == NUM_CLASSES
    &&& forall|c: int, k: int|
        0 <= c < NUM_CLASSES && 0 <= k < free[c].len() ==> lo <= #[trigger] free[c][k] && free[c][k]
            + class_size(c) <= hi
}

/// Every block on the free lists starts at a multiple of its class size.
pub open spec fn aligned(free: Seq<Seq<usize>>) -> bool {
    forall|c: int, k: int|
        0 <= c < NUM_CLASSES && 0 <= k < free[c].len() ==> #[trigger] free[c][k] as int % class_size(c)
            == 0
}

/// Whether `[a, a + n)` and `[b, b + m)` share a byte.
pub open spec fn overlap(a: int, n: int, b: int, m: int) -> bool {
    a < b + m && b < a + n
}

/// No free block overlaps `[a, a + n)`.
pub open spec fn misses(free: Seq<Seq<usize>>, a: int, n: int) -> bool {
    forall|c: int, k: int|
        0 <= c < NUM_CLASSES && 0 <= k < free[c].len() ==> !overlap(
            #[trigger] free[c][k] as int,
            class_size(c),
            a,
            n,
        )
}

/// No two free blocks overlap.
pub open spec fn disjoint(free: Seq<Seq<usize>>) -> bool {
    forall|c1: int, k1: int, c2: int, k2: int|
        0 <= c1 < NUM_CLASSES && 0 <= k1 < free[c1].len() && 0 <= c2 < NUM_CLASSES && 0 <= k2
            < free[c2].len() && (c1 != c2 || k1 != k2) ==> !overlap(
            #[trigger] free[c1][k1] as int,
            class_size(c1),
            #[trigger] free[c2][k2] as int,
            class_size(c2),
        )
}

/// The allocator's state: the heap, how much of it has been carved, and the free lists.
pub struct FixedState {
    pub heap_start: int,
    pub heap_size: int,
    pub used_memory: int,
    pub free: Seq<Seq<usize>>,
}

impl FixedState {
    /// The address just past the carved part of the heap.
    pub open spec fn carved_end(self) -> int {
        self.heap_start + self.used_memory
    }

    pub open spec fn wf(self) -> bool {
        &&& 0 <= self.heap_start
        &&& 0 <= self.used_memory <= self.heap_size
        &&& self.heap_start + self.heap_size <= usize::MAX
        &&& bounded(self.free, self.heap_start, self.carved_end())
        &&& aligned(self.free)
        &&& disjoint(self.free)
    }

    /// Carves `n` bytes aligned to `align` past the carved part, padding the gap before them with
    /// class-aligned blocks (see `pad`; a gap that starts off 8-byte alignment is left unused).
    pub open spec fn carve(self, n: int, align: int) -> (FixedState, Option<int>) {
        let cur = self.carved_end();
        let addr = align_up_spec(cur, align);
        if addr + n > self.heap_start + self.heap_size {
            (self, None)
        } else {
            (
                FixedState {
                    used_memory: addr + n - self.heap_start,
                    free: pad(self.free, cur, addr),
                    ..self
                },
                Some(addr),
            )
        }
    }

    /// The result of a request for `size` bytes aligned to `align`.
    pub open spec fn allocate(self, size: int, align: int) -> (FixedState, Option<int>) {
        if size > MAX_BLOCK_SIZE {
            self.carve(
                blocks_needed(size) * MAX_BLOCK_SIZE,
                carve_align(MAX_BLOCK_SIZE as int, align),
            )
        } else {
            let idx = class_of(size);
            if self.free[idx].len() > 0 {
                (FixedState { free: pop(self.free, idx), ..self }, Some(self.free[idx].last() as int))
            } else {
                let j = first_nonempty_from(self.free, idx + 1);
                if j < NUM_CLASSES {
                    let f = split_from(self.free, j, idx);
                    (FixedState { free: pop(f, idx), ..self }, Some(f[idx].last() as int))
                } else {
                    self.carve(class_size(idx), carve_align(class_size(idx), align))
                }
            }
        }
    }

    /// The state after the block at `ptr`, handed out for `size` bytes, is freed.
    pub open spec fn deallocate(self, ptr: int, size: int) -> FixedState {
        if size > MAX_BLOCK_SIZE {
            FixedState { free: push_run(self.free, ptr, blocks_needed(size)), ..self }
        } else {
            FixedState { free: push(self.free, class_of(size), ptr), ..self }
        }
    }

    /// The alignment of a block handed out for `size` bytes: its class size, or the largest
    /// class size for a run of blocks.
    pub open spec fn block_align(size: int) -> int {
        if size > MAX_BLOCK_SIZE {
            MAX_BLOCK_SIZE as int
        } else {
            class_size(class_of(size))
        }
    }

    /// How many bytes a block handed out for `size` bytes spans.
    pub open spec fn span(size: int) -> int {
        if size > MAX_BLOCK_SIZE {
            blocks_needed(size) * MAX_BLOCK_SIZE
        } else {
            class_size(class_of(size))
        }
    }
}

/// Pushing a block that lies in `[lo, hi)` at a multiple of its class size, overlapping no
/// free block, keeps every free block there, aligned, and apart from the others.
proof fn lemma_push_bounded(free: Seq<Seq<usize>>, c: int, a: int, lo: int, hi: int)
    requires
        bounded(free, lo, hi),
        aligned(free),
        disjoint(free),
        misses(free, a, class_size(c)),
        0 <= c < NUM_CLASSES,
        0 <= lo <= a,
        a + class_size(c) <= hi,
        a <= usize::MAX,
        a % class_size(c) == 0,
    ensures
        bounded(push(free, c, a), lo, hi),
        aligned(push(free, c, a)),
        disjoint(push(free, c, a)),
{
    let nf = push(free, c, a);
    assert forall|d: int, k: int| 0 <= d < NUM_CLASSES && 0 <= k < nf[d].len() implies lo
        <= #[trigger] nf[d][k] && nf[d][k] + class_size(d) <= hi && nf[d][k] as int % class_size(d)
        == 0 && (nf[d][k] == free[d][k] || (d == c && k == free[c].len() && nf[d][k] == a)) by {
        if d != c || k < free[c].len() {
            assert(nf[d][k] == free[d][k]);
        } else {
            assert(nf[d][k] == a);
        }
    }
    assert forall|c1: int, k1: int, c2: int, k2: int|
        0 <= c1 < NUM_CLASSES && 0 <= k1 < nf[c1].len() && 0 <= c2 < NUM_CLASSES && 0 <= k2
            < nf[c2].len() && (c1 != c2 || k1 != k2) implies !overlap(
        #[trigger] nf[c1][k1] as int,
        class_size(c1),
        #[trigger] nf[c2][k2] as int,
        class_size(c2),
    ) by {
        let new1 = c1 == c && k1 == free[c].len();
        let new2 = c2 == c && k2 == free[c].len();
        if !new1 {
            assert(nf[c1][k1] == free[c1][k1]);
        }
        if !new2 {
            assert(nf[c2][k2] == free[c2][k2]);
        }
    }
}

/// Taking a block off a free list keeps every free block where it was, and the block taken
/// overlaps none of those left.
proof fn lemma_pop_bounded(free: Seq<Seq<usize>>, c: int, lo: int, hi: int)
    requires
        bounded(free, lo, hi),
        aligned(free),
        disjoint(free),
        0 <= c < NUM_CLASSES,
        free[c].len() > 0,
    ensures
        bounded(pop(free, c), lo, hi),
        aligned(pop(free, c)),
        disjoint(pop(free, c)),
        misses(pop(free, c), free[c].last() as int, class_size(c)),
        lo <= free[c].last() && free[c].last() + class_size(c) <= hi,
        free[c].last() as int % class_size(c) == 0,
{
    let nf = pop(free, c);
    let last = free[c].len() - 1;
    assert(free[c].last() == free[c][last]);
    assert forall|d: int, k: int| 0 <= d < NUM_CLASSES && 0 <= k < nf[d].len() implies lo
        <= #[trigger] nf[d][k] && nf[d][k] + class_size(d) <= hi && nf[d][k] as int % class_size(d)
        == 0 && nf[d][k] == free[d][k] by {
        assert(nf[d][k] == free[d][k]);
    }
    assert forall|d: int, k: int| 0 <= d < NUM_CLASSES && 0 <= k < nf[d].len() implies !overlap(
        #[trigger] nf[d][k] as int,
        class_size(d),
        free[c].last() as int,
        class_size(c),
    ) by {
        assert(nf[d][k] == free[d][k]);
        assert(d != c || k != last);
        assert(!overlap(free[d][k] as int, class_size(d), free[c][last] as int, class_size(c)));
    }
    assert forall|c1: int, k1: int, c2: int, k2: int|
        0 <= c1 < NUM_CLASSES && 0 <= k1 < nf[c1].len() && 0 <= c2 < NUM_CLASSES && 0 <= k2
            < nf[c2].len() && (c1 != c2 || k1 != k2) implies !overlap(
        #[trigger] nf[c1][k1] as int,
        class_size(c1),
        #[trigger] nf[c2][k2] as int,
        class_size(c2),
    ) by {
        assert(nf[c1][k1] == free[c1][k1]);
        assert(nf[c2][k2] == free[c2][k2]);
    }
}

/// Blocks that all end by `hi` overlap nothing from `hi` on.
proof fn lemma_bounded_misses(free: Seq<Seq<usize>>, lo: int, hi: int, a: int, n: int)
    requires
        bounded(free, lo, hi),
        hi <= a,
    ensures
        misses(free, a, n),
{
}

/// Splitting the top block of class `k` keeps every free block in `[lo, hi)`, aligned, and
/// apart from the others.
proof fn lemma_split_block_bounded(free: Seq<Seq<usize>>, k: int, lo: int, hi: int)
    requires
        bounded(free, lo, hi),
        aligned(free),
        disjoint(free),
        1 <= k < NUM_CLASSES,
        free[k].len() > 0,
        0 <= lo,
        hi <= usize::MAX,
    ensures
        bounded(split_block(free, k), lo, hi),
        aligned(split_block(free, k)),
        disjoint(split_block(free, k)),
        split_block(free, k)[k - 1].len() > 0,
{
    let top = free[k].last() as int;
    lemma_pop_bounded(free, k, lo, hi);
    lemma_class_size(k - 1, k - 1);
    let h = class_size(k - 1);
    assert(top % h == 0 && (top + h) % h == 0) by (nonlinear_arith)
        requires
            top % (2 * h) == 0,
            h > 0,
            top >= 0,
    {
        let q = top / (2 * h);
        assert(top == h * (2 * q));
        assert(top + h == h * (2 * q + 1));
    }
    let f1 = pop(free, k);
    assert(misses(f1, top, h));
    lemma_push_bounded(f1, k - 1, top, lo, hi);
    let f2 = push(f1, k - 1, top);
    assert forall|d: int, j: int| 0 <= d < NUM_CLASSES && 0 <= j < f2[d].len() implies !overlap(
        #[trigger] f2[d][j] as int,
        class_size(d),
        top + h,
        h,
    ) by {
        if d != k - 1 || j < f1[k - 1].len() {
            assert(f2[d][j] == f1[d][j]);
            assert(!overlap(f1[d][j] as int, class_size(d), top, 2 * h));
        } else {
            assert(f2[d][j] == top);
        }
    }
    lemma_push_bounded(f2, k - 1, top + h, lo, hi);
}

/// Padding a gap from the end `cur` of every free block up to `target`, inside `[lo, hi)`,
/// keeps every free block there, aligned, and apart from the others.
proof fn lemma_pad_bounded(free: Seq<Seq<usize>>, cur: int, target: int, lo: int, hi: int)
    requires
        bounded(free, lo, cur),
        aligned(free),
        disjoint(free),
        0 <= lo <= cur <= target <= hi,
        hi <= usize::MAX,
    ensures
        bounded(pad(free, cur, target), lo, target),
        bounded(pad(free, cur, target), lo, hi),
        aligned(pad(free, cur, target)),
        disjoint(pad(free, cur, target)),
    decreases target - cur,
{
    if target - cur >= MIN_BLOCK_SIZE && cur % (MIN_BLOCK_SIZE as int) == 0 {
        let c = fitting_class_from(0, cur, target - cur);
        lemma_fitting_class_from(0, cur, target - cur);
        lemma_class_size(c, c);
        lemma_bounded_widen(free, lo, cur, cur + class_size(c));
        lemma_bounded_misses(free, lo, cur, cur, class_size(c));
        lemma_push_bounded(free, c, cur, lo, cur + class_size(c));
        lemma_pad_bounded(push(free, c, cur), cur + class_size(c), target, lo, hi);
    } else {
        lemma_bounded_widen(free, lo, cur, target);
        lemma_bounded_widen(free, lo, cur, hi);
    }
}

/// Free blocks in `[lo, hi)` are also in any wider range.
proof fn lemma_bounded_widen(free: Seq<Seq<usize>>, lo: int, hi: int, hi2: int)
    requires
        bounded(free, lo, hi),
        hi <= hi2,
    ensures
        bounded(free, lo, hi2),
{
}

/// `class_from` finds the first class, from `k` on, whose blocks hold `size` bytes.
proof fn lemma_class_from(k: int, size: int)
    requires
        0 <= k <= NUM_CLASSES,
        size <= MAX_BLOCK_SIZE,
    ensures
        k <= class_from(k, size) < NUM_CLASSES || (k == NUM_CLASSES && class_from(k, size) == k),
        forall|j: int| k <= j < class_from(k, size) ==> class_size(j) < size,
        class_from(k, size) < NUM_CLASSES ==> class_size(class_from(k, size)) >= size,
    decreases NUM_CLASSES - k,
{
    reveal_with_fuel(class_size, 9);
    if k < NUM_CLASSES && class_size(k) < size {
        lemma_class_from(k + 1, size);
    }
}

/// A request of at most `MAX_BLOCK_SIZE` bytes is served by the smallest class that holds it.
pub proof fn lemma_class_of_smallest(size: int)
    requires
        0 <= size <= MAX_BLOCK_SIZE,
    ensures
        0 <= class_of(size) < NUM_CLASSES,
        class_size(class_of(size)) >= size,
        class_of(size) == 0 || class_size(class_of(size) - 1) < size,
{
    lemma_class_from(0, size);
}

/// The size of a block of class `idx`.
fn class_block_size(idx: usize) -> (r: usize)
    requires
        idx < NUM_CLASSES,
    ensures
        r == class_size(idx as int),
        MIN_BLOCK_SIZE <= r <= MAX_BLOCK_SIZE,
{
    proof {
        reveal_with_fuel(class_size, 9);
        lemma_class_size(idx as int, NUM_CLASSES - 1);
        lemma_class_size(0, idx as int);
    }
    let mut size: usize = MIN_BLOCK_SIZE;
    let mut k: usize = 0;
    while k < idx
        invariant
            k <= idx < NUM_CLASSES,
            size == class_size(k as int),
            class_size(NUM_CLASSES - 1) == MAX_BLOCK_SIZE,
        decreases idx - k,
    {
        proof {
            lemma_class_size(k as int, k as int);
            lemma_class_size(k + 1, NUM_CLASSES - 1);
        }
        size = size * 2;
        k = k + 1;
    }
    size
}

/// A segregated free-list allocator: requests up to `MAX_BLOCK_SIZE` bytes are served from one
/// of nine size classes, and larger ones by a run of contiguous blocks of the largest class.
pub struct FixedSizeAllocator {
    heap_start: usize,
    heap_size: usize,
    used_memory: usize,
    free_list: Vec<Vec<usize>>,
}

impl View for FixedSizeAllocator {
    type V = FixedState;

    closed spec fn view(&self) -> FixedState {
        FixedState {
            heap_start: self.heap_start as int,
            heap_size: self.heap_size as int,
            used_memory: self.used_memory as int,
            free: self.free_list@.map_values(|v: Vec<usize>| v@),
        }
    }
}

impl FixedSizeAllocator {
    pub open spec fn wf(&self) -> bool {
        self@.wf()
    }

    /// An allocator with no heap yet and empty free lists.
    pub fn new() -> (r: Self)
        ensures
            r.wf(),
            r@.heap_start == 0,
            r@.heap_size == 0,
            r@.used_memory == 0,
            r@.free == Seq::new(NUM_CLASSES as nat, |i: int| Seq::<usize>::empty()),
    {
        let mut free_list: Vec<Vec<usize>> = Vec::new();
        let mut i: usize = 0;
        while i < NUM_CLASSES
            invariant
                i <= NUM_CLASSES,
                free_list@.len() == i,
                forall|k: int| 0 <= k < i ==> (#[trigger] free_list@[k])@.len() == 0,
            decreases NUM_CLASSES - i,
        {
            free_list.push(Vec::new());
            i = i + 1;
        }
        let r = FixedSizeAllocator { heap_start: 0, heap_size: 0, used_memory: 0, free_list };
        assert forall|k: int| 0 <= k < NUM_CLASSES implies #[trigger] r@.free[k] =~= Seq::<
            usize,
        >::empty() by {
            assert(r@.free[k] == r.free_list@[k]@);
        }
        assert(r@.free =~= Seq::new(NUM_CLASSES as nat, |i: int| Seq::<usize>::empty()));
        r
    }

    /// Hands the allocator the heap `[heap_start, heap_start + heap_size)`.
    pub fn init(&mut self, heap_start: usize, heap_size: usize)
        requires
            old(self).wf(),
            old(self)@.used_memory == 0,
            heap_start + heap_size <= usize::MAX,
        ensures
            final(self).wf(),
            final(self)@ == (FixedState {
                heap_start: heap_start as int,
                heap_size: heap_size as int,
                ..old(self)@
            }),
            forall|c: int| 0 <= c < NUM_CLASSES ==> #[trigger] final(self)@.free[c].len() == 0,
    {
        proof {
            let f = self@.free;
            assert forall|c: int| 0 <= c < NUM_CLASSES implies #[trigger] f[c].len() == 0 by {
                if f[c].len() > 0 {
                    assert(f[c][0] + class_size(c) <= self@.heap_start);
                    lemma_class_size(c, c);
                }
            }
        }
        self.heap_start = heap_start;
        self.heap_size = heap_size;
    }

    /// Pushes `addr` on the free list of class `idx`.
    fn push_free(&mut self, idx: usize, addr: usize)
        requires
            old(self)@.free.len() == NUM_CLASSES,
            old(self).free_list@.len() == NUM_CLASSES,
            idx < NUM_CLASSES,
        ensures
            final(self)@ == (FixedState { free: push(old(self)@.free, idx as int, addr as int), ..old(self)@ }),
            final(self).free_list@.len() == NUM_CLASSES,
    {
        let mut list: Vec<usize> = Vec::new();
        self.free_list.set_and_swap(idx, &mut list);
        list.push(addr);
        self.free_list.set_and_swap(idx, &mut list);
        assert(self@.free =~= push(old(self)@.free, idx as int, addr as int));
    }

    /// Pushes the block at `addr` on the free list of the class that holds `size` bytes.
    fn add_block(&mut self, addr: usize, size: usize)
        requires
            old(self)@.free.len() == NUM_CLASSES,
            old(self).free_list@.len() == NUM_CLASSES,
            size <= MAX_BLOCK_SIZE,
        ensures
            final(self)@ == (FixedState { free: push(old(self)@.free, class_of(size as int), addr as int), ..old(self)@ }),
            final(self).free_list@.len() == NUM_CLASSES,
    {
        let idx = Self::get_block_size_index(size);
        self.push_free(idx, addr);
    }

    /// Takes the top block off the free list of class `idx`, if there is one.
    fn remove_block(&mut self, idx: usize) -> (r: Option<usize>)
        requires
            old(self).wf(),
            old(self).free_list@.len() == NUM_CLASSES,
            idx < NUM_CLASSES,
        ensures
            final(self).wf(),
            final(self).free_list@.len() == NUM_CLASSES,
            old(self)@.free[idx as int].len() > 0 ==> r == Some(old(self)@.free[idx as int].last())
                && final(self)@ == (FixedState { free: pop(old(self)@.free, idx as int), ..old(self)@ }),
            old(self)@.free[idx as int].len() == 0 ==> r is None && final(self)@ == old(self)@,
    {
        let mut list: Vec<usize> = Vec::new();
        self.free_list.set_and_swap(idx, &mut list);
        let r = list.pop();
        self.free_list.set_and_swap(idx, &mut list);
        proof {
            if old(self)@.free[idx as int].len() > 0 {
                assert(self@.free =~= pop(old(self)@.free, idx as int));
                lemma_pop_bounded(old(self)@.free, idx as int, self@.heap_start, self@.carved_end());
            } else {
                assert(self@.free =~= old(self)@.free);
            }
        }
        r
    }

    /// Halves the top block of class `idx` onto the free list of the class below.
    fn split_block(&mut self, idx: usize)
        requires
            old(self).wf(),
            old(self).free_list@.len() == NUM_CLASSES,
            1 <= idx < NUM_CLASSES,
            old(self)@.free[idx as int].len() > 0,
        ensures
            final(self).wf(),
            final(self).free_list@.len() == NUM_CLASSES,
            final(self)@ == (FixedState { free: split_block(old(self)@.free, idx as int), ..old(self)@ }),
    {
        proof {
            lemma_split_block_bounded(self@.free, idx as int, self@.heap_start, self@.carved_end());
            lemma_pop_bounded(self@.free, idx as int, self@.heap_start, self@.carved_end());
            lemma_class_size(idx - 1, idx - 1);
        }
        let size = class_block_size(idx - 1);
        let node = match self.remove_block(idx) {
            Some(n) => n,
            None => return,
        };
        self.push_free(idx - 1, node);
        self.push_free(idx - 1, node + size);
    }

    /// The index of the first class from `start` on whose free list is not empty.
    fn find_index_of_larger_block(&self, start: usize) -> (r: Option<usize>)
        requires
            self.wf(),
            start <= NUM_CLASSES,
        ensures
            first_nonempty_from(self@.free, start as int) < NUM_CLASSES ==> r == Some(
                first_nonempty_from(self@.free, start as int) as usize,
            ),
            first_nonempty_from(self@.free, start as int) >= NUM_CLASSES ==> r is None,
    {
        let mut i = start;
        while i < NUM_CLASSES
            invariant
                start <= i <= NUM_CLASSES,
                self.free_list@.len() == NUM_CLASSES,
                self@.free.len() == NUM_CLASSES,
                first_nonempty_from(self@.free, i as int) == first_nonempty_from(
                    self@.free,
                    start as int,
                ),
            decreases NUM_CLASSES - i,
        {
            if self.free_list[i].len() > 0 {
                assert(self@.free[i as int] == self.free_list@[i as int]@);
                return Some(i);
            }
            assert(self@.free[i as int] == self.free_list@[i as int]@);
            i = i + 1;
        }
        None
    }

    /// The index of the smallest class whose blocks hold `size` bytes.
    fn get_block_size_index(size: usize) -> (r: usize)
        requires
            size <= MAX_BLOCK_SIZE,
        ensures
            r == class_of(size as int),
            r < NUM_CLASSES,
    {
        proof {
            lemma_class_from(0, size as int);
            reveal_with_fuel(class_size, 9);
        }
        let mut i: usize = 0;
        while class_block_size(i) < size
            invariant
                i <= class_of(size as int) < NUM_CLASSES,
                size <= MAX_BLOCK_SIZE,
                class_from(i as int, size as int) == class_of(size as int),
            decreases NUM_CLASSES - i,
        {
            assert(class_from(i as int, size as int) == class_from(i + 1, size as int));
            proof {
                lemma_class_from(i + 1, size as int);
            }
            i = i + 1;
        }
        i
    }

    /// The size of the class that serves a request of `size` bytes.
    fn round_up(size: usize) -> (r: usize)
        requires
            size <= MAX_BLOCK_SIZE,
        ensures
            r == class_size(class_of(size as int)),
    {
        class_block_size(Self::get_block_size_index(size))
    }

    /// The largest class whose blocks fit in `gap` bytes and whose size divides `cur`.
    fn fitting_class(cur: usize, gap: usize) -> (r: usize)
        requires
            gap >= MIN_BLOCK_SIZE,
            cur % MIN_BLOCK_SIZE == 0,
        ensures
            r == fitting_class_from(0, cur as int, gap as int),
            r < NUM_CLASSES,
    {
        proof {
            lemma_fitting_class_from(0, cur as int, gap as int);
        }
        let mut i: usize = 0;
        while i < NUM_CLASSES - 1 && class_block_size(i + 1) <= gap && cur % class_block_size(i + 1) == 0
            invariant
                i <= fitting_class_from(0, cur as int, gap as int) < NUM_CLASSES,
                fitting_class_from(i as int, cur as int, gap as int) == fitting_class_from(0, cur as int, gap as int),
                class_size(i as int) <= gap,
                cur as int % class_size(i as int) == 0,
            decreases NUM_CLASSES - i,
        {
            assert(fitting_class_from(i as int, cur as int, gap as int) == fitting_class_from(i + 1, cur as int, gap as int));
            proof {
                lemma_fitting_class_from(i + 1, cur as int, gap as int);
            }
            i = i + 1;
        }
        i
    }

        /// Carves `n` bytes aligned to `align` past the carved part of the heap, first pushing
    /// padding blocks for the gap that the alignment leaves, each the largest class that fits
    /// and that its address is a multiple of (a gap that starts off 8-byte alignment is left
    /// unused); `None`, with nothing changed, when they do not fit in the heap.
    fn carve(&mut self, n: usize, align: usize) -> (r: Option<usize>)
        requires
            old(self).wf(),
            old(self).free_list@.len() == NUM_CLASSES,
            align > 0,
        ensures
            final(self).wf(),
            final(self).free_list@.len() == NUM_CLASSES,
            (final(self)@, addr_of(r)) == old(self)@.carve(n as int, align as int),
    {
        let cur = self.heap_start + self.used_memory;
        proof {
            lemma_align_up(cur as int, align as int);
        }
        let addr = match align_up(cur, align) {
            Some(a) => a,
            None => return None,
        };
        let end = match addr.checked_add(n) {
            Some(e) => e,
            None => return None,
        };
        if end > self.heap_start + self.heap_size {
            return None;
        }
        self.used_memory = end - self.heap_start;
        proof {
            lemma_bounded_widen(old(self)@.free, self@.heap_start, cur as int, self@.carved_end());
        }
        let ghost free0 = self@.free;
        let mut c = cur;
        while addr - c >= MIN_BLOCK_SIZE && c % MIN_BLOCK_SIZE == 0
            invariant
                self.wf(),
                self.free_list@.len() == NUM_CLASSES,
                self@.heap_start == old(self)@.heap_start,
                self@.heap_size == old(self)@.heap_size,
                self@.used_memory == end - self@.heap_start,
                self@.heap_start <= cur <= c <= addr <= end,
                bounded(self@.free, self@.heap_start, c as int),
                pad(self@.free, c as int, addr as int) == pad(free0, cur as int, addr as int),
            decreases addr - c,
        {
            let idx = Self::fitting_class(c, addr - c);
            let size = class_block_size(idx);
            proof {
                lemma_fitting_class_from(0, c as int, (addr - c) as int);
                lemma_class_size(idx as int, idx as int);
                lemma_bounded_misses(self@.free, self@.heap_start, c as int, c as int, size as int);
                lemma_bounded_widen(self@.free, self@.heap_start, c as int, c + size);
                lemma_push_bounded(self@.free, idx as int, c as int, self@.heap_start, c + size);
                lemma_push_bounded(self@.free, idx as int, c as int, self@.heap_start, self@.carved_end());
            }
            self.push_free(idx, c);
            c = c + size;
        }
        Some(addr)
    }

    /// Carves a fresh block of the class that holds `size` bytes, aligned to the stricter of its
    /// class size and `align`.
    fn create_block(&mut self, size: usize, align: usize) -> (r: Option<usize>)
        requires
            old(self).wf(),
            old(self).free_list@.len() == NUM_CLASSES,
            size <= MAX_BLOCK_SIZE,
            align > 0,
        ensures
            final(self).wf(),
            final(self).free_list@.len() == NUM_CLASSES,
            (final(self)@, addr_of(r)) == old(self)@.carve(
                class_size(class_of(size as int)),
                carve_align(class_size(class_of(size as int)), align as int),
            ),
    {
        let block_size = Self::round_up(size);
        let carve_at = if align > block_size {
            align
        } else {
            block_size
        };
        self.carve(block_size, carve_at)
    }

    /// Carves a run of contiguous blocks of the largest class that holds `size` bytes. The whole
    /// run is checked to fit before anything is carved, so a request that fails leaves no block
    /// behind.
    fn allocate_huge(&mut self, size: usize, align: usize) -> (r: Option<usize>)
        requires
            old(self).wf(),
            old(self).free_list@.len() == NUM_CLASSES,
            size > MAX_BLOCK_SIZE,
            align > 0,
        ensures
            final(self).wf(),
            final(self).free_list@.len() == NUM_CLASSES,
            (final(self)@, addr_of(r)) == old(self)@.carve(
                blocks_needed(size as int) * MAX_BLOCK_SIZE,
                carve_align(MAX_BLOCK_SIZE as int, align as int),
            ),
    {
        let count = if size % MAX_BLOCK_SIZE == 0 {
            size / MAX_BLOCK_SIZE
        } else {
            size / MAX_BLOCK_SIZE + 1
        };
        assert(count == blocks_needed(size as int));
        let n = match count.checked_mul(MAX_BLOCK_SIZE) {
            Some(n) => n,
            None => {
                proof {
                    lemma_align_up(self@.carved_end(), carve_align(MAX_BLOCK_SIZE as int, align as int));
                }
                return None;
            },
        };
        let carve_at = if align > MAX_BLOCK_SIZE {
            align
        } else {
            MAX_BLOCK_SIZE
        };
        self.carve(n, carve_at)
    }

    /// Serves a request for `size` bytes aligned to `align`: from the free list of its class,
    /// else by splitting the first larger free block, else by carving a fresh block; a request
    /// above the largest class takes a fresh run of contiguous blocks of the largest class.
    pub fn allocate(&mut self, size: usize, align: usize) -> (r: Option<usize>)
        requires
            old(self).wf(),
            align > 0,
        ensures
            final(self).wf(),
            (final(self)@, addr_of(r)) == old(self)@.allocate(size as int, align as int),
            r matches Some(p) ==> final(self)@.heap_start <= p && p + FixedState::span(size as int)
                <= final(self)@.carved_end(),
            is_power_of_two(align as int) ==> (r matches Some(p) ==> p as int
                % FixedState::block_align(size as int) == 0),
            r matches Some(p) ==> misses(final(self)@.free, p as int, FixedState::span(size as int)),
    {
        proof {
            lemma_block_holds_request(old(self)@, size as int, align as int);
        }
        assert(self.free_list@.len() == NUM_CLASSES);
        if size > MAX_BLOCK_SIZE {
            return self.allocate_huge(size, align);
        }
        let idx = Self::get_block_size_index(size);
        match self.remove_block(idx) {
            Some(block) => return Some(block),
            None => {},
        }
        match self.find_index_of_larger_block(idx + 1) {
            Some(j) => {
                proof {
                    lemma_first_nonempty_from(self@.free, idx + 1);
                }
                let ghost free0 = self@.free;
                let mut k = j;
                while k > idx
                    invariant
                        self.wf(),
                        self.free_list@.len() == NUM_CLASSES,
                        self@.heap_start == old(self)@.heap_start,
                        self@.heap_size == old(self)@.heap_size,
                        self@.used_memory == old(self)@.used_memory,
                        idx <= k < NUM_CLASSES,
                        self@.free[k as int].len() > 0,
                        split_from(self@.free, k as int, idx as int) == split_from(
                            free0,
                            j as int,
                            idx as int,
                        ),
                    decreases k,
                {
                    proof {
                        lemma_split_block_bounded(self@.free, k as int, self@.heap_start, self@.carved_end());
                    }
                    self.split_block(k);
                    k = k - 1;
                }
                self.remove_block(idx)
            },
            None => self.create_block(size, align),
        }
    }

    /// How many bytes of the heap have been carved.
    pub fn used_memory(&self) -> (r: usize)
        ensures
            r == self@.used_memory,
    {
        self.used_memory
    }

    /// Whether a block handed out for `size` bytes at `ptr` lies whole in the carved part of the
    /// heap, aligned to its class, and overlaps no free block: what freeing it requires.
    pub fn owns(&self, ptr: usize, size: usize) -> (r: bool)
        requires
            self.wf(),
        ensures
            r == (self@.heap_start <= ptr && ptr + FixedState::span(size as int) <= self@.carved_end()
                && ptr as int % FixedState::block_align(size as int) == 0 && misses(
                self@.free,
                ptr as int,
                FixedState::span(size as int),
            )),
    {
        let block_align = if size > MAX_BLOCK_SIZE {
            MAX_BLOCK_SIZE
        } else {
            Self::round_up(size)
        };
        proof {
            if size <= MAX_BLOCK_SIZE {
                lemma_class_from(0, size as int);
                lemma_class_size(0, class_of(size as int));
            }
        }
        if ptr % block_align != 0 {
            return false;
        }
        let span = if size > MAX_BLOCK_SIZE {
            let count = if size % MAX_BLOCK_SIZE == 0 {
                size / MAX_BLOCK_SIZE
            } else {
                size / MAX_BLOCK_SIZE + 1
            };
            assert(count == blocks_needed(size as int));
            match count.checked_mul(MAX_BLOCK_SIZE) {
                Some(n) => n,
                None => return false,
            }
        } else {
            Self::round_up(size)
        };
        let end = self.heap_start + self.used_memory;
        if ptr < self.heap_start || ptr > end || span > end - ptr {
            return false;
        }
        let mut c: usize = 0;
        while c < NUM_CLASSES
            invariant
                c <= NUM_CLASSES,
                self.wf(),
                self.free_list@.len() == NUM_CLASSES,
                ptr + span <= end,
                end == self@.carved_end(),
                span == FixedState::span(size as int),
                forall|d: int, k: int|
                    0 <= d < c && 0 <= k < self@.free[d].len() ==> !overlap(
                        #[trigger] self@.free[d][k] as int,
                        class_size(d),
                        ptr as int,
                        span as int,
                    ),
            decreases NUM_CLASSES - c,
        {
            let cs = class_block_size(c);
            let list = &self.free_list[c];
            assert(list@ == self@.free[c as int]);
            let mut k: usize = 0;
            while k < list.len()
                invariant
                    k <= list@.len(),
                    c < NUM_CLASSES,
                    self.wf(),
                    list@ == self@.free[c as int],
                    cs == class_size(c as int),
                    span == FixedState::span(size as int),
                    ptr + span <= end,
                    end == self@.carved_end(),
                    forall|j: int| 0 <= j < k ==> !overlap(
                        #[trigger] list@[j] as int,
                        cs as int,
                        ptr as int,
                        span as int,
                    ),
                decreases list@.len() - k,
            {
                let e = list[k];
                assert(e + cs <= end);
                if e < ptr + span && ptr < e + cs {
                    assert(overlap(self@.free[c as int][k as int] as int, class_size(c as int), ptr as int, span as int));
                    assert(!misses(self@.free, ptr as int, span as int));
                    return false;
                }
                k = k + 1;
            }
            assert forall|d: int, j: int|
                0 <= d < c + 1 && 0 <= j < self@.free[d].len() implies !overlap(
                    #[trigger] self@.free[d][j] as int,
                    class_size(d),
                    ptr as int,
                    span as int,
                ) by {
                if d == c {
                    assert(list@[j] == self@.free[d][j]);
                }
            }
            c = c + 1;
        }
        true
    }

    /// Frees the block at `ptr` that was handed out for `size` bytes: it goes back on the free
    /// list of its class, or, above the largest class, as its run of blocks of the largest class.
    pub fn deallocate(&mut self, ptr: usize, size: usize)
        requires
            old(self).wf(),
            old(self)@.heap_start <= ptr,
            ptr + FixedState::span(size as int) <= old(self)@.carved_end(),
            ptr as int % FixedState::block_align(size as int) == 0,
            misses(old(self)@.free, ptr as int, FixedState::span(size as int)),
        ensures
            final(self).wf(),
            final(self)@ == old(self)@.deallocate(ptr as int, size as int),
    {
        assert(self.free_list@.len() == NUM_CLASSES);
        if size > MAX_BLOCK_SIZE {
            self.deallocate_huge(ptr, size);
        } else {
            proof {
                lemma_class_from(0, size as int);
                lemma_push_bounded(self@.free, class_of(size as int), ptr as int, self@.heap_start, self@.carved_end());
            }
            self.add_block(ptr, size);
        }
    }

    /// Pushes the run of blocks of the largest class that starts at `ptr`, one by one.
    fn deallocate_huge(&mut self, ptr: usize, size: usize)
        requires
            old(self).wf(),
            old(self).free_list@.len() == NUM_CLASSES,
            size > MAX_BLOCK_SIZE,
            old(self)@.heap_start <= ptr,
            ptr + blocks_needed(size as int) * MAX_BLOCK_SIZE <= old(self)@.carved_end(),
            ptr as int % MAX_BLOCK_SIZE as int == 0,
            misses(old(self)@.free, ptr as int, blocks_needed(size as int) * MAX_BLOCK_SIZE),
        ensures
            final(self).wf(),
            final(self)@ == old(self)@.deallocate(ptr as int, size as int),
    {
        let count = if size % MAX_BLOCK_SIZE == 0 {
            size / MAX_BLOCK_SIZE
        } else {
            size / MAX_BLOCK_SIZE + 1
        };
        assert(count == blocks_needed(size as int));
        let mut i: usize = 0;
        while i < count
            invariant
                self.wf(),
                self.free_list@.len() == NUM_CLASSES,
                self@.heap_start == old(self)@.heap_start,
                self@.heap_size == old(self)@.heap_size,
                self@.used_memory == old(self)@.used_memory,
                i <= count,
                self@.heap_start <= ptr,
                ptr as int % MAX_BLOCK_SIZE as int == 0,
                ptr + count * MAX_BLOCK_SIZE <= self@.carved_end(),
                misses(self@.free, ptr + MAX_BLOCK_SIZE * i, (count - i) * MAX_BLOCK_SIZE),
                self@.free == push_run(old(self)@.free, ptr as int, i as int),
            decreases count - i,
        {
            proof {
                assert(ptr + MAX_BLOCK_SIZE * i + MAX_BLOCK_SIZE <= ptr + count * MAX_BLOCK_SIZE) by (nonlinear_arith)
                    requires
                        i < count,
                ;
                assert((ptr + MAX_BLOCK_SIZE * i) % 2048 == 0) by (nonlinear_arith)
                    requires
                        ptr % 2048 == 0,
                        i >= 0,
                ;
                reveal_with_fuel(class_size, 9);
                let f = self@.free;
                let base = ptr + MAX_BLOCK_SIZE * i;
                assert((count - i) * MAX_BLOCK_SIZE == MAX_BLOCK_SIZE + (count - i - 1) * MAX_BLOCK_SIZE) by (nonlinear_arith);
                assert(misses(f, base, MAX_BLOCK_SIZE as int));
                lemma_push_bounded(f, NUM_CLASSES - 1, base, self@.heap_start, self@.carved_end());
                let nf = push(f, NUM_CLASSES - 1, base);
                assert forall|d: int, k: int| 0 <= d < NUM_CLASSES && 0 <= k < nf[d].len() implies !overlap(
                    #[trigger] nf[d][k] as int,
                    class_size(d),
                    base + MAX_BLOCK_SIZE,
                    (count - i - 1) * MAX_BLOCK_SIZE,
                ) by {
                    if d != NUM_CLASSES - 1 || k < f[d].len() {
                        assert(nf[d][k] == f[d][k]);
                    } else {
                        assert(nf[d][k] == base);
                    }
                }
            }
            self.push_free(NUM_CLASSES - 1, ptr + MAX_BLOCK_SIZE * i);
            i = i + 1;
        }
    }
}

/// `first_nonempty_from` finds the first class, from `j` on, whose free list is not empty.
proof fn lemma_first_nonempty_from(free: Seq<Seq<usize>>, j: int)
    requires
        0 <= j <= NUM_CLASSES,
        free.len() == NUM_CLASSES,
    ensures
        j <= first_nonempty_from(free, j) <= NUM_CLASSES,
        forall|k: int| j <= k < first_nonempty_from(free, j) ==> free[k].len() == 0,
        first_nonempty_from(free, j) < NUM_CLASSES ==> free[first_nonempty_from(free, j)].len()
            > 0,
    decreases NUM_CLASSES - j,
{
    if j < NUM_CLASSES && free[j].len() == 0 {
        lemma_first_nonempty_from(free, j + 1);
    }
}

/// Splitting from class `j` down to class `idx` keeps every free block in `[lo, hi)` and leaves
/// a block on the list of class `idx`.
proof fn lemma_split_from(free: Seq<Seq<usize>>, j: int, idx: int, lo: int, hi: int)
    requires
        bounded(free, lo, hi),
        aligned(free),
        disjoint(free),
        0 <= idx < j < NUM_CLASSES,
        free[j].len() > 0,
        0 <= lo,
        hi <= usize::MAX,
    ensures
        bounded(split_from(free, j, idx), lo, hi),
        aligned(split_from(free, j, idx)),
        disjoint(split_from(free, j, idx)),
        split_from(free, j, idx)[idx].len() > 0,
    decreases j - idx,
{
    lemma_split_block_bounded(free, j, lo, hi);
    let next = split_block(free, j);
    assert(split_from(free, j, idx) == split_from(next, j - 1, idx));
    if j - 1 > idx {
        lemma_split_from(next, j - 1, idx, lo, hi);
    } else {
        assert(split_from(next, j - 1, idx) == next);
    }
}

/// A run of `blocks_needed(size)` blocks of the largest class holds `size` bytes.
proof fn lemma_blocks_needed(size: int)
    requires
        size > MAX_BLOCK_SIZE,
    ensures
        blocks_needed(size) * MAX_BLOCK_SIZE >= size,
        blocks_needed(size) >= 1,
{
    assert(blocks_needed(size) * 2048 >= size) by (nonlinear_arith)
        requires
            blocks_needed(size) == (size + 2047) / 2048,
    ;
}

/// Class sizes are powers of two.
proof fn lemma_class_power_of_two(i: int)
    requires
        0 <= i,
    ensures
        is_power_of_two(class_size(i)),
    decreases i,
{
    if i == 0 {
        reveal_with_fuel(is_power_of_two, 5);
    } else {
        lemma_class_power_of_two(i - 1);
        lemma_class_size(i - 1, i - 1);
        let x = class_size(i - 1);
        assert((2 * x) % 2 == 0 && (2 * x) / 2 == x);
    }
}

/// Of two powers of two, the larger is a multiple of the smaller.
proof fn lemma_power_of_two_divides(a: int, b: int)
    requires
        is_power_of_two(a),
        is_power_of_two(b),
        a <= b,
    ensures
        b % a == 0,
    decreases a,
{
    if a != 1 {
        assert(b != 1);
        let ha = a / 2;
        let hb = b / 2;
        lemma_power_of_two_divides(ha, hb);
        assert(b % a == 0) by (nonlinear_arith)
            requires
                a == 2 * ha,
                b == 2 * hb,
                hb % ha == 0,
                ha > 0,
        {
            let m = hb / ha;
            assert(b == a * m);
        }
    }
}

/// An address aligned to the stricter of a class size and a power-of-two alignment is a
/// multiple of the class size.
proof fn lemma_carve_aligned(addr: int, cls: int, align: int)
    requires
        is_power_of_two(cls),
        is_power_of_two(align),
        addr >= 0,
        addr % carve_align(cls, align) == 0,
    ensures
        addr % cls == 0,
{
    if align > cls {
        lemma_power_of_two_divides(cls, align);
        assert(addr % cls == 0) by (nonlinear_arith)
            requires
                addr % align == 0,
                align % cls == 0,
                cls > 0,
                align > 0,
                addr >= 0,
        {
            let m = addr / align;
            let n = align / cls;
            assert(addr == cls * (n * m));
        }
    }
}

/// A request that succeeds gets a block that holds at least the bytes asked for, lies whole in
/// the carved part of the heap, and overlaps no block left on the free lists; for a power-of-two
/// alignment, the block starts at a multiple of its class size. The carved part never shrinks.
pub proof fn lemma_block_holds_request(s: FixedState, size: int, align: int)
    requires
        s.wf(),
        0 <= size,
        align > 0,
    ensures
        ({
            let (t, r) = s.allocate(size, align);
            &&& t.wf()
            &&& t.used_memory >= s.used_memory
            &&& FixedState::span(size) >= size
            &&& r is Some ==> t.heap_start <= r->Some_0 && r->Some_0 + FixedState::span(size)
                <= t.carved_end()
            &&& r is Some && is_power_of_two(align) ==> r->Some_0 % FixedState::block_align(size)
                == 0
            &&& r is Some ==> misses(t.free, r->Some_0, FixedState::span(size))
        }),
{
    let (t, r) = s.allocate(size, align);
    let cur = s.carved_end();
    if size > MAX_BLOCK_SIZE {
        lemma_blocks_needed(size);
        let a2 = carve_align(MAX_BLOCK_SIZE as int, align);
        lemma_align_up(cur, a2);
        let addr = align_up_spec(cur, a2);
        if r is Some {
            lemma_bounded_widen(s.free, s.heap_start, cur, t.carved_end());
            lemma_pad_bounded(s.free, cur, addr, s.heap_start, t.carved_end());
            lemma_bounded_misses(t.free, s.heap_start, addr, addr, FixedState::span(size));
            if is_power_of_two(align) {
                lemma_class_power_of_two(NUM_CLASSES - 1);
                reveal_with_fuel(class_size, 9);
                lemma_carve_aligned(addr, MAX_BLOCK_SIZE as int, align);
            }
        }
    } else {
        let idx = class_of(size);
        lemma_class_from(0, size);
        if s.free[idx].len() > 0 {
            lemma_pop_bounded(s.free, idx, s.heap_start, cur);
        } else {
            let j = first_nonempty_from(s.free, idx + 1);
            lemma_first_nonempty_from(s.free, idx + 1);
            if j < NUM_CLASSES {
                lemma_split_from(s.free, j, idx, s.heap_start, cur);
                lemma_pop_bounded(split_from(s.free, j, idx), idx, s.heap_start, cur);
            } else {
                let a2 = carve_align(class_size(idx), align);
                lemma_class_size(idx, idx);
                lemma_align_up(cur, a2);
                let addr = align_up_spec(cur, a2);
                if r is Some {
                    lemma_bounded_widen(s.free, s.heap_start, cur, t.carved_end());
                    lemma_pad_bounded(s.free, cur, addr, s.heap_start, t.carved_end());
                    lemma_bounded_misses(t.free, s.heap_start, addr, addr, FixedState::span(size));
                    if is_power_of_two(align) {
                        lemma_class_power_of_two(idx);
                        lemma_carve_aligned(addr, class_size(idx), align);
                    }
                }
            }
        }
    }
}

/// Allocating, freeing that block, and allocating the same size again, for a request that a
/// size class serves, hands out the same address and leaves the state as after the first
/// allocation, with the carved part unchanged.
pub proof fn lemma_round_trip(s: FixedState, size: int, align: int)
    requires
        s.wf(),
        0 <= size <= MAX_BLOCK_SIZE,
        align > 0,
        s.allocate(size, align).1 is Some,
    ensures
        ({
            let (t, r) = s.allocate(size, align);
            let p = r->Some_0;
            &&& t.heap_start <= p
            &&& p + FixedState::span(size) <= t.carved_end()
            &&& t.deallocate(p, size).allocate(size, align) == (t, r)
        }),
{
    lemma_block_holds_request(s, size, align);
    let (t, r) = s.allocate(size, align);
    let p = r->Some_0;
    let idx = class_of(size);
    lemma_class_from(0, size);
    let t2 = t.deallocate(p, size);
    assert(t2.free[idx].last() == p as usize);
    assert(pop(t2.free, idx) =~= t.free) by {
        assert(t2.free[idx].drop_last() =~= t.free[idx]);
    }
}

/// A request for no bytes fails only when every free list is empty and no block of the smallest
/// class can be carved; a request larger than the whole heap fails and leaves the state as it
/// was.
pub proof fn lemma_boundaries(s: FixedState, size: int, align: int)
    requires
        s.wf(),
        0 <= size,
        align > 0,
    ensures
        (exists|c: int| 0 <= c < NUM_CLASSES && #[trigger] s.free[c].len() > 0) || align_up_spec(
            s.carved_end(),
            carve_align(MIN_BLOCK_SIZE as int, align),
        ) + MIN_BLOCK_SIZE <= s.heap_start + s.heap_size ==> s.allocate(0, align).1 is Some,
        size > s.heap_size ==> s.allocate(size, align) == (s, None::<int>),
{
    lemma_class_from(0, 0);
    lemma_first_nonempty_from(s.free, 1);
    reveal_with_fuel(class_size, 2);
    let cur = s.carved_end();
    lemma_align_up(cur, carve_align(MIN_BLOCK_SIZE as int, align));
    lemma_align_up(cur, carve_align(MAX_BLOCK_SIZE as int, align));
    if size > s.heap_size {
        if size > MAX_BLOCK_SIZE {
            lemma_blocks_needed(size);
        } else {
            let idx = class_of(size);
            lemma_class_from(0, size);
            lemma_first_nonempty_from(s.free, idx + 1);
            lemma_class_size(idx, idx);
            lemma_align_up(cur, carve_align(class_size(idx), align));
            assert forall|c: int| idx <= c < NUM_CLASSES implies #[trigger] s.free[c].len() == 0 by {
                lemma_class_size(idx, c);
                if s.free[c].len() > 0 {
                    assert(s.free[c][0] + class_size(c) <= cur);
                }
            }
        }
    }
}

} // verus!
