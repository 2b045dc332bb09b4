use vstd::prelude::*;

use crate::allocator::{addr_of, align_up, align_up_spec, lemma_align_up};

verus! {

/// The size of a block of order 0, in bytes.
pub const BLOCK_SIZE: usize = 16;

/// The largest order a block can have.
pub const MAX_ORDER: u8 = 24;

/// The size of a block header: its order and whether it is free.
pub const HEADER_SIZE: usize = 2;

/// The size in bytes of a block of the given order.
pub open spec fn block_size(order: nat) -> nat
    decreases order,
{
    if order == 0 {
        BLOCK_SIZE as nat
    } else {
        2 * block_size((order - 1) as nat)
    }
}

/// How many bytes of payload a block of the given order holds after its header.
pub open spec fn capacity(order: nat) -> int {
    block_size(order) - HEADER_SIZE
}

/// The first order at or after `k` whose capacity holds `size` bytes, or `MAX_ORDER + 1`.
pub open spec fn order_from(k: nat, size: int) -> nat
    decreases MAX_ORDER + 1 - k,
{
    if k > MAX_ORDER || capacity(k) >= size {
        k
    } else {
        order_from(k + 1, size)
    }
}

/// The smallest order whose capacity holds `size` bytes; `MAX_ORDER + 1` when none does.
pub open spec fn order_spec(size: int) -> nat {
    order_from(0, size)
}

/// How far past the start of every block an aligned payload starts, for an alignment that
/// divides `BLOCK_SIZE`: blocks start at `heap_start` plus a multiple of `BLOCK_SIZE`, so the
/// offset is the same in each.
pub open spec fn payload_offset(heap_start: int, align: int) -> int {
    align_up_spec(heap_start + HEADER_SIZE, align) - heap_start
}

/// The order that a request for `size` bytes aligned to `align` needs on a heap starting at
/// `heap_start`. For an alignment that divides `BLOCK_SIZE` it is the least order whose block
/// holds the payload at its aligned place; for alignment 1 (and for 2 on an even heap start)
/// that is `order_spec(size)`. For any other alignment the payload may start up to `align - 1`
/// bytes after the header, so the block must hold `size + align - 1` bytes.
pub open spec fn request_order(heap_start: int, size: int, align: int) -> nat {
    order_spec(request_bytes(heap_start, size, align))
}

/// How many bytes past its header a block must hold for the request: the payload and the
/// alignment padding before it.
pub open spec fn request_bytes(heap_start: int, size: int, align: int) -> int {
    if BLOCK_SIZE as int % align == 0 {
        size + payload_offset(heap_start, align) - HEADER_SIZE
    } else {
        size + align - 1
    }
}

/// The largest order at or after `k`, up to `MAX_ORDER`, whose block fits in `heap_size` bytes.
pub open spec fn heap_order_from(k: nat, heap_size: int) -> nat
    decreases MAX_ORDER - k,
{
    if k >= MAX_ORDER || block_size(k + 1) > heap_size {
        k
    } else {
        heap_order_from(k + 1, heap_size)
    }
}

/// A block of the heap: where it starts, its order, and whether it is free.
#[derive(Clone, Copy)]
pub struct Block {
    pub addr: usize,
    pub order: u8,
    pub is_free: bool,
}

impl Block {
    /// The address just past the block.
    pub open spec fn end(self) -> int {
        self.addr + block_size(self.order as nat)
    }

    /// Whether the block can serve a request of the given order.
    pub open spec fn serves(self, order: nat) -> bool {
        self.is_free && self.order >= order
    }

    /// Whether `ptr` was handed out from this block: it lies after the header's start and no
    /// further than the block's end.
    pub open spec fn holds(self, ptr: int) -> bool {
        self.addr < ptr <= self.end()
    }

    /// The block's size in bytes.
    pub fn size(&self) -> (r: usize)
        requires
            self.order <= MAX_ORDER,
        ensures
            r == block_size(self.order as nat),
    {
        order_size(self.order)
    }

    /// The address of the block that follows this one.
    pub fn next_free_addr(&self) -> (r: usize)
        requires
            self.order <= MAX_ORDER,
            self.end() <= usize::MAX,
        ensures
            r == self.end(),
    {
        self.addr + self.size()
    }
}

/// The size in bytes of a block of the given order.
fn order_size(order: u8) -> (r: usize)
    requires
        order <= MAX_ORDER + 1,
    ensures
        r == block_size(order as nat),
        r <= block_size((MAX_ORDER + 1) as nat),
{
    proof {
        lemma_block_size_mono(order as nat, (MAX_ORDER + 1) as nat);
        lemma_block_size_max();
    }
    let mut size: usize = BLOCK_SIZE;
    let mut k: u8 = 0;
    while k < order
        invariant
            k <= order <= MAX_ORDER + 1,
            size == block_size(k as nat),
            block_size(order as nat) <= block_size((MAX_ORDER + 1) as nat) < usize::MAX,
        decreases order - k,
    {
        proof {
            lemma_block_size_mono((k + 1) as nat, order as nat);
        }
        size = size * 2;
        k = k + 1;
    }
    size
}

/// Block sizes grow with the order, are multiples of `BLOCK_SIZE`, and double at each step.
pub proof fn lemma_block_size_mono(a: nat, b: nat)
    requires
        a <= b,
    ensures
        BLOCK_SIZE <= block_size(a) <= block_size(b),
        block_size(a) % (BLOCK_SIZE as nat) == 0,
        block_size(a + 1) == 2 * block_size(a),
    decreases b,
{
    if a < b {
        lemma_block_size_mono(a, (b - 1) as nat);
    } else if a > 0 {
        lemma_block_size_mono((a - 1) as nat, (a - 1) as nat);
    }
}

/// The size of a block one order past the largest.
proof fn lemma_block_size_max()
    ensures
        block_size((MAX_ORDER + 1) as nat) == 0x2000_0000,
        block_size(MAX_ORDER as nat) == 0x1000_0000,
{
    reveal_with_fuel(block_size, 26);
}

/// Block `i` starts where block `i - 1` ends.
pub open spec fn adjacent(blocks: Seq<Block>, i: int) -> bool {
    blocks[i].addr == blocks[i - 1].end()
}

/// The blocks `blocks` lie one after another from `start` to `end`, with no gap and no overlap.
pub open spec fn tiles(blocks: Seq<Block>, start: int, end: int) -> bool {
    &&& blocks.len() > 0
    &&& blocks[0].addr == start
    &&& forall|i: int| 0 <= i < blocks.len() ==> #[trigger] blocks[i].order <= MAX_ORDER
    &&& forall|i: int| 0 < i < blocks.len() ==> #[trigger] adjacent(blocks, i)
    &&& blocks.last().end() == end
}

/// In a tiling, each block ends no later than any later block begins.
proof fn lemma_tiles_pair(blocks: Seq<Block>, start: int, end: int, i: int, j: int)
    requires
        tiles(blocks, start, end),
        0 <= i < j < blocks.len(),
    ensures
        blocks[i].end() <= blocks[j].addr,
    decreases j - i,
{
    lemma_block_size_mono(blocks[j - 1].order as nat, blocks[j - 1].order as nat);
    assert(adjacent(blocks, j));
    if i < j - 1 {
        lemma_tiles_pair(blocks, start, end, i, j - 1);
    }
}

/// In a tiling, every block lies between the start and the end, a whole number of
/// `BLOCK_SIZE` steps after the start.
proof fn lemma_tiles_bounds(blocks: Seq<Block>, start: int, end: int, i: int)
    requires
        tiles(blocks, start, end),
        0 <= i < blocks.len(),
    ensures
        start <= blocks[i].addr < blocks[i].end() <= end,
        (blocks[i].addr - start) % (BLOCK_SIZE as int) == 0,
    decreases i,
{
    lemma_block_size_mono(blocks[i].order as nat, blocks[i].order as nat);
    if i < blocks.len() - 1 {
        lemma_tiles_pair(blocks, start, end, i, blocks.len() - 1);
        lemma_block_size_mono(blocks.last().order as nat, blocks.last().order as nat);
    }
    if i > 0 {
        lemma_tiles_bounds(blocks, start, end, i - 1);
        assert(adjacent(blocks, i));
        let p = blocks[i - 1];
        lemma_block_size_mono(p.order as nat, p.order as nat);
        assert((blocks[i].addr - start) % 16 == 0) by (nonlinear_arith)
            requires
                blocks[i].addr == p.addr + block_size(p.order as nat),
                (p.addr - start) % 16 == 0,
                block_size(p.order as nat) % 16 == 0,
        ;
    }
}

/// In a tiling, at most one block holds a given pointer.
proof fn lemma_tiles_holds_unique(blocks: Seq<Block>, start: int, end: int, i: int, j: int, ptr: int)
    requires
        tiles(blocks, start, end),
        0 <= i < blocks.len(),
        0 <= j < blocks.len(),
        blocks[i].holds(ptr),
        blocks[j].holds(ptr),
    ensures
        i == j,
{
    if i < j {
        lemma_tiles_pair(blocks, start, end, i, j);
    } else if j < i {
        lemma_tiles_pair(blocks, start, end, j, i);
    }
}

/// Halving a block of a tiling leaves a tiling of the same range.
proof fn lemma_split_at(blocks: Seq<Block>, start: int, end: int, i: int)
    requires
        tiles(blocks, start, end),
        end <= usize::MAX,
        0 <= i < blocks.len(),
        blocks[i].order > 0,
    ensures
        tiles(split_at(blocks, i), start, end),
        split_at(blocks, i).len() == blocks.len() + 1,
        split_at(blocks, i)[i].addr == blocks[i].addr,
        split_at(blocks, i)[i].is_free == blocks[i].is_free,
        split_at(blocks, i)[i].order == blocks[i].order - 1,
        forall|k: int| 0 <= k < i ==> split_at(blocks, i)[k] == blocks[k],
{
    let b = blocks[i];
    let half = (b.order - 1) as nat;
    lemma_block_size_mono(half, half);
    lemma_tiles_bounds(blocks, start, end, i);
    let nb = split_at(blocks, i);
    assert(nb[i + 1].addr == b.addr + block_size(half));
    assert forall|k: int| 0 < k < nb.len() implies #[trigger] adjacent(nb, k) by {
        if k < i {
            assert(adjacent(blocks, k));
            assert(nb[k] == blocks[k] && nb[k - 1] == blocks[k - 1]);
        } else if k == i {
            assert(adjacent(blocks, k));
            assert(nb[k - 1] == blocks[k - 1]);
        } else if k == i + 2 {
            assert(adjacent(blocks, i + 1));
            assert(nb[k] == blocks[i + 1]);
        } else if k > i + 2 {
            assert(adjacent(blocks, k - 1));
            assert(nb[k] == blocks[k - 1] && nb[k - 1] == blocks[k - 2]);
        }
    }
    assert forall|k: int| 0 <= k < nb.len() implies #[trigger] nb[k].order <= MAX_ORDER by {
        if k > i + 1 {
            assert(nb[k] == blocks[k - 1]);
        }
    }
    if i + 1 < blocks.len() {
        assert(nb.last() == blocks.last());
    }
}

/// Marking one block free or used leaves a tiling.
proof fn lemma_set_free(blocks: Seq<Block>, start: int, end: int, i: int, free: bool)
    requires
        tiles(blocks, start, end),
        0 <= i < blocks.len(),
    ensures
        tiles(blocks.update(i, Block { is_free: free, ..blocks[i] }), start, end),
{
    let nb = blocks.update(i, Block { is_free: free, ..blocks[i] });
    assert forall|k: int| 0 < k < nb.len() implies #[trigger] adjacent(nb, k) by {
        assert(adjacent(blocks, k));
    }
    assert forall|k: int| 0 <= k < nb.len() implies #[trigger] nb[k].order <= MAX_ORDER by {
        assert(blocks[k].order <= MAX_ORDER);
    }
}

/// Splitting block `i` down to `order` keeps a tiling, keeps the blocks before `i`, and leaves
/// at `i` a block of that order at the same address, still free.
proof fn lemma_split_down(blocks: Seq<Block>, start: int, end: int, i: int, order: nat)
    requires
        tiles(blocks, start, end),
        end <= usize::MAX,
        0 <= i < blocks.len(),
        blocks[i].order >= order,
    ensures
        tiles(split_down(blocks, i, order), start, end),
        split_down(blocks, i, order).len() >= blocks.len(),
        split_down(blocks, i, order)[i].addr == blocks[i].addr,
        split_down(blocks, i, order)[i].is_free == blocks[i].is_free,
        split_down(blocks, i, order)[i].order == order,
        forall|k: int| 0 <= k < i ==> split_down(blocks, i, order)[k] == blocks[k],
    decreases blocks[i].order - order,
{
    if blocks[i].order > order {
        lemma_split_at(blocks, start, end, i);
        lemma_split_down(split_at(blocks, i), start, end, i, order);
    }
}

/// `first_fit_from` finds the first block at or after `i` that serves the order.
proof fn lemma_first_fit_from(blocks: Seq<Block>, order: nat, i: int)
    requires
        0 <= i <= blocks.len(),
    ensures
        i <= first_fit_from(blocks, order, i) <= blocks.len(),
        forall|k: int| i <= k < first_fit_from(blocks, order, i) ==> !blocks[k].serves(order),
        first_fit_from(blocks, order, i) < blocks.len() ==> blocks[first_fit_from(
            blocks,
            order,
            i,
        )].serves(order),
    decreases blocks.len() - i,
{
    if i < blocks.len() && !blocks[i].serves(order) {
        lemma_first_fit_from(blocks, order, i + 1);
    }
}

/// The index of the first block at or after `i` that serves `order`, or the number of blocks.
pub open spec fn first_fit_from(blocks: Seq<Block>, order: nat, i: int) -> int
    decreases blocks.len() - i,
{
    if i >= blocks.len() || i < 0 {
        blocks.len() as int
    } else if blocks[i].serves(order) {
        i
    } else {
        first_fit_from(blocks, order, i + 1)
    }
}

/// The index of the first block that serves `order`, or the number of blocks.
pub open spec fn first_fit(blocks: Seq<Block>, order: nat) -> int {
    first_fit_from(blocks, order, 0)
}

/// Block `i` halved: its first half keeps its place, its second half follows it as a free block.
pub open spec fn split_at(blocks: Seq<Block>, i: int) -> Seq<Block> {
    let b = blocks[i];
    let half = (b.order - 1) as u8;
    blocks.update(i, Block { order: half, ..b }).insert(
        i + 1,
        Block { addr: (b.addr + block_size(half as nat)) as usize, order: half, is_free: true },
    )
}

/// Block `i` halved again and again until it has order `order`.
pub open spec fn split_down(blocks: Seq<Block>, i: int, order: nat) -> Seq<Block>
    decreases blocks[i].order - order,
{
    if 0 <= i < blocks.len() && blocks[i].order > order {
        split_down(split_at(blocks, i), i, order)
    } else {
        blocks
    }
}

/// The allocator's state: where the heap starts, its order, and its blocks in address order.
pub struct BuddyState {
    pub heap_start: int,
    pub heap_order: nat,
    pub blocks: Seq<Block>,
}

impl BuddyState {
    /// The address just past the heap.
    pub open spec fn heap_end(self) -> int {
        self.heap_start + block_size(self.heap_order)
    }

    pub open spec fn wf(self) -> bool {
        &&& 0 <= self.heap_start
        &&& self.heap_order <= MAX_ORDER
        &&& self.blocks.len() > 0 ==> self.heap_end() <= usize::MAX && tiles(
            self.blocks,
            self.heap_start,
            self.heap_end(),
        )
    }

    /// The address handed out from block `i` for a request aligned to `align`: the first
    /// aligned address after the header.
    pub open spec fn payload(self, i: int, align: int) -> int {
        align_up_spec(self.blocks[i].addr + HEADER_SIZE, align)
    }

    /// The result of a request for `size` bytes aligned to `align`: the first free block large
    /// enough is split down to the order the request needs and marked used.
    pub open spec fn allocate(self, size: int, align: int) -> (BuddyState, Option<int>) {
        let order = request_order(self.heap_start, size, align);
        let i = first_fit(self.blocks, order);
        if order > MAX_ORDER || i >= self.blocks.len() {
            (self, None)
        } else {
            let split = split_down(self.blocks, i, order);
            (
                BuddyState { blocks: split.update(i, Block { is_free: false, ..split[i] }), ..self },
                Some(self.payload(i, align)),
            )
        }
    }

    /// The index of the block that `ptr` was handed out from.
    pub open spec fn block_of(self, ptr: int) -> int {
        choose|i: int| 0 <= i < self.blocks.len() && self.blocks[i].holds(ptr)
    }

    /// The state after `ptr` is freed: its block is marked free, and nothing is merged.
    pub open spec fn deallocate(self, ptr: int) -> BuddyState {
        let i = self.block_of(ptr);
        BuddyState {
            blocks: self.blocks.update(i, Block { is_free: true, ..self.blocks[i] }),
            ..self
        }
    }
}

/// A binary buddy allocator: blocks of `BLOCK_SIZE * 2^order` bytes are halved on demand and
/// found again by a scan from the start of the heap. Freed blocks are never merged.
pub struct BuddyAllocator {
    heap_start: usize,
    heap_order: u8,
    blocks: Vec<Block>,
}

impl View for BuddyAllocator {
    type V = BuddyState;

    closed spec fn view(&self) -> BuddyState {
        BuddyState {
            heap_start: self.heap_start as int,
            heap_order: self.heap_order as nat,
            blocks: self.blocks@,
        }
    }
}

impl BuddyAllocator {
    pub open spec fn wf(&self) -> bool {
        self@.wf()
    }

    /// An allocator with no heap yet.
    pub fn new() -> (r: Self)
        ensures
            r.wf(),
            r@.heap_start == 0,
            r@.heap_order == 0,
            r@.blocks.len() == 0,
    {
        BuddyAllocator { heap_start: 0, heap_order: 0, blocks: Vec::new() }
    }

    /// Hands the allocator the heap `[heap_start, heap_start + heap_size)`: it keeps the largest
    /// block, of order at most `MAX_ORDER`, that fits at the heap's start, as one free block. A
    /// heap smaller than one block of order 0 holds no block.
    pub fn init(&mut self, heap_start: usize, heap_size: usize)
        requires
            heap_start + heap_size <= usize::MAX,
        ensures
            final(self).wf(),
            final(self)@.heap_start == heap_start,
            heap_size < BLOCK_SIZE ==> final(self)@.heap_order == 0 && final(self)@.blocks.len()
                == 0,
            heap_size >= BLOCK_SIZE ==> {
                &&& final(self)@.heap_order == heap_order_from(0, heap_size as int)
                &&& final(self)@.blocks == seq![
                    Block {
                        addr: heap_start,
                        order: final(self)@.heap_order as u8,
                        is_free: true,
                    },
                ]
            },
    {
        self.heap_start = heap_start;
        self.blocks = Vec::new();
        self.heap_order = 0;
        if heap_size < BLOCK_SIZE {
            return;
        }
        let mut order: u8 = 0;
        let mut size: usize = BLOCK_SIZE;
        proof {
            lemma_block_size_max();
        }
        while order < MAX_ORDER && size * 2 <= heap_size
            invariant
                order <= MAX_ORDER,
                size == block_size(order as nat),
                size <= heap_size,
                size <= 0x1000_0000,
                heap_order_from(order as nat, heap_size as int) == heap_order_from(
                    0,
                    heap_size as int,
                ),
                block_size((MAX_ORDER + 1) as nat) == 0x2000_0000,
            decreases MAX_ORDER - order,
        {
            proof {
                lemma_block_size_mono((order + 1) as nat, MAX_ORDER as nat);
                lemma_block_size_mono(order as nat, order as nat);
            }
            size = size * 2;
            order = order + 1;
        }
        self.heap_order = order;
        self.blocks.push(Block { addr: heap_start, order, is_free: true });
    }

    /// The size of the heap in bytes.
    fn heap_size(&self) -> (r: usize)
        requires
            self.wf(),
            self@.blocks.len() > 0,
        ensures
            r == block_size(self@.heap_order),
    {
        order_size(self.heap_order)
    }

    /// The index of the block that follows block `i` in the heap, if any.
    fn next_block(&self, i: usize) -> (r: Option<usize>)
        requires
            self.wf(),
            i < self@.blocks.len(),
        ensures
            i + 1 < self@.blocks.len() ==> r == Some((i + 1) as usize),
            i + 1 >= self@.blocks.len() ==> r is None,
    {
        proof {
            lemma_tiles_bounds(self.blocks@, self@.heap_start, self@.heap_end(), i as int);
            if i + 1 < self.blocks.len() {
                assert(adjacent(self.blocks@, i + 1));
                lemma_tiles_bounds(
                    self.blocks@,
                    self@.heap_start,
                    self@.heap_end(),
                    i + 1,
                );
            }
        }
        let next = self.blocks[i].next_free_addr();
        if next - self.heap_start >= self.heap_size() {
            None
        } else {
            Some(i + 1)
        }
    }

    /// The smallest order whose block holds `size` bytes after its header; `MAX_ORDER + 1` when
    /// no order does.
    pub fn order(size: usize) -> (r: u8)
        ensures
            r == order_spec(size as int),
            r <= MAX_ORDER + 1,
    {
        let mut current: usize = BLOCK_SIZE;
        let mut order: u8 = 0;
        proof {
            lemma_block_size_max();
        }
        while order <= MAX_ORDER && current - HEADER_SIZE < size
            invariant
                order <= MAX_ORDER + 1,
                current == block_size(order as nat),
                current >= BLOCK_SIZE,
                order <= MAX_ORDER ==> current <= 0x1000_0000,
                order_from(order as nat, size as int) == order_spec(size as int),
                block_size((MAX_ORDER + 1) as nat) == 0x2000_0000,
            decreases MAX_ORDER + 1 - order,
        {
            proof {
                lemma_block_size_mono(order as nat, order as nat);
                if order < MAX_ORDER {
                    lemma_block_size_mono((order + 1) as nat, MAX_ORDER as nat);
                }
            }
            current = current * 2;
            order = order + 1;
        }
        proof {
            lemma_block_size_mono(order as nat, order as nat);
        }
        order
    }

    /// The index of the first block, scanning from the heap's start, that serves `order`; the
    /// number of blocks when none does.
    fn first_fit(&self, order: u8) -> (r: usize)
        requires
            self.wf(),
            self@.blocks.len() > 0,
        ensures
            r == first_fit(self@.blocks, order as nat),
    {
        let len = self.blocks.len();
        let mut i: usize = 0;
        loop
            invariant
                self.wf(),
                len == self@.blocks.len(),
                i < self@.blocks.len(),
                first_fit_from(self@.blocks, order as nat, i as int) == first_fit(
                    self@.blocks,
                    order as nat,
                ),
            decreases self@.blocks.len() - i,
        {
            if self.blocks[i].is_free && self.blocks[i].order >= order {
                return i;
            }
            assert(first_fit_from(self@.blocks, order as nat, i as int) == first_fit_from(
                self@.blocks,
                order as nat,
                i + 1,
            ));
            match self.next_block(i) {
                Some(n) => {
                    assert(n == i + 1);
                    i = n;
                },
                None => {
                    assert(first_fit_from(self@.blocks, order as nat, i + 1) == self@.blocks.len());
                    return len;
                },
            }
        }
    }

    /// Halves the free block `i`: it keeps the first half and a new free block takes the second.
    fn split(&mut self, i: usize)
        requires
            old(self).wf(),
            i < old(self)@.blocks.len(),
            old(self)@.blocks[i as int].is_free,
            old(self)@.blocks[i as int].order > 0,
        ensures
            final(self).wf(),
            final(self)@ == (BuddyState { blocks: split_at(old(self)@.blocks, i as int), ..old(self)@ }),
    {
        proof {
            lemma_split_at(self.blocks@, self@.heap_start, self@.heap_end(), i as int);
            lemma_tiles_bounds(self.blocks@, self@.heap_start, self@.heap_end(), i as int);
            lemma_block_size_mono((self.blocks@[i as int].order - 1) as nat, self.blocks@[i as int].order as nat);
        }
        let ghost before = self.blocks@;
        let b = self.blocks[i];
        let half = b.order - 1;
        self.blocks.set(i, Block { order: half, ..b });
        let second = Block { addr: b.addr + order_size(half), order: half, is_free: true };
        let n = self.blocks.len();
        assert(i + 1 <= n);
        self.blocks.insert(i + 1, second);
        assert(self.blocks@ =~= split_at(before, i as int));
    }

    /// Serves a request for `size` bytes aligned to `align` from the first free block large
    /// enough, split down to the order the request needs; `None` when no block serves it.
    pub fn allocate(&mut self, size: usize, align: usize) -> (r: Option<usize>)
        requires
            old(self).wf(),
            align > 0,
        ensures
            final(self).wf(),
            (final(self)@, addr_of(r)) == old(self)@.allocate(size as int, align as int),
            r matches Some(p) ==> ({
                let b = final(self)@.blocks[first_fit(old(self)@.blocks, request_order(old(self)@.heap_start, size as int, align as int))];
                &&& !b.is_free
                &&& b.order == request_order(old(self)@.heap_start, size as int, align as int)
                &&& p % align == 0
                &&& b.addr < p
                &&& p + size <= b.end()
                &&& BLOCK_SIZE % align == 0 && b.order > 0 ==> block_size((b.order - 1) as nat) < p
                    - b.addr + size
            }),
    {
        proof {
            lemma_allocate_exact(old(self)@, size as int, align as int);
        }
        if self.blocks.len() == 0 {
            return None;
        }
        proof {
            lemma_tiles_bounds(self.blocks@, self@.heap_start, self@.heap_end(), 0);
            lemma_block_size_mono(self.blocks@[0].order as nat, self.blocks@[0].order as nat);
            lemma_align_up(self@.heap_start + HEADER_SIZE, align as int);
        }
        let needed: usize = if BLOCK_SIZE % align == 0 {
            let first = match align_up(self.heap_start + HEADER_SIZE, align) {
                Some(f) => f,
                None => {
                    proof {
                        lemma_request_above_heap(
                            self@,
                            request_bytes(self@.heap_start, size as int, align as int),
                        );
                    }
                    return None;
                },
            };
            match size.checked_add(first - self.heap_start - HEADER_SIZE) {
                Some(n) => n,
                None => {
                    proof {
                        lemma_request_too_large(request_bytes(self@.heap_start, size as int, align as int));
                    }
                    return None;
                },
            }
        } else {
            match size.checked_add(align - 1) {
                Some(n) => n,
                None => {
                    proof {
                        lemma_request_too_large(size as int + align - 1);
                    }
                    return None;
                },
            }
        };
        assert(needed == request_bytes(self@.heap_start, size as int, align as int));
        let order = Self::order(needed);
        if order > MAX_ORDER {
            return None;
        }
        let i = self.first_fit(order);
        if i >= self.blocks.len() {
            return None;
        }
        proof {
            lemma_first_fit_from(self.blocks@, order as nat, 0);
            lemma_tiles_bounds(self.blocks@, self@.heap_start, self@.heap_end(), i as int);
            lemma_block_size_mono(self.blocks@[i as int].order as nat, self.blocks@[i as int].order as nat);
            lemma_payload_fits(self@, i as int, size as int, align as int);
        }
        let ptr = match align_up(self.blocks[i].addr + HEADER_SIZE, align) {
            Some(p) => p,
            None => return None,
        };
        let ghost start = self.blocks@;
        while self.blocks[i].order > order
            invariant
                self.wf(),
                self@.heap_start == old(self)@.heap_start,
                self@.heap_order == old(self)@.heap_order,
                i < self@.blocks.len(),
                i < start.len(),
                self@.blocks[i as int].addr == start[i as int].addr,
                self@.blocks[i as int].is_free,
                self@.blocks[i as int].order >= order,
                split_down(self@.blocks, i as int, order as nat) == split_down(
                    start,
                    i as int,
                    order as nat,
                ),
            decreases self@.blocks[i as int].order,
        {
            proof {
                lemma_split_at(self.blocks@, self@.heap_start, self@.heap_end(), i as int);
            }
            self.split(i);
        }
        proof {
            assert(split_down(self@.blocks, i as int, order as nat) == self@.blocks);
            lemma_set_free(self.blocks@, self@.heap_start, self@.heap_end(), i as int, false);
        }
        let b = self.blocks[i];
        self.blocks.set(i, Block { is_free: false, ..b });
        proof {
            assert(self@.blocks =~= old(self)@.allocate(size as int, align as int).0.blocks);
        }
        Some(ptr)
    }

    /// Whether `ptr` lies in the heap past its first byte, where a handed-out address can lie.
    pub fn contains(&self, ptr: usize) -> (r: bool)
        requires
            self.wf(),
        ensures
            r == (self@.blocks.len() > 0 && self@.heap_start < ptr <= self@.heap_end()),
    {
        if self.blocks.len() == 0 {
            return false;
        }
        let end = self.heap_start + self.heap_size();
        self.heap_start < ptr && ptr <= end
    }

    /// Marks the block that `ptr` was handed out from as free again. Neighbouring free blocks are
    /// not merged.
    pub fn deallocate(&mut self, ptr: usize)
        requires
            old(self).wf(),
            old(self)@.blocks.len() > 0,
            old(self)@.heap_start < ptr <= old(self)@.heap_end(),
        ensures
            final(self).wf(),
            final(self)@ == old(self)@.deallocate(ptr as int),
    {
        let mut i: usize = 0;
        proof {
            lemma_tiles_bounds(self.blocks@, self@.heap_start, self@.heap_end(), 0);
        }
        while ptr > self.blocks[i].next_free_addr()
            invariant
                self.wf(),
                self@.blocks.len() > 0,
                self@.heap_start < ptr <= self@.heap_end(),
                i < self@.blocks.len(),
                self@.blocks[i as int].addr < ptr,
                self@.blocks[i as int].end() <= self@.heap_end(),
            decreases self@.blocks.len() - i,
        {
            let n = self.blocks.len();
            assert(i + 1 < n);
            assert(adjacent(self@.blocks, i + 1));
            i = i + 1;
            proof {
                lemma_tiles_bounds(self.blocks@, self@.heap_start, self@.heap_end(), i as int);
            }
        }
        proof {
            assert(self@.blocks[i as int].holds(ptr as int));
            let j = self@.block_of(ptr as int);
            lemma_tiles_holds_unique(self.blocks@, self@.heap_start, self@.heap_end(), i as int, j, ptr as int);
        }
        proof {
            lemma_set_free(self.blocks@, self@.heap_start, self@.heap_end(), i as int, true);
        }
        let b = self.blocks[i];
        self.blocks.set(i, Block { is_free: true, ..b });
        proof {
            assert(self@.blocks =~= old(self)@.deallocate(ptr as int).blocks);
        }
    }
}

/// `order_from` finds the first order at or after `k` whose capacity holds `size` bytes.
proof fn lemma_order_from(k: nat, size: int)
    requires
        k <= MAX_ORDER + 1,
    ensures
        k <= order_from(k, size) <= MAX_ORDER + 1,
        forall|j: nat| k <= j < order_from(k, size) ==> capacity(j) < size,
        order_from(k, size) <= MAX_ORDER ==> capacity(order_from(k, size)) >= size,
    decreases MAX_ORDER + 1 - k,
{
    if k <= MAX_ORDER && capacity(k) < size {
        lemma_order_from(k + 1, size);
    }
}

/// The order of a request is the smallest whose capacity holds it; it never decreases as the
/// request grows; a request of one byte has order 0; and each order doubles the block size.
pub proof fn lemma_order_minimal_monotonic(a: int, b: int)
    requires
        0 <= a <= b,
    ensures
        order_spec(a) <= MAX_ORDER ==> capacity(order_spec(a)) >= a,
        forall|k: nat| k < order_spec(a) ==> capacity(k) < a,
        order_spec(a) <= order_spec(b),
        order_spec(1) == 0,
        block_size(order_spec(a) + 1) == 2 * block_size(order_spec(a)),
{
    lemma_order_from(0, a);
    lemma_order_from(0, b);
    lemma_order_from(0, 1);
    lemma_block_size_mono(order_spec(a), order_spec(a));
}

/// A request too large for any order.
proof fn lemma_request_too_large(n: int)
    requires
        n > usize::MAX,
    ensures
        order_spec(n) > MAX_ORDER,
{
    lemma_order_from(0, n);
    lemma_block_size_max();
    if order_spec(n) <= MAX_ORDER {
        lemma_block_size_mono(order_spec(n), MAX_ORDER as nat);
    }
}

/// Rounding up commutes with moving by a multiple of the alignment.
proof fn lemma_align_up_shift(x: int, d: int, align: int)
    requires
        x >= 0,
        d >= 0,
        align > 0,
        d % align == 0,
    ensures
        align_up_spec(x + d, align) == align_up_spec(x, align) + d,
{
    assert((x + d) % align == x % align) by (nonlinear_arith)
        requires
            d % align == 0,
            align > 0,
            x >= 0,
            d >= 0,
    {
        let q = d / align;
        assert(d == align * q);
        assert(x == align * (x / align) + x % align);
        assert(x + d == align * (x / align + q) + x % align);
        vstd::arithmetic::div_mod::lemma_fundamental_div_mod_converse(
            x + d,
            align,
            x / align + q,
            x % align,
        );
    }
}

/// The address handed out from block `i`, when it is large enough for the request, is aligned,
/// lies after the header, and leaves room for the payload before the end of a block of the
/// request's order; for an alignment that divides `BLOCK_SIZE`, no smaller block would hold it.
proof fn lemma_payload_fits(s: BuddyState, i: int, size: int, align: int)
    requires
        s.wf(),
        0 <= i < s.blocks.len(),
        0 <= size,
        align > 0,
        request_order(s.heap_start, size, align) <= s.blocks[i].order,
    ensures
        s.payload(i, align) % align == 0,
        s.blocks[i].addr < s.payload(i, align),
        s.payload(i, align) + size <= s.blocks[i].addr + block_size(request_order(s.heap_start, size, align)),
        s.blocks[i].addr + block_size(request_order(s.heap_start, size, align)) <= s.blocks[i].end(),
        s.blocks[i].end() <= s.heap_end() <= usize::MAX,
        BLOCK_SIZE as int % align == 0 ==> s.payload(i, align) - s.blocks[i].addr == payload_offset(
            s.heap_start,
            align,
        ),
        BLOCK_SIZE as int % align == 0 && request_order(s.heap_start, size, align) > 0 ==> block_size(
            (request_order(s.heap_start, size, align) - 1) as nat,
        ) < s.payload(i, align) - s.blocks[i].addr + size,
{
    let o = request_order(s.heap_start, size, align);
    let rb = request_bytes(s.heap_start, size, align);
    let addr = s.blocks[i].addr as int;
    lemma_order_from(0, rb);
    lemma_align_up(addr + HEADER_SIZE, align);
    lemma_block_size_mono(o, s.blocks[i].order as nat);
    lemma_tiles_bounds(s.blocks, s.heap_start, s.heap_end(), i);
    if BLOCK_SIZE as int % align == 0 {
        let d = addr - s.heap_start;
        assert(d % align == 0) by (nonlinear_arith)
            requires
                d % 16 == 0,
                16int % align == 0,
                align > 0,
                d >= 0,
        {
            let m = d / 16;
            let c = 16int / align;
            assert(d == align * (c * m));
        }
        lemma_align_up_shift(s.heap_start + HEADER_SIZE, d, align);
        lemma_align_up(s.heap_start + HEADER_SIZE, align);
        if o > 0 {
            assert(capacity((o - 1) as nat) < rb);
        }
    }
}

/// No block of a well-formed heap has an order above the heap's.
proof fn lemma_no_block_above_heap(s: BuddyState, o: nat)
    requires
        s.wf(),
        o > s.heap_order,
    ensures
        first_fit(s.blocks, o) == s.blocks.len(),
{
    lemma_first_fit_from(s.blocks, o, 0);
    assert forall|k: int| 0 <= k < s.blocks.len() implies !#[trigger] s.blocks[k].serves(o) by {
        lemma_tiles_bounds(s.blocks, s.heap_start, s.heap_end(), k);
        let ok = s.blocks[k].order as nat;
        if ok > s.heap_order {
            lemma_block_size_mono(s.heap_order + 1, ok);
            lemma_block_size_mono(s.heap_order, s.heap_order);
        }
    }
    if first_fit(s.blocks, o) < s.blocks.len() {
        assert(s.blocks[first_fit(s.blocks, o)].serves(o));
    }
}

/// A request whose bytes exceed the heap's capacity is served by no block.
proof fn lemma_request_above_heap(s: BuddyState, rb: int)
    requires
        s.wf(),
        rb > capacity(s.heap_order),
    ensures
        first_fit(s.blocks, order_spec(rb)) == s.blocks.len(),
{
    lemma_order_from(0, rb);
    let o = order_spec(rb);
    if o <= s.heap_order {
        lemma_block_size_mono(o, s.heap_order);
    }
    lemma_no_block_above_heap(s, o);
}

/// A request that succeeds is served by the first block that could serve it, now split to
/// exactly the request's order and marked used; the address handed out is aligned as asked,
/// and the bytes asked for lie inside that block, after its header. The state stays well
/// formed.
pub proof fn lemma_allocate_exact(s: BuddyState, size: int, align: int)
    requires
        s.wf(),
        0 <= size,
        align > 0,
    ensures
        s.allocate(size, align).0.wf(),
        s.allocate(size, align).1 is Some ==> {
            let t = s.allocate(size, align).0;
            let o = request_order(s.heap_start, size, align);
            let i = first_fit(s.blocks, o);
            let p = s.allocate(size, align).1->Some_0;
            &&& 0 <= i < s.blocks.len()
            &&& s.blocks[i].serves(o)
            &&& i < t.blocks.len()
            &&& t.blocks[i].order == o
            &&& !t.blocks[i].is_free
            &&& t.blocks[i].addr == s.blocks[i].addr
            &&& p == t.payload(i, align)
            &&& p % align == 0
            &&& t.blocks[i].addr < p
            &&& p + size <= t.blocks[i].end()
            &&& t.blocks[i].holds(p)
            &&& BLOCK_SIZE as int % align == 0 && o > 0 ==> block_size((o - 1) as nat) < p
                - t.blocks[i].addr + size
        },
{
    let o = request_order(s.heap_start, size, align);
    let i = first_fit(s.blocks, o);
    lemma_first_fit_from(s.blocks, o, 0);
    if o <= MAX_ORDER && i < s.blocks.len() {
        lemma_split_down(s.blocks, s.heap_start, s.heap_end(), i, o);
        let split = split_down(s.blocks, i, o);
        lemma_set_free(split, s.heap_start, s.heap_end(), i, false);
        lemma_payload_fits(s, i, size, align);
    }
}

/// Allocating, freeing what came back, and allocating the same request again hands out the
/// same address.
pub proof fn lemma_round_trip(s: BuddyState, size: int, align: int)
    requires
        s.wf(),
        0 <= size,
        align > 0,
        s.allocate(size, align).1 is Some,
    ensures
        ({
            let (t, r) = s.allocate(size, align);
            let p = r->Some_0;
            &&& t.blocks.len() > 0
            &&& t.heap_start < p <= t.heap_end()
            &&& t.deallocate(p).allocate(size, align).1 == r
        }),
{
    lemma_allocate_exact(s, size, align);
    let o = request_order(s.heap_start, size, align);
    let i = first_fit(s.blocks, o);
    let (t, r) = s.allocate(size, align);
    let p = r->Some_0;
    lemma_first_fit_from(s.blocks, o, 0);
    lemma_split_down(s.blocks, s.heap_start, s.heap_end(), i, o);
    let split = split_down(s.blocks, i, o);
    lemma_tiles_bounds(t.blocks, t.heap_start, t.heap_end(), i);
    let j = t.block_of(p);
    lemma_tiles_holds_unique(t.blocks, t.heap_start, t.heap_end(), i, j, p);
    let t2 = t.deallocate(p);
    assert(t2.blocks =~= split);
    lemma_first_fit_from(split, o, 0);
    assert forall|k: int| 0 <= k < i implies !#[trigger] split[k].serves(o) by {
        assert(split[k] == s.blocks[k]);
    }
    assert(split[i].serves(o));
    assert(first_fit(split, o) == i);
    assert(split_down(split, i, o) == split);
}

/// A request for no bytes succeeds while some free block is large enough for the alignment (any
/// free block, for an alignment up to `capacity(0) + 1`), and fails when no block is free; a
/// request larger than the whole heap's capacity fails and leaves the state as it was.
pub proof fn lemma_boundaries(s: BuddyState, size: int, align: int)
    requires
        s.wf(),
        0 <= size,
        align > 0,
    ensures
        (exists|k: int|
            0 <= k < s.blocks.len() && s.blocks[k].serves(request_order(s.heap_start, 0, align)))
            ==> s.allocate(0, align).1 is Some,
        align <= capacity(0) + 1 ==> request_order(s.heap_start, 0, align) == 0,
        !(exists|k: int| 0 <= k < s.blocks.len() && s.blocks[k].is_free) ==> s.allocate(
            0,
            align,
        ).1 is None,
        size > capacity(s.heap_order) ==> s.allocate(size, align) == (s, None::<int>),
{
    let o0 = request_order(s.heap_start, 0, align);
    lemma_order_from(0, request_bytes(s.heap_start, 0, align));
    lemma_align_up(s.heap_start + HEADER_SIZE, align);
    lemma_first_fit_from(s.blocks, o0, 0);
    if exists|k: int| 0 <= k < s.blocks.len() && s.blocks[k].serves(o0) {
        let k = choose|k: int| 0 <= k < s.blocks.len() && s.blocks[k].serves(o0);
        assert(first_fit(s.blocks, o0) <= k);
        assert(o0 <= MAX_ORDER);
    }
    if first_fit(s.blocks, o0) < s.blocks.len() {
        assert(s.blocks[first_fit(s.blocks, o0)].is_free);
    }
    if size > capacity(s.heap_order) {
        lemma_align_up(s.heap_start + HEADER_SIZE, align);
        lemma_request_above_heap(s, request_bytes(s.heap_start, size, align));
    }
}

} // verus!
