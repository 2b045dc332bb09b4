use vstd::arithmetic::div_mod::lemma_fundamental_div_mod_converse;
use vstd::prelude::*;
use vstd::std_specs::bits::{axiom_u64_trailing_zeros, u64_trailing_zeros};

use crate::fs::bytes::{le_bytes, le_value, lemma_le_value_u32, push_le, read_le};
use crate::fs::disk::{overwrite, Disk, BLOCK_SIZE};

verus! {

/// What block 0 starts with on a formatted disk.
pub const MAGIC_NUMBER: u64 = 0xdeadbeef;

/// The size of an inode on disk, in bytes.
pub const INODE_SIZE: usize = 64;

/// How many inodes one block holds.
pub const INODES_PER_BLOCK: usize = 64;

/// How many direct block pointers an inode holds.
pub const PTRS_PER_INODE: usize = 11;

/// How many block pointers an indirect block holds.
pub const PTRS_PER_BLOCK: usize = 1024;

/// The first block that holds inodes; block 0 is the superblock.
pub const INODE_BLOCKS_START: usize = 1;

/// Where in an inode its direct pointers start.
pub const DIRECT_OFFSET: usize = 8;

/// Where in an inode its indirect pointer lies.
pub const INDIRECT_OFFSET: usize = 52;

/// Where in an inode its valid flag lies.
pub const VALID_OFFSET: usize = 56;

/// An inode as plain values. A block pointer of 0 means no block: block 0 is the superblock,
/// which no file uses.
pub struct InodeView {
    pub valid: bool,
    pub size: nat,
    pub direct: Seq<u32>,
    pub indirect: u32,
}

/// The bytes of a row of block pointers, four little-endian bytes each.
pub open spec fn pointer_bytes(ptrs: Seq<u32>) -> Seq<u8>
    decreases ptrs.len(),
{
    if ptrs.len() == 0 {
        Seq::empty()
    } else {
        pointer_bytes(ptrs.drop_last()) + le_bytes(ptrs.last() as nat, 4)
    }
}

/// An inode on disk: its size in eight bytes, its direct pointers, its indirect pointer, its
/// valid flag, and zeros up to `INODE_SIZE` bytes.
pub open spec fn inode_bytes(i: InodeView) -> Seq<u8> {
    le_bytes(i.size, 8) + pointer_bytes(i.direct) + le_bytes(i.indirect as nat, 4) + seq![
        if i.valid {
            1u8
        } else {
            0u8
        },
    ] + Seq::new(7, |k: int| 0u8)
}

/// The block pointer that four bytes at `at` in `bs` give.
pub open spec fn pointer_at(bs: Seq<u8>, at: int) -> u32 {
    le_value(bs.subrange(at, at + 4)) as u32
}

/// The inode that `INODE_SIZE` bytes hold.
pub open spec fn decode_inode(bs: Seq<u8>) -> InodeView {
    InodeView {
        valid: bs[VALID_OFFSET as int] != 0,
        size: le_value(bs.subrange(0, 8)),
        direct: Seq::new(PTRS_PER_INODE as nat, |k: int| pointer_at(bs, DIRECT_OFFSET + 4 * k)),
        indirect: pointer_at(bs, INDIRECT_OFFSET as int),
    }
}

/// The pointers that an indirect block holds.
pub open spec fn decode_pointers(bs: Seq<u8>) -> Seq<u32> {
    Seq::new(PTRS_PER_BLOCK as nat, |k: int| pointer_at(bs, 4 * k))
}

/// Where inode `inumber` lies: its block and its byte offset in that block.
pub open spec fn inode_pos(inumber: nat) -> (int, int) {
    (
        inumber as int / INODES_PER_BLOCK as int + INODE_BLOCKS_START as int,
        (inumber as int % INODES_PER_BLOCK as int) * INODE_SIZE as int,
    )
}

/// The number of inode blocks on a disk of `blocks` blocks.
pub open spec fn inode_blocks_for(blocks: nat) -> nat {
    blocks / 10 + 1
}

/// The superblock that `format` writes for a disk of `blocks` blocks.
pub open spec fn superblock_bytes(blocks: nat) -> Seq<u8> {
    le_bytes(MAGIC_NUMBER as nat, 8) + le_bytes(blocks, 8) + le_bytes(inode_blocks_for(blocks), 8)
        + le_bytes(inode_blocks_for(blocks) * INODES_PER_BLOCK as nat, 8)
}

/// A block of zeros.
pub open spec fn zero_block() -> Seq<u8> {
    Seq::new(BLOCK_SIZE as nat, |k: int| 0u8)
}

/// The disk after `bytes` are written at inode `inumber`'s place.
pub open spec fn with_inode(disk: Seq<Seq<u8>>, inumber: nat, bytes: Seq<u8>) -> Seq<Seq<u8>> {
    let (b, off) = inode_pos(inumber);
    disk.update(b, overwrite(disk[b], off, bytes))
}

/// The valid flag of inode `inumber` on the disk is clear.
pub open spec fn inode_is_free(disk: Seq<Seq<u8>>, inumber: nat) -> bool {
    let (b, off) = inode_pos(inumber);
    disk[b][off + VALID_OFFSET] == 0
}

/// The first inode from `i` on, below `count`, whose valid flag is clear.
pub open spec fn first_free_inode(disk: Seq<Seq<u8>>, i: nat, count: nat) -> Option<nat>
    decreases count - i,
{
    if i >= count {
        None
    } else if inode_is_free(disk, i) {
        Some(i)
    } else {
        first_free_inode(disk, i + 1, count)
    }
}

/// The number of blocks that `size` bytes take.
pub open spec fn blocks_for_size(size: nat) -> nat {
    if size == 0 {
        0
    } else {
        ((size - 1) as nat / BLOCK_SIZE as nat + 1) as nat
    }
}

/// A new inode: no bytes and no blocks.
pub open spec fn empty_inode(valid: bool) -> InodeView {
    InodeView { valid, size: 0, direct: Seq::new(PTRS_PER_INODE as nat, |k: int| 0u32), indirect: 0 }
}

/// An inode: whether it is in use, the file's size, and its block pointers.
pub struct Inode {
    valid: bool,
    size: u64,
    direct: Vec<u32>,
    indirect: u32,
}

impl View for Inode {
    type V = InodeView;

    closed spec fn view(&self) -> InodeView {
        InodeView {
            valid: self.valid,
            size: self.size as nat,
            direct: self.direct@,
            indirect: self.indirect,
        }
    }
}

impl Inode {
    pub open spec fn wf(&self) -> bool {
        self@.direct.len() == PTRS_PER_INODE
    }

    /// An empty inode, in use or not.
    pub fn new(valid: bool) -> (r: Inode)
        ensures
            r.wf(),
            r@ == empty_inode(valid),
    {
        let mut direct: Vec<u32> = Vec::new();
        let mut i: usize = 0;
        while i < PTRS_PER_INODE
            invariant
                i <= PTRS_PER_INODE,
                direct@ == Seq::new(i as nat, |k: int| 0u32),
            decreases PTRS_PER_INODE - i,
        {
            direct.push(0);
            i = i + 1;
            assert(direct@ =~= Seq::new(i as nat, |k: int| 0u32));
        }
        Inode { valid, size: 0, direct, indirect: 0 }
    }

    /// The inode's bytes on disk.
    fn to_bytes(&self) -> (r: Vec<u8>)
        requires
            self.wf(),
        ensures
            r@ == inode_bytes(self@),
            r@.len() == INODE_SIZE,
    {
        let mut out: Vec<u8> = Vec::new();
        push_le(&mut out, self.size, 8);
        let mut i: usize = 0;
        while i < PTRS_PER_INODE
            invariant
                i <= PTRS_PER_INODE,
                self.wf(),
                out@ == le_bytes(self.size as nat, 8) + pointer_bytes(self@.direct.take(i as int)),
            decreases PTRS_PER_INODE - i,
        {
            proof {
                assert(self@.direct.take(i + 1).drop_last() =~= self@.direct.take(i as int));
            }
            push_le(&mut out, self.direct[i] as u64, 4);
            i = i + 1;
            assert(out@ =~= le_bytes(self.size as nat, 8) + pointer_bytes(self@.direct.take(i as int)));
        }
        assert(self@.direct.take(i as int) =~= self@.direct);
        push_le(&mut out, self.indirect as u64, 4);
        out.push(if self.valid {
            1
        } else {
            0
        });
        let mut k: usize = 0;
        while k < 7
            invariant
                k <= 7,
                out@ == le_bytes(self.size as nat, 8) + pointer_bytes(self@.direct) + le_bytes(
                    self.indirect as nat,
                    4,
                ) + seq![
                    if self.valid {
                        1u8
                    } else {
                        0u8
                    },
                ] + Seq::new(k as nat, |j: int| 0u8),
            decreases 7 - k,
        {
            out.push(0);
            k = k + 1;
            assert(out@ =~= le_bytes(self.size as nat, 8) + pointer_bytes(self@.direct) + le_bytes(
                self.indirect as nat,
                4,
            ) + seq![
                if self.valid {
                    1u8
                } else {
                    0u8
                },
            ] + Seq::new(k as nat, |j: int| 0u8));
        }
        proof {
            lemma_pointer_bytes_len(self@.direct);
        }
        out
    }

    /// The inode that `INODE_SIZE` bytes at `at` in `bs` hold.
    fn from_bytes(bs: &[u8], at: usize) -> (r: Inode)
        requires
            at + INODE_SIZE <= bs@.len(),
        ensures
            r.wf(),
            r@ == decode_inode(bs@.subrange(at as int, at + INODE_SIZE)),
    {
        let len = bs.len();
        let ghost ib = bs@.subrange(at as int, at + INODE_SIZE);
        let size = read_le(bs, at, 8);
        assert(bs@.subrange(at as int, at + 8) =~= ib.subrange(0, 8));
        let mut direct: Vec<u32> = Vec::new();
        let mut i: usize = 0;
        while i < PTRS_PER_INODE
            invariant
                i <= PTRS_PER_INODE,
                len == bs@.len(),
                at + INODE_SIZE <= bs@.len(),
                ib == bs@.subrange(at as int, at + INODE_SIZE),
                direct@ == Seq::new(i as nat, |k: int| pointer_at(ib, DIRECT_OFFSET + 4 * k)),
            decreases PTRS_PER_INODE - i,
        {
            let p = read_le(bs, at + DIRECT_OFFSET + 4 * i, 4);
            proof {
                assert(bs@.subrange(at + DIRECT_OFFSET + 4 * i, at + DIRECT_OFFSET + 4 * i + 4)
                    =~= ib.subrange(DIRECT_OFFSET + 4 * i, DIRECT_OFFSET + 4 * i + 4));
                lemma_le_value_u32(ib.subrange(DIRECT_OFFSET + 4 * i, DIRECT_OFFSET + 4 * i + 4));
            }
            direct.push(p as u32);
            i = i + 1;
            assert(direct@ =~= Seq::new(i as nat, |k: int| pointer_at(ib, DIRECT_OFFSET + 4 * k)));
        }
        let indirect = read_le(bs, at + INDIRECT_OFFSET, 4);
        assert(bs@.subrange(at + INDIRECT_OFFSET, at + INDIRECT_OFFSET + 4) =~= ib.subrange(
            INDIRECT_OFFSET as int,
            INDIRECT_OFFSET + 4,
        ));
        proof {
            lemma_le_value_u32(ib.subrange(INDIRECT_OFFSET as int, INDIRECT_OFFSET + 4));
        }
        let valid = bs[at + VALID_OFFSET] != 0;
        let r = Inode { valid, size, direct, indirect: indirect as u32 };
        assert(r@.direct =~= decode_inode(ib).direct);
        r
    }
}

/// Four bytes for each pointer.
proof fn lemma_pointer_bytes_len(ptrs: Seq<u32>)
    ensures
        pointer_bytes(ptrs).len() == 4 * ptrs.len(),
    decreases ptrs.len(),
{
    if ptrs.len() > 0 {
        lemma_pointer_bytes_len(ptrs.drop_last());
    }
}

/// What the superblock records about the disk.
pub struct Superblock {
    pub magic_number: u64,
    pub blocks: u64,
    pub inode_blocks: u64,
    pub inodes: u64,
}

/// A mounted file system: its superblock and a bitmap of free blocks, one bit per block, set
/// when the block is free.
pub struct FileSystem {
    superblock: Superblock,
    block_bitmap: Vec<u64>,
}

/// The file system's state as plain values.
pub struct FsState {
    pub magic_number: nat,
    pub blocks: nat,
    pub inode_blocks: nat,
    pub inodes: nat,
    pub bitmap: Seq<u64>,
}

impl View for FileSystem {
    type V = FsState;

    closed spec fn view(&self) -> FsState {
        FsState {
            magic_number: self.superblock.magic_number as nat,
            blocks: self.superblock.blocks as nat,
            inode_blocks: self.superblock.inode_blocks as nat,
            inodes: self.superblock.inodes as nat,
            bitmap: self.block_bitmap@,
        }
    }
}

impl FileSystem {
    /// A file system that is not mounted: an empty superblock and no bitmap.
    pub fn new() -> (r: FileSystem)
        ensures
            r@ == (FsState { magic_number: 0, blocks: 0, inode_blocks: 0, inodes: 0, bitmap: Seq::empty() }),
    {
        FileSystem {
            superblock: Superblock { magic_number: 0, blocks: 0, inode_blocks: 0, inodes: 0 },
            block_bitmap: Vec::new(),
        }
    }

    /// Formats `disk`: block 0 gets the superblock (the magic number, the number of blocks, of
    /// inode blocks and of inodes, eight little-endian bytes each) and every inode block is
    /// zeroed. A tenth of the disk, plus one block, holds inodes.
    pub fn format(disk: &mut Disk)
        requires
            old(disk).wf(),
            2 <= old(disk)@.len() <= u32::MAX,
        ensures
            final(disk).wf(),
            final(disk)@.len() == old(disk)@.len(),
            final(disk)@[0] == overwrite(old(disk)@[0], 0, superblock_bytes(old(disk)@.len())),
            forall|b: int|
                INODE_BLOCKS_START <= b <= inode_blocks_for(old(disk)@.len())
                    ==> #[trigger] final(disk)@[b] == zero_block(),
            forall|b: int|
                inode_blocks_for(old(disk)@.len()) < b < old(disk)@.len() ==> #[trigger] final(disk)@[b]
                    == old(disk)@[b],
    {
        let blocks = disk.size();
        let inode_blocks = blocks / 10 + 1;
        let ib64 = inode_blocks as u64;
        assert(ib64 <= 0x2000_0000);
        assert(ib64 * 64 <= 0x8_0000_0000) by (nonlinear_arith)
            requires
                ib64 <= 0x2000_0000,
        ;
        let inodes: u64 = ib64 * 64;
        let mut superblock: Vec<u8> = Vec::new();
        push_le(&mut superblock, MAGIC_NUMBER, 8);
        push_le(&mut superblock, blocks as u64, 8);
        push_le(&mut superblock, inode_blocks as u64, 8);
        push_le(&mut superblock, inodes, 8);
        let _ = disk.write(0, 0, superblock.as_slice());
        let mut zero_data: Vec<u8> = Vec::new();
        let mut k: usize = 0;
        while k < BLOCK_SIZE
            invariant
                k <= BLOCK_SIZE,
                zero_data@ == Seq::new(k as nat, |j: int| 0u8),
            decreases BLOCK_SIZE - k,
        {
            zero_data.push(0);
            k = k + 1;
            assert(zero_data@ =~= Seq::new(k as nat, |j: int| 0u8));
        }
        let ghost after_super = disk@;
        let mut i: usize = INODE_BLOCKS_START;
        while i < inode_blocks + INODE_BLOCKS_START
            invariant
                INODE_BLOCKS_START <= i <= inode_blocks + INODE_BLOCKS_START,
                inode_blocks + INODE_BLOCKS_START <= blocks,
                blocks == disk@.len(),
                after_super.len() == blocks,
                disk.wf(),
                zero_data@ == zero_block(),
                disk@[0] == after_super[0],
                forall|b: int| INODE_BLOCKS_START <= b < i ==> #[trigger] disk@[b] == zero_block(),
                forall|b: int| i <= b < blocks ==> #[trigger] disk@[b] == after_super[b],
            decreases inode_blocks + INODE_BLOCKS_START - i,
        {
            let _ = disk.write(i, 0, zero_data.as_slice());
            assert(overwrite(after_super[i as int], 0, zero_data@) =~= zero_block());
            i = i + 1;
        }
    }

    /// Where inode `inumber` lies: its block and its byte offset in that block.
    fn calc_inode_pos(inumber: u32) -> (r: (usize, usize))
        ensures
            r.0 == inode_pos(inumber as nat).0,
            r.1 == inode_pos(inumber as nat).1,
    {
        (
            inumber as usize / INODES_PER_BLOCK + INODE_BLOCKS_START,
            (inumber as usize % INODES_PER_BLOCK) * INODE_SIZE,
        )
    }

    /// Writes `file` at inode `inumber`'s place on `disk`.
    fn write_inode(disk: &mut Disk, inumber: u32, file: &Inode)
        requires
            old(disk).wf(),
            file.wf(),
            inode_pos(inumber as nat).0 < old(disk)@.len(),
        ensures
            final(disk).wf(),
            final(disk)@ == with_inode(old(disk)@, inumber as nat, inode_bytes(file@)),
    {
        let (block, offset) = Self::calc_inode_pos(inumber);
        let bytes = file.to_bytes();
        let _ = disk.write(block, offset, bytes.as_slice());
    }

    /// Reads inode `inumber` from `disk`.
    fn read_inode(disk: &Disk, inumber: u32) -> (r: Inode)
        requires
            disk.wf(),
            inode_pos(inumber as nat).0 < disk@.len(),
        ensures
            r.wf(),
            r@ == decode_inode(
                disk@[inode_pos(inumber as nat).0].subrange(
                    inode_pos(inumber as nat).1,
                    inode_pos(inumber as nat).1 + INODE_SIZE,
                ),
            ),
    {
        let (block, offset) = Self::calc_inode_pos(inumber);
        let mut buf: Vec<u8> = Vec::new();
        let mut k: usize = 0;
        while k < INODE_SIZE
            invariant
                k <= INODE_SIZE,
                buf@.len() == k,
            decreases INODE_SIZE - k,
        {
            buf.push(0);
            k = k + 1;
        }
        proof {
            assert(offset + INODE_SIZE <= BLOCK_SIZE) by (nonlinear_arith)
                requires
                    offset == (inumber % 64) * 64,
            ;
        }
        let _ = disk.read(block, offset, buf.as_mut_slice());
        assert(buf@.subrange(0, INODE_SIZE as int) =~= buf@);
        Inode::from_bytes(buf.as_slice(), 0)
    }

    /// The first inode whose valid flag is clear.
    fn next_free_inode(&self, disk: &Disk) -> (r: Option<u32>)
        requires
            disk.wf(),
            self@.inode_blocks + INODE_BLOCKS_START <= disk@.len(),
            self@.inode_blocks * INODES_PER_BLOCK <= u32::MAX,
        ensures
            r == match first_free_inode(disk@, 0, self@.inode_blocks * INODES_PER_BLOCK as nat) {
                Some(i) => Some(i as u32),
                None => None::<u32>,
            },
    {
        let count = self.superblock.inode_blocks as usize * INODES_PER_BLOCK;
        let mut i: usize = 0;
        while i < count
            invariant
                i <= count,
                count == self@.inode_blocks * INODES_PER_BLOCK,
                count <= u32::MAX,
                disk.wf(),
                self@.inode_blocks + INODE_BLOCKS_START <= disk@.len(),
                first_free_inode(disk@, i as nat, count as nat) == first_free_inode(disk@, 0, count as nat),
            decreases count - i,
        {
            let (block, offset) = Self::calc_inode_pos(i as u32);
            let mut flag: Vec<u8> = Vec::new();
            flag.push(0);
            proof {
                assert(block <= self@.inode_blocks) by (nonlinear_arith)
                    requires
                        block == i / 64 + 1,
                        i < self@.inode_blocks * 64,
                ;
                assert(offset + VALID_OFFSET + 1 <= BLOCK_SIZE) by (nonlinear_arith)
                    requires
                        offset == (i % 64) * 64,
                ;
            }
            let _ = disk.read(block, offset + VALID_OFFSET, flag.as_mut_slice());
            if flag[0] == 0 {
                return Some(i as u32);
            }
            i = i + 1;
        }
        None
    }

    /// Takes the first free inode for a new, empty file and returns its number; `None` when
    /// every inode is in use.
    pub fn create(&self, disk: &mut Disk) -> (r: Option<u32>)
        requires
            old(disk).wf(),
            self@.inode_blocks + INODE_BLOCKS_START <= old(disk)@.len(),
            self@.inode_blocks * INODES_PER_BLOCK <= u32::MAX,
        ensures
            final(disk).wf(),
            match first_free_inode(old(disk)@, 0, self@.inode_blocks * INODES_PER_BLOCK as nat) {
                Some(i) => r == Some(i as u32) && final(disk)@ == with_inode(
                    old(disk)@,
                    i,
                    inode_bytes(empty_inode(true)),
                ),
                None => r is None && final(disk)@ == old(disk)@,
            },
    {
        let inumber = match self.next_free_inode(disk) {
            Some(i) => i,
            None => return None,
        };
        proof {
            lemma_first_free_inode(disk@, 0, self@.inode_blocks * INODES_PER_BLOCK as nat);
            assert(inode_pos(inumber as nat).0 <= self@.inode_blocks) by (nonlinear_arith)
                requires
                    inumber < self@.inode_blocks * 64,
                    inode_pos(inumber as nat).0 == inumber / 64 + 1,
            ;
        }
        let file = Inode::new(true);
        Self::write_inode(disk, inumber, &file);
        Some(inumber)
    }

    /// The number of blocks that a file of `size` bytes takes.
    fn allocated_blocks(size: u64) -> (r: u64)
        ensures
            r == blocks_for_size(size as nat),
    {
        if size == 0 {
            0
        } else {
            (size - 1) / BLOCK_SIZE as u64 + 1
        }
    }

    /// Writing into a file is not supported yet: nothing is written, and no byte is counted.
    pub fn write(&mut self, disk: &Disk, inumber: u32, offset: usize, data: &[u8]) -> (r: Result<usize, ()>)
        requires
            disk.wf(),
            inode_pos(inumber as nat).0 < disk@.len(),
        ensures
            r == Ok::<usize, ()>(0),
            final(self)@ == old(self)@,
    {
        let inode = Self::read_inode(disk, inumber);
        let _allocated = Self::allocated_blocks(inode.size);
        Ok(0)
    }
}

/// `first_free_inode` finds an inode below the count whose valid flag is clear.
proof fn lemma_first_free_inode(disk: Seq<Seq<u8>>, i: nat, count: nat)
    ensures
        first_free_inode(disk, i, count) matches Some(k) ==> i <= k < count && inode_is_free(disk, k),
    decreases count - i,
{
    if i < count && !inode_is_free(disk, i) {
        lemma_first_free_inode(disk, i + 1, count);
    }
}

/// Word `w` with bit `off` set when `free`, cleared otherwise.
pub open spec fn set_bit(w: u64, off: u64, free: bool) -> u64 {
    if free {
        w | (1u64 << off)
    } else {
        w & !(1u64 << off)
    }
}

/// Whether bit `off` of `w` is set.
pub open spec fn bit(w: u64, off: u64) -> bool {
    (w & (1u64 << off)) != 0
}

/// Whether the bitmap marks block `k` as free.
pub open spec fn block_free(bitmap: Seq<u64>, k: int) -> bool {
    bit(bitmap[k / 64], (k % 64) as u64)
}

/// Setting or clearing one bit leaves the other bits as they were.
proof fn lemma_set_bit(w: u64, off: u64, free: bool, o: u64)
    requires
        off < 64,
        o < 64,
    ensures
        bit(set_bit(w, off, free), o) == if o == off {
            free
        } else {
            bit(w, o)
        },
{
    if free {
        assert(((w | (1u64 << off)) & (1u64 << o)) != 0 <==> (o == off || (w & (1u64 << o)) != 0))
            by (bit_vector)
            requires
                off < 64,
                o < 64,
        ;
    } else {
        assert(((w & !(1u64 << off)) & (1u64 << o)) != 0 <==> (o != off && (w & (1u64 << o)) != 0))
            by (bit_vector)
            requires
                off < 64,
                o < 64,
        ;
    }
}

/// A word with every bit set.
proof fn lemma_all_ones(o: u64)
    requires
        o < 64,
    ensures
        bit(u64::MAX, o),
{
    assert((0xffff_ffff_ffff_ffffu64 & (1u64 << o)) != 0) by (bit_vector)
        requires
            o < 64,
    ;
}

/// The bitmap after block `block` is marked free or used; a block past its end changes nothing.
pub open spec fn mark(bitmap: Seq<u64>, block: int, free: bool) -> Seq<u64> {
    if 0 <= block / 64 < bitmap.len() {
        bitmap.update(block / 64, set_bit(bitmap[block / 64], (block % 64) as u64, free))
    } else {
        bitmap
    }
}

/// Marking one block changes only that block's bit.
proof fn lemma_mark(bitmap: Seq<u64>, block: int, free: bool, k: int)
    requires
        0 <= block,
        0 <= k < bitmap.len() * 64,
    ensures
        mark(bitmap, block, free).len() == bitmap.len(),
        block_free(mark(bitmap, block, free), k) == if k == block {
            free
        } else {
            block_free(bitmap, k)
        },
{
    if 0 <= block / 64 < bitmap.len() && block / 64 == k / 64 {
        lemma_set_bit(bitmap[block / 64], (block % 64) as u64, free, (k % 64) as u64);
    }
}

/// The nonzero pointers of `ptrs`, in order.
pub open spec fn nonzero(ptrs: Seq<u32>) -> Seq<u32>
    decreases ptrs.len(),
{
    if ptrs.len() == 0 {
        Seq::empty()
    } else if ptrs.last() != 0 {
        nonzero(ptrs.drop_last()).push(ptrs.last())
    } else {
        nonzero(ptrs.drop_last())
    }
}

impl FileSystem {
    /// Marks block `block` free or used in the bitmap; a block past the bitmap's end is ignored.
    fn mark_block(&mut self, block: u32, free: bool)
        ensures
            final(self)@ == (FsState { bitmap: mark(old(self)@.bitmap, block as int, free), ..old(self)@ }),
    {
        let idx = (block / 64) as usize;
        let offset = (block % 64) as u64;
        if idx < self.block_bitmap.len() {
            let w = self.block_bitmap[idx];
            let nw = if free {
                w | (1u64 << offset)
            } else {
                w & !(1u64 << offset)
            };
            self.block_bitmap.set(idx, nw);
        }
    }

    /// Whether the bitmap marks block `block` as free.
    fn is_free(&self, block: u32) -> (r: bool)
        requires
            (block / 64) < self@.bitmap.len(),
        ensures
            r == block_free(self@.bitmap, block as int),
    {
        let idx = (block / 64) as usize;
        let offset = (block % 64) as u64;
        self.block_bitmap[idx] & (1u64 << offset) != 0
    }
}

/// The inode that inode `inumber`'s place on the disk holds.
pub open spec fn inode_on_disk(disk: Seq<Seq<u8>>, inumber: nat) -> InodeView {
    let (b, off) = inode_pos(inumber);
    decode_inode(disk[b].subrange(off, off + INODE_SIZE))
}

/// The blocks that inode `inumber` points to: its direct pointers, then those of its indirect
/// block, if it has one, skipping null pointers.
pub open spec fn blocks_of(disk: Seq<Seq<u8>>, inumber: nat) -> Seq<u32> {
    let ino = inode_on_disk(disk, inumber);
    nonzero(ino.direct) + if ino.indirect != 0 {
        nonzero(decode_pointers(disk[ino.indirect as int]))
    } else {
        Seq::empty()
    }
}

/// The blocks that the valid inodes below `count` point to directly, in inode order.
pub open spec fn direct_blocks_upto(disk: Seq<Seq<u8>>, count: nat) -> Seq<u32>
    decreases count,
{
    if count == 0 {
        Seq::empty()
    } else {
        let ino = inode_on_disk(disk, (count - 1) as nat);
        direct_blocks_upto(disk, (count - 1) as nat) + if ino.valid {
            nonzero(ino.direct)
        } else {
            Seq::empty()
        }
    }
}

/// The index of the first word, from `i` on, with a bit set, or the number of words.
pub open spec fn first_nonzero_word(bitmap: Seq<u64>, i: int) -> int
    decreases bitmap.len() - i,
{
    if i >= bitmap.len() || i < 0 {
        bitmap.len() as int
    } else if bitmap[i] != 0 {
        i
    } else {
        first_nonzero_word(bitmap, i + 1)
    }
}

/// Whether a superblock that reads `magic`, `blocks` and `inode_blocks` can be mounted from a disk
/// of `disk_blocks` blocks: the magic number is right, block numbers fit in a `u32`, and the
/// inode blocks lie on the disk.
pub open spec fn mountable(magic: nat, blocks: nat, inode_blocks: nat, disk_blocks: nat) -> bool {
    &&& magic == MAGIC_NUMBER
    &&& blocks <= u32::MAX
    &&& inode_blocks + INODE_BLOCKS_START <= disk_blocks
    &&& inode_blocks * INODES_PER_BLOCK <= u32::MAX
}

/// Whether mounting marks block `k` as used: the superblock, the inode blocks, and every block
/// that a valid inode points to directly.
pub open spec fn in_use(disk: Seq<Seq<u8>>, inode_blocks: nat, k: int) -> bool {
    ||| k == 0
    ||| INODE_BLOCKS_START <= k <= inode_blocks
    ||| direct_blocks_upto(disk, inode_blocks * INODES_PER_BLOCK as nat).contains(k as u32)
}

impl FileSystem {
    /// The first block that the bitmap marks free: the lowest set bit of the first word with a
    /// bit set. `None` when no bit is set, or when that bit is block 0, the superblock.
    fn next_free_block(&self) -> (r: Option<u32>)
        requires
            self@.bitmap.len() <= 0x400_0000,
        ensures
            ({
                let w = first_nonzero_word(self@.bitmap, 0);
                if w >= self@.bitmap.len() {
                    r is None
                } else {
                    let v = w * 64 + u64_trailing_zeros(self@.bitmap[w]);
                    if v == 0 {
                        r is None
                    } else {
                        r == Some(v as u32)
                    }
                }
            }),
    {
        let mut i: usize = 0;
        while i < self.block_bitmap.len()
            invariant
                i <= self@.bitmap.len() <= 0x400_0000,
                first_nonzero_word(self@.bitmap, i as int) == first_nonzero_word(self@.bitmap, 0),
            decreases self@.bitmap.len() - i,
        {
            let w = self.block_bitmap[i];
            if w != 0 {
                let tz = w.trailing_zeros();
                proof {
                    axiom_u64_trailing_zeros(w);
                }
                let v = i as u32 * 64 + tz;
                if v == 0 {
                    return None;
                }
                return Some(v);
            }
            i = i + 1;
        }
        None
    }

    /// Deletes file `inumber`: every block it points to, directly or through its indirect block,
    /// is marked free, and its inode is cleared.
    pub fn delete(&mut self, disk: &mut Disk, inumber: u32)
        requires
            old(disk).wf(),
            inode_pos(inumber as nat).0 < old(disk)@.len(),
            inode_on_disk(old(disk)@, inumber as nat).indirect < old(disk)@.len(),
            old(self)@.bitmap.len() <= 0x400_0000,
        ensures
            final(disk).wf(),
            final(disk)@ == with_inode(old(disk)@, inumber as nat, inode_bytes(empty_inode(false))),
            final(self)@.bitmap.len() == old(self)@.bitmap.len(),
            final(self)@ == (FsState { bitmap: final(self)@.bitmap, ..old(self)@ }),
            forall|k: int|
                0 <= k < old(self)@.bitmap.len() * 64 ==> #[trigger] block_free(final(self)@.bitmap, k)
                    == (blocks_of(old(disk)@, inumber as nat).contains(k as u32) || block_free(
                    old(self)@.bitmap,
                    k,
                )),
    {
        let inode = Self::read_inode(disk, inumber);
        let ghost ino = inode@;
        let ghost bm0 = self@.bitmap;
        let ghost refs = blocks_of(disk@, inumber as nat);
        let mut i: usize = 0;
        while i < PTRS_PER_INODE
            invariant
                i <= PTRS_PER_INODE,
                inode.wf(),
                inode@ == ino,
                self@ == (FsState { bitmap: self@.bitmap, ..old(self)@ }),
                self@.bitmap.len() == bm0.len(),
                bm0.len() <= 0x400_0000,
                forall|k: int|
                    0 <= k < bm0.len() * 64 ==> #[trigger] block_free(self@.bitmap, k) == (nonzero(
                        ino.direct.take(i as int),
                    ).contains(k as u32) || block_free(bm0, k)),
            decreases PTRS_PER_INODE - i,
        {
            let p = inode.direct[i];
            proof {
                assert(ino.direct.take(i + 1).drop_last() =~= ino.direct.take(i as int));
                assert(ino.direct.take(i + 1).last() == p);
                if p != 0 {
                    assert(nonzero(ino.direct.take(i + 1)) == nonzero(ino.direct.take(i as int)).push(p));
                } else {
                    assert(nonzero(ino.direct.take(i + 1)) == nonzero(ino.direct.take(i as int)));
                }
            }
            if p != 0 {
                let ghost before = self@.bitmap;
                self.mark_block(p, true);
                proof {
                    assert forall|k: int| 0 <= k < bm0.len() * 64 implies #[trigger] block_free(
                        self@.bitmap,
                        k,
                    ) == (nonzero(ino.direct.take(i + 1)).contains(k as u32) || block_free(bm0, k)) by {
                        lemma_mark(before, p as int, true, k);
                        lemma_contains_push(nonzero(ino.direct.take(i as int)), p, k as u32);
                    }
                }
            }
            i = i + 1;
        }
        assert(ino.direct.take(PTRS_PER_INODE as int) =~= ino.direct);
        let ghost after_direct = self@.bitmap;
        if inode.indirect != 0 {
            let mut buf: Vec<u8> = Vec::new();
            let mut k: usize = 0;
            while k < BLOCK_SIZE
                invariant
                    k <= BLOCK_SIZE,
                    buf@.len() == k,
                decreases BLOCK_SIZE - k,
            {
                buf.push(0);
                k = k + 1;
            }
            let _ = disk.read(inode.indirect as usize, 0, buf.as_mut_slice());
            let ghost ptrs = decode_pointers(disk@[ino.indirect as int]);
            assert(buf@ =~= disk@[ino.indirect as int]);
            let mut j: usize = 0;
            while j < PTRS_PER_BLOCK
                invariant
                    j <= PTRS_PER_BLOCK,
                    buf@.len() == BLOCK_SIZE,
                    ptrs == decode_pointers(buf@),
                    self@ == (FsState { bitmap: self@.bitmap, ..old(self)@ }),
                    self@.bitmap.len() == bm0.len(),
                    bm0.len() <= 0x400_0000,
                    forall|k: int|
                        0 <= k < bm0.len() * 64 ==> #[trigger] block_free(self@.bitmap, k) == (nonzero(
                            ptrs.take(j as int),
                        ).contains(k as u32) || block_free(after_direct, k)),
                decreases PTRS_PER_BLOCK - j,
            {
                let p = read_le(buf.as_slice(), 4 * j, 4);
                proof {
                    assert(ptrs.take(j + 1).drop_last() =~= ptrs.take(j as int));
                    lemma_le_value_u32(buf@.subrange(4 * j, 4 * j + 4));
                    assert(ptrs.take(j + 1).last() == p as u32);
                    if p != 0 {
                        assert(nonzero(ptrs.take(j + 1)) == nonzero(ptrs.take(j as int)).push(p as u32));
                    } else {
                        assert(nonzero(ptrs.take(j + 1)) == nonzero(ptrs.take(j as int)));
                    }
                }
                if p != 0 {
                    let ghost before = self@.bitmap;
                    self.mark_block(p as u32, true);
                    proof {
                        assert forall|k: int| 0 <= k < bm0.len() * 64 implies #[trigger] block_free(
                            self@.bitmap,
                            k,
                        ) == (nonzero(ptrs.take(j + 1)).contains(k as u32) || block_free(after_direct, k)) by {
                            lemma_mark(before, p as int, true, k);
                            lemma_contains_push(nonzero(ptrs.take(j as int)), p as u32, k as u32);
                        }
                    }
                }
                j = j + 1;
            }
            assert(ptrs.take(PTRS_PER_BLOCK as int) =~= ptrs);
            proof {
                assert forall|k: int| 0 <= k < bm0.len() * 64 implies #[trigger] block_free(
                    self@.bitmap,
                    k,
                ) == (refs.contains(k as u32) || block_free(bm0, k)) by {
                    lemma_contains_concat(nonzero(ino.direct), nonzero(ptrs), k as u32);
                }
            }
        } else {
            proof {
                assert(refs =~= nonzero(ino.direct));
            }
        }
        let cleared = Inode::new(false);
        Self::write_inode(disk, inumber, &cleared);
    }
}

/// What a sequence with one more element holds.
proof fn lemma_contains_push(s: Seq<u32>, x: u32, y: u32)
    ensures
        s.push(x).contains(y) == (s.contains(y) || y == x),
{
    if s.contains(y) {
        let i = choose|i: int| 0 <= i < s.len() && s[i] == y;
        assert(s.push(x)[i] == y);
    }
    if y == x {
        assert(s.push(x)[s.len() as int] == y);
    }
    if s.push(x).contains(y) {
        let i = choose|i: int| 0 <= i < s.push(x).len() && s.push(x)[i] == y;
        if i < s.len() {
            assert(s[i] == y);
        }
    }
}

/// What two sequences joined hold.
proof fn lemma_contains_concat(a: Seq<u32>, b: Seq<u32>, y: u32)
    ensures
        (a + b).contains(y) == (a.contains(y) || b.contains(y)),
{
    if a.contains(y) {
        let i = choose|i: int| 0 <= i < a.len() && a[i] == y;
        assert((a + b)[i] == y);
    }
    if b.contains(y) {
        let i = choose|i: int| 0 <= i < b.len() && b[i] == y;
        assert((a + b)[a.len() + i] == y);
    }
    if (a + b).contains(y) {
        let i = choose|i: int| 0 <= i < (a + b).len() && (a + b)[i] == y;
        if i < a.len() {
            assert(a[i] == y);
        } else {
            assert(b[i - a.len()] == y);
        }
    }
}

impl FileSystem {
    /// Mounts the file system on `disk`: reads the superblock, and builds the bitmap of free
    /// blocks, one bit per block, where the superblock, the inode blocks and every block that a
    /// valid inode points to directly are used and every other block is free. Returns `false`,
    /// with nothing changed, when the superblock cannot be mounted.
    pub fn mount(&mut self, disk: &Disk) -> (r: bool)
        requires
            disk.wf(),
            disk@.len() >= 1,
        ensures
            ({
                let sb = disk@[0];
                let magic = le_value(sb.subrange(0, 8));
                let blocks = le_value(sb.subrange(8, 16));
                let inode_blocks = le_value(sb.subrange(16, 24));
                let inodes = le_value(sb.subrange(24, 32));
                &&& r == mountable(magic, blocks, inode_blocks, disk@.len())
                &&& !r ==> final(self)@ == old(self)@
                &&& r ==> {
                    &&& final(self)@.magic_number == magic
                    &&& final(self)@.blocks == blocks
                    &&& final(self)@.inode_blocks == inode_blocks
                    &&& final(self)@.inodes == inodes
                    &&& final(self)@.bitmap.len() == blocks / 64
                    &&& forall|k: int|
                        0 <= k < final(self)@.bitmap.len() * 64 ==> #[trigger] block_free(
                            final(self)@.bitmap,
                            k,
                        ) == !in_use(disk@, inode_blocks, k)
                }
            }),
    {
        let mut buf: Vec<u8> = Vec::new();
        let mut n: usize = 0;
        while n < 32
            invariant
                n <= 32,
                buf@.len() == n,
            decreases 32 - n,
        {
            buf.push(0);
            n = n + 1;
        }
        let _ = disk.read(0, 0, buf.as_mut_slice());
        let ghost sb = disk@[0];
        assert(buf@ =~= sb.subrange(0, 32));
        let magic = read_le(buf.as_slice(), 0, 8);
        let blocks = read_le(buf.as_slice(), 8, 8);
        let inode_blocks = read_le(buf.as_slice(), 16, 8);
        let inodes = read_le(buf.as_slice(), 24, 8);
        assert(buf@.subrange(0, 8) =~= sb.subrange(0, 8));
        assert(buf@.subrange(8, 16) =~= sb.subrange(8, 16));
        assert(buf@.subrange(16, 24) =~= sb.subrange(16, 24));
        assert(buf@.subrange(24, 32) =~= sb.subrange(24, 32));
        if magic != MAGIC_NUMBER || blocks > u32::MAX as u64 || inode_blocks >= disk.size() as u64
            || inode_blocks > (u32::MAX / 64) as u64 {
            return false;
        }
        let words = (blocks / 64) as usize;
        let mut bitmap: Vec<u64> = Vec::new();
        let mut w: usize = 0;
        while w < words
            invariant
                w <= words,
                bitmap@ == Seq::new(w as nat, |j: int| u64::MAX),
            decreases words - w,
        {
            bitmap.push(u64::MAX);
            w = w + 1;
            assert(bitmap@ =~= Seq::new(w as nat, |j: int| u64::MAX));
        }
        self.superblock = Superblock { magic_number: magic, blocks, inode_blocks, inodes };
        self.block_bitmap = bitmap;
        let ghost ib = inode_blocks as nat;
        let ghost fs0 = self@;
        proof {
            assert forall|k: int| 0 <= k < words * 64 implies #[trigger] block_free(self@.bitmap, k) by {
                lemma_all_ones((k % 64) as u64);
            }
        }
        self.mark_block(0, false);
        proof {
            assert forall|k: int| 0 <= k < words * 64 implies #[trigger] block_free(self@.bitmap, k)
                == (k != 0) by {
                lemma_mark(fs0.bitmap, 0, false, k);
            }
        }
        let ib_count = inode_blocks as usize;
        let mut b: usize = INODE_BLOCKS_START;
        while b <= ib_count
            invariant
                INODE_BLOCKS_START <= b <= ib_count + 1,
                ib_count == ib,
                ib <= u32::MAX / 64,
                words <= 0x400_0000,
                self@ == (FsState { bitmap: self@.bitmap, ..fs0 }),
                self@.bitmap.len() == words,
                forall|k: int|
                    0 <= k < words * 64 ==> #[trigger] block_free(self@.bitmap, k) == !(k == 0 || (
                    INODE_BLOCKS_START <= k < b)),
            decreases ib_count + 1 - b,
        {
            let ghost before = self@.bitmap;
            self.mark_block(b as u32, false);
            proof {
                assert forall|k: int| 0 <= k < words * 64 implies #[trigger] block_free(self@.bitmap, k)
                    == !(k == 0 || (INODE_BLOCKS_START <= k < b + 1)) by {
                    lemma_mark(before, b as int, false, k);
                }
            }
            b = b + 1;
        }
        let count = ib_count * INODES_PER_BLOCK;
        let mut i: usize = 0;
        while i < count
            invariant
                i <= count,
                count == ib * INODES_PER_BLOCK,
                count <= u32::MAX,
                ib + INODE_BLOCKS_START <= disk@.len(),
                disk.wf(),
                words <= 0x400_0000,
                self@ == (FsState { bitmap: self@.bitmap, ..fs0 }),
                self@.bitmap.len() == words,
                forall|k: int|
                    0 <= k < words * 64 ==> #[trigger] block_free(self@.bitmap, k) == !(k == 0 || (
                    INODE_BLOCKS_START <= k <= ib) || direct_blocks_upto(disk@, i as nat).contains(
                        k as u32,
                    )),
            decreases count - i,
        {
            proof {
                assert(inode_pos(i as nat).0 <= ib) by (nonlinear_arith)
                    requires
                        inode_pos(i as nat).0 == i / 64 + 1,
                        i < ib * 64,
                ;
            }
            let inode = Self::read_inode(disk, i as u32);
            let ghost prev = direct_blocks_upto(disk@, i as nat);
            if inode.valid {
                let ghost ptrs = inode@.direct;
                let mut p: usize = 0;
                while p < PTRS_PER_INODE
                    invariant
                        p <= PTRS_PER_INODE,
                        inode.wf(),
                        ptrs == inode@.direct,
                        words <= 0x400_0000,
                        self@ == (FsState { bitmap: self@.bitmap, ..fs0 }),
                        self@.bitmap.len() == words,
                        forall|k: int|
                            0 <= k < words * 64 ==> #[trigger] block_free(self@.bitmap, k) == !(k == 0
                                || (INODE_BLOCKS_START <= k <= ib) || prev.contains(k as u32) || nonzero(
                                ptrs.take(p as int),
                            ).contains(k as u32)),
                    decreases PTRS_PER_INODE - p,
                {
                    let ptr = inode.direct[p];
                    proof {
                        assert(ptrs.take(p + 1).drop_last() =~= ptrs.take(p as int));
                        assert(ptrs.take(p + 1).last() == ptr);
                        if ptr != 0 {
                            assert(nonzero(ptrs.take(p + 1)) == nonzero(ptrs.take(p as int)).push(ptr));
                        } else {
                            assert(nonzero(ptrs.take(p + 1)) == nonzero(ptrs.take(p as int)));
                        }
                    }
                    if ptr != 0 {
                        let ghost before = self@.bitmap;
                        self.mark_block(ptr, false);
                        proof {
                            assert forall|k: int| 0 <= k < words * 64 implies #[trigger] block_free(
                                self@.bitmap,
                                k,
                            ) == !(k == 0 || (INODE_BLOCKS_START <= k <= ib) || prev.contains(k as u32)
                                || nonzero(ptrs.take(p + 1)).contains(k as u32)) by {
                                lemma_mark(before, ptr as int, false, k);
                                lemma_contains_push(nonzero(ptrs.take(p as int)), ptr, k as u32);
                            }
                        }
                    }
                    p = p + 1;
                }
                proof {
                    assert(ptrs.take(PTRS_PER_INODE as int) =~= ptrs);
                    assert forall|k: int| 0 <= k < words * 64 implies #[trigger] block_free(
                        self@.bitmap,
                        k,
                    ) == !(k == 0 || (INODE_BLOCKS_START <= k <= ib) || direct_blocks_upto(
                        disk@,
                        (i + 1) as nat,
                    ).contains(k as u32)) by {
                        lemma_contains_concat(prev, nonzero(ptrs), k as u32);
                    }
                }
            } else {
                proof {
                    assert(direct_blocks_upto(disk@, (i + 1) as nat) =~= prev);
                }
            }
            i = i + 1;
        }
        true
    }
}

/// The pointers to a file's data, in order: its direct pointers, then those of its indirect block
/// when it has one.
pub open spec fn file_pointers(disk: Seq<Seq<u8>>, ino: InodeView) -> Seq<u32> {
    ino.direct + if ino.indirect != 0 {
        decode_pointers(disk[ino.indirect as int])
    } else {
        Seq::empty()
    }
}

/// Byte `pos` of the data that the block pointers `ptrs` lead to.
pub open spec fn byte_at(disk: Seq<Seq<u8>>, ptrs: Seq<u32>, pos: int) -> u8 {
    disk[ptrs[pos / BLOCK_SIZE as int] as int][pos % BLOCK_SIZE as int]
}

/// How many bytes a read of at most `length` bytes from `offset` gets out of `count` blocks.
pub open spec fn read_count(count: int, offset: int, length: int) -> int {
    let avail = count * BLOCK_SIZE - offset;
    if avail <= 0 {
        0
    } else if length < avail {
        length
    } else {
        avail
    }
}

/// The blocks that a read of `n` bytes from `offset` goes through are on the disk.
pub open spec fn blocks_readable(disk: Seq<Seq<u8>>, ptrs: Seq<u32>, offset: int, n: int) -> bool {
    forall|pos: int|
        offset <= pos < offset + n ==> 0 < #[trigger] ptrs[pos / BLOCK_SIZE as int] < disk.len()
}

/// How many bytes a read of inode `ino` from `offset` into a buffer of `buf_len` bytes asks for.
pub open spec fn wanted(ino: InodeView, offset: int, buf_len: int) -> int {
    if ino.size - offset < buf_len {
        ino.size - offset
    } else {
        buf_len
    }
}

impl FileSystem {
    /// Copies `length` bytes of block `block` from `offset` on into `outbuf` at `at`.
    fn read_raw_data(disk: &Disk, block: u32, offset: usize, length: usize, outbuf: &mut [u8], at: usize)
        requires
            disk.wf(),
            (block as int) < disk@.len(),
            offset + length <= BLOCK_SIZE,
            at + length <= old(outbuf)@.len(),
        ensures
            final(outbuf)@.len() == old(outbuf)@.len(),
            forall|j: int|
                0 <= j < old(outbuf)@.len() ==> #[trigger] final(outbuf)@[j] == if at <= j < at + length {
                    disk@[block as int][offset + j - at]
                } else {
                    old(outbuf)@[j]
                },
    {
        let mut buf: Vec<u8> = Vec::new();
        let mut n: usize = 0;
        while n < length
            invariant
                n <= length,
                buf@.len() == n,
            decreases length - n,
        {
            buf.push(0);
            n = n + 1;
        }
        let _ = disk.read(block as usize, offset, buf.as_mut_slice());
        let olen = outbuf.len();
        let mut i: usize = 0;
        while i < length
            invariant
                i <= length,
                disk.wf(),
                (block as int) < disk@.len(),
                offset + length <= BLOCK_SIZE,
                olen == outbuf@.len(),
                at + length <= outbuf@.len(),
                outbuf@.len() == old(outbuf)@.len(),
                buf@ == disk@[block as int].subrange(offset as int, offset + length),
                forall|j: int|
                    0 <= j < outbuf@.len() ==> #[trigger] outbuf@[j] == if at <= j < at + i {
                        disk@[block as int][offset + j - at]
                    } else {
                        old(outbuf)@[j]
                    },
            decreases length - i,
        {
            outbuf[at + i] = buf[i];
            i = i + 1;
        }
    }

    /// Copies the data from byte `offset` on, through the blocks `ptrs`, into `outbuf`: at most
    /// `length` bytes, and no further than the last block. Returns how many bytes were copied.
    fn read_raw_data_many(disk: &Disk, ptrs: &Vec<u32>, offset: usize, length: usize, outbuf: &mut [u8]) -> (r: usize)
        requires
            disk.wf(),
            length <= old(outbuf)@.len(),
            blocks_readable(disk@, ptrs@, offset as int, read_count(ptrs@.len() as int, offset as int, length as int)),
        ensures
            r == read_count(ptrs@.len() as int, offset as int, length as int),
            final(outbuf)@.len() == old(outbuf)@.len(),
            forall|j: int|
                0 <= j < old(outbuf)@.len() ==> #[trigger] final(outbuf)@[j] == if j < r {
                    byte_at(disk@, ptrs@, offset + j)
                } else {
                    old(outbuf)@[j]
                },
    {
        let ghost n = read_count(ptrs@.len() as int, offset as int, length as int);
        let mut done: usize = 0;
        let mut idx: usize = offset / BLOCK_SIZE;
        let mut inoff: usize = offset % BLOCK_SIZE;
        while done < length && idx < ptrs.len()
            invariant
                done <= length <= outbuf@.len(),
                outbuf@.len() == old(outbuf)@.len(),
                inoff < BLOCK_SIZE,
                inoff == 0 || done == 0,
                done > 0 ==> idx <= ptrs@.len(),
                offset + done <= idx * BLOCK_SIZE + inoff,
                done < length ==> offset + done == idx * BLOCK_SIZE + inoff,
                done <= n,
                disk.wf(),
                blocks_readable(disk@, ptrs@, offset as int, n),
                n == read_count(ptrs@.len() as int, offset as int, length as int),
                forall|j: int|
                    0 <= j < outbuf@.len() ==> #[trigger] outbuf@[j] == if j < done {
                        byte_at(disk@, ptrs@, offset + j)
                    } else {
                        old(outbuf)@[j]
                    },
            decreases length - done,
        {
            let chunk = if BLOCK_SIZE - inoff < length - done {
                BLOCK_SIZE - inoff
            } else {
                length - done
            };
            let ghost before = outbuf@;
            proof {
                assert(offset + done + chunk <= ptrs@.len() * BLOCK_SIZE);
                assert(done + chunk <= n);
                lemma_fundamental_div_mod_converse((offset + done) as int, BLOCK_SIZE as int, idx as int, inoff as int);
            }
            let block = ptrs[idx];
            Self::read_raw_data(disk, block, inoff, chunk, outbuf, done);
            proof {
                assert forall|j: int| 0 <= j < outbuf@.len() implies #[trigger] outbuf@[j] == if j < done + chunk {
                    byte_at(disk@, ptrs@, offset + j)
                } else {
                    old(outbuf)@[j]
                } by {
                    if done <= j < done + chunk {
                        lemma_fundamental_div_mod_converse(
                            offset + j,
                            BLOCK_SIZE as int,
                            idx as int,
                            inoff + j - done,
                        );
                    }
                }
            }
            done = done + chunk;
            idx = idx + 1;
            inoff = 0;
        }
        done
    }

    /// Reads file `inumber` from byte `offset` on into `outbuf` and returns how many bytes were
    /// read: as many as fit in `outbuf`, no more than the file holds past `offset`, and no further
    /// than the file's last block pointer. An `offset` at or past the end of the file is an error.
    pub fn read(&self, disk: &Disk, inumber: u32, offset: usize, outbuf: &mut [u8]) -> (r: Result<usize, ()>)
        requires
            disk.wf(),
            inode_pos(inumber as nat).0 < disk@.len(),
            ({
                let ino = inode_on_disk(disk@, inumber as nat);
                let want = wanted(ino, offset as int, old(outbuf)@.len() as int);
                &&& offset + want > PTRS_PER_INODE * BLOCK_SIZE && ino.indirect != 0 ==> ino.indirect
                    < disk@.len()
                &&& ino.size > offset ==> blocks_readable(
                    disk@,
                    file_pointers(disk@, ino),
                    offset as int,
                    read_count(file_pointers(disk@, ino).len() as int, offset as int, want),
                )
            }),
        ensures
            ({
                let ino = inode_on_disk(disk@, inumber as nat);
                let ptrs = file_pointers(disk@, ino);
                let n = read_count(ptrs.len() as int, offset as int, wanted(ino, offset as int, old(outbuf)@.len() as int));
                &&& ino.size <= offset ==> r == Err::<usize, ()>(()) && final(outbuf)@ == old(outbuf)@
                &&& ino.size > offset ==> {
                    &&& r == Ok::<usize, ()>(n as usize)
                    &&& final(outbuf)@.len() == old(outbuf)@.len()
                    &&& forall|j: int|
                        0 <= j < old(outbuf)@.len() ==> #[trigger] final(outbuf)@[j] == if j < n {
                            byte_at(disk@, ptrs, offset + j)
                        } else {
                            old(outbuf)@[j]
                        }
                }
            }),
    {
        let inode = Self::read_inode(disk, inumber);
        let ghost ino = inode@;
        if inode.size <= offset as u64 {
            return Err(());
        }
        let remaining = inode.size - offset as u64;
        let to_read: usize = if remaining < outbuf.len() as u64 {
            remaining as usize
        } else {
            outbuf.len()
        };
        let mut ptrs: Vec<u32> = Vec::new();
        let mut p: usize = 0;
        while p < PTRS_PER_INODE
            invariant
                p <= PTRS_PER_INODE,
                inode.wf(),
                ptrs@ == inode@.direct.take(p as int),
            decreases PTRS_PER_INODE - p,
        {
            ptrs.push(inode.direct[p]);
            p = p + 1;
            assert(ptrs@ =~= inode@.direct.take(p as int));
        }
        assert(ptrs@ =~= ino.direct);
        let limit = PTRS_PER_INODE * BLOCK_SIZE;
        let ghost full = file_pointers(disk@, ino);
        if (offset > limit || to_read > limit - offset) && inode.indirect != 0 {
            let mut buf: Vec<u8> = Vec::new();
            let mut k: usize = 0;
            while k < BLOCK_SIZE
                invariant
                    k <= BLOCK_SIZE,
                    buf@.len() == k,
                decreases BLOCK_SIZE - k,
            {
                buf.push(0);
                k = k + 1;
            }
            let _ = disk.read(inode.indirect as usize, 0, buf.as_mut_slice());
            assert(buf@ =~= disk@[ino.indirect as int]);
            let mut j: usize = 0;
            while j < PTRS_PER_BLOCK
                invariant
                    j <= PTRS_PER_BLOCK,
                    buf@.len() == BLOCK_SIZE,
                    ptrs@ == ino.direct + decode_pointers(buf@).take(j as int),
                decreases PTRS_PER_BLOCK - j,
            {
                let v = read_le(buf.as_slice(), 4 * j, 4);
                proof {
                    lemma_le_value_u32(buf@.subrange(4 * j, 4 * j + 4));
                }
                ptrs.push(v as u32);
                j = j + 1;
                assert(ptrs@ =~= ino.direct + decode_pointers(buf@).take(j as int));
            }
            assert(ptrs@ =~= full);
        } else if inode.indirect == 0 {
            assert(ptrs@ =~= full);
        } else {
            proof {
                assert forall|pos: int| offset <= pos < offset + to_read implies pos / (BLOCK_SIZE as int) < PTRS_PER_INODE && #[trigger] full[pos / BLOCK_SIZE as int] == ptrs@[pos / BLOCK_SIZE as int] by {
                    assert(pos / 4096 < 11) by (nonlinear_arith)
                        requires
                            0 <= pos < 11 * 4096,
                    ;
                }
                assert(read_count(ptrs@.len() as int, offset as int, to_read as int) == to_read);
                assert(read_count(full.len() as int, offset as int, to_read as int) == to_read);
                assert(to_read == wanted(ino, offset as int, outbuf@.len() as int));
                assert forall|pos: int| offset <= pos < offset + to_read implies 0 < #[trigger] ptrs@[pos / BLOCK_SIZE as int] < disk@.len() by {
                    assert(full[pos / BLOCK_SIZE as int] == ptrs@[pos / BLOCK_SIZE as int]);
                }
            }
        }
        assert(to_read == wanted(ino, offset as int, outbuf@.len() as int));
        let ghost before = outbuf@;
        let n = Self::read_raw_data_many(disk, &ptrs, offset, to_read, outbuf);
        proof {
            if ptrs@.len() != full.len() {
                assert forall|j: int| 0 <= j < outbuf@.len() implies #[trigger] outbuf@[j] == if j < n {
                    byte_at(disk@, full, offset + j)
                } else {
                    before[j]
                } by {
                    if j < n {
                        assert(full[(offset + j) / BLOCK_SIZE as int] == ptrs@[(offset + j) / BLOCK_SIZE as int]);
                    }
                }
            }
        }
        Ok(n)
    }
}

} // verus!
