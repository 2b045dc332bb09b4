use vstd::prelude::*;

verus! {

/// The size of a disk block in bytes.
pub const BLOCK_SIZE: usize = 0x1000;

/// Why a disk access was refused.
#[derive(Clone, Copy, PartialEq, Eq, Structural, Debug)]
pub enum DiskError {
    /// The block index is past the end of the disk.
    BlockOutOfBounds(usize),
    /// A write of this many bytes at this offset would run past the end of the block.
    BufferTooLarge(usize, usize),
}

/// A device that reads and writes whole blocks from their start.
pub trait BlockDevice {
    /// The contents of the device, block by block.
    spec fn device_blocks(&self) -> Seq<Seq<u8>>;

    /// Fills `buf` from the start of block `block`.
    fn read(&self, block: usize, buf: &mut [u8])
        requires
            block < self.device_blocks().len(),
            old(buf)@.len() <= BLOCK_SIZE,
            forall|i: int|
                0 <= i < self.device_blocks().len() ==> (#[trigger] self.device_blocks()[i]).len()
                    == BLOCK_SIZE,
        ensures
            final(buf)@ == self.device_blocks()[block as int].take(old(buf)@.len() as int),
    ;

    /// Writes `buf` at the start of block `block`.
    fn write(&mut self, block: usize, buf: &[u8])
        requires
            block < old(self).device_blocks().len(),
            buf@.len() <= BLOCK_SIZE,
            forall|i: int|
                0 <= i < old(self).device_blocks().len() ==> (#[trigger] old(
                    self,
                ).device_blocks()[i]).len() == BLOCK_SIZE,
        ensures
            final(self).device_blocks() == old(self).device_blocks().update(
                block as int,
                buf@ + old(self).device_blocks()[block as int].skip(buf@.len() as int),
            ),
    ;
}

/// A simulated disk kept in memory: a row of blocks of `BLOCK_SIZE` bytes each.
pub struct Disk {
    blocks: Vec<Vec<u8>>,
}

/// Block `data` with the bytes from `offset` on replaced by `buf`.
pub open spec fn overwrite(data: Seq<u8>, offset: int, buf: Seq<u8>) -> Seq<u8> {
    data.take(offset) + buf + data.skip(offset + buf.len())
}

impl View for Disk {
    type V = Seq<Seq<u8>>;

    closed spec fn view(&self) -> Seq<Seq<u8>> {
        self.blocks@.map_values(|b: Vec<u8>| b@)
    }
}

impl Disk {
    pub open spec fn wf(&self) -> bool {
        forall|i: int| 0 <= i < self@.len() ==> (#[trigger] self@[i]).len() == BLOCK_SIZE
    }

    /// A disk of `blocks` blocks, every byte zero.
    pub fn new(blocks: usize) -> (r: Disk)
        ensures
            r.wf(),
            r@ == Seq::new(blocks as nat, |i: int| Seq::new(BLOCK_SIZE as nat, |j: int| 0u8)),
    {
        let mut all: Vec<Vec<u8>> = Vec::new();
        let mut i: usize = 0;
        while i < blocks
            invariant
                i <= blocks,
                all@.len() == i,
                forall|k: int|
                    0 <= k < i ==> (#[trigger] all@[k])@ == Seq::new(BLOCK_SIZE as nat, |j: int| 0u8),
            decreases blocks - i,
        {
            let mut data: Vec<u8> = Vec::new();
            let mut j: usize = 0;
            while j < BLOCK_SIZE
                invariant
                    j <= BLOCK_SIZE,
                    data@ == Seq::new(j as nat, |k: int| 0u8),
                decreases BLOCK_SIZE - j,
            {
                data.push(0);
                j = j + 1;
                assert(data@ =~= Seq::new(j as nat, |k: int| 0u8));
            }
            all.push(data);
            i = i + 1;
        }
        let r = Disk { blocks: all };
        assert(r@ =~= Seq::new(blocks as nat, |i: int| Seq::new(BLOCK_SIZE as nat, |j: int| 0u8)));
        r
    }

    /// The number of blocks.
    pub fn size(&self) -> (r: usize)
        ensures
            r == self@.len(),
    {
        self.blocks.len()
    }

    /// Fills `buf` from block `block`, starting `offset` bytes in.
    pub fn read(&self, block: usize, offset: usize, buf: &mut [u8]) -> (r: Result<(), DiskError>)
        requires
            self.wf(),
            offset + old(buf)@.len() <= BLOCK_SIZE,
        ensures
            block < self@.len() ==> r == Ok::<(), DiskError>(()) && final(buf)@ == self@[block as int].subrange(
                offset as int,
                offset + old(buf)@.len(),
            ),
            block >= self@.len() ==> r == Err::<(), DiskError>(DiskError::BlockOutOfBounds(block))
                && final(buf)@ == old(buf)@,
    {
        if block >= self.blocks.len() {
            return Err(DiskError::BlockOutOfBounds(block));
        }
        let data = &self.blocks[block];
        assert(data@ == self@[block as int]);
        let n = buf.len();
        let mut i: usize = 0;
        while i < n
            invariant
                i <= n,
                n == old(buf)@.len(),
                buf@.len() == n,
                offset + n <= BLOCK_SIZE,
                data@.len() == BLOCK_SIZE,
                forall|k: int| 0 <= k < i ==> buf@[k] == data@[offset + k],
            decreases n - i,
        {
            buf[i] = data[offset + i];
            i = i + 1;
        }
        assert(buf@ =~= self@[block as int].subrange(offset as int, offset + n));
        Ok(())
    }

    /// Writes `buf` into block `block`, starting `offset` bytes in.
    pub fn write(&mut self, block: usize, offset: usize, buf: &[u8]) -> (r: Result<(), DiskError>)
        requires
            old(self).wf(),
        ensures
            final(self).wf(),
            block >= old(self)@.len() ==> r == Err::<(), DiskError>(DiskError::BlockOutOfBounds(block))
                && final(self)@ == old(self)@,
            block < old(self)@.len() && offset + buf@.len() > BLOCK_SIZE ==> r == Err::<
                (),
                DiskError,
            >(DiskError::BufferTooLarge(buf@.len() as usize, offset)) && final(self)@ == old(self)@,
            block < old(self)@.len() && offset + buf@.len() <= BLOCK_SIZE ==> r == Ok::<
                (),
                DiskError,
            >(()) && final(self)@ == old(self)@.update(
                block as int,
                overwrite(old(self)@[block as int], offset as int, buf@),
            ),
    {
        if block >= self.blocks.len() {
            return Err(DiskError::BlockOutOfBounds(block));
        }
        if offset > BLOCK_SIZE || buf.len() > BLOCK_SIZE - offset {
            return Err(DiskError::BufferTooLarge(buf.len(), offset));
        }
        let mut data: Vec<u8> = Vec::new();
        self.blocks.set_and_swap(block, &mut data);
        assert(data@ == old(self)@[block as int]);
        let ghost before = data@;
        let n = buf.len();
        let mut i: usize = 0;
        while i < n
            invariant
                i <= n,
                n == buf@.len(),
                offset + n <= BLOCK_SIZE,
                data@.len() == BLOCK_SIZE,
                before.len() == BLOCK_SIZE,
                forall|k: int|
                    0 <= k < BLOCK_SIZE ==> data@[k] == if offset <= k < offset + i {
                        buf@[k - offset]
                    } else {
                        before[k]
                    },
            decreases n - i,
        {
            data.set(offset + i, buf[i]);
            i = i + 1;
        }
        assert(data@ =~= overwrite(before, offset as int, buf@));
        self.blocks.set_and_swap(block, &mut data);
        assert(self@ =~= old(self)@.update(block as int, overwrite(before, offset as int, buf@)));
        Ok(())
    }
}

impl BlockDevice for Disk {
    open spec fn device_blocks(&self) -> Seq<Seq<u8>> {
        self@
    }

    fn read(&self, block: usize, buf: &mut [u8]) {
        let _ = self.read(block, 0, buf);
        assert(self@[block as int].subrange(0, old(buf)@.len() as int) =~= self@[block as int].take(
            old(buf)@.len() as int,
        ));
    }

    fn write(&mut self, block: usize, buf: &[u8]) {
        let _ = self.write(block, 0, buf);
        assert(overwrite(old(self)@[block as int], 0, buf@) =~= buf@ + old(self)@[block as int].skip(
            buf@.len() as int,
        ));
    }
}

/// Fills `buf` from block `block` of `disk`, starting `offset` bytes in.
pub fn read(disk: &Disk, block: usize, offset: usize, buf: &mut [u8]) -> (r: Result<(), DiskError>)
    requires
        disk.wf(),
        offset + old(buf)@.len() <= BLOCK_SIZE,
    ensures
        block < disk@.len() ==> r == Ok::<(), DiskError>(()) && final(buf)@ == disk@[block as int].subrange(
            offset as int,
            offset + old(buf)@.len(),
        ),
        block >= disk@.len() ==> r == Err::<(), DiskError>(DiskError::BlockOutOfBounds(block))
            && final(buf)@ == old(buf)@,
{
    disk.read(block, offset, buf)
}

/// Writes `buf` into block `block` of `disk`, starting `offset` bytes in.
pub fn write(disk: &mut Disk, block: usize, offset: usize, buf: &[u8]) -> (r: Result<(), DiskError>)
    requires
        old(disk).wf(),
    ensures
        final(disk).wf(),
        block >= old(disk)@.len() ==> r == Err::<(), DiskError>(DiskError::BlockOutOfBounds(block))
            && final(disk)@ == old(disk)@,
        block < old(disk)@.len() && offset + buf@.len() > BLOCK_SIZE ==> r == Err::<(), DiskError>(
            DiskError::BufferTooLarge(buf@.len() as usize, offset),
        ) && final(disk)@ == old(disk)@,
        block < old(disk)@.len() && offset + buf@.len() <= BLOCK_SIZE ==> r == Ok::<(), DiskError>(
            (),
        ) && final(disk)@ == old(disk)@.update(
            block as int,
            overwrite(old(disk)@[block as int], offset as int, buf@),
        ),
{
    disk.write(block, offset, buf)
}

/// The number of blocks of `disk`.
pub fn size(disk: &Disk) -> (r: usize)
    ensures
        r == disk@.len(),
{
    disk.size()
}

} // verus!
