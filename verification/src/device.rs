//! An in-memory block device: the disk that the file system works on.
//!
//! The device has [`NUM_BLOCKS`] blocks of [`BLOCK_SIZE`] bytes. A block
//! that was never loaded or written cannot be read: a read of it fails and
//! leaves the caller's buffer as it was, and its contents count as zeros.
//! Each block also carries a dirty flag, set by every write, so that the
//! owner of the device knows which blocks to copy back to real storage.
use vstd::prelude::*;

verus! {

/// The size of a block in bytes.
pub const BLOCK_SIZE: usize = 4096;
/// The number of blocks on the device.
pub const NUM_BLOCKS: usize = 1024;

/// A block of zeros.
pub open spec fn zero_block() -> Seq<u8> {
    Seq::new(BLOCK_SIZE as nat, |i: int| 0u8)
}

/// The state of a device: the contents of each block, whether it can be
/// read, and whether it was written since the flags were last cleared.
pub struct DeviceView {
    pub blocks: Seq<Seq<u8>>,
    pub readable: Seq<bool>,
    pub dirty: Seq<bool>,
}

impl DeviceView {
    /// The shape every device state has.
    pub open spec fn wf(self) -> bool {
        &&& self.blocks.len() == NUM_BLOCKS
        &&& self.readable.len() == NUM_BLOCKS
        &&& self.dirty.len() == NUM_BLOCKS
        &&& forall|i: int| 0 <= i < NUM_BLOCKS ==> #[trigger] self.blocks[i].len() == BLOCK_SIZE
        &&& forall|i: int| 0 <= i < NUM_BLOCKS && !#[trigger] self.readable[i] ==> self.blocks[i] == zero_block()
    }

    /// What a read of block `idx` into a zeroed buffer leaves there.
    pub open spec fn read(self, idx: int) -> Seq<u8> {
        if 0 <= idx < NUM_BLOCKS {
            self.blocks[idx]
        } else {
            zero_block()
        }
    }

    /// Whether a read of block `idx` succeeds.
    pub open spec fn can_read(self, idx: int) -> bool {
        0 <= idx < NUM_BLOCKS && self.readable[idx]
    }

    /// The state after writing `data` to block `idx`; a write past the
    /// last block changes nothing.
    pub open spec fn write(self, idx: int, data: Seq<u8>) -> DeviceView {
        if 0 <= idx < NUM_BLOCKS {
            DeviceView {
                blocks: self.blocks.update(idx, data),
                readable: self.readable.update(idx, true),
                dirty: self.dirty.update(idx, true),
            }
        } else {
            self
        }
    }
}

/// A block device held in memory.
pub struct BlockDevice {
    blocks: Vec<[u8; 4096]>,
    readable: Vec<bool>,
    dirty: Vec<bool>,
}

impl View for BlockDevice {
    type V = DeviceView;

    closed spec fn view(&self) -> DeviceView {
        DeviceView {
            blocks: Seq::new(self.blocks@.len(), |i: int| self.blocks@[i]@),
            readable: self.readable@,
            dirty: self.dirty@,
        }
    }
}

impl BlockDevice {
    /// Whether the device is in a consistent state.
    pub open spec fn wf(&self) -> bool {
        self@.wf()
    }

    /// A device on which no block can be read yet.
    pub fn new() -> (dev: Self)
        ensures
            dev.wf(),
            forall|i: int| 0 <= i < NUM_BLOCKS ==> !#[trigger] dev@.readable[i] && !dev@.dirty[i],
    {
        let mut blocks: Vec<[u8; 4096]> = Vec::new();
        let mut readable: Vec<bool> = Vec::new();
        let mut dirty: Vec<bool> = Vec::new();
        let mut i: usize = 0;
        while i < NUM_BLOCKS
            invariant
                i <= NUM_BLOCKS,
                blocks@.len() == i,
                readable@.len() == i,
                dirty@.len() == i,
                forall|k: int| 0 <= k < i ==> #[trigger] blocks@[k]@ == zero_block(),
                forall|k: int| 0 <= k < i ==> !#[trigger] readable@[k] && !dirty@[k],
            decreases NUM_BLOCKS - i,
        {
            let z = [0u8; 4096];
            assert(z@ =~= zero_block());
            blocks.push(z);
            readable.push(false);
            dirty.push(false);
            i = i + 1;
        }
        let dev = BlockDevice { blocks, readable, dirty };
        assert(dev.wf());
        dev
    }

    /// Reads block `idx` into `buf`. It fails, and leaves `buf` as it was,
    /// when the block lies past the end of the device or cannot be read.
    pub fn read_block(&self, idx: u64, buf: &mut [u8; 4096]) -> (ok: bool)
        requires
            self.wf(),
        ensures
            ok == self@.can_read(idx as int),
            ok ==> final(buf)@ == self@.blocks[idx as int],
            !ok ==> final(buf)@ == old(buf)@,
    {
        if idx >= NUM_BLOCKS as u64 {
            return false;
        }
        let i = idx as usize;
        if !self.readable[i] {
            return false;
        }
        *buf = self.blocks[i];
        true
    }

    /// Writes `buf` to block `idx`, which becomes readable and dirty.
    /// Nothing happens, and it returns `false`, when `idx` lies past the end
    /// of the device.
    pub fn write_block(&mut self, idx: u64, buf: &[u8; 4096]) -> (ok: bool)
        requires
            old(self).wf(),
        ensures
            final(self).wf(),
            ok == (idx < NUM_BLOCKS),
            final(self)@ == old(self)@.write(idx as int, buf@),
    {
        if idx >= NUM_BLOCKS as u64 {
            return false;
        }
        let i = idx as usize;
        self.blocks.set(i, *buf);
        self.readable.set(i, true);
        self.dirty.set(i, true);
        assert(self@.blocks =~= old(self)@.blocks.update(i as int, buf@));
        assert(self@.readable =~= old(self)@.readable.update(i as int, true));
        true
    }

    /// Puts `buf` in block `idx` as contents read from real storage: the
    /// block becomes readable and its dirty flag stays as it was.
    pub fn load_block(&mut self, idx: usize, buf: &[u8; 4096])
        requires
            old(self).wf(),
            idx < NUM_BLOCKS,
        ensures
            final(self).wf(),
            final(self)@.blocks == old(self)@.blocks.update(idx as int, buf@),
            final(self)@.readable == old(self)@.readable.update(idx as int, true),
            final(self)@.dirty == old(self)@.dirty,
    {
        self.blocks.set(idx, *buf);
        self.readable.set(idx, true);
        assert(self@.blocks =~= old(self)@.blocks.update(idx as int, buf@));
    }

    /// Whether block `idx` can be read.
    pub fn is_readable(&self, idx: usize) -> (r: bool)
        requires
            self.wf(),
            idx < NUM_BLOCKS,
        ensures
            r == self@.readable[idx as int],
    {
        self.readable[idx]
    }

    /// Whether block `idx` was written since the dirty flags were cleared.
    pub fn is_dirty(&self, idx: usize) -> (r: bool)
        requires
            self.wf(),
            idx < NUM_BLOCKS,
        ensures
            r == self@.dirty[idx as int],
    {
        self.dirty[idx]
    }

    /// Clears every dirty flag; blocks and their readability stay.
    pub fn clear_dirty(&mut self)
        requires
            old(self).wf(),
        ensures
            final(self).wf(),
            final(self)@.blocks == old(self)@.blocks,
            final(self)@.readable == old(self)@.readable,
            forall|i: int| 0 <= i < NUM_BLOCKS ==> !#[trigger] final(self)@.dirty[i],
    {
        let mut i: usize = 0;
        while i < NUM_BLOCKS
            invariant
                i <= NUM_BLOCKS,
                self.wf(),
                self@.blocks == old(self)@.blocks,
                self@.readable == old(self)@.readable,
                forall|k: int| 0 <= k < i ==> !#[trigger] self@.dirty[k],
            decreases NUM_BLOCKS - i,
        {
            self.dirty.set(i, false);
            i = i + 1;
        }
    }
}

} // verus!
