//! The file system: formatting, creating and reading files on a
//! [`BlockDevice`], laid out as [`crate::layout`] describes.
use vstd::prelude::*;
use vstd::string::StringSliceAdditionalSpecFns;
use crate::bytes::{u32_to_le, u32_from_le};
use crate::device::{BLOCK_SIZE, BlockDevice, DeviceView, zero_block};
use crate::layout::{
    magic, superblock_bytes, config_path, config_data, initial_fat, FAT_BLOCK, ROOT_DIR_BLOCK, SUPER_BLOCK,
    DATA_START_BLOCK, FAT_ENTRIES, FAT_EOF, DIR_ENTRY_SIZE, DIR_ENTRIES, NAME_LEN, MAGIC_LEN, fat_of,
    fat_bytes, name_len_from, find_slot, find_slot_from, chain_bytes, chain_in_range, file_contents,
    read_in_range, free_from, free_blocks, chain_fat, blocks_needed, data_chunk, write_chunks, free_slot,
    free_slot_from, dir_with_entry, stored_name, lemma_free_from_skip, lemma_blocks_needed,
};

verus! {

/// A directory slot as a record.
#[derive(Clone, Copy)]
pub struct DirEntry {
    pub name: [u8; 32],
    pub start_block: u32,
    pub size: u32,
    pub reserved: [u8; 24],
}

impl DirEntry {
    /// A slot with no file: all zeros.
    pub fn empty() -> (e: Self)
        ensures
            e.name@ == zero_block().take(32),
            e.start_block == 0,
            e.size == 0,
            e.reserved@ == zero_block().take(24),
    {
        let e = Self { name: [0u8; 32], start_block: 0, size: 0, reserved: [0u8; 24] };
        assert(e.name@ =~= zero_block().take(32));
        assert(e.reserved@ =~= zero_block().take(24));
        e
    }
}

/// How [`Vfs::create_file`] ended.
#[derive(Clone, Copy, Debug, PartialEq, Eq, Structural)]
pub enum CreateOutcome {
    /// No block was free: nothing was written.
    DiskFull,
    /// The file went into directory slot `slot`; `truncated` when the disk
    /// filled up before all its data was written.
    Created { slot: usize, truncated: bool },
    /// The data and the FAT were written, but the directory had no free
    /// slot; `truncated` as for `Created`.
    RootDirFull { truncated: bool },
}

/// What creating a file named `path` with contents `data` does to a device
/// in state `v`, and how it ends.
///
/// The file takes the lowest free blocks, as many as its data needs (one
/// at least) or as are free, linked in ascending order in the FAT. Its
/// data goes to those blocks, one [`BLOCK_SIZE`] part each, the last part
/// padded with zeros; an empty file's block is not written. The FAT is
/// written back, and the first free directory slot gets the name, the
/// first block and the size of the data.
pub open spec fn create_effect(v: DeviceView, path: Seq<u8>, data: Seq<u8>) -> (DeviceView, CreateOutcome) {
    let fat0 = fat_of(v.read(FAT_BLOCK as int));
    let free = free_blocks(fat0);
    if free.len() == 0 {
        (v, CreateOutcome::DiskFull)
    } else {
        let needed = blocks_needed(data.len());
        let k = if needed < free.len() { needed } else { free.len() };
        let chain = free.take(k as int);
        let truncated = free.len() < needed;
        let v1 = if data.len() == 0 { v } else { write_chunks(v, chain, data) };
        let v2 = v1.write(FAT_BLOCK as int, fat_bytes(chain_fat(fat0, chain)));
        let dir = v2.read(ROOT_DIR_BLOCK as int);
        match free_slot(dir) {
            Some(s) => (
                v2.write(ROOT_DIR_BLOCK as int, dir_with_entry(dir, s, path, chain[0], data.len() as u32)),
                CreateOutcome::Created { slot: s as usize, truncated },
            ),
            None => (v2, CreateOutcome::RootDirFull { truncated }),
        }
    }
}

/// What formatting a device in state `v` does to it, and how the creation
/// of the configuration file ends: the superblock gets the magic, the FAT
/// takes the first three blocks and frees all others, the root directory
/// is cleared, and the configuration file is created.
pub open spec fn format_effect(v: DeviceView) -> (DeviceView, CreateOutcome) {
    let blank = v.write(SUPER_BLOCK as int, superblock_bytes()).write(
        FAT_BLOCK as int,
        fat_bytes(initial_fat()),
    ).write(ROOT_DIR_BLOCK as int, zero_block());
    create_effect(blank, config_path(), config_data())
}

/// How [`Vfs::init`] found the device.
#[derive(Clone, Copy, Debug, PartialEq, Eq, Structural)]
pub enum InitOutcome {
    /// The superblock holds the magic: the device was left as it was.
    Recognized,
    /// The superblock could not be read; the device was formatted, and the
    /// configuration file's creation ended as given.
    FormattedUnreadable(CreateOutcome),
    /// The superblock does not start with the magic; the device was
    /// formatted, and the configuration file's creation ended as given.
    FormattedMagicMismatch(CreateOutcome),
}

/// What starting the file system on a device in state `v` does: a device
/// whose superblock cannot be read or lacks the magic is formatted.
pub open spec fn init_effect(v: DeviceView) -> (DeviceView, InitOutcome) {
    if !v.can_read(SUPER_BLOCK as int) {
        (format_effect(v).0, InitOutcome::FormattedUnreadable(format_effect(v).1))
    } else if v.blocks[SUPER_BLOCK as int].take(MAGIC_LEN as int) != magic() {
        (format_effect(v).0, InitOutcome::FormattedMagicMismatch(format_effect(v).1))
    } else {
        (v, InitOutcome::Recognized)
    }
}

/// The bytes of the superblock's magic.
fn magic_bytes() -> (v: Vec<u8>)
    ensures
        v@ == magic(),
{
    let v = vec![0x54u8, 0x55u8, 0x53u8, 0x5fu8, 0x56u8, 0x46u8, 0x53u8, 0x00u8];
    assert(v@ =~= magic());
    v
}

/// The bytes of the configuration file's path.
fn config_path_bytes() -> (v: Vec<u8>)
    ensures
        v@ == config_path(),
{
    let v = vec![0x2fu8, 0x65u8, 0x74u8, 0x63u8, 0x2fu8, 0x63u8, 0x6fu8, 0x6eu8, 0x66u8, 0x69u8, 0x67u8, 0x2eu8,
        0x74u8, 0x78u8, 0x74u8];
    assert(v@ =~= config_path());
    v
}

/// The bytes of the configuration file's contents.
fn config_data_bytes() -> (v: Vec<u8>)
    ensures
        v@ == config_data(),
{
    let v = vec![0x54u8, 0x65u8, 0x72u8, 0x6du8, 0x69u8, 0x6eu8, 0x55u8, 0x53u8, 0x20u8, 0x49u8, 0x50u8, 0x43u8,
        0x20u8, 0x45u8, 0x6eu8, 0x61u8, 0x62u8, 0x6cu8, 0x65u8, 0x64u8, 0x0au8];
    assert(v@ =~= config_data());
    v
}

/// The unit that groups the file-system operations.
pub struct Vfs;

impl Vfs {
    /// The FAT stored on `dev`; an unreadable FAT block reads as all free.
    pub fn read_fat(dev: &BlockDevice) -> (fat: [u32; 1024])
        requires
            dev.wf(),
        ensures
            fat@ == fat_of(dev@.read(FAT_BLOCK as int)),
    {
        let mut buf = [0u8; 4096];
        let ghost zeros = buf@;
        assert(zeros =~= zero_block());
        dev.read_block(FAT_BLOCK, &mut buf);
        assert(buf@ == dev@.read(FAT_BLOCK as int));
        let mut fat = [0u32; 1024];
        let mut i: usize = 0;
        while i < FAT_ENTRIES
            invariant
                i <= FAT_ENTRIES,
                buf@.len() == BLOCK_SIZE,
                buf@ == dev@.read(FAT_BLOCK as int),
                fat@.len() == FAT_ENTRIES,
                forall|k: int| 0 <= k < i ==> fat@[k] == #[trigger] fat_of(buf@)[k],
            decreases FAT_ENTRIES - i,
        {
            fat[i] = u32_from_le(&buf, 4 * i);
            i = i + 1;
        }
        assert(fat@ =~= fat_of(buf@));
        fat
    }

    /// Stores `fat` in the FAT block of `dev`.
    pub fn write_fat(dev: &mut BlockDevice, fat: &[u32; 1024])
        requires
            old(dev).wf(),
        ensures
            final(dev).wf(),
            final(dev)@ == old(dev)@.write(FAT_BLOCK as int, fat_bytes(fat@)),
    {
        let mut buf = [0u8; 4096];
        let mut i: usize = 0;
        while i < FAT_ENTRIES
            invariant
                i <= FAT_ENTRIES,
                buf@.len() == BLOCK_SIZE,
                fat@.len() == FAT_ENTRIES,
                forall|j: int| 0 <= j < 4 * i ==> buf@[j] == #[trigger] fat_bytes(fat@)[j],
            decreases FAT_ENTRIES - i,
        {
            let bytes = u32_to_le(fat[i]);
            buf[4 * i] = bytes[0];
            buf[4 * i + 1] = bytes[1];
            buf[4 * i + 2] = bytes[2];
            buf[4 * i + 3] = bytes[3];
            proof {
                let ghost ii = i as int;
                assert((4 * ii) / 4 == ii && (4 * ii) % 4 == 0);
                assert((4 * ii + 1) / 4 == ii && (4 * ii + 1) % 4 == 1);
                assert((4 * ii + 2) / 4 == ii && (4 * ii + 2) % 4 == 2);
                assert((4 * ii + 3) / 4 == ii && (4 * ii + 3) % 4 == 3);
            }
            i = i + 1;
        }
        assert(buf@ =~= fat_bytes(fat@));
        dev.write_block(FAT_BLOCK, &buf);
    }

    /// Takes the first free block from [`DATA_START_BLOCK`] on: it becomes
    /// the end of a file in `fat` and is returned. `None`, with `fat`
    /// unchanged, when no block is free.
    pub fn alloc_block(fat: &mut [u32; 1024]) -> (r: Option<u32>)
        ensures
            match r {
                Some(b) => {
                    &&& DATA_START_BLOCK <= b < FAT_ENTRIES
                    &&& old(fat)@[b as int] == 0
                    &&& forall|i: int| DATA_START_BLOCK <= i < b ==> old(fat)@[i] != 0
                    &&& final(fat)@ == old(fat)@.update(b as int, FAT_EOF)
                },
                None => {
                    &&& forall|i: int| DATA_START_BLOCK <= i < FAT_ENTRIES ==> old(fat)@[i] != 0
                    &&& final(fat)@ == old(fat)@
                },
            },
    {
        let mut i: usize = DATA_START_BLOCK as usize;
        while i < FAT_ENTRIES
            invariant
                DATA_START_BLOCK <= i <= FAT_ENTRIES,
                fat@ == old(fat)@,
                forall|k: int| DATA_START_BLOCK <= k < i ==> fat@[k] != 0,
            decreases FAT_ENTRIES - i,
        {
            if fat[i] == 0 {
                fat[i] = FAT_EOF;
                return Some(i as u32);
            }
            i = i + 1;
        }
        None
    }
}

/// A buffer of zeros, as the reads of the file system start from.
fn zeroed_block() -> (buf: [u8; 4096])
    ensures
        buf@ == zero_block(),
{
    let buf = [0u8; 4096];
    assert(buf@ =~= zero_block());
    buf
}

/// Block `idx` of `dev` as a read into a zeroed buffer leaves it.
fn read_zeroed(dev: &BlockDevice, idx: u64) -> (buf: [u8; 4096])
    requires
        dev.wf(),
    ensures
        buf@ == dev@.read(idx as int),
        buf@.len() == BLOCK_SIZE,
{
    let mut buf = zeroed_block();
    dev.read_block(idx, &mut buf);
    buf
}

/// The length of the name stored at `dir[base..]`.
fn stored_name_len(dir: &[u8; 4096], base: usize) -> (k: usize)
    requires
        base + NAME_LEN <= dir@.len(),
    ensures
        k == name_len_from(dir@, base as int, 0),
        k <= NAME_LEN,
{
    let mut k: usize = 0;
    while k < NAME_LEN && dir[base + k] != 0
        invariant
            k <= NAME_LEN,
            base + NAME_LEN <= dir@.len(),
            name_len_from(dir@, base as int, 0) == name_len_from(dir@, base as int, k as int),
        decreases NAME_LEN - k,
    {
        k = k + 1;
    }
    k
}

/// Whether `dir[base..base + len]` is exactly `path`.
fn name_equals(dir: &[u8; 4096], base: usize, len: usize, path: &[u8]) -> (eq: bool)
    requires
        base + len <= dir@.len(),
    ensures
        eq == (dir@.subrange(base as int, base + len) == path@),
{
    if len != path.len() {
        assert(dir@.subrange(base as int, base + len).len() != path@.len());
        return false;
    }
    let mut k: usize = 0;
    while k < len
        invariant
            k <= len,
            len == path@.len(),
            base + len <= dir@.len(),
            forall|j: int| 0 <= j < k ==> dir@[base + j] == path@[j],
        decreases len - k,
    {
        if dir[base + k] != path[k] {
            assert(dir@.subrange(base as int, base + len)[k as int] != path@[k as int]);
            return false;
        }
        k = k + 1;
    }
    assert(dir@.subrange(base as int, base + len) =~= path@);
    true
}

/// The first slot of `dir` that holds a file named `path`.
fn find_entry(dir: &[u8; 4096], path: &[u8]) -> (r: Option<usize>)
    ensures
        match r {
            Some(i) => i < DIR_ENTRIES && find_slot(dir@, path@) == Some(i as int),
            None => find_slot(dir@, path@) is None,
        },
{
    let mut i: usize = 0;
    while i < DIR_ENTRIES
        invariant
            i <= DIR_ENTRIES,
            dir@.len() == BLOCK_SIZE,
            find_slot(dir@, path@) == find_slot_from(dir@, path@, i as int),
        decreases DIR_ENTRIES - i,
    {
        let offset = i * DIR_ENTRY_SIZE;
        if dir[offset] != 0 {
            let name_len = stored_name_len(dir, offset);
            if name_equals(dir, offset, name_len, path) {
                return Some(i);
            }
        }
        i = i + 1;
    }
    None
}

/// Sets slot `slot` of the directory block `dir_buf` to a file named
/// `path` that starts at block `start` and is `size` bytes long.
fn set_entry(dir_buf: &mut [u8; 4096], slot: usize, path: &[u8], start: u32, size: u32)
    requires
        slot < DIR_ENTRIES,
    ensures
        final(dir_buf)@ == dir_with_entry(old(dir_buf)@, slot as int, path@, start, size),
{
    let offset = slot * DIR_ENTRY_SIZE;
    let name_len = if path.len() < NAME_LEN { path.len() } else { NAME_LEN };
    let mut k: usize = 0;
    while k < NAME_LEN
        invariant
            k <= NAME_LEN,
            offset + DIR_ENTRY_SIZE <= BLOCK_SIZE,
            name_len == (if path@.len() < NAME_LEN { path@.len() } else { NAME_LEN as nat }),
            dir_buf@.len() == BLOCK_SIZE,
            forall|j: int| 0 <= j < k ==> dir_buf@[offset + j] == stored_name(path@)[j],
            forall|j: int| 0 <= j < offset ==> dir_buf@[j] == old(dir_buf)@[j],
            forall|j: int| offset + k <= j < BLOCK_SIZE ==> dir_buf@[j] == old(dir_buf)@[j],
        decreases NAME_LEN - k,
    {
        if k < name_len {
            dir_buf[offset + k] = path[k];
        } else {
            dir_buf[offset + k] = 0;
        }
        proof {
            let p = path@;
            let n = name_len as int;
            assert(stored_name(p) == p.take(n) + zero_block().take(NAME_LEN - n));
            if k < name_len {
                assert(stored_name(p)[k as int] == p.take(n)[k as int]);
            } else {
                assert(stored_name(p)[k as int] == zero_block().take(NAME_LEN - n)[k - n]);
            }
        }
        k = k + 1;
    }
    let start_bytes = u32_to_le(start);
    let size_bytes = u32_to_le(size);
    let mut k: usize = 0;
    while k < 4
        invariant
            k <= 4,
            offset + DIR_ENTRY_SIZE <= BLOCK_SIZE,
            dir_buf@.len() == BLOCK_SIZE,
            start_bytes@.len() == 4,
            size_bytes@.len() == 4,
            forall|j: int| 0 <= j < NAME_LEN ==> dir_buf@[offset + j] == stored_name(path@)[j],
            forall|j: int| 0 <= j < k ==> dir_buf@[offset + 32 + j] == start_bytes@[j],
            forall|j: int| 0 <= j < k ==> dir_buf@[offset + 36 + j] == size_bytes@[j],
            forall|j: int| 0 <= j < offset ==> dir_buf@[j] == old(dir_buf)@[j],
            forall|j: int| offset + 40 <= j < BLOCK_SIZE ==> dir_buf@[j] == old(dir_buf)@[j],
        decreases 4 - k,
    {
        dir_buf[offset + 32 + k] = start_bytes[k];
        dir_buf[offset + 36 + k] = size_bytes[k];
        k = k + 1;
    }
    proof {
        assert(dir_buf@ =~= dir_with_entry(old(dir_buf)@, slot as int, path@, start, size));
    }
}

/// The first free slot of the directory block `dir`.
fn find_free_slot(dir: &[u8; 4096]) -> (r: Option<usize>)
    ensures
        match r {
            Some(i) => i < DIR_ENTRIES && free_slot(dir@) == Some(i as int),
            None => free_slot(dir@) is None,
        },
{
    let mut i: usize = 0;
    while i < DIR_ENTRIES
        invariant
            i <= DIR_ENTRIES,
            dir@.len() == BLOCK_SIZE,
            free_slot(dir@) == free_slot_from(dir@, i as int),
        decreases DIR_ENTRIES - i,
    {
        if dir[i * DIR_ENTRY_SIZE] == 0 {
            return Some(i);
        }
        i = i + 1;
    }
    None
}

impl Vfs {
    /// Creates a file named `path` holding `data`, as [`create_effect`]
    /// describes.
    pub fn create_file(dev: &mut BlockDevice, path: &str, data: &[u8]) -> (r: CreateOutcome)
        requires
            old(dev).wf(),
        ensures
            final(dev).wf(),
            (final(dev)@, r) == create_effect(old(dev)@, path.spec_bytes(), data@),
    {
        Self::create_entry(dev, path.as_bytes(), data)
    }

    /// Creates a file whose name has the bytes `path`.
    fn create_entry(dev: &mut BlockDevice, path: &[u8], data: &[u8]) -> (r: CreateOutcome)
        requires
            old(dev).wf(),
        ensures
            final(dev).wf(),
            (final(dev)@, r) == create_effect(old(dev)@, path@, data@),
    {
        let ghost v0 = dev@;
        let ghost fat0 = fat_of(v0.read(FAT_BLOCK as int));
        let ghost free = free_blocks(fat0);
        let mut fat = Self::read_fat(dev);
        let mut current_block = match Self::alloc_block(&mut fat) {
            Some(b) => b,
            None => {
                proof {
                    lemma_free_from_skip(fat0, DATA_START_BLOCK as int, FAT_ENTRIES as int);
                }
                return CreateOutcome::DiskFull;
            },
        };
        let start_block = current_block;
        let ghost mut chain: Seq<u32> = seq![current_block];
        let ghost mut written: nat = 0;
        proof {
            lemma_free_from_skip(fat0, DATA_START_BLOCK as int, current_block as int);
            assert(free == chain + free_from(fat0, current_block + 1));
            assert(fat@ == chain_fat(fat0, chain));
        }
        let mut data_offset: usize = 0;
        let mut truncated = false;
        let data_len = data.len();
        while data_offset < data.len() && !truncated
            invariant
                dev.wf(),
                fat@.len() == FAT_ENTRIES,
                fat0.len() == FAT_ENTRIES,
                fat0 == fat_of(v0.read(FAT_BLOCK as int)),
                free == free_blocks(fat0),
                chain.len() >= 1,
                chain[0] == start_block,
                chain.last() == current_block,
                DATA_START_BLOCK <= current_block < FAT_ENTRIES,
                free == chain + free_from(fat0, current_block + 1),
                fat@ == chain_fat(fat0, chain),
                forall|i: int| DATA_START_BLOCK <= i <= current_block ==> fat@[i] != 0,
                forall|i: int| current_block < i < FAT_ENTRIES ==> fat@[i] == fat0[i],
                written == chain.len() - 1 || written == chain.len(),
                written == chain.len() - 1 ==> data_offset == BLOCK_SIZE * written && (written == 0
                    || data_offset < data@.len()),
                written == chain.len() ==> data_offset == (if data@.len() < BLOCK_SIZE * written {
                    data@.len() as int
                } else {
                    BLOCK_SIZE * written
                }),
                written >= 1 ==> BLOCK_SIZE * (written - 1) < data@.len(),
                written == chain.len() && !truncated ==> data_offset >= data@.len(),
                truncated ==> written == chain.len() && free.len() == chain.len() && data_offset
                    < data@.len(),
                data_offset <= data@.len(),
                data@.len() == data_len,
                dev@ == write_chunks(v0, chain.take(written as int), data@),
            decreases data@.len() - data_offset, if truncated { 0int } else { 1int },
        {
            let remaining = data.len() - data_offset;
            let chunk_size = if remaining < BLOCK_SIZE { remaining } else { BLOCK_SIZE };
            let mut buf = zeroed_block();
            let mut k: usize = 0;
            while k < chunk_size
                invariant
                    k <= chunk_size,
                    chunk_size <= BLOCK_SIZE,
                    data_offset + chunk_size <= data@.len(),
                    data@.len() <= usize::MAX,
                    buf@.len() == BLOCK_SIZE,
                    forall|j: int| 0 <= j < k ==> buf@[j] == data@[data_offset + j],
                    forall|j: int| k <= j < BLOCK_SIZE ==> buf@[j] == 0,
                decreases chunk_size - k,
            {
                buf[k] = data[data_offset + k];
                k = k + 1;
            }
            proof {
                assert(data_offset == BLOCK_SIZE * written);
                assert(buf@ =~= data_chunk(data@, written as int));
                assert(chain.take((written + 1) as int).drop_last() =~= chain.take(written as int));
            }
            dev.write_block(current_block as u64, &buf);
            proof {
                written = written + 1;
            }
            data_offset = data_offset + chunk_size;
            if data_offset < data.len() {
                let ghost fat_before = fat@;
                match Self::alloc_block(&mut fat) {
                    Some(next) => {
                        proof {
                            lemma_free_from_skip(fat0, current_block + 1, next as int);
                        }
                        fat[current_block as usize] = next;
                        proof {
                            let old_chain = chain;
                            chain = chain.push(next);
                            assert(chain.drop_last() =~= old_chain);
                            assert(chain.take(written as int) =~= old_chain);
                            assert(free =~= chain + free_from(fat0, next + 1));
                        }
                        current_block = next;
                    },
                    None => {
                        proof {
                            lemma_free_from_skip(fat0, current_block + 1, FAT_ENTRIES as int);
                            assert(free =~= chain);
                        }
                        truncated = true;
                    },
                }
            } else {
                proof {
                    assert(chain.take(written as int) =~= chain);
                }
            }
        }
        proof {
            let needed = blocks_needed(data@.len());
            if data@.len() == 0 {
                assert(written == 0);
                assert(chain.take(0) =~= Seq::<u32>::empty());
            } else {
                assert(written == chain.len());
                assert(chain.take(written as int) =~= chain);
                if !truncated {
                    lemma_blocks_needed(data@.len(), written);
                } else {
                    assert(BLOCK_SIZE * written < data@.len());
                    assert(needed > written) by (nonlinear_arith)
                        requires
                            BLOCK_SIZE * written < data@.len(),
                            needed == blocks_needed(data@.len()),
                            data@.len() > 0,
                            BLOCK_SIZE == 4096,
                    ;
                }
            }
            assert(free.take(chain.len() as int) =~= chain);
        }
        Self::write_fat(dev, &fat);
        let mut dir_buf = read_zeroed(dev, ROOT_DIR_BLOCK);
        let ghost dir = dir_buf@;
        let ghost v2 = dev@;
        let path_bytes = path;
        proof {
            assert(create_effect(v0, path_bytes@, data@) == match free_slot(dir) {
                Some(s) => (
                    v2.write(ROOT_DIR_BLOCK as int, dir_with_entry(dir, s, path_bytes@, start_block, data@.len() as u32)),
                    CreateOutcome::Created { slot: s as usize, truncated },
                ),
                None => (v2, CreateOutcome::RootDirFull { truncated }),
            });
        }
        match find_free_slot(&dir_buf) {
            Some(i) => {
                set_entry(&mut dir_buf, i, path_bytes, start_block, data.len() as u32);
                dev.write_block(ROOT_DIR_BLOCK, &dir_buf);
                CreateOutcome::Created { slot: i, truncated }
            },
            None => CreateOutcome::RootDirFull { truncated },
        }
    }

    /// Formats `dev` as [`format_effect`] describes.
    pub fn format(dev: &mut BlockDevice) -> (r: CreateOutcome)
        requires
            old(dev).wf(),
        ensures
            final(dev).wf(),
            (final(dev)@, r) == format_effect(old(dev)@),
    {
        let magic_vec = magic_bytes();
        let mut buf = zeroed_block();
        let mut k: usize = 0;
        while k < MAGIC_LEN
            invariant
                k <= MAGIC_LEN,
                magic_vec@ == magic(),
                buf@.len() == BLOCK_SIZE,
                forall|j: int| 0 <= j < k ==> buf@[j] == magic()[j],
                forall|j: int| k <= j < BLOCK_SIZE ==> buf@[j] == 0,
            decreases MAGIC_LEN - k,
        {
            buf[k] = magic_vec[k];
            k = k + 1;
        }
        assert(buf@ =~= superblock_bytes());
        dev.write_block(SUPER_BLOCK, &buf);
        let mut fat = [0u32; 1024];
        fat[0] = FAT_EOF;
        fat[1] = FAT_EOF;
        fat[2] = FAT_EOF;
        assert(fat@ =~= initial_fat());
        Self::write_fat(dev, &fat);
        let dir_buf = zeroed_block();
        dev.write_block(ROOT_DIR_BLOCK, &dir_buf);
        let path = config_path_bytes();
        let data = config_data_bytes();
        Self::create_entry(dev, path.as_slice(), data.as_slice())
    }

    /// Starts the file system on `dev`, formatting it when its superblock
    /// cannot be read or lacks the magic, as [`init_effect`] describes.
    pub fn init(dev: &mut BlockDevice) -> (r: InitOutcome)
        requires
            old(dev).wf(),
        ensures
            final(dev).wf(),
            (final(dev)@, r) == init_effect(old(dev)@),
    {
        let mut super_block = zeroed_block();
        if !dev.read_block(SUPER_BLOCK, &mut super_block) {
            let c = Self::format(dev);
            return InitOutcome::FormattedUnreadable(c);
        }
        let magic_vec = magic_bytes();
        let mut k: usize = 0;
        let mut same = true;
        assert(super_block@.take(0) =~= magic().take(0));
        while k < MAGIC_LEN
            invariant
                k <= MAGIC_LEN,
                dev.wf(),
                dev@ == old(dev)@,
                super_block@ == dev@.blocks[SUPER_BLOCK as int],
                magic_vec@ == magic(),
                super_block@.len() == BLOCK_SIZE,
                same == (super_block@.take(k as int) == magic().take(k as int)),
            decreases MAGIC_LEN - k,
        {
            if super_block[k] != magic_vec[k] {
                same = false;
            }
            proof {
                if same {
                    assert(super_block@.take(k + 1) =~= magic().take(k + 1));
                } else {
                    if super_block[k as int] != magic()[k as int] {
                        assert(super_block@.take(k + 1)[k as int] != magic().take(k + 1)[k as int]);
                    } else {
                        assert(super_block@.take(k as int) =~= super_block@.take(k + 1).take(k as int));
                        assert(magic().take(k as int) =~= magic().take(k + 1).take(k as int));
                    }
                }
            }
            k = k + 1;
        }
        assert(magic().take(MAGIC_LEN as int) =~= magic());
        if !same {
            let c = Self::format(dev);
            InitOutcome::FormattedMagicMismatch(c)
        } else {
            InitOutcome::Recognized
        }
    }

    /// Whether [`Vfs::read_file`] of `path` into a buffer of `buf_len`
    /// bytes follows only blocks that the FAT has entries for; a read that
    /// would leave the FAT is refused by `read_file`'s precondition.
    pub fn read_in_bounds(dev: &BlockDevice, path: &str, buf_len: usize) -> (ok: bool)
        requires
            dev.wf(),
        ensures
            ok == read_in_range(dev@, path.spec_bytes(), buf_len as nat),
    {
        let dir_buf = read_zeroed(dev, ROOT_DIR_BLOCK);
        let i = match find_entry(&dir_buf, path.as_bytes()) {
            None => return true,
            Some(i) => i,
        };
        let offset = i * DIR_ENTRY_SIZE;
        let start_block = u32_from_le(&dir_buf, offset + 32);
        let file_size = u32_from_le(&dir_buf, offset + 36);
        let fat = Self::read_fat(dev);
        let mut current_block = start_block;
        let mut want: usize = if (file_size as usize) < buf_len { file_size as usize } else { buf_len };
        let ghost start_want = want;
        assert(read_in_range(dev@, path.spec_bytes(), buf_len as nat) == chain_in_range(fat@, start_block, start_want as nat));
        while current_block != FAT_EOF && want > 0
            invariant
                fat@.len() == FAT_ENTRIES,
                read_in_range(dev@, path.spec_bytes(), buf_len as nat) == chain_in_range(fat@, start_block, start_want as nat),
                chain_in_range(fat@, start_block, start_want as nat) == chain_in_range(fat@, current_block, want as nat),
            decreases want,
        {
            if current_block as usize >= FAT_ENTRIES {
                return false;
            }
            let n = if want < BLOCK_SIZE { want } else { BLOCK_SIZE };
            want = want - n;
            current_block = fat[current_block as usize];
        }
        true
    }

    /// Reads the file named `path` into `out_buf` and returns how many
    /// bytes it read: none when no such file exists, else the file's first
    /// bytes, up to its size, the length of `out_buf`, or the end of its
    /// chain of blocks. The rest of `out_buf` stays as it was.
    pub fn read_file(dev: &BlockDevice, path: &str, out_buf: &mut [u8]) -> (n: usize)
        requires
            dev.wf(),
            read_in_range(dev@, path.spec_bytes(), old(out_buf)@.len()),
        ensures
            n == file_contents(dev@, path.spec_bytes(), old(out_buf)@.len()).len(),
            final(out_buf)@ == file_contents(dev@, path.spec_bytes(), old(out_buf)@.len())
                + old(out_buf)@.skip(n as int),
    {
        let dir_buf = read_zeroed(dev, ROOT_DIR_BLOCK);
        let path_bytes = path.as_bytes();
        let slot = find_entry(&dir_buf, path_bytes);
        let i = match slot {
            None => {
                assert(old(out_buf)@.skip(0) =~= old(out_buf)@);
                return 0;
            },
            Some(i) => i,
        };
        let offset = i * DIR_ENTRY_SIZE;
        let start_block = u32_from_le(&dir_buf, offset + 32);
        let file_size = u32_from_le(&dir_buf, offset + 36);
        let fat = Self::read_fat(dev);
        let ghost v = dev@;
        let out_len = out_buf.len();
        let ghost limit = out_buf@.len();
        assert(limit == out_len);
        let ghost total = chain_bytes(v, fat@, start_block, if (file_size as nat) < limit { file_size as nat } else { limit });
        assert(total == file_contents(v, path.spec_bytes(), limit));
        let mut current_block = start_block;
        let mut out_offset: usize = 0;
        let mut remaining: usize = file_size as usize;
        while current_block != FAT_EOF && remaining > 0 && out_offset < out_buf.len()
            invariant
                dev.wf(),
                dev@ == v,
                fat@ == fat_of(v.read(FAT_BLOCK as int)),
                out_buf@.len() == limit,
                limit <= usize::MAX,
                out_offset <= limit,
                chain_in_range(fat@, current_block, if remaining < limit - out_offset { remaining as nat } else { (limit - out_offset) as nat }),
                out_buf@.take(out_offset as int) + chain_bytes(v, fat@, current_block,
                    if remaining < limit - out_offset { remaining as nat } else { (limit - out_offset) as nat }) == total,
                forall|k: int| out_offset <= k < limit ==> out_buf@[k] == old(out_buf)@[k],
            decreases remaining,
        {
            let ghost want: nat = if remaining < limit - out_offset { remaining as nat } else { (limit - out_offset) as nat };
            let buf = read_zeroed(dev, current_block as u64);
            let room = out_buf.len() - out_offset;
            let chunk_size = if remaining < BLOCK_SIZE && remaining < room {
                remaining
            } else if BLOCK_SIZE < room {
                BLOCK_SIZE
            } else {
                room
            };
            let ghost before = out_buf@;
            let mut k: usize = 0;
            while k < chunk_size
                invariant
                    k <= chunk_size,
                    chunk_size <= BLOCK_SIZE,
                    out_offset + chunk_size <= limit,
                    limit <= usize::MAX,
                    out_buf@.len() == limit,
                    before.len() == limit,
                    buf@.len() == BLOCK_SIZE,
                    forall|j: int| 0 <= j < out_offset ==> out_buf@[j] == before[j],
                    forall|j: int| out_offset + k <= j < limit ==> out_buf@[j] == before[j],
                    forall|j: int| 0 <= j < k ==> out_buf@[out_offset + j] == buf@[j],
                decreases chunk_size - k,
            {
                out_buf[out_offset + k] = buf[k];
                k = k + 1;
            }
            proof {
                let n: nat = if want < BLOCK_SIZE { want } else { BLOCK_SIZE as nat };
                assert(n == chunk_size);
                let rest = chain_bytes(v, fat@, fat@[current_block as int], (want - n) as nat);
                assert(chain_bytes(v, fat@, current_block, want) == v.read(current_block as int).take(n as int) + rest);
                assert(out_buf@.take(out_offset + chunk_size) =~= before.take(out_offset as int)
                    + v.read(current_block as int).take(n as int));
            }
            out_offset = out_offset + chunk_size;
            remaining = remaining - chunk_size;
            current_block = fat[current_block as usize];
        }
        proof {
            let want: nat = if remaining < limit - out_offset { remaining as nat } else { (limit - out_offset) as nat };
            assert(chain_bytes(v, fat@, current_block, want) =~= Seq::<u8>::empty());
            assert(out_buf@.take(out_offset as int) =~= total);
            assert(out_buf@ =~= total + old(out_buf)@.skip(out_offset as int));
        }
        out_offset
    }
}

} // verus!
