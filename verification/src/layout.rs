//! The on-disk layout of the file system, as mathematics.
//!
//! Block 0 is the superblock, which starts with the magic bytes
//! `"TUS_VFS\0"`. Block 1 holds the file allocation table (FAT): 1024
//! little-endian words, one per block, where 0 marks a free block,
//! [`FAT_EOF`] the last block of a file, and any other value the next
//! block of the file. Block 2 is the root directory: 64 slots of 64
//! bytes, each holding a name of at most 32 bytes (padded with zeros), the
//! first block of the file at bytes `32..36` and its size at `36..40`; a
//! slot whose first byte is 0 is free. Files start at block 3.
use vstd::prelude::*;
use crate::bytes::{le_u32_at, u32_le, lemma_u32_le_roundtrip};
use crate::device::{BLOCK_SIZE, DeviceView, zero_block};

verus! {

/// The superblock.
pub const SUPER_BLOCK: u64 = 0;
/// The block that holds the FAT.
pub const FAT_BLOCK: u64 = 1;
/// The block that holds the root directory.
pub const ROOT_DIR_BLOCK: u64 = 2;
/// The first block that a file can use.
pub const DATA_START_BLOCK: u64 = 3;
/// The number of entries in the FAT.
pub const FAT_ENTRIES: usize = 1024;
/// The FAT entry of a file's last block.
pub const FAT_EOF: u32 = 0xFFFF_FFFF;
/// The size of a directory slot in bytes.
pub const DIR_ENTRY_SIZE: usize = 64;
/// The number of slots in the root directory.
pub const DIR_ENTRIES: usize = 64;
/// The longest name a directory slot holds.
pub const NAME_LEN: usize = 32;
/// The length of the superblock's magic.
pub const MAGIC_LEN: usize = 8;

/// The magic bytes `"TUS_VFS\0"` that start a formatted superblock.
pub open spec fn magic() -> Seq<u8> {
    seq![0x54u8, 0x55u8, 0x53u8, 0x5fu8, 0x56u8, 0x46u8, 0x53u8, 0x00u8]
}

/// A formatted superblock: the magic, then zeros.
pub open spec fn superblock_bytes() -> Seq<u8> {
    magic() + zero_block().take(BLOCK_SIZE - MAGIC_LEN)
}

/// The path of the configuration file that formatting creates:
/// `"/etc/config.txt"`.
pub open spec fn config_path() -> Seq<u8> {
    seq![0x2fu8, 0x65u8, 0x74u8, 0x63u8, 0x2fu8, 0x63u8, 0x6fu8, 0x6eu8, 0x66u8, 0x69u8, 0x67u8, 0x2eu8, 0x74u8,
        0x78u8, 0x74u8]
}

/// The contents of the configuration file that formatting creates:
/// `"TerminUS IPC Enabled\n"`.
pub open spec fn config_data() -> Seq<u8> {
    seq![0x54u8, 0x65u8, 0x72u8, 0x6du8, 0x69u8, 0x6eu8, 0x55u8, 0x53u8, 0x20u8, 0x49u8, 0x50u8, 0x43u8, 0x20u8,
        0x45u8, 0x6eu8, 0x61u8, 0x62u8, 0x6cu8, 0x65u8, 0x64u8, 0x0au8]
}

/// The FAT that a FAT block holds.
pub open spec fn fat_of(block: Seq<u8>) -> Seq<u32> {
    Seq::new(FAT_ENTRIES as nat, |i: int| le_u32_at(block, 4 * i))
}

/// The block that holds `fat`.
pub open spec fn fat_bytes(fat: Seq<u32>) -> Seq<u8> {
    Seq::new(BLOCK_SIZE as nat, |j: int| u32_le(fat[j / 4])[j % 4])
}

/// The FAT of a freshly formatted disk: the first three blocks are taken,
/// all others free.
pub open spec fn initial_fat() -> Seq<u32> {
    Seq::new(FAT_ENTRIES as nat, |i: int| if i < DATA_START_BLOCK { FAT_EOF } else { 0u32 })
}

/// The free blocks of `fat` from `i` on, in ascending order; blocks below
/// [`DATA_START_BLOCK`] are never handed out.
pub open spec fn free_from(fat: Seq<u32>, i: int) -> Seq<u32>
    decreases FAT_ENTRIES - i,
{
    if i >= FAT_ENTRIES || i < 0 {
        Seq::empty()
    } else if fat[i] == 0 {
        seq![i as u32] + free_from(fat, i + 1)
    } else {
        free_from(fat, i + 1)
    }
}

/// The blocks of `fat` free for files, in ascending order.
pub open spec fn free_blocks(fat: Seq<u32>) -> Seq<u32> {
    free_from(fat, DATA_START_BLOCK as int)
}

/// `fat` after the blocks of `chain` were taken, in order, as one file:
/// each points to the next and the last is the end of the file.
pub open spec fn chain_fat(fat: Seq<u32>, chain: Seq<u32>) -> Seq<u32>
    decreases chain.len(),
{
    if chain.len() == 0 {
        fat
    } else if chain.len() == 1 {
        fat.update(chain[0] as int, FAT_EOF)
    } else {
        chain_fat(fat, chain.drop_last()).update(chain.last() as int, FAT_EOF).update(
            chain[chain.len() - 2] as int,
            chain.last(),
        )
    }
}

/// The number of blocks a file of `len` bytes takes: one at least.
pub open spec fn blocks_needed(len: nat) -> nat {
    if len == 0 {
        1
    } else {
        ((len + BLOCK_SIZE - 1) / BLOCK_SIZE as int) as nat
    }
}

/// Block `j` of a file with contents `data`: its part of `data`, padded
/// with zeros.
pub open spec fn data_chunk(data: Seq<u8>, j: int) -> Seq<u8> {
    let start = j * BLOCK_SIZE;
    let end = if data.len() < start + BLOCK_SIZE { data.len() as int } else { start + BLOCK_SIZE };
    data.subrange(start, end) + zero_block().take(BLOCK_SIZE - (end - start))
}

/// The device after the first `chain.len()` blocks of `data` were written
/// to the blocks of `chain`, in order.
pub open spec fn write_chunks(v: DeviceView, chain: Seq<u32>, data: Seq<u8>) -> DeviceView
    decreases chain.len(),
{
    if chain.len() == 0 {
        v
    } else {
        write_chunks(v, chain.drop_last(), data).write(
            chain.last() as int,
            data_chunk(data, chain.len() - 1),
        )
    }
}

/// Where slot `i` of the directory starts.
pub open spec fn slot_base(i: int) -> int {
    DIR_ENTRY_SIZE * i
}

/// Whether slot `i` of `dir` holds a file.
pub open spec fn slot_used(dir: Seq<u8>, i: int) -> bool {
    dir[slot_base(i)] != 0
}

/// The length of the name at `dir[base..]`: the bytes before the first
/// zero, at most [`NAME_LEN`], counting from `k`.
pub open spec fn name_len_from(dir: Seq<u8>, base: int, k: int) -> int
    decreases NAME_LEN - k,
{
    if k >= NAME_LEN || dir[base + k] == 0 {
        k
    } else {
        name_len_from(dir, base, k + 1)
    }
}

/// The name in slot `i` of `dir`.
pub open spec fn slot_name(dir: Seq<u8>, i: int) -> Seq<u8> {
    dir.subrange(slot_base(i), slot_base(i) + name_len_from(dir, slot_base(i), 0))
}

/// The first block of the file in slot `i`.
pub open spec fn slot_start(dir: Seq<u8>, i: int) -> u32 {
    le_u32_at(dir, slot_base(i) + 32)
}

/// The size of the file in slot `i`.
pub open spec fn slot_size(dir: Seq<u8>, i: int) -> u32 {
    le_u32_at(dir, slot_base(i) + 36)
}

/// Whether slot `i` holds a file named `path`.
pub open spec fn slot_matches(dir: Seq<u8>, i: int, path: Seq<u8>) -> bool {
    slot_used(dir, i) && slot_name(dir, i) == path
}

/// The first slot from `i` on that holds a file named `path`.
pub open spec fn find_slot_from(dir: Seq<u8>, path: Seq<u8>, i: int) -> Option<int>
    decreases DIR_ENTRIES - i,
{
    if i >= DIR_ENTRIES || i < 0 {
        None
    } else if slot_matches(dir, i, path) {
        Some(i)
    } else {
        find_slot_from(dir, path, i + 1)
    }
}

/// The first slot that holds a file named `path`.
pub open spec fn find_slot(dir: Seq<u8>, path: Seq<u8>) -> Option<int> {
    find_slot_from(dir, path, 0)
}

/// The first free slot from `i` on.
pub open spec fn free_slot_from(dir: Seq<u8>, i: int) -> Option<int>
    decreases DIR_ENTRIES - i,
{
    if i >= DIR_ENTRIES || i < 0 {
        None
    } else if !slot_used(dir, i) {
        Some(i)
    } else {
        free_slot_from(dir, i + 1)
    }
}

/// The first free slot of `dir`.
pub open spec fn free_slot(dir: Seq<u8>) -> Option<int> {
    free_slot_from(dir, 0)
}

/// The name bytes stored for `path`: at most [`NAME_LEN`] of its bytes,
/// padded with zeros.
pub open spec fn stored_name(path: Seq<u8>) -> Seq<u8> {
    let n = if path.len() < NAME_LEN { path.len() as int } else { NAME_LEN as int };
    path.take(n) + zero_block().take(NAME_LEN - n)
}

/// `dir` with slot `s` set to a file named `path` that starts at block
/// `start` and is `size` bytes long; the slot's last 24 bytes stay.
pub open spec fn dir_with_entry(dir: Seq<u8>, s: int, path: Seq<u8>, start: u32, size: u32) -> Seq<u8> {
    let b = slot_base(s);
    dir.subrange(0, b) + stored_name(path) + u32_le(start) + u32_le(size) + dir.subrange(b + 40, dir.len() as int)
}

/// The bytes of a file read from block `cur` on, following the FAT, up to
/// `want` bytes or the end of the chain.
pub open spec fn chain_bytes(v: DeviceView, fat: Seq<u32>, cur: u32, want: nat) -> Seq<u8>
    decreases want,
{
    if cur == FAT_EOF || want == 0 {
        Seq::empty()
    } else {
        let n: nat = if want < BLOCK_SIZE { want } else { BLOCK_SIZE as nat };
        v.read(cur as int).take(n as int) + chain_bytes(v, fat, fat[cur as int], (want - n) as nat)
    }
}

/// Whether every block that a read of `want` bytes from block `cur` on
/// visits has an entry in the FAT.
pub open spec fn chain_in_range(fat: Seq<u32>, cur: u32, want: nat) -> bool
    decreases want,
{
    if cur == FAT_EOF || want == 0 {
        true
    } else {
        let n: nat = if want < BLOCK_SIZE { want } else { BLOCK_SIZE as nat };
        cur < FAT_ENTRIES && chain_in_range(fat, fat[cur as int], (want - n) as nat)
    }
}

/// What reading the file named `path` into a buffer of `limit` bytes
/// yields: nothing when no such file exists, else its first bytes, up to
/// its size, the buffer's length, or the end of its chain.
pub open spec fn file_contents(v: DeviceView, path: Seq<u8>, limit: nat) -> Seq<u8> {
    let dir = v.read(ROOT_DIR_BLOCK as int);
    match find_slot(dir, path) {
        None => Seq::empty(),
        Some(i) => {
            let size = slot_size(dir, i) as nat;
            chain_bytes(
                v,
                fat_of(v.read(FAT_BLOCK as int)),
                slot_start(dir, i),
                if size < limit { size } else { limit },
            )
        },
    }
}

/// Whether reading the file named `path` into a buffer of `limit` bytes
/// stays within the FAT.
pub open spec fn read_in_range(v: DeviceView, path: Seq<u8>, limit: nat) -> bool {
    let dir = v.read(ROOT_DIR_BLOCK as int);
    match find_slot(dir, path) {
        None => true,
        Some(i) => {
            let size = slot_size(dir, i) as nat;
            chain_in_range(
                fat_of(v.read(FAT_BLOCK as int)),
                slot_start(dir, i),
                if size < limit { size } else { limit },
            )
        },
    }
}

/// Blocks that are all taken add nothing to a list of free blocks.
pub proof fn lemma_free_from_skip(fat: Seq<u32>, a: int, b: int)
    requires
        0 <= a <= b <= FAT_ENTRIES,
        forall|i: int| a <= i < b ==> fat[i] != 0,
    ensures
        free_from(fat, a) == free_from(fat, b),
    decreases b - a,
{
    if a < b {
        lemma_free_from_skip(fat, a + 1, b);
    }
}

/// A file of `len > 0` bytes whose last block holds its last byte takes
/// that many blocks.
pub proof fn lemma_blocks_needed(len: nat, w: nat)
    requires
        len > 0,
        w >= 1,
        BLOCK_SIZE * (w - 1) < len <= BLOCK_SIZE * w,
    ensures
        blocks_needed(len) == w,
{
    assert((len + BLOCK_SIZE - 1) / (BLOCK_SIZE as int) == w) by (nonlinear_arith)
        requires
            BLOCK_SIZE * (w - 1) < len <= BLOCK_SIZE * w,
            BLOCK_SIZE == 4096,
    ;
}

/// Writing a FAT and reading it back gives it back.
pub proof fn lemma_fat_roundtrip(fat: Seq<u32>)
    requires
        fat.len() == FAT_ENTRIES,
    ensures
        fat_of(fat_bytes(fat)) == fat,
{
    assert forall|i: int| 0 <= i < FAT_ENTRIES implies #[trigger] fat_of(fat_bytes(fat))[i] == fat[i] by {
        let b = fat_bytes(fat);
        lemma_u32_le_roundtrip(fat[i]);
        assert((4 * i) / 4 == i && (4 * i) % 4 == 0);
        assert((4 * i + 1) / 4 == i && (4 * i + 1) % 4 == 1);
        assert((4 * i + 2) / 4 == i && (4 * i + 2) % 4 == 2);
        assert((4 * i + 3) / 4 == i && (4 * i + 3) % 4 == 3);
        assert(b[4 * i] == u32_le(fat[i])[0]);
        assert(b[4 * i + 1] == u32_le(fat[i])[1]);
        assert(b[4 * i + 2] == u32_le(fat[i])[2]);
        assert(b[4 * i + 3] == u32_le(fat[i])[3]);
    }
    assert(fat_of(fat_bytes(fat)) =~= fat);
}

} // verus!
