//! What holds across the file-system operations: a file reads back as it
//! was created, and a formatted device is recognised.
use vstd::prelude::*;
use crate::bytes::{le_u32_at, u32_le, lemma_u32_le_roundtrip};
use crate::device::{BLOCK_SIZE, NUM_BLOCKS, DeviceView, zero_block};
use crate::layout::{
    FAT_BLOCK, ROOT_DIR_BLOCK, SUPER_BLOCK, DATA_START_BLOCK, FAT_ENTRIES, FAT_EOF, DIR_ENTRIES, NAME_LEN,
    MAGIC_LEN, fat_of, fat_bytes, free_from, free_blocks, chain_fat, blocks_needed, data_chunk, write_chunks,
    slot_base, slot_used, name_len_from, slot_name, slot_matches, slot_start, slot_size, find_slot,
    find_slot_from, free_slot, free_slot_from, stored_name, dir_with_entry, chain_bytes, chain_in_range,
    file_contents, read_in_range, lemma_fat_roundtrip, magic, superblock_bytes, config_path, config_data,
    initial_fat,
};
use crate::vfs::{CreateOutcome, InitOutcome, create_effect, format_effect, init_effect};

verus! {

/// Whether `s` is strictly increasing.
pub open spec fn ascending(s: Seq<u32>) -> bool {
    forall|i: int, j: int| 0 <= i < j < s.len() ==> s[i] < s[j]
}

/// The free blocks from `a` on are free, lie in `[a, FAT_ENTRIES)`, and
/// come in ascending order.
proof fn lemma_free_from_props(fat: Seq<u32>, a: int)
    requires
        0 <= a <= FAT_ENTRIES,
    ensures
        ascending(free_from(fat, a)),
        free_from(fat, a).len() <= FAT_ENTRIES - a,
        forall|i: int| 0 <= i < free_from(fat, a).len() ==> a <= #[trigger] free_from(fat, a)[i] < FAT_ENTRIES
            && fat[free_from(fat, a)[i] as int] == 0,
    decreases FAT_ENTRIES - a,
{
    if a < FAT_ENTRIES {
        lemma_free_from_props(fat, a + 1);
        let rest = free_from(fat, a + 1);
        if fat[a] == 0 {
            let s = seq![a as u32] + rest;
            assert(free_from(fat, a) == s);
            assert forall|i: int| 0 <= i < s.len() implies a <= #[trigger] s[i] < FAT_ENTRIES && fat[s[i] as int]
                == 0 by {
                if i > 0 {
                    assert(s[i] == rest[i - 1]);
                }
            }
            assert forall|i: int, j: int| 0 <= i < j < s.len() implies s[i] < s[j] by {
                assert(s[j] == rest[j - 1]);
                if i > 0 {
                    assert(s[i] == rest[i - 1]);
                }
            }
        }
    }
}

/// The FAT that [`chain_fat`] builds links the blocks of the chain in
/// order, ends it at the last one, and keeps every other entry.
proof fn lemma_chain_fat_links(fat: Seq<u32>, chain: Seq<u32>)
    requires
        fat.len() == FAT_ENTRIES,
        ascending(chain),
        forall|i: int| 0 <= i < chain.len() ==> #[trigger] chain[i] < FAT_ENTRIES,
    ensures
        chain_fat(fat, chain).len() == FAT_ENTRIES,
        forall|j: int| 0 <= j < chain.len() - 1 ==> #[trigger] chain_fat(fat, chain)[chain[j] as int] == chain[j + 1],
        chain.len() > 0 ==> chain_fat(fat, chain)[chain.last() as int] == FAT_EOF,
        forall|i: int| 0 <= i < FAT_ENTRIES && !chain.contains(i as u32) ==> #[trigger] chain_fat(fat, chain)[i] == fat[i],
    decreases chain.len(),
{
    if chain.len() >= 2 {
        let dl = chain.drop_last();
        assert forall|i: int| 0 <= i < dl.len() implies #[trigger] dl[i] < FAT_ENTRIES by {
            assert(dl[i] == chain[i]);
        }
        lemma_chain_fat_links(fat, dl);
        let prev = chain_fat(fat, dl);
        let n = chain.len();
        let cf = chain_fat(fat, chain);
        assert(cf == prev.update(chain.last() as int, FAT_EOF).update(chain[n - 2] as int, chain.last()));
        assert forall|j: int| 0 <= j < chain.len() - 1 implies #[trigger] cf[chain[j] as int] == chain[j + 1] by {
            if j < n - 2 {
                assert(dl[j] == chain[j]);
                assert(dl[j + 1] == chain[j + 1]);
                assert(chain[j] < chain[n - 2]);
            }
        }
        assert forall|i: int| 0 <= i < FAT_ENTRIES && !chain.contains(i as u32) implies #[trigger] cf[i] == fat[i] by {
            if dl.contains(i as u32) {
                let t = choose|t: int| 0 <= t < dl.len() && dl[t] == i as u32;
                assert(chain[t] == i as u32);
            }
            assert(chain[n - 1] != i as u32);
            assert(chain[n - 2] != i as u32);
        }
    } else if chain.len() == 1 {
        assert forall|i: int| 0 <= i < FAT_ENTRIES && !chain.contains(i as u32) implies #[trigger] chain_fat(
            fat,
            chain,
        )[i] == fat[i] by {
            assert(chain[0] != i as u32);
        }
    }
}

/// Writing the parts of `data` to an ascending chain puts part `j` in
/// block `chain[j]` and changes no other block.
proof fn lemma_write_chunks_props(v: DeviceView, chain: Seq<u32>, data: Seq<u8>)
    requires
        v.wf(),
        ascending(chain),
        forall|i: int| 0 <= i < chain.len() ==> #[trigger] chain[i] < FAT_ENTRIES,
        chain.len() > 0 ==> BLOCK_SIZE * (chain.len() - 1) < data.len(),
    ensures
        write_chunks(v, chain, data).wf(),
        forall|j: int| 0 <= j < chain.len() ==> write_chunks(v, chain, data).blocks[#[trigger] chain[j] as int]
            == data_chunk(data, j),
        forall|i: int| 0 <= i < NUM_BLOCKS && !chain.contains(i as u32) ==> #[trigger] write_chunks(v, chain, data).blocks[i]
            == v.blocks[i],
    decreases chain.len(),
{
    if chain.len() > 0 {
        let dl = chain.drop_last();
        let n = chain.len();
        assert forall|i: int| 0 <= i < dl.len() implies #[trigger] dl[i] < FAT_ENTRIES by {
            assert(dl[i] == chain[i]);
        }
        lemma_write_chunks_props(v, dl, data);
        let prev = write_chunks(v, dl, data);
        let chunk = data_chunk(data, n - 1);
        let start = (n - 1) * BLOCK_SIZE;
        let end = if data.len() < start + BLOCK_SIZE { data.len() as int } else { start + BLOCK_SIZE };
        assert(chunk.len() == BLOCK_SIZE);
        let w = write_chunks(v, chain, data);
        assert(w == prev.write(chain.last() as int, chunk));
        assert forall|j: int| 0 <= j < chain.len() implies w.blocks[#[trigger] chain[j] as int] == data_chunk(data, j) by {
            if j < n - 1 {
                assert(dl[j] == chain[j]);
                assert(chain[j] < chain[n - 1]);
            }
        }
        assert forall|i: int| 0 <= i < NUM_BLOCKS && !chain.contains(i as u32) implies #[trigger] w.blocks[i] == v.blocks[i] by {
            if dl.contains(i as u32) {
                let t = choose|t: int| 0 <= t < dl.len() && dl[t] == i as u32;
                assert(chain[t] == i as u32);
            }
            assert(chain[n - 1] != i as u32);
        }
        assert forall|i: int| 0 <= i < NUM_BLOCKS && !#[trigger] w.readable[i] implies w.blocks[i] == zero_block() by {
            if i != chain.last() {
                assert(!prev.readable[i]);
            }
        }
    }
}

/// Bytes that agree on a name field have names of the same length.
proof fn lemma_name_len_same(d1: Seq<u8>, d2: Seq<u8>, base: int, k: int)
    requires
        0 <= k <= NAME_LEN,
        forall|i: int| base <= i < base + NAME_LEN ==> d1[i] == d2[i],
    ensures
        name_len_from(d1, base, k) == name_len_from(d2, base, k),
        k <= name_len_from(d1, base, k) <= NAME_LEN,
    decreases NAME_LEN - k,
{
    if k < NAME_LEN {
        assert(d1[base + k] == d2[base + k]);
        lemma_name_len_same(d1, d2, base, k + 1);
    }
}

/// A name field that holds `path` and then a zero, or `path` filling it,
/// has the length of `path`.
pub(crate) proof fn lemma_name_len_path(d: Seq<u8>, base: int, path: Seq<u8>, k: int)
    requires
        0 <= k <= path.len() <= NAME_LEN,
        forall|i: int| 0 <= i < path.len() ==> d[base + i] == path[i] && path[i] != 0,
        path.len() < NAME_LEN ==> d[base + path.len()] == 0,
    ensures
        name_len_from(d, base, k) == path.len(),
    decreases path.len() - k,
{
    if k < path.len() {
        assert(d[base + k] == path[k] && path[k] != 0);
        lemma_name_len_path(d, base, path, k + 1);
    }
}

/// The first slot that matches is found.
pub(crate) proof fn lemma_find_slot_at(dir: Seq<u8>, path: Seq<u8>, a: int, s: int)
    requires
        0 <= a <= s < DIR_ENTRIES,
        forall|j: int| a <= j < s ==> !slot_matches(dir, j, path),
        slot_matches(dir, s, path),
    ensures
        find_slot_from(dir, path, a) == Some(s),
    decreases s - a,
{
    if a < s {
        lemma_find_slot_at(dir, path, a + 1, s);
    }
}

/// The first free slot is free, and every slot before it is used.
proof fn lemma_free_slot_props(dir: Seq<u8>, a: int)
    requires
        0 <= a <= DIR_ENTRIES,
        free_slot_from(dir, a) is Some,
    ensures
        a <= free_slot_from(dir, a)->0 < DIR_ENTRIES,
        !slot_used(dir, free_slot_from(dir, a)->0),
        forall|j: int| a <= j < free_slot_from(dir, a)->0 ==> slot_used(dir, j),
    decreases DIR_ENTRIES - a,
{
    if a < DIR_ENTRIES && slot_used(dir, a) {
        lemma_free_slot_props(dir, a + 1);
    }
}

/// Following a chain written as a file gives the file's data back.
proof fn lemma_chain_read(v: DeviceView, fat: Seq<u32>, chain: Seq<u32>, data: Seq<u8>, j: int, want: nat)
    requires
        v.wf(),
        fat.len() == FAT_ENTRIES,
        chain.len() >= 1,
        ascending(chain),
        forall|i: int| 0 <= i < chain.len() ==> DATA_START_BLOCK <= #[trigger] chain[i] < FAT_ENTRIES,
        forall|i: int| 0 <= i < chain.len() - 1 ==> #[trigger] fat[chain[i] as int] == chain[i + 1],
        fat[chain.last() as int] == FAT_EOF,
        forall|i: int| 0 <= i < chain.len() ==> v.blocks[#[trigger] chain[i] as int] == data_chunk(data, i),
        BLOCK_SIZE * (chain.len() - 1) < data.len() <= BLOCK_SIZE * chain.len(),
        0 <= j < chain.len(),
        BLOCK_SIZE * j + want <= data.len(),
    ensures
        chain_in_range(fat, chain[j], want),
        chain_bytes(v, fat, chain[j], want) == data.subrange(BLOCK_SIZE * j, BLOCK_SIZE * j + want),
    decreases chain.len() - j,
{
    let cur = chain[j];
    let start = BLOCK_SIZE * j;
    assert(DATA_START_BLOCK <= cur < FAT_ENTRIES);
    assert(cur != FAT_EOF);
    if want > 0 {
        let n: nat = if want < BLOCK_SIZE { want } else { BLOCK_SIZE as nat };
        let rest: nat = (want - n) as nat;
        let chunk = data_chunk(data, j);
        assert(chunk.take(n as int) =~= data.subrange(start, start + n));
        assert(v.read(cur as int) == chunk);
        let next = fat[cur as int];
        assert(chain_bytes(v, fat, cur, want) == v.read(cur as int).take(n as int) + chain_bytes(v, fat, next, rest));
        assert(chain_in_range(fat, cur, want) == chain_in_range(fat, next, rest));
        if j < chain.len() - 1 {
            assert(next == chain[j + 1]);
            if want >= BLOCK_SIZE {
                assert(BLOCK_SIZE * (j + 1) == start + BLOCK_SIZE);
                lemma_chain_read(v, fat, chain, data, j + 1, rest);
                assert(data.subrange(start, start + want) =~= data.subrange(start, start + n) + data.subrange(
                    start + n,
                    start + want,
                ));
            } else {
                assert(rest == 0);
                assert(chain_bytes(v, fat, next, rest) == Seq::<u8>::empty());
                assert(data.subrange(start, start + want) =~= data.subrange(start, start + n) + Seq::<u8>::empty());
            }
        } else {
            assert(want <= BLOCK_SIZE);
            assert(rest == 0);
            assert(next == FAT_EOF);
            assert(chain_bytes(v, fat, next, rest) == Seq::<u8>::empty());
            assert(data.subrange(start, start + want) =~= data.subrange(start, start + n) + Seq::<u8>::empty());
        }
    } else {
        assert(data.subrange(start, start + want) =~= Seq::<u8>::empty());
    }
}

/// A new entry put into the first free slot of a directory is the one a
/// lookup of its name finds.
proof fn lemma_dir_entry_found(dir: Seq<u8>, s: int, path: Seq<u8>, start: u32, size: u32)
    requires
        dir.len() == BLOCK_SIZE,
        0 <= s < DIR_ENTRIES,
        1 <= path.len() <= NAME_LEN,
        forall|i: int| 0 <= i < path.len() ==> path[i] != 0,
        forall|j: int| 0 <= j < s ==> slot_used(dir, j) && !slot_matches(dir, j, path),
    ensures
        dir_with_entry(dir, s, path, start, size).len() == BLOCK_SIZE,
        find_slot(dir_with_entry(dir, s, path, start, size), path) == Some(s),
        slot_start(dir_with_entry(dir, s, path, start, size), s) == start,
        slot_size(dir_with_entry(dir, s, path, start, size), s) == size,
{
    let dir3 = dir_with_entry(dir, s, path, start, size);
    let b = slot_base(s);
    assert(dir3.len() == BLOCK_SIZE);
    assert forall|i: int| 0 <= i < b implies dir3[i] == dir[i] by {}
    assert forall|i: int| 0 <= i < NAME_LEN implies dir3[b + i] == stored_name(path)[i] by {}
    assert forall|i: int| 0 <= i < 4 implies dir3[b + 32 + i] == u32_le(start)[i] by {}
    assert forall|i: int| 0 <= i < 4 implies dir3[b + 36 + i] == u32_le(size)[i] by {}
    assert forall|i: int| 0 <= i < path.len() implies dir3[b + i] == path[i] && path[i] != 0 by {
        assert(stored_name(path)[i] == path[i]);
    }
    if path.len() < NAME_LEN {
        assert(stored_name(path)[path.len() as int] == 0);
    }
    lemma_name_len_path(dir3, b, path, 0);
    assert(slot_name(dir3, s) =~= path);
    assert(slot_used(dir3, s)) by {
        assert(dir3[b] == path[0]);
    }
    assert forall|j: int| 0 <= j < s implies !slot_matches(dir3, j, path) by {
        lemma_name_len_same(dir, dir3, slot_base(j), 0);
        assert(slot_name(dir3, j) =~= slot_name(dir, j));
        assert(slot_used(dir, j));
    }
    lemma_find_slot_at(dir3, path, 0, s);
    lemma_u32_le_roundtrip(start);
    lemma_u32_le_roundtrip(size);
    assert(slot_start(dir3, s) == le_u32_at(u32_le(start), 0));
    assert(slot_size(dir3, s) == le_u32_at(u32_le(size), 0));
}

/// The blocks a new file of `len` bytes takes when enough are free: the
/// lowest free ones, in ascending order, as many as it needs.
proof fn lemma_new_chain(fat0: Seq<u32>, len: nat)
    requires
        fat0.len() == FAT_ENTRIES,
        blocks_needed(len) <= free_blocks(fat0).len(),
    ensures
        ({
            let chain = free_blocks(fat0).take(blocks_needed(len) as int);
            &&& chain.len() == blocks_needed(len) >= 1
            &&& ascending(chain)
            &&& forall|i: int| 0 <= i < chain.len() ==> DATA_START_BLOCK <= #[trigger] chain[i] < FAT_ENTRIES
            &&& len > 0 ==> BLOCK_SIZE * (chain.len() - 1) < len <= BLOCK_SIZE * chain.len()
            &&& len <= u32::MAX
        }),
{
    let free = free_blocks(fat0);
    let needed = blocks_needed(len);
    lemma_free_from_props(fat0, DATA_START_BLOCK as int);
    let chain = free.take(needed as int);
    assert forall|i: int, j: int| 0 <= i < j < chain.len() implies chain[i] < chain[j] by {
        assert(chain[i] == free[i] && chain[j] == free[j]);
    }
    assert forall|i: int| 0 <= i < chain.len() implies DATA_START_BLOCK <= #[trigger] chain[i] < FAT_ENTRIES by {
        assert(chain[i] == free[i]);
    }
    if len > 0 {
        assert(BLOCK_SIZE * (needed - 1) < len <= BLOCK_SIZE * needed) by (nonlinear_arith)
            requires
                len > 0,
                needed == (len + BLOCK_SIZE - 1) / (BLOCK_SIZE as int),
                BLOCK_SIZE == 4096,
        ;
        assert(BLOCK_SIZE * needed <= BLOCK_SIZE * FAT_ENTRIES) by (nonlinear_arith)
            requires
                needed <= FAT_ENTRIES,
        ;
    }
}

/// The device after creating a file whose data fits in the free blocks,
/// in a directory with a free slot: the data in the file's blocks, the
/// FAT linking them, the directory entry in the first free slot.
proof fn lemma_device_after_create(v: DeviceView, path: Seq<u8>, data: Seq<u8>)
    requires
        v.wf(),
        blocks_needed(data.len()) <= free_blocks(fat_of(v.read(FAT_BLOCK as int))).len(),
        free_slot(v.read(ROOT_DIR_BLOCK as int)) is Some,
    ensures
        ({
            let fat0 = fat_of(v.read(FAT_BLOCK as int));
            let chain = free_blocks(fat0).take(blocks_needed(data.len()) as int);
            let dir = v.read(ROOT_DIR_BLOCK as int);
            let s = free_slot(dir)->0;
            let (after, outcome) = create_effect(v, path, data);
            &&& outcome == CreateOutcome::Created { slot: s as usize, truncated: false }
            &&& after.read(ROOT_DIR_BLOCK as int) == dir_with_entry(dir, s, path, chain[0], data.len() as u32)
            &&& after.read(FAT_BLOCK as int) == fat_bytes(chain_fat(fat0, chain))
            &&& after.wf()
            &&& data.len() > 0 ==> forall|i: int|
                0 <= i < chain.len() ==> after.blocks[#[trigger] chain[i] as int] == data_chunk(data, i)
        }),
{
    let fat0 = fat_of(v.read(FAT_BLOCK as int));
    let len = data.len();
    let needed = blocks_needed(len);
    lemma_new_chain(fat0, len);
    let chain = free_blocks(fat0).take(needed as int);
    let cf = chain_fat(fat0, chain);
    lemma_chain_fat_links(fat0, chain);
    let v1 = if len == 0 { v } else { write_chunks(v, chain, data) };
    if len > 0 {
        lemma_write_chunks_props(v, chain, data);
        assert(!chain.contains(ROOT_DIR_BLOCK as u32)) by {
            if chain.contains(ROOT_DIR_BLOCK as u32) {
                let t = choose|t: int| 0 <= t < chain.len() && chain[t] == ROOT_DIR_BLOCK as u32;
                assert(DATA_START_BLOCK <= chain[t]);
            }
        }
    }
    assert(v1.wf());
    assert(v1.blocks[ROOT_DIR_BLOCK as int] == v.blocks[ROOT_DIR_BLOCK as int]);
    let v2 = v1.write(FAT_BLOCK as int, fat_bytes(cf));
    let dir = v2.read(ROOT_DIR_BLOCK as int);
    assert(dir == v.read(ROOT_DIR_BLOCK as int));
    lemma_free_slot_props(dir, 0);
    let s = free_slot(dir)->0;
    let v3 = v2.write(ROOT_DIR_BLOCK as int, dir_with_entry(dir, s, path, chain[0], len as u32));
    assert(create_effect(v, path, data) == (v3, CreateOutcome::Created { slot: s as usize, truncated: false }));
    assert(dir.len() == BLOCK_SIZE);
    assert(dir_with_entry(dir, s, path, chain[0], len as u32).len() == BLOCK_SIZE);
    assert(fat_bytes(cf).len() == BLOCK_SIZE);
    assert(v3.wf());
    if len > 0 {
        lemma_chunks_survive(v, chain, data, fat_bytes(cf), dir_with_entry(dir, s, path, chain[0], len as u32));
    }
}

/// File blocks written before the FAT and the directory keep their data.
proof fn lemma_chunks_survive(v: DeviceView, chain: Seq<u32>, data: Seq<u8>, fat_block: Seq<u8>, dir_block: Seq<u8>)
    requires
        v.wf(),
        ascending(chain),
        forall|i: int| 0 <= i < chain.len() ==> DATA_START_BLOCK <= #[trigger] chain[i] < FAT_ENTRIES,
        chain.len() > 0 ==> BLOCK_SIZE * (chain.len() - 1) < data.len(),
    ensures
        forall|i: int| 0 <= i < chain.len() ==> write_chunks(v, chain, data).write(FAT_BLOCK as int, fat_block).write(
            ROOT_DIR_BLOCK as int,
            dir_block,
        ).blocks[#[trigger] chain[i] as int] == data_chunk(data, i),
{
    lemma_write_chunks_props(v, chain, data);
    let w = write_chunks(v, chain, data);
    let v3 = w.write(FAT_BLOCK as int, fat_block).write(ROOT_DIR_BLOCK as int, dir_block);
    assert forall|i: int| 0 <= i < chain.len() implies v3.blocks[#[trigger] chain[i] as int] == data_chunk(data, i) by {
        assert(w.blocks[chain[i] as int] == data_chunk(data, i));
    }
}

/// A device whose directory finds `path` in slot `s`, pointing at `chain`
/// with the size of `data`, and whose FAT links `chain`, which holds the
/// parts of `data`, reads `data` back under that name.
proof fn lemma_read_back(after: DeviceView, path: Seq<u8>, cf: Seq<u32>, chain: Seq<u32>, data: Seq<u8>, s: int, limit: nat)
    requires
        after.wf(),
        cf.len() == FAT_ENTRIES,
        fat_of(after.read(FAT_BLOCK as int)) == cf,
        find_slot(after.read(ROOT_DIR_BLOCK as int), path) == Some(s),
        slot_size(after.read(ROOT_DIR_BLOCK as int), s) == data.len(),
        slot_start(after.read(ROOT_DIR_BLOCK as int), s) == chain[0],
        chain.len() >= 1,
        ascending(chain),
        forall|i: int| 0 <= i < chain.len() ==> DATA_START_BLOCK <= #[trigger] chain[i] < FAT_ENTRIES,
        forall|i: int| 0 <= i < chain.len() - 1 ==> #[trigger] cf[chain[i] as int] == chain[i + 1],
        cf[chain.last() as int] == FAT_EOF,
        data.len() > 0 ==> forall|i: int| 0 <= i < chain.len() ==> after.blocks[#[trigger] chain[i] as int] == data_chunk(data, i),
        data.len() > 0 ==> BLOCK_SIZE * (chain.len() - 1) < data.len() <= BLOCK_SIZE * chain.len(),
    ensures
        read_in_range(after, path, limit),
        file_contents(after, path, limit) == data.take(if data.len() < limit { data.len() as int } else { limit as int }),
{
    let len = data.len();
    let want: nat = if len < limit { len } else { limit };
    if len > 0 {
        lemma_chain_read(after, cf, chain, data, 0, want);
        assert(data.subrange(0, want as int) =~= data.take(want as int));
    } else {
        assert(data.take(0) =~= Seq::<u8>::empty());
    }
}

/// A file created where its data fits and its name is new reads back as
/// the data it was created with, up to the length of the reader's buffer.
///
/// This holds when the name is 1 to 32 bytes long with no zero byte, the
/// device has as many free blocks as the data needs, the directory has a
/// free slot, and no slot before that free slot already holds a file of
/// that name.
#[verifier::spinoff_prover]
pub proof fn lemma_create_then_read(v: DeviceView, path: Seq<u8>, data: Seq<u8>, limit: nat)
    requires
        v.wf(),
        1 <= path.len() <= NAME_LEN,
        forall|i: int| 0 <= i < path.len() ==> path[i] != 0,
        blocks_needed(data.len()) <= free_blocks(fat_of(v.read(FAT_BLOCK as int))).len(),
        free_slot(v.read(ROOT_DIR_BLOCK as int)) is Some,
        forall|j: int| 0 <= j < free_slot(v.read(ROOT_DIR_BLOCK as int))->0 ==> !slot_matches(
            v.read(ROOT_DIR_BLOCK as int),
            j,
            path,
        ),
    ensures
        ({
            let (after, outcome) = create_effect(v, path, data);
            &&& outcome == CreateOutcome::Created { slot: free_slot(v.read(ROOT_DIR_BLOCK as int))->0 as usize, truncated: false }
            &&& read_in_range(after, path, limit)
            &&& file_contents(after, path, limit) == data.take(if data.len() < limit { data.len() as int } else { limit as int })
        }),
{
    let fat0 = fat_of(v.read(FAT_BLOCK as int));
    let len = data.len();
    let needed = blocks_needed(len);
    lemma_new_chain(fat0, len);
    let chain = free_blocks(fat0).take(needed as int);
    let cf = chain_fat(fat0, chain);
    assert(cf.len() == FAT_ENTRIES && cf[chain.last() as int] == FAT_EOF
        && forall|i: int| 0 <= i < chain.len() - 1 ==> #[trigger] cf[chain[i] as int] == chain[i + 1]) by {
        lemma_chain_fat_links(fat0, chain);
    }
    let dir = v.read(ROOT_DIR_BLOCK as int);
    let s = free_slot(dir)->0;
    let after = create_effect(v, path, data).0;
    let size = len as u32;
    assert(create_effect(v, path, data).1 == CreateOutcome::Created { slot: s as usize, truncated: false }
        && after.wf()
        && after.read(ROOT_DIR_BLOCK as int) == dir_with_entry(dir, s, path, chain[0], size)
        && after.read(FAT_BLOCK as int) == fat_bytes(cf)
        && (len > 0 ==> forall|i: int| 0 <= i < chain.len() ==> after.blocks[#[trigger] chain[i] as int] == data_chunk(data, i)))
    by {
        lemma_device_after_create(v, path, data);
    }
    assert(find_slot(after.read(ROOT_DIR_BLOCK as int), path) == Some(s)
        && slot_size(after.read(ROOT_DIR_BLOCK as int), s) == size
        && slot_start(after.read(ROOT_DIR_BLOCK as int), s) == chain[0]) by {
        lemma_free_slot_props(dir, 0);
        lemma_dir_entry_found(dir, s, path, chain[0], size);
    }
    assert(fat_of(after.read(FAT_BLOCK as int)) == cf) by {
        lemma_fat_roundtrip(cf);
    }
    lemma_read_back(after, path, cf, chain, data, s, limit);
}

/// Writing file blocks leaves every block outside the chain, and whether
/// it can be read, as it was.
proof fn lemma_write_chunks_keeps(v: DeviceView, chain: Seq<u32>, data: Seq<u8>, i: int)
    requires
        0 <= i < NUM_BLOCKS,
        v.blocks.len() == NUM_BLOCKS,
        v.readable.len() == NUM_BLOCKS,
        forall|k: int| 0 <= k < chain.len() ==> #[trigger] chain[k] != i,
    ensures
        write_chunks(v, chain, data).blocks.len() == NUM_BLOCKS,
        write_chunks(v, chain, data).readable.len() == NUM_BLOCKS,
        write_chunks(v, chain, data).blocks[i] == v.blocks[i],
        write_chunks(v, chain, data).readable[i] == v.readable[i],
    decreases chain.len(),
{
    if chain.len() > 0 {
        let dl = chain.drop_last();
        assert forall|k: int| 0 <= k < dl.len() implies #[trigger] dl[k] != i by {
            assert(dl[k] == chain[k]);
        }
        lemma_write_chunks_keeps(v, dl, data, i);
        assert(chain[chain.len() - 1] != i);
    }
}

/// Creating a file leaves the superblock, and whether it can be read, as
/// it was.
pub proof fn lemma_create_keeps_superblock(v: DeviceView, path: Seq<u8>, data: Seq<u8>)
    requires
        v.wf(),
    ensures
        create_effect(v, path, data).0.blocks[SUPER_BLOCK as int] == v.blocks[SUPER_BLOCK as int],
        create_effect(v, path, data).0.readable[SUPER_BLOCK as int] == v.readable[SUPER_BLOCK as int],
{
    let fat0 = fat_of(v.read(FAT_BLOCK as int));
    let free = free_blocks(fat0);
    lemma_free_from_props(fat0, DATA_START_BLOCK as int);
    if free.len() > 0 {
        let needed = blocks_needed(data.len());
        let k = if needed < free.len() { needed } else { free.len() };
        let chain = free.take(k as int);
        assert forall|j: int| 0 <= j < chain.len() implies #[trigger] chain[j] != SUPER_BLOCK as int by {
            assert(chain[j] == free[j]);
        }
        lemma_write_chunks_keeps(v, chain, data, SUPER_BLOCK as int);
    }
}

/// A freshly formatted device is recognised when the file system starts on
/// it, and is left as it is.
pub proof fn lemma_format_then_init(v: DeviceView)
    requires
        v.wf(),
    ensures
        init_effect(format_effect(v).0) == (format_effect(v).0, InitOutcome::Recognized),
{
    let blank = v.write(SUPER_BLOCK as int, superblock_bytes()).write(FAT_BLOCK as int, fat_bytes(initial_fat())).write(
        ROOT_DIR_BLOCK as int,
        zero_block(),
    );
    assert(fat_bytes(initial_fat()).len() == BLOCK_SIZE);
    assert(blank.wf());
    lemma_create_keeps_superblock(blank, config_path(), config_data());
    let after = format_effect(v).0;
    assert(after.blocks[SUPER_BLOCK as int] == superblock_bytes());
    assert(after.readable[SUPER_BLOCK as int]);
    assert(superblock_bytes().take(MAGIC_LEN as int) =~= magic());
}

/// After formatting, the file `"/etc/config.txt"` reads back as
/// `"TerminUS IPC Enabled\n"`, up to the buffer's length.
pub proof fn lemma_format_then_read_config(v: DeviceView, limit: nat)
    requires
        v.wf(),
    ensures
        format_effect(v).1 == (CreateOutcome::Created { slot: 0, truncated: false }),
        read_in_range(format_effect(v).0, config_path(), limit),
        file_contents(format_effect(v).0, config_path(), limit) == config_data().take(
            (if config_data().len() < limit { config_data().len() as int } else { limit as int }),
        ),
        config_path() == seq![0x2fu8, 0x65u8, 0x74u8, 0x63u8, 0x2fu8, 0x63u8, 0x6fu8, 0x6eu8, 0x66u8, 0x69u8,
            0x67u8, 0x2eu8, 0x74u8, 0x78u8, 0x74u8],
        config_data() == seq![0x54u8, 0x65u8, 0x72u8, 0x6du8, 0x69u8, 0x6eu8, 0x55u8, 0x53u8, 0x20u8, 0x49u8,
            0x50u8, 0x43u8, 0x20u8, 0x45u8, 0x6eu8, 0x61u8, 0x62u8, 0x6cu8, 0x65u8, 0x64u8, 0x0au8],
{
    let blank = v.write(SUPER_BLOCK as int, superblock_bytes()).write(FAT_BLOCK as int, fat_bytes(initial_fat())).write(
        ROOT_DIR_BLOCK as int,
        zero_block(),
    );
    assert(fat_bytes(initial_fat()).len() == BLOCK_SIZE);
    assert(blank.wf());
    assert(blank.read(FAT_BLOCK as int) == fat_bytes(initial_fat()));
    lemma_fat_roundtrip(initial_fat());
    let fat0 = fat_of(blank.read(FAT_BLOCK as int));
    assert(fat0 == initial_fat());
    assert(fat0[DATA_START_BLOCK as int] == 0);
    assert(free_blocks(fat0) == seq![DATA_START_BLOCK as u32] + free_from(fat0, DATA_START_BLOCK + 1));
    assert(blocks_needed(config_data().len()) == 1);
    let dir = blank.read(ROOT_DIR_BLOCK as int);
    assert(dir == zero_block());
    assert(!slot_used(dir, 0));
    assert(free_slot(dir) == Some(0int));
    lemma_create_then_read(blank, config_path(), config_data(), limit);
}

} // verus!
