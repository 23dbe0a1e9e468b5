//! What a read of a file by its path finds: the first directory slot that
//! stores exactly that name, and nothing when there is none.
use vstd::prelude::*;
use crate::device::{BLOCK_SIZE, DeviceView};
use crate::layout::{
    FAT_BLOCK, ROOT_DIR_BLOCK, DIR_ENTRIES, NAME_LEN, fat_of, slot_base, name_len_from, slot_name, slot_matches,
    find_slot_from, chain_bytes, chain_in_range, file_contents, read_in_range,
};
use crate::laws::{lemma_name_len_path, lemma_find_slot_at};

verus! {

/// Whether slot `i` of `dir` is in use and stores exactly the name
/// `path`: its bytes, none of them zero, followed by a zero unless they
/// fill all 32 name bytes.
spec fn stores_name(dir: Seq<u8>, i: int, path: Seq<u8>) -> bool {
    &&& dir[64 * i] != 0
    &&& path.len() <= 32
    &&& forall|j: int| 0 <= j < path.len() ==> dir[64 * i + j] == path[j] && path[j] != 0
    &&& (path.len() == 32 || dir[64 * i + path.len()] == 0)
}

/// The name length counted from `k`: only non-zero bytes before it, and a
/// zero or the end of the field at it.
proof fn lemma_name_len_props(dir: Seq<u8>, b: int, k: int)
    requires
        0 <= k <= NAME_LEN,
    ensures
        k <= name_len_from(dir, b, k) <= NAME_LEN,
        forall|x: int| b + k <= x < b + name_len_from(dir, b, k) ==> dir[x] != 0,
        name_len_from(dir, b, k) == NAME_LEN || dir[b + name_len_from(dir, b, k)] == 0,
    decreases NAME_LEN - k,
{
    if k < NAME_LEN && dir[b + k] != 0 {
        lemma_name_len_props(dir, b, k + 1);
    }
}

/// A slot matches a path exactly when it stores that name.
proof fn lemma_slot_matches_exact(dir: Seq<u8>, i: int, path: Seq<u8>)
    requires
        dir.len() == BLOCK_SIZE,
        0 <= i < DIR_ENTRIES,
    ensures
        slot_matches(dir, i, path) <==> stores_name(dir, i, path),
{
    let b = slot_base(i);
    lemma_name_len_props(dir, b, 0);
    let n = name_len_from(dir, b, 0);
    if slot_matches(dir, i, path) {
        assert(path.len() == n);
        assert forall|j: int| 0 <= j < path.len() implies dir[64 * i + j] == path[j] && path[j] != 0 by {
            assert(slot_name(dir, i)[j] == dir[b + j]);
        }
    }
    if stores_name(dir, i, path) {
        assert forall|j: int| 0 <= j < path.len() implies dir[b + j] == path[j] && path[j] != 0 by {}
        lemma_name_len_path(dir, b, path, 0);
        assert(slot_name(dir, i) =~= path);
    }
}

/// No slot from `a` on matches: the lookup finds nothing.
proof fn lemma_find_slot_none(dir: Seq<u8>, path: Seq<u8>, a: int)
    requires
        0 <= a <= DIR_ENTRIES,
        forall|j: int| a <= j < DIR_ENTRIES ==> !slot_matches(dir, j, path),
    ensures
        find_slot_from(dir, path, a) is None,
    decreases DIR_ENTRIES - a,
{
    if a < DIR_ENTRIES {
        lemma_find_slot_none(dir, path, a + 1);
    }
}

/// Reading a path that no directory slot stores exactly as its name (a
/// non-zero first byte, the path's bytes, and a zero after them unless
/// they fill all 32 name bytes) yields nothing: a name that merely starts
/// with the path, or that the path merely starts with, does not count, and
/// neither does an unused slot.
pub proof fn lemma_read_needs_exact_name(v: DeviceView, path: Seq<u8>, limit: nat)
    requires
        v.wf(),
        forall|o: int| 0 <= o < 4096 && o % 64 == 0 ==> !(#[trigger] v.read(ROOT_DIR_BLOCK as int)[o] != 0
            && path.len() <= 32
            && (forall|j: int| 0 <= j < path.len() ==> v.read(ROOT_DIR_BLOCK as int)[o + j] == path[j] && path[j] != 0)
            && (path.len() == 32 || v.read(ROOT_DIR_BLOCK as int)[o + path.len()] == 0)),
    ensures
        file_contents(v, path, limit) == Seq::<u8>::empty(),
        read_in_range(v, path, limit),
{
    let dir = v.read(ROOT_DIR_BLOCK as int);
    assert forall|j: int| 0 <= j < DIR_ENTRIES implies !slot_matches(dir, j, path) by {
        lemma_slot_matches_exact(dir, j, path);
        assert((64 * j) % 64 == 0);
        assert(dir[64 * j] == v.read(ROOT_DIR_BLOCK as int)[64 * j]);
    }
    lemma_find_slot_none(dir, path, 0);
}

/// Reading a path finds the first directory slot that stores exactly that
/// name, and yields the bytes of the chain that starts at the block the
/// slot records (bytes 32..36, little-endian), up to the size it records
/// (bytes 36..40) and the buffer's length.
pub proof fn lemma_read_first_exact_name(v: DeviceView, path: Seq<u8>, limit: nat, i: int)
    requires
        v.wf(),
        0 <= i < 64,
        ({
            let dir = v.read(ROOT_DIR_BLOCK as int);
            &&& dir[64 * i] != 0
            &&& path.len() <= 32
            &&& forall|j: int| 0 <= j < path.len() ==> dir[64 * i + j] == path[j] && path[j] != 0
            &&& (path.len() == 32 || dir[64 * i + path.len()] == 0)
        }),
        forall|o: int| 0 <= o < 64 * i && o % 64 == 0 ==> !(#[trigger] v.read(ROOT_DIR_BLOCK as int)[o] != 0
            && path.len() <= 32
            && (forall|j: int| 0 <= j < path.len() ==> v.read(ROOT_DIR_BLOCK as int)[o + j] == path[j] && path[j] != 0)
            && (path.len() == 32 || v.read(ROOT_DIR_BLOCK as int)[o + path.len()] == 0)),
    ensures
        ({
            let dir = v.read(ROOT_DIR_BLOCK as int);
            let b = 64 * i;
            let start = (dir[b + 32] + 256 * dir[b + 33] + 65536 * dir[b + 34] + 16777216 * dir[b + 35]) as u32;
            let size = (dir[b + 36] + 256 * dir[b + 37] + 65536 * dir[b + 38] + 16777216 * dir[b + 39]) as nat;
            let want = if size < limit { size } else { limit };
            &&& file_contents(v, path, limit) == chain_bytes(v, fat_of(v.read(FAT_BLOCK as int)), start, want)
            &&& read_in_range(v, path, limit) == chain_in_range(fat_of(v.read(FAT_BLOCK as int)), start, want)
        }),
{
    let dir = v.read(ROOT_DIR_BLOCK as int);
    assert forall|k: int| 0 <= k < i implies !slot_matches(dir, k, path) by {
        lemma_slot_matches_exact(dir, k, path);
        assert((64 * k) % 64 == 0);
        assert(dir[64 * k] == v.read(ROOT_DIR_BLOCK as int)[64 * k]);
    }
    lemma_slot_matches_exact(dir, i, path);
    assert(stores_name(dir, i, path));
    lemma_find_slot_at(dir, path, 0, i);
}

} // verus!
