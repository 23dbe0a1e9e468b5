//! How starting the file system decides: by whether the superblock can be
//! read and starts with the bytes `"TUS_VFS\0"`.
use vstd::prelude::*;
use crate::device::{BLOCK_SIZE, DeviceView, zero_block};
use crate::layout::{
    FAT_BLOCK, ROOT_DIR_BLOCK, SUPER_BLOCK, MAGIC_LEN, fat_bytes, magic, superblock_bytes, config_path, config_data,
    initial_fat,
};
use crate::laws::lemma_create_keeps_superblock;
use crate::vfs::{InitOutcome, format_effect, init_effect};

verus! {

/// Formatting leaves a readable superblock that starts with the magic.
proof fn lemma_format_superblock(v: DeviceView)
    requires
        v.wf(),
    ensures
        format_effect(v).0.readable[SUPER_BLOCK as int],
        format_effect(v).0.blocks[SUPER_BLOCK as int] == superblock_bytes(),
{
    let blank = v.write(SUPER_BLOCK as int, superblock_bytes()).write(FAT_BLOCK as int, fat_bytes(initial_fat())).write(
        ROOT_DIR_BLOCK as int,
        zero_block(),
    );
    assert(fat_bytes(initial_fat()).len() == BLOCK_SIZE);
    assert(blank.wf());
    lemma_create_keeps_superblock(blank, config_path(), config_data());
}

/// Starting the file system formats a device whose superblock cannot be
/// read, formats a device whose superblock can be read but does not start
/// with the bytes `"TUS_VFS\0"` (any difference in those eight bytes
/// counts, zero bytes included), and leaves a device whose superblock
/// starts with them exactly as it was. Either way, the superblock can be
/// read afterwards and starts with those bytes.
pub proof fn lemma_init_checks_magic(v: DeviceView)
    requires
        v.wf(),
    ensures
        !v.readable[0] ==> init_effect(v) == (format_effect(v).0, InitOutcome::FormattedUnreadable(format_effect(v).1)),
        v.readable[0] && !({
            let sb = v.blocks[0];
            &&& sb[0] == 0x54 && sb[1] == 0x55 && sb[2] == 0x53 && sb[3] == 0x5f
            &&& sb[4] == 0x56 && sb[5] == 0x46 && sb[6] == 0x53 && sb[7] == 0x00
        }) ==> init_effect(v) == (format_effect(v).0, InitOutcome::FormattedMagicMismatch(format_effect(v).1)),
        v.readable[0] && ({
            let sb = v.blocks[0];
            &&& sb[0] == 0x54 && sb[1] == 0x55 && sb[2] == 0x53 && sb[3] == 0x5f
            &&& sb[4] == 0x56 && sb[5] == 0x46 && sb[6] == 0x53 && sb[7] == 0x00
        }) ==> init_effect(v) == (v, InitOutcome::Recognized),
        init_effect(v).0.readable[0],
        ({
            let sb = init_effect(v).0.blocks[0];
            &&& sb[0] == 0x54 && sb[1] == 0x55 && sb[2] == 0x53 && sb[3] == 0x5f
            &&& sb[4] == 0x56 && sb[5] == 0x46 && sb[6] == 0x53 && sb[7] == 0x00
        }),
{
    let sb = v.blocks[0];
    let same = sb[0] == 0x54 && sb[1] == 0x55 && sb[2] == 0x53 && sb[3] == 0x5f && sb[4] == 0x56 && sb[5] == 0x46
        && sb[6] == 0x53 && sb[7] == 0x00;
    assert(sb.len() == BLOCK_SIZE);
    if same {
        assert(sb.take(MAGIC_LEN as int) =~= magic());
    } else {
        assert(sb.take(MAGIC_LEN as int) != magic()) by {
            if sb.take(MAGIC_LEN as int) == magic() {
                assert(sb.take(MAGIC_LEN as int)[0] == sb[0]);
                assert(sb.take(MAGIC_LEN as int)[1] == sb[1]);
                assert(sb.take(MAGIC_LEN as int)[2] == sb[2]);
                assert(sb.take(MAGIC_LEN as int)[3] == sb[3]);
                assert(sb.take(MAGIC_LEN as int)[4] == sb[4]);
                assert(sb.take(MAGIC_LEN as int)[5] == sb[5]);
                assert(sb.take(MAGIC_LEN as int)[6] == sb[6]);
                assert(sb.take(MAGIC_LEN as int)[7] == sb[7]);
            }
        }
    }
    lemma_format_superblock(v);
}

} // verus!
