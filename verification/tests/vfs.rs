use terminus::device::{BlockDevice, BLOCK_SIZE, NUM_BLOCKS};
use terminus::layout::{FAT_BLOCK, FAT_EOF, ROOT_DIR_BLOCK, SUPER_BLOCK};
use terminus::vfs::{CreateOutcome, DirEntry, InitOutcome, Vfs};

const CONFIG: &[u8] = b"TerminUS IPC Enabled\n";

fn formatted() -> BlockDevice {
    let mut dev = BlockDevice::new();
    let r = Vfs::format(&mut dev);
    assert_eq!(r, CreateOutcome::Created { slot: 0, truncated: false });
    dev
}

fn read(dev: &BlockDevice, path: &str, buf_len: usize) -> Vec<u8> {
    assert!(Vfs::read_in_bounds(dev, path, buf_len));
    let mut buf = vec![0u8; buf_len];
    let n = Vfs::read_file(dev, path, &mut buf);
    buf.truncate(n);
    buf
}

#[test]
fn new_device_cannot_be_read() {
    let dev = BlockDevice::new();
    let mut buf = [7u8; 4096];
    assert!(!dev.read_block(0, &mut buf));
    assert_eq!(buf, [7u8; 4096]);
    assert!(!dev.is_readable(5));
    assert!(!dev.is_dirty(5));
}

#[test]
fn write_then_read_block() {
    let mut dev = BlockDevice::new();
    let data = [0x5Au8; 4096];
    assert!(dev.write_block(9, &data));
    let mut buf = [0u8; 4096];
    assert!(dev.read_block(9, &mut buf));
    assert_eq!(buf, data);
    assert!(dev.is_dirty(9));
    dev.clear_dirty();
    assert!(!dev.is_dirty(9));
    assert!(dev.is_readable(9));
}

#[test]
fn block_past_the_end() {
    let mut dev = BlockDevice::new();
    let data = [1u8; 4096];
    assert!(!dev.write_block(NUM_BLOCKS as u64, &data));
    let mut buf = [0u8; 4096];
    assert!(!dev.read_block(NUM_BLOCKS as u64, &mut buf));
}

#[test]
fn format_then_read_config() {
    let dev = formatted();
    let content = read(&dev, "/etc/config.txt", 128);
    assert_eq!(content, CONFIG);
    assert_eq!(std::str::from_utf8(&content).unwrap(), "TerminUS IPC Enabled\n");
}

#[test]
fn format_layout() {
    let dev = formatted();
    let mut sb = [0u8; 4096];
    assert!(dev.read_block(SUPER_BLOCK, &mut sb));
    assert_eq!(&sb[..8], b"TUS_VFS\0");
    assert!(sb[8..].iter().all(|&b| b == 0));
    let fat = Vfs::read_fat(&dev);
    assert_eq!(fat[0], FAT_EOF);
    assert_eq!(fat[1], FAT_EOF);
    assert_eq!(fat[2], FAT_EOF);
    assert_eq!(fat[3], FAT_EOF);
    assert!(fat[4..].iter().all(|&e| e == 0));
    let mut dir = [0u8; 4096];
    assert!(dev.read_block(ROOT_DIR_BLOCK, &mut dir));
    assert_eq!(&dir[..15], b"/etc/config.txt");
    assert!(dir[15..32].iter().all(|&b| b == 0));
    assert_eq!(&dir[32..36], &3u32.to_le_bytes());
    assert_eq!(&dir[36..40], &21u32.to_le_bytes());
    assert!(dir[64..].iter().all(|&b| b == 0));
    let mut block = [0u8; 4096];
    assert!(dev.read_block(3, &mut block));
    assert_eq!(&block[..21], CONFIG);
    assert!(block[21..].iter().all(|&b| b == 0));
}

#[test]
fn init_formats_unreadable_disk() {
    let mut dev = BlockDevice::new();
    let r = Vfs::init(&mut dev);
    assert_eq!(r, InitOutcome::FormattedUnreadable(CreateOutcome::Created { slot: 0, truncated: false }));
    assert_eq!(read(&dev, "/etc/config.txt", 128), CONFIG);
}

#[test]
fn init_formats_disk_without_magic() {
    let mut dev = BlockDevice::new();
    let mut sb = [0u8; 4096];
    sb[..8].copy_from_slice(b"NOT_VFS\0");
    dev.load_block(0, &sb);
    let r = Vfs::init(&mut dev);
    assert_eq!(r, InitOutcome::FormattedMagicMismatch(CreateOutcome::Created { slot: 0, truncated: false }));
    assert_eq!(read(&dev, "/etc/config.txt", 128), CONFIG);
}

#[test]
fn init_recognizes_formatted_disk() {
    let mut dev = formatted();
    dev.clear_dirty();
    assert_eq!(Vfs::init(&mut dev), InitOutcome::Recognized);
    for i in 0..NUM_BLOCKS {
        assert!(!dev.is_dirty(i));
    }
    assert_eq!(read(&dev, "/etc/config.txt", 128), CONFIG);
}

#[test]
fn read_missing_file_is_empty() {
    let dev = formatted();
    let mut buf = vec![9u8; 16];
    assert_eq!(Vfs::read_file(&dev, "/etc/missing", &mut buf), 0);
    assert_eq!(buf, vec![9u8; 16]);
}

#[test]
fn read_into_small_buffer() {
    let dev = formatted();
    let mut buf = vec![0xEEu8; 8];
    assert_eq!(Vfs::read_file(&dev, "/etc/config.txt", &mut buf), 8);
    assert_eq!(&buf[..], &CONFIG[..8]);
}

#[test]
fn read_leaves_rest_of_buffer() {
    let dev = formatted();
    let mut buf = vec![0xEEu8; 30];
    assert_eq!(Vfs::read_file(&dev, "/etc/config.txt", &mut buf), 21);
    assert_eq!(&buf[..21], CONFIG);
    assert_eq!(&buf[21..], &[0xEEu8; 9][..]);
}

#[test]
fn create_then_read_multi_block_file() {
    let mut dev = formatted();
    let data: Vec<u8> = (0..10_000u32).map(|i| (i % 251) as u8).collect();
    assert_eq!(Vfs::create_file(&mut dev, "/home/big.bin", &data), CreateOutcome::Created { slot: 1, truncated: false });
    assert_eq!(read(&dev, "/home/big.bin", 20_000), data);
    assert_eq!(read(&dev, "/home/big.bin", 5000), data[..5000].to_vec());
    let fat = Vfs::read_fat(&dev);
    assert_eq!(fat[4], 5);
    assert_eq!(fat[5], 6);
    assert_eq!(fat[6], FAT_EOF);
    assert_eq!(read(&dev, "/etc/config.txt", 128), CONFIG);
}

#[test]
fn create_exact_block_file() {
    let mut dev = formatted();
    let data = vec![0x42u8; BLOCK_SIZE];
    assert_eq!(Vfs::create_file(&mut dev, "/a", &data), CreateOutcome::Created { slot: 1, truncated: false });
    let fat = Vfs::read_fat(&dev);
    assert_eq!(fat[4], FAT_EOF);
    assert_eq!(fat[5], 0);
    assert_eq!(read(&dev, "/a", BLOCK_SIZE * 2), data);
}

#[test]
fn create_empty_file() {
    let mut dev = formatted();
    dev.clear_dirty();
    assert_eq!(Vfs::create_file(&mut dev, "/empty", &[]), CreateOutcome::Created { slot: 1, truncated: false });
    assert!(!dev.is_dirty(4));
    assert!(dev.is_dirty(1));
    assert!(dev.is_dirty(2));
    assert_eq!(Vfs::read_fat(&dev)[4], FAT_EOF);
    assert_eq!(read(&dev, "/empty", 64), Vec::<u8>::new());
}

#[test]
fn create_marks_written_blocks_dirty() {
    let mut dev = formatted();
    dev.clear_dirty();
    Vfs::create_file(&mut dev, "/x", b"xyz");
    for i in 0..NUM_BLOCKS {
        assert_eq!(dev.is_dirty(i), i == 1 || i == 2 || i == 4);
    }
}

#[test]
fn long_name_is_cut() {
    let mut dev = formatted();
    let long = "/home/user/a_rather_long_file_name.txt";
    assert_eq!(Vfs::create_file(&mut dev, long, b"abc"), CreateOutcome::Created { slot: 1, truncated: false });
    assert_eq!(read(&dev, long, 16), Vec::<u8>::new());
    assert_eq!(read(&dev, &long[..32], 16), b"abc".to_vec());
}

#[test]
fn same_name_reads_first_file() {
    let mut dev = formatted();
    Vfs::create_file(&mut dev, "/etc/config.txt", b"second");
    assert_eq!(read(&dev, "/etc/config.txt", 128), CONFIG);
}

#[test]
fn empty_name_cannot_be_found() {
    let mut dev = formatted();
    assert_eq!(Vfs::create_file(&mut dev, "", b"abc"), CreateOutcome::Created { slot: 1, truncated: false });
    assert_eq!(read(&dev, "", 16), Vec::<u8>::new());
    // The slot still reads as free, so the next file takes it again.
    assert_eq!(Vfs::create_file(&mut dev, "/b", b"b"), CreateOutcome::Created { slot: 1, truncated: false });
}

#[test]
fn disk_full_writes_nothing() {
    let mut dev = formatted();
    let mut fat = Vfs::read_fat(&dev);
    for e in fat.iter_mut() {
        if *e == 0 {
            *e = FAT_EOF;
        }
    }
    Vfs::write_fat(&mut dev, &fat);
    dev.clear_dirty();
    assert_eq!(Vfs::create_file(&mut dev, "/full", b"data"), CreateOutcome::DiskFull);
    for i in 0..NUM_BLOCKS {
        assert!(!dev.is_dirty(i));
    }
    assert_eq!(read(&dev, "/full", 16), Vec::<u8>::new());
}

#[test]
fn disk_full_during_write_truncates() {
    let mut dev = formatted();
    let mut fat = Vfs::read_fat(&dev);
    for e in fat.iter_mut().skip(7) {
        *e = FAT_EOF;
    }
    Vfs::write_fat(&mut dev, &fat);
    // Blocks 4, 5 and 6 are free; the file needs four.
    let data: Vec<u8> = (0..(4 * BLOCK_SIZE as u32)).map(|i| (i % 7) as u8).collect();
    assert_eq!(Vfs::create_file(&mut dev, "/t", &data), CreateOutcome::Created { slot: 1, truncated: true });
    let fat = Vfs::read_fat(&dev);
    assert_eq!(fat[4], 5);
    assert_eq!(fat[5], 6);
    assert_eq!(fat[6], FAT_EOF);
    // The entry records the full size; the read stops at the end of the chain.
    assert_eq!(read(&dev, "/t", 5 * BLOCK_SIZE), data[..3 * BLOCK_SIZE].to_vec());
}

#[test]
fn root_directory_full() {
    let mut dev = formatted();
    for i in 1..64 {
        let name = format!("/f{}", i);
        assert_eq!(Vfs::create_file(&mut dev, &name, b"z"), CreateOutcome::Created { slot: i, truncated: false });
    }
    assert_eq!(Vfs::create_file(&mut dev, "/one_more", b"z"), CreateOutcome::RootDirFull { truncated: false });
    assert_eq!(read(&dev, "/one_more", 16), Vec::<u8>::new());
    assert_eq!(read(&dev, "/f63", 16), b"z".to_vec());
}

#[test]
fn alloc_takes_first_free_block() {
    let mut fat = [0u32; 1024];
    fat[0] = FAT_EOF;
    fat[1] = FAT_EOF;
    fat[2] = FAT_EOF;
    fat[3] = 7;
    assert_eq!(Vfs::alloc_block(&mut fat), Some(4));
    assert_eq!(fat[4], FAT_EOF);
    assert_eq!(Vfs::alloc_block(&mut fat), Some(5));
}

#[test]
fn alloc_never_takes_reserved_blocks() {
    let mut fat = [0u32; 1024];
    assert_eq!(Vfs::alloc_block(&mut fat), Some(3));
    assert_eq!(fat[0], 0);
}

#[test]
fn alloc_on_full_fat() {
    let mut fat = [1u32; 1024];
    fat[0] = 0;
    fat[1] = 0;
    fat[2] = 0;
    assert_eq!(Vfs::alloc_block(&mut fat), None);
    assert_eq!(fat[3], 1);
}

#[test]
fn fat_write_then_read() {
    let mut dev = BlockDevice::new();
    let mut fat = [0u32; 1024];
    for (i, e) in fat.iter_mut().enumerate() {
        *e = (i as u32).wrapping_mul(0x9E37_79B9);
    }
    Vfs::write_fat(&mut dev, &fat);
    assert_eq!(Vfs::read_fat(&dev), fat);
    let mut buf = [0u8; 4096];
    assert!(dev.read_block(FAT_BLOCK, &mut buf));
    assert_eq!(&buf[4..8], &fat[1].to_le_bytes());
}

#[test]
fn unreadable_fat_reads_free() {
    let dev = BlockDevice::new();
    assert_eq!(Vfs::read_fat(&dev), [0u32; 1024]);
}

#[test]
fn corrupt_start_block_is_out_of_bounds() {
    let mut dev = formatted();
    let mut dir = [0u8; 4096];
    dev.read_block(ROOT_DIR_BLOCK, &mut dir);
    dir[32..36].copy_from_slice(&5000u32.to_le_bytes());
    dev.write_block(ROOT_DIR_BLOCK, &dir);
    assert!(!Vfs::read_in_bounds(&dev, "/etc/config.txt", 128));
    assert!(Vfs::read_in_bounds(&dev, "/etc/config.txt", 0));
    assert!(Vfs::read_in_bounds(&dev, "/nothing", 128));
}

#[test]
fn dir_entry_empty_is_zero() {
    let e = DirEntry::empty();
    assert_eq!(e.name, [0u8; 32]);
    assert_eq!(e.start_block, 0);
    assert_eq!(e.size, 0);
    assert_eq!(e.reserved, [0u8; 24]);
}

#[test]
fn creating_files_keeps_the_disk_recognized() {
    let mut dev = formatted();
    Vfs::create_file(&mut dev, "/home/notes", b"remember the milk");
    assert_eq!(Vfs::init(&mut dev), InitOutcome::Recognized);
    assert_eq!(read(&dev, "/home/notes", 64), b"remember the milk".to_vec());
}
