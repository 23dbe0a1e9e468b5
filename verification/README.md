# terminus

The kernel-side logic of TerminUS, a small microkernel that runs on a
WebAssembly host: a message format for inter-process communication and a
FAT-style file system on a block device, verified with Verus.

- `src/bytes.rs` — little-endian words.
- `src/ipc.rs` — message headers, framing and unpacking of messages, the
  loopback self-test as a step function, and their laws.
- `src/device.rs` — the in-memory block device the file system works on,
  with readable and dirty flags per block.
- `src/layout.rs` — the on-disk layout (superblock, FAT, root directory,
  file chains) as spec functions.
- `src/vfs.rs` — format, init, block allocation, file creation and reading.
- `src/laws.rs` — what holds across operations: a created file reads back,
  a formatted disk is recognised, creating files leaves the superblock.
- `app/` — the boot sequence against the host ABI: it loads the host's disk
  into a `BlockDevice`, runs the library, and writes dirty blocks back.
