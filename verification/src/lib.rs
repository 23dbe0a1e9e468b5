//! A small microkernel support library: a message format for inter-process
//! communication and a FAT-style file system laid out on a block device.
pub mod bytes;
pub mod ipc;
pub mod device;
pub mod layout;
pub mod vfs;
pub mod laws;
pub mod lookup_laws;
pub mod init_laws;
