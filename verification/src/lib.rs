//! A small single-volume file system in the classic Unix style: a superblock,
//! an inode bitmap, a data-block bitmap, an inode table and a region of
//! fixed-size data blocks, all laid out contiguously inside one byte-addressed
//! volume. The engine mounts a volume, keeps the in-memory copies of the
//! superblock and the two bitmaps, and offers create/read/delete/list/navigate
//! operations that persist every mutation back into the volume before
//! returning.
//!
//! The volume itself is an in-memory byte store ([`storage::Storage`]); a host
//! program is expected to load it from and save it to whatever medium it
//! chooses.

pub mod codec;
pub mod error;
pub mod fs;
pub mod storage;
pub mod structure;
