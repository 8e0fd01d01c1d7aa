//! A small block file system with a write-ahead log.
//!
//! The library holds the on-disk layout (`fs_structs`), the bitmap algebra
//! (`bits`), the write-ahead log and its commit protocol (`journal`), which
//! block writes a checkpoint or recovery replays (`replay`), the block and inode allocators
//! with the inode cache (`manager`) and the rules of the file operations
//! (`fs_ops`). It does no I/O itself: the caller reads blocks and hands them
//! in, encodes and decodes records, and performs the block writes that the
//! library plans.
pub mod bits;
pub mod fs_ops;
pub mod fs_structs;
pub mod journal;
pub mod manager;
pub mod replay;
