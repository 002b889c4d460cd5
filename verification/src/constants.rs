use vstd::prelude::*;

verus! {

/// Bytes per disk block.
pub const BLOCK_SIZE: usize = 512;
/// Blocks on the disk.
pub const NUM_BLOCKS: usize = 64;

/// Block that holds the bitmap.
pub const BITMAP_BLOCK: usize = 0;
/// First (and only initial) block of the directory.
pub const DIRECTORY_BLOCK: usize = 7;
/// Blocks 0 through 6 (bitmap and descriptors) are kept in a cache.
pub const RESERVED_BLOCKS: usize = 7;

/// Number of file descriptors.
pub const NUM_DESCRIPTORS: usize = 192;
/// Descriptors stored in one block (512 / 16).
pub const DESCRIPTORS_PER_BLOCK: usize = 32;
/// Bytes of one descriptor on disk: four 32-bit integers.
pub const DESCRIPTOR_SIZE: usize = 16;

/// Entries of the open file table, the directory's included.
pub const OFT_SIZE: usize = 4;

/// Blocks a file may own.
pub const MAX_FILE_BLOCKS: usize = 3;
/// Largest file size in bytes (1536).
pub const MAX_FILE_SIZE: usize = MAX_FILE_BLOCKS * BLOCK_SIZE;

/// Bytes of one directory entry: a 4-byte name and a 4-byte descriptor index.
pub const DIR_ENTRY_SIZE: usize = 8;
/// Largest number of bytes in a file name.
pub const MAX_NAME_LEN: usize = 4;

} // verus!
