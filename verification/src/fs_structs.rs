use vstd::prelude::*;

verus! {

/// Size of one disk block in bytes.
pub const BLOCK_SIZE: usize = 4096;

/// Magic number stored in the superblock ("RUSTFS").
pub const MAGIC_NUMBER: u64 = 0x525553544653;

/// Number of direct block pointers held by an inode.
pub const NUM_DIRECT_BLOCKS: usize = 12;

/// Bytes reserved for one inode inside an inode-table block.
pub const INODE_SLOT_SIZE: usize = 256;

/// Number of inode slots in one inode-table block.
pub const INODES_PER_BLOCK: u64 = 16;

/// The disk layout, stored in block 0.
#[derive(Clone, Copy, Debug)]
pub struct Superblock {
    pub magic: u64,
    pub total_blocks: u64,
    pub journal_start: u64,
    pub journal_blocks: u64,
    pub bitmap_start: u64,
    pub bitmap_blocks: u64,
    pub inode_table_start: u64,
    pub inode_table_blocks: u64,
    pub data_start: u64,
    pub root_inode: u64,
}

impl Superblock {
    /// The layout of a freshly formatted disk of `total_blocks` blocks:
    /// superblock in block 0, journal in blocks 1-100, bitmaps in blocks
    /// 101-102, inode table in blocks 103-200, data from block 201; the root
    /// directory is inode 1.
    pub fn default_layout(total_blocks: u64) -> (sb: Superblock)
        ensures
            sb.magic == MAGIC_NUMBER,
            sb.total_blocks == total_blocks,
            sb.journal_start == 1,
            sb.journal_blocks == 100,
            sb.bitmap_start == 101,
            sb.bitmap_blocks == 2,
            sb.inode_table_start == 103,
            sb.inode_table_blocks == 98,
            sb.data_start == 201,
            sb.root_inode == 1,
    {
        Superblock {
            magic: MAGIC_NUMBER,
            total_blocks,
            journal_start: 1,
            journal_blocks: 100,
            bitmap_start: 101,
            bitmap_blocks: 2,
            inode_table_start: 103,
            inode_table_blocks: 98,
            data_start: 201,
            root_inode: 1,
        }
    }

    /// Whether the superblock carries the file system's magic number.
    pub fn has_valid_magic(&self) -> (ok: bool)
        ensures
            ok == (self.magic == MAGIC_NUMBER),
    {
        self.magic == MAGIC_NUMBER
    }
}

#[derive(Clone, Copy, Debug, PartialEq, Eq, Structural)]
pub enum FileType {
    File,
    Directory,
}

/// File metadata with direct block pointers (a zero pointer means "no block").
#[derive(Clone, Copy, Debug)]
pub struct Inode {
    pub ino: u64,
    pub file_type: FileType,
    pub size: u64,
    pub link_count: u32,
    pub direct_blocks: [u64; NUM_DIRECT_BLOCKS],
}

/// One name in a directory.
#[derive(Clone, Debug)]
pub struct DirEntry {
    pub ino: u64,
    pub name: String,
}

/// A whole block whose first bytes are `bytes` and whose other bytes are zero.
pub open spec fn padded_block(bytes: Seq<u8>) -> Seq<u8> {
    Seq::new(BLOCK_SIZE as nat, |j: int| if j < bytes.len() { bytes[j] } else { 0u8 })
}

/// Builds a block that starts with `bytes` and is zero elsewhere.
pub fn block_with_prefix(bytes: &[u8]) -> (block: [u8; BLOCK_SIZE])
    requires
        bytes@.len() <= BLOCK_SIZE,
    ensures
        block@ == padded_block(bytes@),
{
    let mut block = [0u8; BLOCK_SIZE];
    let mut i: usize = 0;
    while i < bytes.len()
        invariant
            i <= bytes@.len() <= BLOCK_SIZE,
            block@.len() == BLOCK_SIZE,
            forall|j: int| 0 <= j < i ==> #[trigger] block@[j] == bytes@[j],
            forall|j: int| i <= j < BLOCK_SIZE ==> #[trigger] block@[j] == 0u8,
        decreases bytes@.len() - i,
    {
        block[i] = bytes[i];
        i = i + 1;
    }
    assert(block@ =~= padded_block(bytes@));
    block
}

/// Copies a payload of exactly one block into a block.
pub fn block_from_vec(data: &Vec<u8>) -> (block: [u8; BLOCK_SIZE])
    requires
        data@.len() == BLOCK_SIZE,
    ensures
        block@ == data@,
{
    let block = block_with_prefix(data.as_slice());
    assert(block@ =~= data@);
    block
}

impl Inode {
    /// A fresh inode: empty, one link, no data blocks.
    pub fn new(ino: u64, file_type: FileType) -> (inode: Self)
        ensures
            inode.ino == ino,
            inode.file_type == file_type,
            inode.size == 0,
            inode.link_count == 1,
            forall|i: int| 0 <= i < NUM_DIRECT_BLOCKS ==> #[trigger] inode.direct_blocks[i] == 0,
    {
        Inode { ino, file_type, size: 0, link_count: 1, direct_blocks: [0u64; NUM_DIRECT_BLOCKS] }
    }
}

} // verus!
