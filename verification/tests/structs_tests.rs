use rustfs::fs_structs::{
    block_from_vec, block_with_prefix, FileType, Inode, Superblock, BLOCK_SIZE, MAGIC_NUMBER,
};

#[test]
fn new_inode_is_empty_with_one_link() {
    let inode = Inode::new(7, FileType::Directory);
    assert_eq!(inode.ino, 7);
    assert_eq!(inode.file_type, FileType::Directory);
    assert_eq!(inode.size, 0);
    assert_eq!(inode.link_count, 1);
    assert_eq!(inode.direct_blocks, [0u64; 12]);
}

#[test]
fn default_layout_matches_formatting() {
    let sb = Superblock::default_layout(2560);
    assert_eq!(sb.magic, MAGIC_NUMBER);
    assert_eq!(sb.magic, 0x525553544653);
    assert_eq!(sb.total_blocks, 2560);
    assert_eq!(sb.journal_start, 1);
    assert_eq!(sb.journal_blocks, 100);
    assert_eq!(sb.bitmap_start, 101);
    assert_eq!(sb.bitmap_blocks, 2);
    assert_eq!(sb.inode_table_start, 103);
    assert_eq!(sb.inode_table_blocks, 98);
    assert_eq!(sb.data_start, 201);
    assert_eq!(sb.root_inode, 1);
    assert!(sb.has_valid_magic());
}

#[test]
fn wrong_magic_is_rejected() {
    let mut sb = Superblock::default_layout(10);
    sb.magic = 0;
    assert!(!sb.has_valid_magic());
}

#[test]
fn prefix_block_is_zero_padded() {
    let bytes = [9u8, 8, 7];
    let block = block_with_prefix(&bytes);
    assert_eq!(block.len(), BLOCK_SIZE);
    assert_eq!(&block[..3], &[9, 8, 7]);
    assert!(block[3..].iter().all(|b| *b == 0));
}

#[test]
fn full_prefix_block_copies_everything() {
    let bytes: Vec<u8> = (0..BLOCK_SIZE).map(|i| (i % 251) as u8).collect();
    let block = block_from_vec(&bytes);
    assert_eq!(block.to_vec(), bytes);
}
