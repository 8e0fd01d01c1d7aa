use rustfs::fs_ops::{
    add_entry, dir_blocks, entries_named, file_data_block, first_data_block, inode_to_attr, read_range,
    readdir_listing, remove_entry, set_size, write_dir_entries, write_file_block,
};
use rustfs::fs_structs::{DirEntry, FileType, Inode, Superblock, BLOCK_SIZE};
use rustfs::journal::{Journal, JournalOp};
use rustfs::manager::Manager;

fn fresh() -> (Manager, Journal) {
    let sb = Superblock::default_layout(2560);
    let journal = Journal::new(&sb);
    (Manager::new(sb, [0u8; BLOCK_SIZE], [0u8; BLOCK_SIZE]), journal)
}

fn entry(ino: u64, name: &str) -> DirEntry {
    DirEntry { ino, name: name.to_string() }
}

#[test]
fn attributes_of_an_inode() {
    let mut inode = Inode::new(4, FileType::File);
    inode.size = 4097;
    inode.link_count = 2;
    let attr = inode_to_attr(&inode);
    assert_eq!(attr.ino, 4);
    assert_eq!(attr.size, 4097);
    assert_eq!(attr.blocks, 2);
    assert_eq!(attr.kind, FileType::File);
    assert_eq!(attr.perm, 0o777);
    assert_eq!(attr.nlink, 2);
    assert_eq!(attr.uid, 501);
    assert_eq!(attr.gid, 20);
    assert_eq!(attr.rdev, 0);
    assert_eq!(attr.blksize, 4096);
    assert_eq!(attr.flags, 0);
    let empty = inode_to_attr(&Inode::new(5, FileType::Directory));
    assert_eq!(empty.blocks, 0);
    assert_eq!(empty.kind, FileType::Directory);
}

#[test]
fn directory_blocks_skip_null_pointers() {
    let mut inode = Inode::new(1, FileType::Directory);
    inode.direct_blocks[0] = 300;
    inode.direct_blocks[3] = 301;
    inode.direct_blocks[11] = 5;
    assert_eq!(dir_blocks(&inode), vec![300, 301, 5]);
    assert!(dir_blocks(&Inode::new(2, FileType::Directory)).is_empty());
}

#[test]
fn file_data_block_is_the_first_pointer() {
    let mut inode = Inode::new(1, FileType::File);
    assert_eq!(file_data_block(&inode), None);
    inode.direct_blocks[0] = 222;
    assert_eq!(file_data_block(&inode), Some(222));
}

#[test]
fn first_data_block_allocates_once() {
    let (mut m, mut j) = fresh();
    let mut inode = Inode::new(1, FileType::File);
    assert_eq!(first_data_block(&mut m, &mut j, &mut inode), Some(201));
    assert_eq!(inode.direct_blocks[0], 201);
    assert_eq!(file_data_block(&inode), Some(201));
    assert_eq!(m.alloc_block(&mut j), Some(202));
    inode.direct_blocks[0] = 7;
    assert_eq!(first_data_block(&mut m, &mut j, &mut inode), Some(7));
    assert_eq!(j.pending_ops().len(), 2);
}

#[test]
fn write_dir_entries_stores_encoding_and_size() {
    let (mut m, mut j) = fresh();
    let mut dir = Inode::new(1, FileType::Directory);
    dir.direct_blocks[0] = 400;
    let encoded = vec![1u8, 2, 3, 4, 5];
    assert_eq!(write_dir_entries(&mut m, &mut j, &mut dir, &encoded), Some(400));
    assert_eq!(dir.size, 5);
    match j.pending_ops().last() {
        Some(JournalOp::WriteBlock(b, data)) => {
            assert_eq!(*b, 400);
            assert_eq!(&data[..5], &encoded[..]);
            assert!(data[5..].iter().all(|x| *x == 0));
        }
        other => panic!("unexpected {:?}", other),
    }
}

#[test]
fn write_dir_entries_truncates_to_one_block_and_allocates() {
    let (mut m, mut j) = fresh();
    let mut dir = Inode::new(1, FileType::Directory);
    let encoded = vec![9u8; BLOCK_SIZE + 10];
    assert_eq!(write_dir_entries(&mut m, &mut j, &mut dir, &encoded), Some(201));
    assert_eq!(dir_blocks(&dir), vec![201]);
    assert_eq!(dir.size, BLOCK_SIZE as u64);
    assert_eq!(j.pending_ops().len(), 2);
}

#[test]
fn write_dir_entries_fails_without_free_block() {
    let sb = Superblock::default_layout(0);
    let mut j = Journal::new(&sb);
    let mut m = Manager::new(sb, [0u8; BLOCK_SIZE], [0u8; BLOCK_SIZE]);
    let mut dir = Inode::new(1, FileType::Directory);
    assert_eq!(write_dir_entries(&mut m, &mut j, &mut dir, &[1, 2]), None);
    assert_eq!(dir.size, 0);
    assert!(j.pending_ops().is_empty());
}

#[test]
fn lookup_candidates_in_order() {
    let entries = vec![entry(2, "a"), entry(3, "b"), entry(4, "a")];
    assert_eq!(entries_named(&entries, &"a".to_string()), vec![2, 4]);
    assert_eq!(entries_named(&entries, &"b".to_string()), vec![3]);
    assert!(entries_named(&entries, &"c".to_string()).is_empty());
}

#[test]
fn remove_entry_takes_the_first_match() {
    let mut entries = vec![entry(2, "a"), entry(3, "b"), entry(4, "a")];
    assert_eq!(remove_entry(&mut entries, &"a".to_string()), Some(2));
    assert_eq!(entries.len(), 2);
    assert_eq!(entries[0].ino, 3);
    assert_eq!(entries[1].ino, 4);
    assert_eq!(remove_entry(&mut entries, &"zz".to_string()), None);
    assert_eq!(entries.len(), 2);
}

#[test]
fn add_then_lookup_then_remove() {
    let mut entries = vec![entry(2, "x")];
    add_entry(&mut entries, 9, "new".to_string());
    assert_eq!(entries.len(), 2);
    assert_eq!(entries[1].ino, 9);
    assert_eq!(entries_named(&entries, &"new".to_string()), vec![9]);
    assert_eq!(remove_entry(&mut entries, &"new".to_string()), Some(9));
    assert!(entries_named(&entries, &"new".to_string()).is_empty());
}

#[test]
fn listing_from_the_start_has_dot_entries() {
    let entries = vec![entry(5, "f"), entry(6, "g")];
    let items = readdir_listing(1, &entries, 0);
    assert_eq!(items.len(), 4);
    assert_eq!((items[0].ino, items[0].offset, items[0].name.as_str()), (1, 1, "."));
    assert_eq!(items[0].kind, FileType::Directory);
    assert_eq!((items[1].ino, items[1].offset, items[1].name.as_str()), (1, 2, ".."));
    assert_eq!((items[2].ino, items[2].offset, items[2].name.as_str()), (5, 3, "f"));
    assert_eq!(items[2].kind, FileType::File);
    assert_eq!((items[3].ino, items[3].offset, items[3].name.as_str()), (6, 4, "g"));
}

#[test]
fn listing_from_an_offset_skips_entries() {
    let entries = vec![entry(5, "f"), entry(6, "g"), entry(7, "h")];
    let items = readdir_listing(1, &entries, 2);
    assert_eq!(items.len(), 1);
    assert_eq!((items[0].ino, items[0].offset, items[0].name.as_str()), (7, 5, "h"));
    assert!(readdir_listing(1, &entries, 4).is_empty());
    assert!(readdir_listing(1, &entries, -1).is_empty());
}

#[test]
fn write_then_read_gives_back_the_data() {
    let (_, mut j) = fresh();
    let mut inode = Inode::new(3, FileType::File);
    inode.direct_blocks[0] = 500;
    let data = b"hello world";
    let written = write_file_block(&mut j, &mut inode, 500, [0u8; BLOCK_SIZE], 10, data);
    assert_eq!(written, data.len());
    assert_eq!(inode.size, 10 + data.len() as u64);
    let block = match j.pending_ops().last() {
        Some(JournalOp::WriteBlock(b, bytes)) => {
            assert_eq!(*b, 500);
            let mut block = [0u8; BLOCK_SIZE];
            block.copy_from_slice(bytes);
            block
        }
        other => panic!("unexpected {:?}", other),
    };
    assert_eq!(read_range(&block, 10, written as u32, inode.size), Some(data.to_vec()));
    assert_eq!(read_range(&block, 0, 100, inode.size).unwrap()[10..], data[..]);
}

#[test]
fn write_is_clipped_at_the_block_end_and_size_only_grows() {
    let (_, mut j) = fresh();
    let mut inode = Inode::new(3, FileType::File);
    inode.size = 4096;
    let written = write_file_block(&mut j, &mut inode, 500, [1u8; BLOCK_SIZE], 4090, &[2u8; 20]);
    assert_eq!(written, 6);
    assert_eq!(inode.size, 4096);
    let written = write_file_block(&mut j, &mut inode, 500, [1u8; BLOCK_SIZE], 4096, &[2u8; 20]);
    assert_eq!(written, 0);
}

#[test]
fn read_stops_at_file_size() {
    let mut block = [0u8; BLOCK_SIZE];
    for (i, b) in block.iter_mut().enumerate() {
        *b = (i % 200) as u8;
    }
    assert_eq!(read_range(&block, 5, 10, 8), Some(vec![5, 6, 7]));
    assert_eq!(read_range(&block, 8, 10, 8), Some(vec![]));
    assert_eq!(read_range(&block, 20, 10, 8), Some(vec![]));
    assert_eq!(read_range(&block, 0, 3, 4096), Some(vec![0, 1, 2]));
}

#[test]
fn read_past_the_block_is_out_of_bounds() {
    let block = [0u8; BLOCK_SIZE];
    assert_eq!(read_range(&block, 4000, 200, 10_000), None);
    assert_eq!(read_range(&block, -1, 5, 10), None);
    assert_eq!(read_range(&block, 4000, 96, 10_000), Some(vec![0u8; 96]));
}

#[test]
fn setattr_size() {
    let mut inode = Inode::new(3, FileType::File);
    set_size(&mut inode, Some(77));
    assert_eq!(inode.size, 77);
    set_size(&mut inode, None);
    assert_eq!(inode.size, 77);
}
