use rustfs::fs_structs::{FileType, Inode, Superblock, BLOCK_SIZE};
use rustfs::journal::{Journal, JournalOp};
use rustfs::manager::{format_writes, root_directory, Manager};

fn fresh(total_blocks: u64) -> (Manager, Journal) {
    let sb = Superblock::default_layout(total_blocks);
    let journal = Journal::new(&sb);
    let manager = Manager::new(sb, [0u8; BLOCK_SIZE], [0u8; BLOCK_SIZE]);
    (manager, journal)
}

fn last_write(journal: &Journal) -> (u64, Vec<u8>) {
    match journal.pending_ops().last() {
        Some(JournalOp::WriteBlock(b, data)) => (*b, data.clone()),
        other => panic!("expected a block write, got {:?}", other),
    }
}

#[test]
fn set_and_clear_bit() {
    let mut bm = [0u8; BLOCK_SIZE];
    Manager::set_bit(&mut bm, 10);
    assert_eq!(bm[1], 0b0000_0100);
    Manager::set_bit(&mut bm, 0);
    assert_eq!(bm[0], 1);
    Manager::clear_bit(&mut bm, 10);
    assert_eq!(bm[1], 0);
    assert_eq!(bm[0], 1);
}

#[test]
fn find_free_bit_finds_lowest_clear_bit() {
    let mut bm = [0xFFu8; BLOCK_SIZE];
    assert_eq!(Manager::find_free_bit(&bm), None);
    bm[3] = 0b1110_1111;
    bm[7] = 0;
    assert_eq!(Manager::find_free_bit(&bm), Some(3 * 8 + 4));
    let empty = [0u8; BLOCK_SIZE];
    assert_eq!(Manager::find_free_bit(&empty), Some(0));
}

#[test]
fn alloc_block_hands_out_data_blocks_in_order_and_logs_bitmap() {
    let (mut m, mut j) = fresh(2560);
    assert_eq!(m.alloc_block(&mut j), Some(201));
    assert_eq!(m.alloc_block(&mut j), Some(202));
    assert_eq!(m.alloc_block(&mut j), Some(203));
    assert_eq!(j.pending_ops().len(), 3);
    let (b, data) = last_write(&j);
    assert_eq!(b, 101);
    assert_eq!(data.len(), BLOCK_SIZE);
    assert_eq!(data[25], 0b1110);
    assert!(data.iter().enumerate().all(|(i, x)| i == 25 || *x == 0));
}

#[test]
fn alloc_block_never_hands_out_metadata_blocks() {
    let (mut m, mut j) = fresh(2560);
    for _ in 0..50 {
        let b = m.alloc_block(&mut j).unwrap();
        assert!(b >= 201 && b < 2560);
    }
}

#[test]
fn alloc_block_respects_total_blocks() {
    let (mut m, mut j) = fresh(203);
    assert_eq!(m.alloc_block(&mut j), Some(201));
    assert_eq!(m.alloc_block(&mut j), Some(202));
    assert_eq!(m.alloc_block(&mut j), None);
    assert_eq!(j.pending_ops().len(), 2);
}

#[test]
fn alloc_block_fails_on_full_bitmap() {
    let sb = Superblock::default_layout(100_000);
    let mut j = Journal::new(&sb);
    let mut m = Manager::new(sb, [0xFFu8; BLOCK_SIZE], [0u8; BLOCK_SIZE]);
    assert_eq!(m.alloc_block(&mut j), None);
    assert!(j.pending_ops().is_empty());
}

#[test]
fn free_block_undoes_alloc_block() {
    let (mut m, mut j) = fresh(2560);
    assert_eq!(m.alloc_block(&mut j), Some(201));
    let (_, before) = last_write(&j);
    assert_eq!(m.alloc_block(&mut j), Some(202));
    m.free_block(&mut j, 202);
    let (b, after) = last_write(&j);
    assert_eq!(b, 101);
    assert_eq!(after, before);
    // the freed block is handed out again
    assert_eq!(m.alloc_block(&mut j), Some(202));
}

#[test]
fn alloc_inode_skips_inode_zero_and_logs() {
    let (mut m, mut j) = fresh(2560);
    let inode = m.alloc_inode(&mut j, FileType::File).unwrap();
    assert_eq!(inode.ino, 1);
    assert_eq!(inode.file_type, FileType::File);
    assert_eq!(inode.size, 0);
    assert_eq!(j.pending_ops().len(), 2);
    match &j.pending_ops()[0] {
        JournalOp::WriteBlock(b, data) => {
            assert_eq!(*b, 102);
            assert_eq!(data[0], 0b10);
        }
        other => panic!("unexpected {:?}", other),
    }
    assert!(matches!(j.pending_ops()[1], JournalOp::AllocateInode(1)));
    let cached = m.cached_inode(1).unwrap();
    assert_eq!(cached.ino, 1);
    let second = m.alloc_inode(&mut j, FileType::Directory).unwrap();
    assert_eq!(second.ino, 2);
}

#[test]
fn alloc_inode_stops_at_search_limit() {
    let mut sb = Superblock::default_layout(2560);
    sb.inode_table_blocks = 1; // inode numbers 1..16
    let mut j = Journal::new(&sb);
    let mut bits = [0u8; BLOCK_SIZE];
    for i in 0..2 {
        bits[i] = 0xFF;
    }
    let mut m = Manager::new(sb, [0u8; BLOCK_SIZE], bits);
    assert!(m.alloc_inode(&mut j, FileType::File).is_none());
    assert!(j.pending_ops().is_empty());
    assert!(m.cached_inode(1).is_none());
}

#[test]
fn inode_locations() {
    let (m, _) = fresh(2560);
    assert_eq!(m.inode_location(0), Some((103, 0)));
    assert_eq!(m.inode_location(1), Some((103, 256)));
    assert_eq!(m.inode_location(15), Some((103, 3840)));
    assert_eq!(m.inode_location(16), Some((104, 0)));
    assert_eq!(m.inode_location(33), Some((105, 256)));
}

#[test]
fn inode_location_overflow() {
    let mut sb = Superblock::default_layout(2560);
    sb.inode_table_start = u64::MAX - 1;
    let m = Manager::new(sb, [0u8; BLOCK_SIZE], [0u8; BLOCK_SIZE]);
    assert_eq!(m.inode_location(15), Some((u64::MAX - 1, 3840)));
    assert_eq!(m.inode_location(32), None);
}

#[test]
fn inode_scan_bounds() {
    let (m, _) = fresh(2560);
    assert!(m.inode_scan_in_bounds());
    let mut sb = Superblock::default_layout(2560);
    sb.inode_table_blocks = 2100; // scan would run past the bitmap block
    let full = Manager::new(sb, [0u8; BLOCK_SIZE], [0xFFu8; BLOCK_SIZE]);
    assert!(!full.inode_scan_in_bounds());
    let roomy = Manager::new(sb, [0u8; BLOCK_SIZE], [0u8; BLOCK_SIZE]);
    assert!(roomy.inode_scan_in_bounds());
    sb.inode_table_blocks = u64::MAX;
    let huge = Manager::new(sb, [0u8; BLOCK_SIZE], [0u8; BLOCK_SIZE]);
    assert!(!huge.inode_scan_in_bounds());
    let mut sb = Superblock::default_layout(2560);
    sb.bitmap_start = u64::MAX;
    let edge = Manager::new(sb, [0u8; BLOCK_SIZE], [0u8; BLOCK_SIZE]);
    assert!(!edge.inode_scan_in_bounds());
}

#[test]
fn inode_slot_is_the_256_bytes_at_start() {
    let mut block = [0u8; BLOCK_SIZE];
    block[256] = 1;
    block[511] = 2;
    block[512] = 3;
    let slot = Manager::inode_slot(&block, 256);
    assert_eq!(slot.len(), 256);
    assert_eq!(slot[0], 1);
    assert_eq!(slot[255], 2);
}

#[test]
fn load_inode_accepts_only_matching_number() {
    let (mut m, _) = fresh(2560);
    assert!(m.load_inode(5, None).is_none());
    assert!(m.load_inode(5, Some(Inode::new(0, FileType::File))).is_none());
    assert!(m.cached_inode(5).is_none());
    let got = m.load_inode(5, Some(Inode::new(5, FileType::Directory))).unwrap();
    assert_eq!(got.ino, 5);
    assert_eq!(m.cached_inode(5).unwrap().file_type, FileType::Directory);
}

#[test]
fn write_inode_splices_and_caches() {
    let (mut m, mut j) = fresh(2560);
    let mut inode = Inode::new(17, FileType::File);
    inode.size = 42;
    let block = [0xAAu8; BLOCK_SIZE];
    let encoded = [1u8, 2, 3, 4];
    m.write_inode(&mut j, &inode, &block, &encoded);
    let (b, data) = last_write(&j);
    assert_eq!(b, 104);
    assert_eq!(&data[256..260], &[1, 2, 3, 4]);
    assert_eq!(data[255], 0xAA);
    assert_eq!(data[260], 0xAA);
    assert_eq!(m.cached_inode(17).unwrap().size, 42);
}

#[test]
fn cache_inode_then_lookup() {
    let (mut m, _) = fresh(2560);
    let inode = Inode::new(9, FileType::File);
    m.cache_inode(&inode);
    assert_eq!(m.cached_inode(9).unwrap().ino, 9);
    assert!(m.cached_inode(8).is_none());
}

#[test]
fn distinct_inodes_have_disjoint_slots() {
    let (m, _) = fresh(2560);
    let mut seen = std::collections::HashSet::new();
    for ino in 0..100u64 {
        let (block, start) = m.inode_location(ino).unwrap();
        assert!(start + 256 <= BLOCK_SIZE);
        assert!(seen.insert((block, start)));
    }
}

#[test]
fn inode_numbers_stay_inside_the_inode_table() {
    let sb = Superblock::default_layout(2560);
    let mut j = Journal::new(&sb);
    let mut bits = [0xFFu8; BLOCK_SIZE];
    bits[1568 / 8] = 0; // 1568 = 98 blocks * 16 slots: just past the table
    let mut m = Manager::new(sb, [0u8; BLOCK_SIZE], bits);
    assert!(m.alloc_inode(&mut j, FileType::File).is_none());
    let mut bits = [0xFFu8; BLOCK_SIZE];
    bits[1567 / 8] = 0b0111_1111; // inode 1567 is the last slot of the table
    let mut m = Manager::new(sb, [0u8; BLOCK_SIZE], bits);
    let inode = m.alloc_inode(&mut j, FileType::File).unwrap();
    assert_eq!(inode.ino, 1567);
    assert_eq!(m.inode_location(1567), Some((200, 3840)));
}

#[test]
fn second_inode_write_keeps_the_pending_first() {
    let (mut m, mut j) = fresh(2560);
    let disk_block = [0u8; BLOCK_SIZE];
    m.write_inode(&mut j, &Inode::new(1, FileType::Directory), &disk_block, &[7u8; 4]);
    m.write_inode(&mut j, &Inode::new(2, FileType::File), &disk_block, &[9u8; 4]);
    let (b, data) = last_write(&j);
    assert_eq!(b, 103);
    assert_eq!(&data[256..260], &[7u8; 4]);
    assert_eq!(&data[512..516], &[9u8; 4]);
}

#[test]
fn release_inode_frees_its_blocks_and_number() {
    let (mut m, mut j) = fresh(2560);
    let mut inode = m.alloc_inode(&mut j, FileType::File).unwrap();
    assert_eq!(inode.ino, 1);
    inode.direct_blocks[0] = m.alloc_block(&mut j).unwrap();
    inode.direct_blocks[1] = m.alloc_block(&mut j).unwrap();
    assert_eq!((inode.direct_blocks[0], inode.direct_blocks[1]), (201, 202));
    m.cache_inode(&inode);
    m.release_inode(&mut j, &inode);
    let n = j.pending_ops().len();
    match (&j.pending_ops()[n - 2], &j.pending_ops()[n - 1]) {
        (JournalOp::WriteBlock(101, blocks), JournalOp::WriteBlock(102, inodes)) => {
            assert!(blocks.iter().all(|x| *x == 0));
            assert!(inodes.iter().all(|x| *x == 0));
        }
        other => panic!("unexpected {:?}", other),
    }
    assert!(m.cached_inode(1).is_none());
    assert_eq!(m.alloc_block(&mut j), Some(201));
    assert_eq!(m.alloc_inode(&mut j, FileType::File).unwrap().ino, 1);
}

#[test]
fn format_creates_the_root_directory() {
    let sb = Superblock::default_layout(2560);
    let root = root_directory(&sb);
    assert_eq!(root.ino, 1);
    assert_eq!(root.file_type, FileType::Directory);
    let plan = format_writes(&sb, &[5u8, 6, 7]).unwrap();
    assert!(plan.complete);
    assert_eq!(plan.writes.len(), 2);
    assert_eq!(plan.writes[0].block_num, 102);
    assert_eq!(plan.writes[0].data[0], 0b10);
    assert_eq!(plan.writes[1].block_num, 103);
    assert_eq!(&plan.writes[1].data[256..259], &[5, 6, 7]);
    assert!(plan.writes[1].data[..256].iter().all(|x| *x == 0));
    let mut m = Manager::new(sb, [0u8; BLOCK_SIZE], plan.writes[0].data);
    let mut j = Journal::new(&sb);
    assert_eq!(m.alloc_inode(&mut j, FileType::File).unwrap().ino, 2);
}
