use rustfs::fs_structs::{Superblock, BLOCK_SIZE};
use rustfs::journal::{concat_blocks, next_record, zero_plan, Journal, JournalOp, WritePlan};
use rustfs::replay::plan_replay;

fn journal() -> Journal {
    Journal::new(&Superblock::default_layout(2560))
}

/// Commits the pending records with a stand-in encoding of `len` bytes.
fn commit(j: &mut Journal, len: usize) -> WritePlan {
    let encoded: Vec<u8> = (0..len).map(|i| (i % 253) as u8).collect();
    let commit = j.commit_plan(&encoded);
    assert!(commit.plan().complete);
    let writes = commit
        .plan()
        .writes
        .iter()
        .map(|w| rustfs::journal::BlockWrite { block_num: w.block_num, data: w.data })
        .collect();
    j.finish_commit(&commit);
    WritePlan { writes, complete: true }
}

#[test]
fn new_journal_is_empty() {
    let j = journal();
    assert_eq!(j.journal_start(), 1);
    assert_eq!(j.journal_blocks(), 100);
    assert_eq!(j.next_txn_id(), 1);
    assert_eq!(j.current_block_offset(), 0);
    assert!(j.pending_ops().is_empty());
    assert!(j.committed());
}

#[test]
fn txn_ids_increase_and_records_are_logged_in_order() {
    let mut j = journal();
    let t1 = j.start_txn();
    j.log_update_parent_dir(1);
    j.log_alloc_inode(2);
    j.log_write_block(300, &[5u8; BLOCK_SIZE]);
    j.commit_txn(t1);
    let t2 = j.start_txn();
    assert_eq!(t1, 1);
    assert_eq!(t2, 2);
    assert_eq!(j.next_txn_id(), 3);
    let ops = j.pending_ops();
    assert_eq!(ops.len(), 6);
    assert!(matches!(ops[0], JournalOp::TxnStart(1)));
    assert!(matches!(ops[1], JournalOp::UpdateParentDir(1)));
    assert!(matches!(ops[2], JournalOp::AllocateInode(2)));
    match &ops[3] {
        JournalOp::WriteBlock(b, data) => {
            assert_eq!(*b, 300);
            assert_eq!(data, &vec![5u8; BLOCK_SIZE]);
        }
        other => panic!("unexpected {:?}", other),
    }
    assert!(matches!(ops[4], JournalOp::TxnCommit(1)));
    assert!(matches!(ops[5], JournalOp::TxnStart(2)));
    assert!(!j.committed());
}

#[test]
fn checkpoint_plans_the_committed_block_writes_in_order() {
    let mut j = journal();
    let t = j.start_txn();
    j.log_write_block(210, &[1u8; BLOCK_SIZE]);
    j.log_alloc_inode(3);
    j.log_write_block(211, &[2u8; BLOCK_SIZE]);
    j.commit_txn(t);
    commit(&mut j, 5000);
    assert!(j.committed());
    assert_eq!(j.current_block_offset(), 2);
    let plan = j.checkpoint_plan();
    assert!(plan.complete);
    assert_eq!(plan.writes.len(), 2);
    assert_eq!(plan.writes[0].block_num, 210);
    assert_eq!(plan.writes[0].data, [1u8; BLOCK_SIZE]);
    assert_eq!(plan.writes[1].block_num, 211);
    assert_eq!(plan.writes[1].data, [2u8; BLOCK_SIZE]);
    let clear = j.clear_plan();
    assert!(clear.complete);
    assert_eq!(clear.writes.len(), 2);
    assert_eq!(clear.writes[0].block_num, 1);
    assert_eq!(clear.writes[1].block_num, 2);
    assert!(clear.writes.iter().all(|w| w.data == [0u8; BLOCK_SIZE]));
    j.finish_checkpoint();
    assert!(j.pending_ops().is_empty());
    assert_eq!(j.current_block_offset(), 0);
    assert_eq!(j.next_txn_id(), 2);
}

#[test]
fn uncommitted_writes_are_not_checkpointed() {
    let mut j = journal();
    let t = j.start_txn();
    j.log_write_block(210, &[1u8; BLOCK_SIZE]);
    j.commit_txn(t);
    let _abandoned = j.start_txn();
    j.log_write_block(220, &[2u8; BLOCK_SIZE]);
    commit(&mut j, 100);
    let plan = j.checkpoint_plan();
    assert!(plan.complete);
    assert_eq!(plan.writes.len(), 1);
    assert_eq!(plan.writes[0].block_num, 210);
}

#[test]
fn replay_skips_transactions_without_commit() {
    let ops = vec![JournalOp::TxnStart(1), JournalOp::WriteBlock(300, vec![4u8; BLOCK_SIZE])];
    let plan = plan_replay(&ops);
    assert!(plan.complete);
    assert!(plan.writes.is_empty());
    let ops = vec![JournalOp::WriteBlock(300, vec![4u8; BLOCK_SIZE]), JournalOp::TxnCommit(1)];
    assert!(plan_replay(&ops).writes.is_empty());
}

#[test]
fn replay_stops_at_a_malformed_payload() {
    let ops = vec![
        JournalOp::TxnStart(1),
        JournalOp::WriteBlock(7, vec![1u8; BLOCK_SIZE]),
        JournalOp::WriteBlock(8, vec![1u8; 10]),
        JournalOp::WriteBlock(9, vec![1u8; BLOCK_SIZE]),
        JournalOp::TxnCommit(1),
    ];
    let plan = plan_replay(&ops);
    assert!(!plan.complete);
    assert_eq!(plan.writes.len(), 1);
    assert_eq!(plan.writes[0].block_num, 7);
}

#[test]
fn commit_plan_splits_the_encoding_into_blocks() {
    let mut j = journal();
    let encoded: Vec<u8> = (0..5000u32).map(|i| (i % 256) as u8).collect();
    let commit = j.commit_plan(&encoded);
    let plan = commit.plan();
    assert!(plan.complete);
    assert_eq!(commit.next_offset(), 2);
    assert_eq!(plan.writes.len(), 2);
    assert_eq!(plan.writes[0].block_num, 1);
    assert_eq!(plan.writes[1].block_num, 2);
    assert_eq!(&plan.writes[0].data[..], &encoded[..BLOCK_SIZE]);
    assert_eq!(&plan.writes[1].data[..5000 - BLOCK_SIZE], &encoded[BLOCK_SIZE..]);
    assert!(plan.writes[1].data[5000 - BLOCK_SIZE..].iter().all(|b| *b == 0));
    j.finish_commit(&commit);
    assert_eq!(j.current_block_offset(), 2);
}

#[test]
fn commit_plan_stops_at_the_end_of_the_journal_area() {
    let sb = Superblock { journal_blocks: 1, ..Superblock::default_layout(2560) };
    let j = Journal::new(&sb);
    let encoded = vec![7u8; 2 * BLOCK_SIZE + 1];
    let commit = j.commit_plan(&encoded);
    assert!(!commit.plan().complete);
    assert_eq!(commit.plan().writes.len(), 1);
    assert_eq!(commit.plan().writes[0].block_num, 1);
}

#[test]
fn empty_encoding_writes_nothing() {
    let j = journal();
    let commit = j.commit_plan(&[]);
    assert!(commit.plan().complete);
    assert!(commit.plan().writes.is_empty());
    assert_eq!(commit.next_offset(), 0);
}

#[test]
fn journal_area_read_back_starts_with_the_commit() {
    let j = journal();
    let encoded: Vec<u8> = (0..9000u32).map(|i| (i * 7 % 256) as u8).collect();
    let commit = j.commit_plan(&encoded);
    assert!(commit.plan().complete);
    let mut area = vec![[0u8; BLOCK_SIZE]; 100];
    for w in &commit.plan().writes {
        area[(w.block_num - j.journal_start()) as usize] = w.data;
    }
    let bytes = concat_blocks(&area);
    assert_eq!(bytes.len(), 100 * BLOCK_SIZE);
    assert_eq!(&bytes[..encoded.len()], &encoded[..]);
}

#[test]
fn zero_plan_writes_zero_blocks() {
    let plan = zero_plan(5, 3);
    assert!(plan.complete);
    let nums: Vec<u64> = plan.writes.iter().map(|w| w.block_num).collect();
    assert_eq!(nums, vec![5, 6, 7]);
    assert!(plan.writes.iter().all(|w| w.data == [0u8; BLOCK_SIZE]));
    let edge = zero_plan(u64::MAX, 3);
    assert!(!edge.complete);
    assert_eq!(edge.writes.len(), 1);
}

#[test]
fn latest_image_is_the_last_logged_one() {
    let mut j = journal();
    assert!(j.latest_image(300).is_none());
    j.log_write_block(300, &[1u8; BLOCK_SIZE]);
    j.log_write_block(301, &[2u8; BLOCK_SIZE]);
    j.log_write_block(300, &[3u8; BLOCK_SIZE]);
    assert_eq!(j.latest_image(300), Some([3u8; BLOCK_SIZE]));
    assert_eq!(j.latest_image(301), Some([2u8; BLOCK_SIZE]));
    assert!(j.latest_image(302).is_none());
}

#[test]
fn recover_without_records_replays_nothing() {
    let sb = Superblock::default_layout(2560);
    let (j, plans) = Journal::recover(&sb, vec![]);
    assert!(plans.is_none());
    assert_eq!(j.next_txn_id(), 1);
    let (_, plans) = Journal::recover(&sb, vec![Vec::new()]);
    assert!(plans.is_none());
}

#[test]
fn recover_replays_what_checkpoint_would_write_and_clears_the_area() {
    let sb = Superblock::default_layout(2560);
    let mut j = Journal::new(&sb);
    let t = j.start_txn();
    j.log_write_block(250, &[3u8; BLOCK_SIZE]);
    j.log_write_block(251, &[4u8; BLOCK_SIZE]);
    j.commit_txn(t);
    commit(&mut j, 10);
    let checkpoint = j.checkpoint_plan();
    let ops: Vec<JournalOp> = j.pending_ops().clone();
    let (fresh, plans) = Journal::recover(&sb, vec![ops]);
    let (replay, clear) = plans.unwrap();
    assert!(replay.complete);
    assert_eq!(replay.writes.len(), checkpoint.writes.len());
    for (a, b) in replay.writes.iter().zip(checkpoint.writes.iter()) {
        assert_eq!(a.block_num, b.block_num);
        assert_eq!(a.data, b.data);
    }
    assert!(clear.complete);
    assert_eq!(clear.writes.len(), 100);
    assert_eq!(clear.writes[0].block_num, 1);
    assert!(clear.writes.iter().all(|w| w.data == [0u8; BLOCK_SIZE]));
    assert!(fresh.pending_ops().is_empty());
    assert_eq!(fresh.current_block_offset(), 0);
    assert_eq!(fresh.next_txn_id(), 1);
}

#[test]
fn replaying_twice_leaves_the_same_disk() {
    let mut j = journal();
    let t = j.start_txn();
    j.log_write_block(300, &[1u8; BLOCK_SIZE]);
    j.log_write_block(301, &[2u8; BLOCK_SIZE]);
    j.log_write_block(300, &[3u8; BLOCK_SIZE]);
    j.commit_txn(t);
    commit(&mut j, 10);
    let plan = j.checkpoint_plan();
    assert!(plan.complete);
    let mut disk = std::collections::HashMap::new();
    disk.insert(302u64, [9u8; BLOCK_SIZE]);
    for w in &plan.writes {
        disk.insert(w.block_num, w.data);
    }
    let once = disk.clone();
    for w in &plan.writes {
        disk.insert(w.block_num, w.data);
    }
    assert_eq!(disk, once);
    assert_eq!(disk[&300], [3u8; BLOCK_SIZE]);
    assert_eq!(disk[&301], [2u8; BLOCK_SIZE]);
    assert_eq!(disk[&302], [9u8; BLOCK_SIZE]);
}

#[test]
fn a_second_commit_is_appended_after_the_first() {
    let mut j = journal();
    let t1 = j.start_txn();
    j.log_write_block(300, &[1u8; BLOCK_SIZE]);
    j.commit_txn(t1);
    commit(&mut j, 5000);
    assert_eq!(j.current_block_offset(), 2);
    let t2 = j.start_txn();
    j.log_write_block(301, &[2u8; BLOCK_SIZE]);
    j.commit_txn(t2);
    let second = j.commit_plan(&vec![9u8; 100]);
    assert!(second.plan().complete);
    assert_eq!(second.plan().writes.len(), 1);
    assert_eq!(second.plan().writes[0].block_num, 1 + 2);
    j.finish_commit(&second);
    assert_eq!(j.current_block_offset(), 3);
    let plan = j.checkpoint_plan();
    let nums: Vec<u64> = plan.writes.iter().map(|w| w.block_num).collect();
    assert_eq!(nums, vec![300, 301]);
    let clear = j.clear_plan();
    assert_eq!(clear.writes.len(), 3);
}

#[test]
fn commit_overflow_at_an_offset() {
    let sb = Superblock { journal_blocks: 3, ..Superblock::default_layout(2560) };
    let mut j = Journal::new(&sb);
    let t = j.start_txn();
    j.commit_txn(t);
    commit(&mut j, 2 * BLOCK_SIZE);
    let commit2 = j.commit_plan(&vec![1u8; 2 * BLOCK_SIZE]);
    assert!(!commit2.plan().complete);
    assert_eq!(commit2.plan().writes.len(), 1);
    assert_eq!(commit2.plan().writes[0].block_num, 3);
}

#[test]
fn scan_moves_past_each_record() {
    assert_eq!(next_record(0, 100, 3, 5000), Some(2));
    assert_eq!(next_record(2, 100, 3, 4096), Some(3));
    assert_eq!(next_record(0, 100, 0, 8), None);
    assert_eq!(next_record(98, 100, 3, 5000), None);
}

#[test]
fn recovery_replays_every_committed_record() {
    let sb = Superblock::default_layout(2560);
    let first = vec![
        JournalOp::TxnStart(1),
        JournalOp::WriteBlock(300, vec![1u8; BLOCK_SIZE]),
        JournalOp::TxnCommit(1),
    ];
    let mut second = first.clone();
    second.push(JournalOp::TxnStart(2));
    second.push(JournalOp::WriteBlock(301, vec![2u8; BLOCK_SIZE]));
    second.push(JournalOp::TxnCommit(2));
    let (_, plans) = Journal::recover(&sb, vec![first, second, Vec::new()]);
    let (replay, _) = plans.unwrap();
    assert!(replay.complete);
    let mut disk = std::collections::HashMap::new();
    for w in &replay.writes {
        disk.insert(w.block_num, w.data);
    }
    assert_eq!(disk[&300], [1u8; BLOCK_SIZE]);
    assert_eq!(disk[&301], [2u8; BLOCK_SIZE]);
}
