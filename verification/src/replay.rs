use vstd::prelude::*;
use crate::fs_structs::{block_from_vec, BLOCK_SIZE};
use crate::journal::{ops_view, BlockWrite, JournalOp, OpView, WritePlan};

verus! {

/// The id of the transaction open after the first `n` records: the id of the
/// latest `TxnStart` among them, if any.
pub open spec fn txn_of(ops: Seq<OpView>, n: int) -> Option<u64>
    decreases n,
{
    if n <= 0 {
        None
    } else {
        match ops[n - 1] {
            OpView::TxnStart(t) => Some(t),
            _ => txn_of(ops, n - 1),
        }
    }
}

/// Whether the commit record of transaction `t` comes after record `i`.
pub open spec fn commit_follows(ops: Seq<OpView>, i: int, t: u64) -> bool {
    exists|k: int| i < k < ops.len() && #[trigger] ops[k] == OpView::TxnCommit(t)
}

/// Whether record `i` is a block write of a committed transaction: the
/// transaction open at that point has its commit record later in the list.
pub open spec fn write_applies(ops: Seq<OpView>, i: int) -> bool {
    &&& ops[i] is WriteBlock
    &&& txn_of(ops, i) matches Some(t)
    &&& commit_follows(ops, i, t)
}

/// The replay of the first `n` records: the block writes of committed
/// transactions in order, up to the first such write whose payload is not
/// one whole block; the flag tells whether there was no such write.
pub open spec fn replay_upto(ops: Seq<OpView>, n: int) -> (Seq<(u64, Seq<u8>)>, bool)
    decreases n,
{
    if n <= 0 {
        (Seq::empty(), true)
    } else {
        let prev = replay_upto(ops, n - 1);
        if !prev.1 || !write_applies(ops, n - 1) {
            prev
        } else {
            match ops[n - 1] {
                OpView::WriteBlock(b, data) => if data.len() == BLOCK_SIZE {
                    (prev.0.push((b, data)), true)
                } else {
                    (prev.0, false)
                },
                _ => prev,
            }
        }
    }
}

/// What replaying (or checkpointing) a list of log records writes: the block
/// writes of committed transactions only (see `replay_upto`).
pub open spec fn replay_plan(ops: Seq<OpView>) -> (Seq<(u64, Seq<u8>)>, bool) {
    replay_upto(ops, ops.len() as int)
}

/// The block writes of committed transactions among the first `n` records,
/// in order.
pub open spec fn committed_writes_upto(ops: Seq<OpView>, n: int) -> Seq<(u64, Seq<u8>)>
    decreases n,
{
    if n <= 0 {
        Seq::empty()
    } else {
        let prev = committed_writes_upto(ops, n - 1);
        if write_applies(ops, n - 1) {
            match ops[n - 1] {
                OpView::WriteBlock(b, data) => prev.push((b, data)),
                _ => prev,
            }
        } else {
            prev
        }
    }
}

/// The block writes of committed transactions, in order.
pub open spec fn committed_writes(ops: Seq<OpView>) -> Seq<(u64, Seq<u8>)> {
    committed_writes_upto(ops, ops.len() as int)
}

/// The `WriteBlock` records of a list, as (block, payload) pairs, in order.
pub open spec fn write_records(ops: Seq<OpView>) -> Seq<(u64, Seq<u8>)>
    decreases ops.len(),
{
    if ops.len() == 0 {
        Seq::empty()
    } else {
        match ops.last() {
            OpView::WriteBlock(b, data) => write_records(ops.drop_last()).push((b, data)),
            _ => write_records(ops.drop_last()),
        }
    }
}

/// Every `WriteBlock` record carries exactly one block.
pub open spec fn payloads_whole(ops: Seq<OpView>) -> bool {
    forall|i: int|
        0 <= i < ops.len() ==> match #[trigger] ops[i] {
            OpView::WriteBlock(_, data) => data.len() == BLOCK_SIZE,
            _ => true,
        }
}

/// The image last logged for block `b` in a list of records, if any.
pub open spec fn last_logged(ops: Seq<OpView>, b: u64) -> Option<Seq<u8>>
    decreases ops.len(),
{
    if ops.len() == 0 {
        None
    } else {
        match ops.last() {
            OpView::WriteBlock(b2, data) => if b2 == b {
                Some(data)
            } else {
                last_logged(ops.drop_last(), b)
            },
            _ => last_logged(ops.drop_last(), b),
        }
    }
}

/// The disk, as a map from block number to block content, after performing
/// `writes` in order.
pub open spec fn apply_writes(disk: Map<u64, Seq<u8>>, writes: Seq<(u64, Seq<u8>)>) -> Map<u64, Seq<u8>>
    decreases writes.len(),
{
    if writes.len() == 0 {
        disk
    } else {
        apply_writes(disk, writes.drop_last()).insert(writes.last().0, writes.last().1)
    }
}

/// The content that the last of `writes` aimed at block `b` puts there.
pub open spec fn last_write(writes: Seq<(u64, Seq<u8>)>, b: u64) -> Option<Seq<u8>>
    decreases writes.len(),
{
    if writes.len() == 0 {
        None
    } else if writes.last().0 == b {
        Some(writes.last().1)
    } else {
        last_write(writes.drop_last(), b)
    }
}

/// Whether the commit record of transaction `t` comes after record `i`.
fn commit_after(ops: &Vec<JournalOp>, i: usize, t: u64) -> (found: bool)
    requires
        i < ops@.len(),
    ensures
        found == commit_follows(ops_view(ops@), i as int, t),
{
    let ghost v = ops_view(ops@);
    let n = ops.len();
    let mut k: usize = i + 1;
    while k < n
        invariant
            i < k <= ops@.len(),
            n == ops@.len(),
            v == ops_view(ops@),
            forall|j: int| i < j < k ==> #[trigger] v[j] != OpView::TxnCommit(t),
        decreases ops@.len() - k,
    {
        match &ops[k] {
            JournalOp::TxnCommit(id) => {
                if *id == t {
                    assert(v[k as int] == OpView::TxnCommit(t));
                    return true;
                }
            },
            _ => {},
        }
        k = k + 1;
    }
    false
}

/// Plans the block writes of replaying `ops` (see `replay_plan`).
pub fn plan_replay(ops: &Vec<JournalOp>) -> (plan: WritePlan)
    ensures
        plan@ == replay_plan(ops_view(ops@)),
{
    let ghost v = ops_view(ops@);
    let mut writes: Vec<BlockWrite> = Vec::new();
    let mut complete = true;
    let mut current: Option<u64> = None;
    let mut i: usize = 0;
    while i < ops.len()
        invariant
            i <= ops@.len(),
            v == ops_view(ops@),
            (writes@.map_values(|w: BlockWrite| w@), complete) == replay_upto(v, i as int),
            current == txn_of(v, i as int),
        decreases ops@.len() - i,
    {
        let ghost old_writes = writes@;
        assert(v[i as int] == ops@[i as int]@);
        match &ops[i] {
            JournalOp::TxnStart(t) => {
                current = Some(*t);
            },
            JournalOp::WriteBlock(block_num, data) => {
                if complete {
                    match current {
                        Some(t) => {
                            if commit_after(ops, i, t) {
                                if data.len() == BLOCK_SIZE {
                                    let block = block_from_vec(data);
                                    writes.push(BlockWrite { block_num: *block_num, data: block });
                                    assert(writes@.map_values(|w: BlockWrite| w@)
                                        =~= old_writes.map_values(|w: BlockWrite| w@).push(
                                        (*block_num, data@),
                                    ));
                                } else {
                                    complete = false;
                                }
                            }
                        },
                        None => {},
                    }
                }
            },
            _ => {},
        }
        i = i + 1;
    }
    WritePlan { writes, complete }
}

/// Checkpoint and replay apply exactly the block writes of committed
/// transactions, in order, and never stop early, as long as every logged
/// payload is one block (which `log_write_block` guarantees).
pub proof fn lemma_whole_payloads_replay_completely(ops: Seq<OpView>)
    requires
        payloads_whole(ops),
    ensures
        replay_plan(ops) == (committed_writes(ops), true),
{
    lemma_whole_payloads_replay_upto(ops, ops.len() as int);
}

proof fn lemma_whole_payloads_replay_upto(ops: Seq<OpView>, n: int)
    requires
        payloads_whole(ops),
        n <= ops.len(),
    ensures
        replay_upto(ops, n) == (committed_writes_upto(ops, n), true),
    decreases n,
{
    if n > 0 {
        lemma_whole_payloads_replay_upto(ops, n - 1);
        assert(match ops[n - 1] {
            OpView::WriteBlock(_, data) => data.len() == BLOCK_SIZE,
            _ => true,
        });
    }
}

/// Logging keeps the payloads whole: appending a record that is not a
/// `WriteBlock`, or a `WriteBlock` of one block, to a list whose payloads
/// are whole gives a list whose payloads are whole.
pub proof fn lemma_logging_keeps_payloads_whole(ops: Seq<OpView>, op: OpView)
    requires
        payloads_whole(ops),
        match op {
            OpView::WriteBlock(_, data) => data.len() == BLOCK_SIZE,
            _ => true,
        },
    ensures
        payloads_whole(ops.push(op)),
{
    assert forall|i: int| 0 <= i < ops.push(op).len() implies match #[trigger] ops.push(op)[i] {
        OpView::WriteBlock(_, data) => data.len() == BLOCK_SIZE,
        _ => true,
    } by {
        if i < ops.len() {
            assert(ops.push(op)[i] == ops[i]);
        }
    }
}

proof fn lemma_no_commit_no_writes(ops: Seq<OpView>, n: int)
    requires
        n <= ops.len(),
        forall|k: int| 0 <= k < ops.len() ==> !(#[trigger] ops[k] is TxnCommit),
    ensures
        committed_writes_upto(ops, n) == Seq::<(u64, Seq<u8>)>::empty(),
        replay_upto(ops, n).0 == Seq::<(u64, Seq<u8>)>::empty(),
    decreases n,
{
    if n > 0 {
        lemma_no_commit_no_writes(ops, n - 1);
        if write_applies(ops, n - 1) {
            let t = txn_of(ops, n - 1)->0;
            let k = choose|k: int| n - 1 < k < ops.len() && #[trigger] ops[k] == OpView::TxnCommit(t);
            assert(ops[k] is TxnCommit);
        }
    }
}

/// Uncommitted work is never replayed: a list with no commit record gives
/// no block write to checkpoint or replay.
pub proof fn lemma_uncommitted_not_replayed(ops: Seq<OpView>)
    requires
        forall|k: int| 0 <= k < ops.len() ==> !(#[trigger] ops[k] is TxnCommit),
    ensures
        replay_plan(ops).0 == Seq::<(u64, Seq<u8>)>::empty(),
        committed_writes(ops) == Seq::<(u64, Seq<u8>)>::empty(),
{
    lemma_no_commit_no_writes(ops, ops.len() as int);
}

proof fn lemma_txn_of_prefix(s: Seq<OpView>, extra: Seq<OpView>, n: int)
    requires
        0 <= n <= s.len(),
    ensures
        txn_of(s + extra, n) == txn_of(s, n),
    decreases n,
{
    if n > 0 {
        assert((s + extra)[n - 1] == s[n - 1]);
        lemma_txn_of_prefix(s, extra, n - 1);
    }
}

proof fn lemma_txn_of_started(s: Seq<OpView>, n: int)
    requires
        0 <= n <= s.len(),
    ensures
        txn_of(s, n) matches Some(u) ==> exists|k: int| 0 <= k < n && #[trigger] s[k] == OpView::TxnStart(u),
    decreases n,
{
    if n > 0 {
        lemma_txn_of_started(s, n - 1);
    }
}

/// The transaction `pre + [TxnStart(t)] + body + [TxnCommit(t)]`.
pub open spec fn with_txn(pre: Seq<OpView>, t: u64, body: Seq<OpView>) -> Seq<OpView> {
    pre + (seq![OpView::TxnStart(t)] + body + seq![OpView::TxnCommit(t)])
}

proof fn lemma_prefix_writes_unchanged(pre: Seq<OpView>, t: u64, body: Seq<OpView>, n: int)
    requires
        forall|k: int| 0 <= k < pre.len() ==> #[trigger] pre[k] != OpView::TxnStart(t),
        forall|k: int| 0 <= k < body.len() ==> !(#[trigger] body[k] is TxnCommit),
        0 <= n <= pre.len(),
    ensures
        committed_writes_upto(with_txn(pre, t, body), n) == committed_writes_upto(pre, n),
    decreases n,
{
    let ops = with_txn(pre, t, body);
    let mid = seq![OpView::TxnStart(t)] + body + seq![OpView::TxnCommit(t)];
    if n > 0 {
        lemma_prefix_writes_unchanged(pre, t, body, n - 1);
        let i = n - 1;
        assert(ops[i] == pre[i]);
        lemma_txn_of_prefix(pre, mid, i);
        lemma_txn_of_started(pre, i);
        if let Some(u) = txn_of(pre, i) {
            assert(u != t);
            if commit_follows(ops, i, u) {
                let k = choose|k: int| i < k < ops.len() && #[trigger] ops[k] == OpView::TxnCommit(u);
                if k < pre.len() {
                    assert(pre[k] == ops[k]);
                    assert(commit_follows(pre, i, u));
                } else if k == pre.len() {
                    assert(ops[k] == OpView::TxnStart(t));
                } else if k < pre.len() + 1 + body.len() {
                    assert(ops[k] == body[k - pre.len() - 1]);
                    assert(!(body[k - pre.len() - 1] is TxnCommit));
                } else {
                    assert(ops[k] == OpView::TxnCommit(t));
                }
            }
            if commit_follows(pre, i, u) {
                let k = choose|k: int| i < k < pre.len() && #[trigger] pre[k] == OpView::TxnCommit(u);
                assert(ops[k] == pre[k]);
            }
        }
        assert(write_applies(ops, i) == write_applies(pre, i));
    }
}

proof fn lemma_txn_of_in_body(pre: Seq<OpView>, t: u64, body: Seq<OpView>, m: int)
    requires
        forall|k: int| 0 <= k < body.len() ==> !(#[trigger] body[k] is TxnStart),
        0 <= m <= body.len(),
    ensures
        txn_of(with_txn(pre, t, body), pre.len() + 1 + m) == Some(t),
    decreases m,
{
    let ops = with_txn(pre, t, body);
    if m > 0 {
        assert(ops[pre.len() + m] == body[m - 1]);
        assert(!(body[m - 1] is TxnStart));
        lemma_txn_of_in_body(pre, t, body, m - 1);
    } else {
        assert(ops[pre.len() as int] == OpView::TxnStart(t));
    }
}

proof fn lemma_body_writes_committed(pre: Seq<OpView>, t: u64, body: Seq<OpView>, m: int)
    requires
        forall|k: int| 0 <= k < pre.len() ==> #[trigger] pre[k] != OpView::TxnStart(t),
        forall|k: int| 0 <= k < body.len() ==> !(#[trigger] body[k] is TxnStart),
        forall|k: int| 0 <= k < body.len() ==> !(#[trigger] body[k] is TxnCommit),
        0 <= m <= body.len(),
    ensures
        committed_writes_upto(with_txn(pre, t, body), pre.len() + 1 + m) == committed_writes(pre)
            + write_records(body.take(m)),
    decreases m,
{
    let ops = with_txn(pre, t, body);
    let last = ops.len() - 1;
    assert(ops[last] == OpView::TxnCommit(t));
    if m == 0 {
        lemma_prefix_writes_unchanged(pre, t, body, pre.len() as int);
        assert(ops[pre.len() as int] == OpView::TxnStart(t));
        assert(!write_applies(ops, pre.len() as int));
        assert(body.take(0) =~= Seq::<OpView>::empty());
        assert(write_records(body.take(0)) == Seq::<(u64, Seq<u8>)>::empty());
        assert(committed_writes(pre) + write_records(body.take(0)) =~= committed_writes(pre));
    } else {
        lemma_body_writes_committed(pre, t, body, m - 1);
        let i = pre.len() + m;
        assert(ops[i] == body[m - 1]);
        lemma_txn_of_in_body(pre, t, body, m - 1);
        assert(commit_follows(ops, i, t));
        assert(body.take(m).drop_last() =~= body.take(m - 1));
        assert(body.take(m).last() == body[m - 1]);
        assert(write_applies(ops, i) == (body[m - 1] is WriteBlock));
        match body[m - 1] {
            OpView::WriteBlock(b, d) => {
                assert(committed_writes(pre) + write_records(body.take(m - 1)).push((b, d))
                    =~= (committed_writes(pre) + write_records(body.take(m - 1))).push((b, d)));
            },
            _ => {},
        }
    }
}

/// A committed transaction is replayed in full, whatever transactions were
/// given up before it: for records `pre` (opening no transaction `t`), then
/// `TxnStart(t)`, a `body` that opens and commits no transaction, and
/// `TxnCommit(t)`, the checkpoint or replay writes the committed writes of
/// `pre` followed by every block write of `body`, in order, and does not
/// stop early.
pub proof fn lemma_committed_txn_replayed(pre: Seq<OpView>, t: u64, body: Seq<OpView>)
    requires
        forall|k: int| 0 <= k < pre.len() ==> #[trigger] pre[k] != OpView::TxnStart(t),
        forall|k: int| 0 <= k < body.len() ==> !(#[trigger] body[k] is TxnStart),
        forall|k: int| 0 <= k < body.len() ==> !(#[trigger] body[k] is TxnCommit),
        payloads_whole(with_txn(pre, t, body)),
    ensures
        replay_plan(with_txn(pre, t, body)) == (committed_writes(pre) + write_records(body), true),
{
    let ops = with_txn(pre, t, body);
    lemma_body_writes_committed(pre, t, body, body.len() as int);
    assert(body.take(body.len() as int) =~= body);
    let last = ops.len() - 1;
    assert(ops[last] == OpView::TxnCommit(t));
    assert(!write_applies(ops, last));
    assert(committed_writes_upto(ops, last + 1) == committed_writes_upto(ops, last));
    lemma_whole_payloads_replay_completely(ops);
}

/// Performing writes leaves each block with the last content written to it,
/// and every other block as it was.
pub proof fn lemma_apply_writes_at(disk: Map<u64, Seq<u8>>, writes: Seq<(u64, Seq<u8>)>, b: u64)
    ensures
        match last_write(writes, b) {
            Some(data) => apply_writes(disk, writes).contains_key(b) && apply_writes(disk, writes)[b]
                == data,
            None => apply_writes(disk, writes).contains_key(b) == disk.contains_key(b) && apply_writes(
                disk,
                writes,
            )[b] == disk[b],
        },
    decreases writes.len(),
{
    if writes.len() > 0 {
        lemma_apply_writes_at(disk, writes.drop_last(), b);
    }
}

/// Replay is idempotent: performing the same block writes a second time
/// changes nothing, so a crash during checkpoint or recovery followed by a
/// new replay leaves the same disk.
pub proof fn lemma_replay_idempotent(disk: Map<u64, Seq<u8>>, writes: Seq<(u64, Seq<u8>)>)
    ensures
        apply_writes(apply_writes(disk, writes), writes) == apply_writes(disk, writes),
{
    let once = apply_writes(disk, writes);
    let twice = apply_writes(once, writes);
    assert forall|b: u64| #[trigger] twice.contains_key(b) == once.contains_key(b) && (
    once.contains_key(b) ==> twice[b] == once[b]) by {
        lemma_apply_writes_at(disk, writes, b);
        lemma_apply_writes_at(once, writes, b);
    }
    assert(twice =~= once);
}

/// After a checkpoint (or the replay at recovery) of a well-formed list of
/// records, every block holds the image last written to it by a committed
/// transaction, and the other blocks hold what they held before.
pub proof fn lemma_checkpoint_leaves_last_committed_images(
    disk: Map<u64, Seq<u8>>,
    ops: Seq<OpView>,
    b: u64,
)
    requires
        payloads_whole(ops),
    ensures
        replay_plan(ops).1,
        match last_write(committed_writes(ops), b) {
            Some(data) => apply_writes(disk, replay_plan(ops).0).contains_key(b) && apply_writes(
                disk,
                replay_plan(ops).0,
            )[b] == data,
            None => apply_writes(disk, replay_plan(ops).0).contains_key(b) == disk.contains_key(b)
                && apply_writes(disk, replay_plan(ops).0)[b] == disk[b],
        },
{
    lemma_whole_payloads_replay_completely(ops);
    lemma_apply_writes_at(disk, committed_writes(ops), b);
}

} // verus!
