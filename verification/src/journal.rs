use vstd::prelude::*;
use crate::fs_structs::{block_from_vec, block_with_prefix, padded_block, Superblock, BLOCK_SIZE};
use crate::replay::{
    last_logged, lemma_logging_keeps_payloads_whole, lemma_whole_payloads_replay_completely,
    committed_writes, payloads_whole, plan_replay, replay_plan,
};

verus! {

/// One record of the write-ahead log.
#[derive(Clone, Debug)]
pub enum JournalOp {
    TxnStart(u64),
    AllocateInode(u64),
    UpdateParentDir(u64),
    WriteBlock(u64, Vec<u8>),
    TxnCommit(u64),
}

/// The mathematical value of a log record.
pub enum OpView {
    TxnStart(u64),
    AllocateInode(u64),
    UpdateParentDir(u64),
    WriteBlock(u64, Seq<u8>),
    TxnCommit(u64),
}

impl View for JournalOp {
    type V = OpView;

    open spec fn view(&self) -> OpView {
        match self {
            JournalOp::TxnStart(id) => OpView::TxnStart(*id),
            JournalOp::AllocateInode(ino) => OpView::AllocateInode(*ino),
            JournalOp::UpdateParentDir(ino) => OpView::UpdateParentDir(*ino),
            JournalOp::WriteBlock(b, data) => OpView::WriteBlock(*b, data@),
            JournalOp::TxnCommit(id) => OpView::TxnCommit(*id),
        }
    }
}

/// The values of a list of log records.
pub open spec fn ops_view(ops: Seq<JournalOp>) -> Seq<OpView> {
    ops.map_values(|op: JournalOp| op@)
}

/// A whole block to be written at `block_num`.
pub struct BlockWrite {
    pub block_num: u64,
    pub data: [u8; BLOCK_SIZE],
}

impl View for BlockWrite {
    type V = (u64, Seq<u8>);

    open spec fn view(&self) -> (u64, Seq<u8>) {
        (self.block_num, self.data@)
    }
}

/// Block writes to perform in order. When `complete` is false, the file
/// system stops (panics) after performing `writes`.
pub struct WritePlan {
    pub writes: Vec<BlockWrite>,
    pub complete: bool,
}

impl View for WritePlan {
    type V = (Seq<(u64, Seq<u8>)>, bool);

    open spec fn view(&self) -> (Seq<(u64, Seq<u8>)>, bool) {
        (self.writes@.map_values(|w: BlockWrite| w@), self.complete)
    }
}

/// Number of blocks that `len` bytes of encoded log occupy.
pub open spec fn chunk_count(len: int) -> int {
    (len + BLOCK_SIZE - 1) / BLOCK_SIZE as int
}

/// Block `i` of an encoded log: its bytes `i * BLOCK_SIZE ..`, zero-padded.
pub open spec fn chunk(encoded: Seq<u8>, i: int) -> Seq<u8> {
    let lo = i * BLOCK_SIZE;
    let hi = if (i + 1) * BLOCK_SIZE < encoded.len() {
        (i + 1) * BLOCK_SIZE
    } else {
        encoded.len() as int
    };
    padded_block(encoded.subrange(lo, hi))
}

/// Whether the `i`-th block of a commit starting at log offset `offset` lies
/// inside the journal area and its block number fits in 64 bits.
pub open spec fn commit_slot_ok(journal_start: u64, journal_blocks: u64, offset: u64, i: int) -> bool {
    &&& offset + i < journal_blocks
    &&& journal_start + offset + i <= u64::MAX
}

proof fn lemma_chunk_count(len: int, k: int)
    requires
        0 <= len,
        0 <= k,
        len <= k * BLOCK_SIZE,
        k == 0 || (k - 1) * BLOCK_SIZE < len,
    ensures
        chunk_count(len) == k,
{
    assert(chunk_count(len) == k) by (nonlinear_arith)
        requires
            0 <= len,
            0 <= k,
            len <= k * 4096,
            k == 0 || (k - 1) * 4096 < len,
            chunk_count(len) == (len + 4095) / 4096,
    ;
}

proof fn lemma_chunk_count_more(len: int, i: int)
    requires
        0 <= i,
        i * BLOCK_SIZE < len,
    ensures
        i < chunk_count(len),
{
    assert(i < chunk_count(len)) by (nonlinear_arith)
        requires
            0 <= i,
            i * 4096 < len,
            chunk_count(len) == (len + 4095) / 4096,
    ;
}

/// The bytes of a run of blocks, one after the other.
pub open spec fn flatten_blocks(blocks: Seq<Seq<u8>>) -> Seq<u8>
    decreases blocks.len(),
{
    if blocks.len() == 0 {
        Seq::empty()
    } else {
        flatten_blocks(blocks.drop_last()) + blocks.last()
    }
}

/// Reads the journal area back as one byte string: the blocks in order.
pub fn concat_blocks(blocks: &Vec<[u8; BLOCK_SIZE]>) -> (bytes: Vec<u8>)
    ensures
        bytes@ == flatten_blocks(blocks@.map_values(|b: [u8; BLOCK_SIZE]| b@)),
{
    let ghost view = blocks@.map_values(|b: [u8; BLOCK_SIZE]| b@);
    let mut bytes: Vec<u8> = Vec::new();
    let mut i: usize = 0;
    while i < blocks.len()
        invariant
            i <= blocks@.len(),
            view == blocks@.map_values(|b: [u8; BLOCK_SIZE]| b@),
            bytes@ == flatten_blocks(view.take(i as int)),
        decreases blocks@.len() - i,
    {
        let block = &blocks[i];
        let ghost before = bytes@;
        let mut k: usize = 0;
        while k < BLOCK_SIZE
            invariant
                k <= BLOCK_SIZE,
                bytes@ == before + block@.take(k as int),
            decreases BLOCK_SIZE - k,
        {
            bytes.push(block[k]);
            k = k + 1;
            proof {
                assert(bytes@ =~= before + block@.take(k as int));
            }
        }
        proof {
            assert(block@.take(BLOCK_SIZE as int) =~= block@);
            assert(view.take(i + 1).drop_last() =~= view.take(i as int));
            assert(view.take(i + 1).last() == block@);
        }
        i = i + 1;
    }
    proof {
        assert(view.take(blocks@.len() as int) =~= view);
    }
    bytes
}

/// In a run of whole blocks, byte `j` is byte `j % BLOCK_SIZE` of block
/// `j / BLOCK_SIZE`.
pub proof fn lemma_flatten_blocks_index(blocks: Seq<Seq<u8>>)
    requires
        forall|i: int| 0 <= i < blocks.len() ==> #[trigger] blocks[i].len() == BLOCK_SIZE,
    ensures
        flatten_blocks(blocks).len() == blocks.len() * BLOCK_SIZE,
        forall|j: int|
            0 <= j < blocks.len() * BLOCK_SIZE ==> #[trigger] flatten_blocks(blocks)[j] == blocks[j
                / BLOCK_SIZE as int][j % BLOCK_SIZE as int],
    decreases blocks.len(),
{
    if blocks.len() > 0 {
        let init = blocks.drop_last();
        lemma_flatten_blocks_index(init);
        let n = blocks.len() - 1;
        assert forall|j: int|
            0 <= j < blocks.len() * BLOCK_SIZE implies #[trigger] flatten_blocks(blocks)[j]
            == blocks[j / BLOCK_SIZE as int][j % BLOCK_SIZE as int] by {
            if j < n * BLOCK_SIZE {
                assert(init[j / BLOCK_SIZE as int] == blocks[j / BLOCK_SIZE as int]);
            } else {
                assert(j / BLOCK_SIZE as int == n);
            }
        }
    }
}

/// The log survives its trip through the journal area: when a commit wrote
/// all of its blocks, the area read back from the commit's starting offset
/// begins with the encoded records.
pub proof fn lemma_journal_area_holds_commit(
    journal: Journal,
    encoded: Seq<u8>,
    writes: Seq<BlockWrite>,
    area: Seq<Seq<u8>>,
)
    requires
        journal.commit_writes_match(encoded, writes),
        writes.len() == chunk_count(encoded.len() as int),
        forall|i: int| 0 <= i < area.len() ==> #[trigger] area[i].len() == BLOCK_SIZE,
        journal.offset() + writes.len() <= area.len(),
        forall|i: int|
            0 <= i < writes.len() ==> area[journal.offset() + i] == #[trigger] writes[i].data@,
    ensures
        flatten_blocks(area.skip(journal.offset() as int)).take(encoded.len() as int) == encoded,
{
    let o = journal.offset() as int;
    let rest = area.skip(o);
    assert forall|i: int| 0 <= i < rest.len() implies #[trigger] rest[i].len() == BLOCK_SIZE by {
        assert(rest[i] == area[o + i]);
    }
    lemma_flatten_blocks_index(rest);
    let k = writes.len() as int;
    assert(encoded.len() <= k * BLOCK_SIZE) by (nonlinear_arith)
        requires
            k == (encoded.len() + 4095) / 4096,
    ;
    assert(k <= rest.len());
    assert(k * BLOCK_SIZE <= rest.len() * BLOCK_SIZE) by (nonlinear_arith)
        requires
            k <= rest.len(),
    ;
    assert forall|j: int| 0 <= j < encoded.len() implies flatten_blocks(rest)[j] == encoded[j] by {
        let i = j / BLOCK_SIZE as int;
        let r = j % BLOCK_SIZE as int;
        assert(0 <= i < k) by (nonlinear_arith)
            requires
                0 <= j < encoded.len(),
                encoded.len() <= k * 4096,
                i == j / 4096,
        ;
        assert(writes[i]@ == (
            (journal.area_start() + journal.offset() + i) as u64,
            chunk(encoded, i),
        ));
        assert(rest[i] == area[o + i]);
        assert(rest[i] == chunk(encoded, i));
        assert(j == i * BLOCK_SIZE + r);
    }
    assert(flatten_blocks(rest).take(encoded.len() as int) =~= encoded);
}

/// The values of the record lists found in the journal area.
pub open spec fn records_view(records: Seq<Vec<JournalOp>>) -> Seq<Seq<OpView>> {
    records.map_values(|r: Vec<JournalOp>| ops_view(r@))
}

/// What recovery replays from a series of record lists: the replay of each
/// list in turn (see `replay_plan`), stopping at the first that stops early.
pub open spec fn replay_records(records: Seq<Seq<OpView>>) -> (Seq<(u64, Seq<u8>)>, bool)
    decreases records.len(),
{
    if records.len() == 0 {
        (Seq::empty(), true)
    } else {
        let prev = replay_records(records.drop_last());
        if !prev.1 {
            prev
        } else {
            let last = replay_plan(records.last());
            (prev.0 + last.0, last.1)
        }
    }
}

/// Where the scan of the journal area goes after decoding, at area block
/// `at`, a record list of `record_len` records whose encoding takes
/// `encoded_len` bytes: to the block just past that encoding, as long as the
/// list is non-empty (an empty list marks the end of the records) and that
/// block still lies inside the area of `area_blocks` blocks.
pub fn next_record(at: u64, area_blocks: u64, record_len: usize, encoded_len: usize) -> (r: Option<u64>)
    requires
        at < area_blocks,
    ensures
        r == (if record_len > 0 && at + chunk_count(encoded_len as int) < area_blocks {
            Some((at + chunk_count(encoded_len as int)) as u64)
        } else {
            None::<u64>
        }),
{
    if record_len == 0 {
        return None;
    }
    let blocks = encoded_len / BLOCK_SIZE + (if encoded_len % BLOCK_SIZE == 0 { 0 } else { 1 });
    assert(blocks == chunk_count(encoded_len as int)) by (nonlinear_arith)
        requires
            blocks == encoded_len / 4096 + (if encoded_len % 4096 == 0 { 0int } else { 1int }),
            chunk_count(encoded_len as int) == (encoded_len + 4095) / 4096,
            encoded_len >= 0,
    ;
    let room = area_blocks - at;
    if (blocks as u64) < room {
        Some(at + blocks as u64)
    } else {
        None
    }
}

/// A block of zeros.
pub open spec fn zero_block() -> Seq<u8> {
    padded_block(Seq::empty())
}

/// Plan `p` writes zero blocks at `start, start + 1, ...`, `count` of them,
/// stopping (incomplete) at the first block number that does not fit in
/// 64 bits.
pub open spec fn zeroes_blocks(start: u64, count: u64, p: (Seq<(u64, Seq<u8>)>, bool)) -> bool {
    let n = p.0.len();
    &&& n <= count
    &&& forall|i: int|
        0 <= i < n ==> start + i <= u64::MAX && #[trigger] p.0[i] == ((start + i) as u64, zero_block())
    &&& p.1 == (n == count)
    &&& !p.1 ==> start + n > u64::MAX
}

/// Plans zeroing `count` blocks from block `start` on.
pub fn zero_plan(start: u64, count: u64) -> (plan: WritePlan)
    ensures
        zeroes_blocks(start, count, plan@),
{
    let mut writes: Vec<BlockWrite> = Vec::new();
    let mut j: u64 = 0;
    let mut fits = true;
    let zero = block_with_prefix(&[]);
    assert(zero@ == zero_block());
    while j < count && fits
        invariant
            j <= count,
            writes@.len() == j,
            j > 0 ==> start + (j - 1) <= u64::MAX,
            !fits ==> start + j > u64::MAX && j < count,
            zero@ == zero_block(),
            forall|i: int|
                0 <= i < j ==> #[trigger] writes@[i]@ == ((start + i) as u64, zero_block()),
        decreases count - j + (if fits { 1int } else { 0int }),
    {
        match start.checked_add(j) {
            Some(b) => {
                writes.push(BlockWrite { block_num: b, data: zero });
                j = j + 1;
            },
            None => {
                fits = false;
            },
        }
    }
    let plan = WritePlan { writes, complete: fits };
    assert forall|i: int| 0 <= i < plan@.0.len() implies start + i <= u64::MAX && #[trigger] plan@.0[i]
        == ((start + i) as u64, zero_block()) by {
        assert(plan@.0[i] == plan.writes@[i]@);
    }
    plan
}

/// A commit planned by `Journal::commit_plan`: the block writes that put the
/// encoded log into the journal area. Only `Journal::finish_commit` closes it,
/// and only when it is complete and still covers every pending record.
pub struct CommitPlan {
    plan: WritePlan,
    next_offset: u64,
    start_offset: u64,
    records: usize,
}

impl CommitPlan {
    /// The planned block writes.
    pub closed spec fn writes_view(&self) -> Seq<BlockWrite> {
        self.plan.writes@
    }

    /// Whether every block of the encoded log fits the journal area.
    pub closed spec fn is_complete(&self) -> bool {
        self.plan.complete
    }

    /// The log offset just past the planned blocks.
    pub closed spec fn end_offset(&self) -> u64 {
        self.next_offset
    }

    /// The log offset the plan starts at.
    pub closed spec fn begin_offset(&self) -> u64 {
        self.start_offset
    }

    /// How many pending records the encoded log held.
    pub closed spec fn record_count(&self) -> nat {
        self.records as nat
    }

    /// The log offset just past the planned blocks.
    pub fn next_offset(&self) -> (r: u64)
        ensures
            r == self.end_offset(),
    {
        self.next_offset
    }

    /// The block writes to perform.
    pub fn plan(&self) -> (p: &WritePlan)
        ensures
            p.writes@ == self.writes_view(),
            p.complete == self.is_complete(),
    {
        &self.plan
    }
}

/// The write-ahead log: records of the running transactions, not yet
/// applied to their home locations.
///
/// The log enforces the write-ahead order: records are logged, then a
/// commit is planned and, once its blocks are on disk, closed with
/// `finish_commit`; only a committed log can be checkpointed, and
/// `finish_checkpoint` then forgets the records.
pub struct Journal {
    journal_start: u64,
    journal_blocks: u64,
    next_txn_id: u64,
    current_block_offset: u64,
    pending_ops: Vec<JournalOp>,
    committed_ops: usize,
}

impl Journal {
    /// First block of the journal area.
    pub closed spec fn area_start(&self) -> u64 {
        self.journal_start
    }

    /// Number of blocks of the journal area.
    pub closed spec fn area_blocks(&self) -> u64 {
        self.journal_blocks
    }

    /// The id the next transaction gets.
    pub closed spec fn next_id(&self) -> u64 {
        self.next_txn_id
    }

    /// Number of journal-area blocks the last commit used (0 when none since
    /// the last checkpoint).
    pub closed spec fn offset(&self) -> u64 {
        self.current_block_offset
    }

    /// The pending records.
    pub closed spec fn records(&self) -> Seq<JournalOp> {
        self.pending_ops@
    }

    /// How many of the pending records the last finished commit covered.
    pub closed spec fn committed_count(&self) -> nat {
        self.committed_ops as nat
    }

    /// The values of the pending records.
    pub open spec fn pending(&self) -> Seq<OpView> {
        ops_view(self.records())
    }

    /// Every pending record is on disk in the journal area.
    pub open spec fn is_committed(&self) -> bool {
        self.committed_count() == self.pending().len()
    }

    /// Whether every pending record is on disk in the journal area.
    pub fn committed(&self) -> (r: bool)
        ensures
            r == self.is_committed(),
    {
        assert(self.pending().len() == self.pending_ops@.len());
        self.committed_ops == self.pending_ops.len()
    }

    /// Every pending `WriteBlock` record carries exactly one block, and the
    /// commit covers no more records than are pending.
    pub open spec fn well_formed(&self) -> bool {
        &&& payloads_whole(self.pending())
        &&& self.committed_count() <= self.pending().len()
    }

    /// A journal over the superblock's journal area, with no pending record.
    pub open spec fn is_fresh_for(&self, superblock: &Superblock) -> bool {
        &&& self.area_start() == superblock.journal_start
        &&& self.area_blocks() == superblock.journal_blocks
        &&& self.next_id() == 1
        &&& self.offset() == 0
        &&& self.pending().len() == 0
        &&& self.committed_count() == 0
    }

    /// All fields but the pending records are unchanged.
    pub open spec fn same_header(&self, other: &Journal) -> bool {
        &&& self.area_start() == other.area_start()
        &&& self.area_blocks() == other.area_blocks()
        &&& self.next_id() == other.next_id()
        &&& self.offset() == other.offset()
        &&& self.committed_count() == other.committed_count()
    }

    pub fn new(superblock: &Superblock) -> (journal: Self)
        ensures
            journal.is_fresh_for(superblock),
            journal.well_formed(),
    {
        let j = Journal {
            journal_start: superblock.journal_start,
            journal_blocks: superblock.journal_blocks,
            next_txn_id: 1,
            current_block_offset: 0,
            pending_ops: Vec::new(),
            committed_ops: 0,
        };
        assert(j.pending() =~= Seq::<OpView>::empty());
        j
    }

    pub fn journal_start(&self) -> (r: u64)
        ensures
            r == self.area_start(),
    {
        self.journal_start
    }

    pub fn journal_blocks(&self) -> (r: u64)
        ensures
            r == self.area_blocks(),
    {
        self.journal_blocks
    }

    pub fn next_txn_id(&self) -> (r: u64)
        ensures
            r == self.next_id(),
    {
        self.next_txn_id
    }

    pub fn current_block_offset(&self) -> (r: u64)
        ensures
            r == self.offset(),
    {
        self.current_block_offset
    }

    /// The pending records.
    pub fn pending_ops(&self) -> (r: &Vec<JournalOp>)
        ensures
            r@ == self.records(),
    {
        &self.pending_ops
    }

    /// Opens a transaction: logs its start record and returns its id.
    pub fn start_txn(&mut self) -> (txn_id: u64)
        requires
            old(self).next_id() < u64::MAX,
        ensures
            txn_id == old(self).next_id(),
            final(self).next_id() == old(self).next_id() + 1,
            final(self).area_start() == old(self).area_start(),
            final(self).area_blocks() == old(self).area_blocks(),
            final(self).offset() == old(self).offset(),
            final(self).committed_count() == old(self).committed_count(),
            final(self).pending() == old(self).pending().push(OpView::TxnStart(txn_id)),
            old(self).well_formed() ==> final(self).well_formed(),
    {
        let txn_id = self.next_txn_id;
        self.next_txn_id = self.next_txn_id + 1;
        self.pending_ops.push(JournalOp::TxnStart(txn_id));
        proof {
            assert(self.pending() =~= old(self).pending().push(OpView::TxnStart(txn_id)));
            if old(self).well_formed() {
                lemma_logging_keeps_payloads_whole(old(self).pending(), OpView::TxnStart(txn_id));
            }
        }
        txn_id
    }

    pub fn log_alloc_inode(&mut self, ino: u64)
        ensures
            final(self).same_header(old(self)),
            final(self).pending() == old(self).pending().push(OpView::AllocateInode(ino)),
            old(self).well_formed() ==> final(self).well_formed(),
    {
        self.pending_ops.push(JournalOp::AllocateInode(ino));
        proof {
            assert(self.pending() =~= old(self).pending().push(OpView::AllocateInode(ino)));
            if old(self).well_formed() {
                lemma_logging_keeps_payloads_whole(old(self).pending(), OpView::AllocateInode(ino));
            }
        }
    }

    pub fn log_update_parent_dir(&mut self, parent_ino: u64)
        ensures
            final(self).same_header(old(self)),
            final(self).pending() == old(self).pending().push(OpView::UpdateParentDir(parent_ino)),
            old(self).well_formed() ==> final(self).well_formed(),
    {
        self.pending_ops.push(JournalOp::UpdateParentDir(parent_ino));
        proof {
            assert(self.pending() =~= old(self).pending().push(
                OpView::UpdateParentDir(parent_ino),
            ));
            if old(self).well_formed() {
                lemma_logging_keeps_payloads_whole(
                    old(self).pending(),
                    OpView::UpdateParentDir(parent_ino),
                );
            }
        }
    }

    /// Logs that `data` is to be written to block `block_num`.
    pub fn log_write_block(&mut self, block_num: u64, data: &[u8; BLOCK_SIZE])
        ensures
            final(self).same_header(old(self)),
            final(self).pending() == old(self).pending().push(OpView::WriteBlock(block_num, data@)),
            old(self).well_formed() ==> final(self).well_formed(),
    {
        let mut bytes: Vec<u8> = Vec::with_capacity(BLOCK_SIZE);
        let mut i: usize = 0;
        while i < BLOCK_SIZE
            invariant
                i <= BLOCK_SIZE,
                bytes@ == data@.take(i as int),
            decreases BLOCK_SIZE - i,
        {
            bytes.push(data[i]);
            i = i + 1;
            proof {
                assert(bytes@ =~= data@.take(i as int));
            }
        }
        proof {
            assert(data@.take(BLOCK_SIZE as int) =~= data@);
        }
        self.pending_ops.push(JournalOp::WriteBlock(block_num, bytes));
        proof {
            assert(self.pending() =~= old(self).pending().push(
                OpView::WriteBlock(block_num, data@),
            ));
            if old(self).well_formed() {
                lemma_logging_keeps_payloads_whole(
                    old(self).pending(),
                    OpView::WriteBlock(block_num, data@),
                );
            }
        }
    }

    /// Closes a transaction: logs its commit record.
    pub fn commit_txn(&mut self, txn_id: u64)
        ensures
            final(self).same_header(old(self)),
            final(self).pending() == old(self).pending().push(OpView::TxnCommit(txn_id)),
            old(self).well_formed() ==> final(self).well_formed(),
    {
        self.pending_ops.push(JournalOp::TxnCommit(txn_id));
        proof {
            assert(self.pending() =~= old(self).pending().push(OpView::TxnCommit(txn_id)));
            if old(self).well_formed() {
                lemma_logging_keeps_payloads_whole(old(self).pending(), OpView::TxnCommit(txn_id));
            }
        }
    }

    /// The image last logged for block `block_num`, if there is one and it
    /// is one whole block: what that block will hold once the pending records
    /// are applied.
    pub fn latest_image(&self, block_num: u64) -> (r: Option<[u8; BLOCK_SIZE]>)
        ensures
            match last_logged(self.pending(), block_num) {
                Some(data) => if data.len() == BLOCK_SIZE {
                    r matches Some(img) && img@ == data
                } else {
                    r is None
                },
                None => r is None,
            },
    {
        let ghost v = self.pending();
        let mut i: usize = self.pending_ops.len();
        assert(v.take(i as int) =~= v);
        while i > 0
            invariant
                i <= v.len(),
                v == self.pending(),
                last_logged(v, block_num) == last_logged(v.take(i as int), block_num),
            decreases i,
        {
            let ghost prefix = v.take(i as int);
            assert(prefix.drop_last() =~= v.take(i - 1));
            assert(prefix.last() == v[i - 1]);
            assert(v[i - 1] == self.pending_ops@[i - 1]@);
            match &self.pending_ops[i - 1] {
                JournalOp::WriteBlock(b, data) => {
                    if *b == block_num {
                        if data.len() == BLOCK_SIZE {
                            return Some(block_from_vec(data));
                        } else {
                            return None;
                        }
                    }
                },
                _ => {},
            }
            i = i - 1;
        }
        assert(v.take(0) =~= Seq::<OpView>::empty());
        None
    }

    /// Each planned write `i` is block `i` of `encoded`, put at log offset
    /// `offset() + i` inside the journal area.
    pub open spec fn commit_writes_match(&self, encoded: Seq<u8>, writes: Seq<BlockWrite>) -> bool {
        forall|i: int|
            0 <= i < writes.len() ==> commit_slot_ok(
                self.area_start(),
                self.area_blocks(),
                self.offset(),
                i,
            ) && #[trigger] writes[i]@ == (
                (self.area_start() + self.offset() + i) as u64,
                chunk(encoded, i),
            )
    }

    /// Plans writing `encoded` (the encoded pending records) into the journal
    /// area, one block at a time from the current log offset, after the
    /// records of earlier commits not yet checkpointed. The plan stops,
    /// incomplete, at the first block that would fall outside the area.
    pub fn commit_plan(&self, encoded: &[u8]) -> (res: CommitPlan)
        ensures
            res.writes_view().len() <= chunk_count(encoded@.len() as int),
            self.commit_writes_match(encoded@, res.writes_view()),
            res.is_complete() == (res.writes_view().len() == chunk_count(encoded@.len() as int)),
            !res.is_complete() ==> !commit_slot_ok(
                self.area_start(),
                self.area_blocks(),
                self.offset(),
                res.writes_view().len() as int,
            ),
            res.end_offset() == self.offset() + res.writes_view().len(),
            res.begin_offset() == self.offset(),
            res.record_count() == self.pending().len(),
    {
        let records = self.pending_ops.len();
        assert(self.pending().len() == records);
        let mut writes: Vec<BlockWrite> = Vec::new();
        let mut offset: usize = 0;
        let mut j_block: u64 = self.current_block_offset;
        while offset < encoded.len()
            invariant
                offset == (if writes@.len() * BLOCK_SIZE < encoded@.len() {
                    writes@.len() * BLOCK_SIZE
                } else {
                    encoded@.len() as int
                }),
                writes@.len() > 0 ==> (writes@.len() - 1) * BLOCK_SIZE < encoded@.len(),
                j_block == self.current_block_offset + writes@.len(),
                records == self.pending().len(),
                self.commit_writes_match(encoded@, writes@),
            decreases encoded@.len() - offset,
        {
            let remaining = encoded.len() - offset;
            let chunk_size = if remaining < BLOCK_SIZE {
                remaining
            } else {
                BLOCK_SIZE
            };
            let block = block_with_prefix(&encoded[offset..offset + chunk_size]);
            let ghost i = writes@.len() as int;
            if j_block >= self.journal_blocks {
                proof {
                    lemma_chunk_count_more(encoded@.len() as int, i);
                }
                return CommitPlan {
                    plan: WritePlan { writes, complete: false },
                    next_offset: j_block,
                    start_offset: self.current_block_offset,
                    records,
                };
            }
            let block_num = match self.journal_start.checked_add(j_block) {
                Some(b) => b,
                None => {
                    proof {
                        lemma_chunk_count_more(encoded@.len() as int, i);
                    }
                    return CommitPlan {
                        plan: WritePlan { writes, complete: false },
                        next_offset: j_block,
                        start_offset: self.current_block_offset,
                        records,
                    };
                },
            };
            assert(block@ == chunk(encoded@, i));
            writes.push(BlockWrite { block_num, data: block });
            offset = offset + chunk_size;
            j_block = j_block + 1;
        }
        proof {
            lemma_chunk_count(encoded@.len() as int, writes@.len() as int);
        }
        CommitPlan {
            plan: WritePlan { writes, complete: true },
            next_offset: j_block,
            start_offset: self.current_block_offset,
            records,
        }
    }

    /// Once the blocks of a complete commit plan, made for exactly the
    /// pending records, are on disk and synced: marks the pending records
    /// committed and moves the log offset past the blocks.
    pub fn finish_commit(&mut self, commit: &CommitPlan)
        requires
            commit.is_complete(),
            commit.record_count() == old(self).pending().len(),
            commit.begin_offset() == old(self).offset(),
        ensures
            final(self).offset() == commit.end_offset(),
            final(self).is_committed(),
            final(self).area_start() == old(self).area_start(),
            final(self).area_blocks() == old(self).area_blocks(),
            final(self).next_id() == old(self).next_id(),
            final(self).pending() == old(self).pending(),
            old(self).well_formed() ==> final(self).well_formed(),
    {
        self.current_block_offset = commit.next_offset;
        self.committed_ops = commit.records;
    }

    /// The block writes that apply the committed records to their home
    /// locations (see `replay_plan`). Only a committed log is checkpointed.
    pub fn checkpoint_plan(&self) -> (plan: WritePlan)
        requires
            self.is_committed(),
        ensures
            plan@ == replay_plan(self.pending()),
            self.well_formed() ==> plan.complete && plan@.0 == committed_writes(self.pending()),
    {
        proof {
            if self.well_formed() {
                lemma_whole_payloads_replay_completely(self.pending());
            }
        }
        plan_replay(&self.pending_ops)
    }

    /// The block writes that clear the journal area after a checkpoint: zero
    /// blocks over every block the last commit used, so that the area no
    /// longer holds the checkpointed records.
    pub fn clear_plan(&self) -> (plan: WritePlan)
        requires
            self.is_committed(),
        ensures
            zeroes_blocks(self.area_start(), self.offset(), plan@),
    {
        zero_plan(self.journal_start, self.current_block_offset)
    }

    /// Once the checkpoint writes and the clearing of the area are on disk:
    /// forgets the pending records and rewinds the log to the start of its
    /// area.
    pub fn finish_checkpoint(&mut self)
        requires
            old(self).is_committed(),
        ensures
            final(self).pending().len() == 0,
            final(self).committed_count() == 0,
            final(self).well_formed(),
            final(self).offset() == 0,
            final(self).area_start() == old(self).area_start(),
            final(self).area_blocks() == old(self).area_blocks(),
            final(self).next_id() == old(self).next_id(),
    {
        self.pending_ops.clear();
        self.current_block_offset = 0;
        self.committed_ops = 0;
        assert(self.pending() =~= Seq::<OpView>::empty());
    }

    /// Recovery at mount. `records` are the record lists that the journal
    /// area decodes to, one per commit not yet checkpointed, in the order
    /// they lie in the area (see `next_record`). Returns a fresh journal and,
    /// when some record is non-empty, two plans to perform in turn (syncing
    /// after each): the replay of the committed transactions of every record,
    /// record after record, then the zeroing of the whole journal area.
    pub fn recover(superblock: &Superblock, records: Vec<Vec<JournalOp>>) -> (res: (
        Journal,
        Option<(WritePlan, WritePlan)>,
    ))
        ensures
            res.0.is_fresh_for(superblock),
            res.0.well_formed(),
            (exists|i: int| 0 <= i < records@.len() && #[trigger] records@[i]@.len() > 0) ==> (
            res.1 matches Some((replay, clear)) && replay@ == replay_records(records_view(records@))
                && zeroes_blocks(superblock.journal_start, superblock.journal_blocks, clear@)),
            !(exists|i: int| 0 <= i < records@.len() && #[trigger] records@[i]@.len() > 0)
                ==> res.1 is None,
    {
        let journal = Journal::new(superblock);
        let ghost rv = records_view(records@);
        let mut writes: Vec<BlockWrite> = Vec::new();
        let mut complete = true;
        let mut any = false;
        let mut i: usize = 0;
        while i < records.len()
            invariant
                i <= records@.len(),
                rv == records_view(records@),
                (writes@.map_values(|w: BlockWrite| w@), complete) == replay_records(rv.take(i as int)),
                any == (exists|k: int| 0 <= k < i && #[trigger] records@[k]@.len() > 0),
            decreases records@.len() - i,
        {
            let ghost before = writes@.map_values(|w: BlockWrite| w@);
            proof {
                assert(rv.take(i + 1).drop_last() =~= rv.take(i as int));
                assert(rv.take(i + 1).last() == ops_view(records@[i as int]@));
            }
            if records[i].len() > 0 {
                any = true;
            }
            if complete {
                let mut plan = plan_replay(&records[i]);
                let ghost added = plan@.0;
                let ghost old_writes = writes@;
                writes.append(&mut plan.writes);
                complete = plan.complete;
                proof {
                    assert(writes@.map_values(|w: BlockWrite| w@) =~= before + added);
                }
            }
            i = i + 1;
        }
        proof {
            assert(rv.take(records@.len() as int) =~= rv);
        }
        if any {
            let replay = WritePlan { writes, complete };
            let clear = zero_plan(superblock.journal_start, superblock.journal_blocks);
            (journal, Some((replay, clear)))
        } else {
            (journal, None)
        }
    }
}

/// The block writes of committed transactions of each record list, one list
/// after the other.
pub open spec fn committed_writes_of_records(records: Seq<Seq<OpView>>) -> Seq<(u64, Seq<u8>)>
    decreases records.len(),
{
    if records.len() == 0 {
        Seq::empty()
    } else {
        committed_writes_of_records(records.drop_last()) + committed_writes(records.last())
    }
}

/// Recovery replays every committed transaction not yet checkpointed: when
/// the journal area holds the records of several commits, all of whose
/// logged images are one block, recovery applies the block writes of the
/// committed transactions of every record, record after record, and never
/// stops early.
pub proof fn lemma_recovery_replays_every_commit(records: Seq<Seq<OpView>>)
    requires
        forall|i: int| 0 <= i < records.len() ==> payloads_whole(#[trigger] records[i]),
    ensures
        replay_records(records) == (committed_writes_of_records(records), true),
    decreases records.len(),
{
    if records.len() > 0 {
        let init = records.drop_last();
        assert forall|i: int| 0 <= i < init.len() implies payloads_whole(#[trigger] init[i]) by {
            assert(init[i] == records[i]);
        }
        lemma_recovery_replays_every_commit(init);
        assert(records.last() == records[records.len() - 1]);
        lemma_whole_payloads_replay_completely(records.last());
    }
}

} // verus!
