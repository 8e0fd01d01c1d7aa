use vstd::prelude::*;
use std::collections::HashMap;
use crate::bits::{bit_set, bitmap_bits, lemma_byte_clear_bit, lemma_byte_set_bit, lemma_full_byte};
use crate::fs_structs::{
    block_with_prefix, padded_block, FileType, Inode, Superblock, BLOCK_SIZE, INODES_PER_BLOCK,
    INODE_SLOT_SIZE,
};
use crate::journal::{BlockWrite, Journal, OpView, WritePlan};
use crate::replay::last_logged;

verus! {

broadcast use vstd::std_specs::hash::group_hash_axioms;

/// Bitmaps and inode cache of a mounted file system.
pub struct Manager {
    pub superblock: Superblock,
    inode_cache: HashMap<u64, Inode>,
    block_bitmap: [u8; BLOCK_SIZE],
    inode_bitmap: [u8; BLOCK_SIZE],
}

/// Bitmap `before` with bit `index` set (the byte holding it is
/// or-ed with the bit's mask).
pub open spec fn bitmap_with_bit_set(before: Seq<u8>, index: int) -> Seq<u8> {
    before.update(index / 8, before[index / 8] | (1u8 << ((index % 8) as u8)))
}

/// Bitmap `before` with bit `index` cleared.
pub open spec fn bitmap_with_bit_cleared(before: Seq<u8>, index: int) -> Seq<u8> {
    before.update(index / 8, before[index / 8] & !(1u8 << ((index % 8) as u8)))
}

/// How many inode numbers the inode table holds, and so the bound (exclusive)
/// of the numbers the allocator hands out: one per inode slot.
pub open spec fn inode_search_limit(superblock: Superblock) -> int {
    superblock.inode_table_blocks * INODES_PER_BLOCK
}

/// Whether some inode number in `1 .. limit` is free in the inode bitmap.
pub open spec fn free_inode_below(bits: Seq<u8>, limit: int) -> bool {
    exists|j: int| 1 <= j < limit && j < bitmap_bits() && !#[trigger] bit_set(bits, j)
}

/// The inode-table block that holds inode `ino`.
pub open spec fn inode_block(superblock: Superblock, ino: u64) -> int {
    superblock.inode_table_start + ino / INODES_PER_BLOCK
}

/// Byte offset of inode `ino`'s slot inside its inode-table block.
pub open spec fn inode_offset(ino: u64) -> int {
    (ino % INODES_PER_BLOCK) * INODE_SLOT_SIZE
}

/// `block` with `bytes` copied in at `start`.
pub open spec fn splice(block: Seq<u8>, start: int, bytes: Seq<u8>) -> Seq<u8> {
    block.subrange(0, start) + bytes + block.subrange(start + bytes.len(), block.len() as int)
}

/// A copy of `base` with `bytes` copied in at `start`.
pub fn splice_block(base: &[u8; BLOCK_SIZE], start: usize, bytes: &[u8]) -> (block: [u8; BLOCK_SIZE])
    requires
        start + bytes@.len() <= BLOCK_SIZE,
    ensures
        block@ == splice(base@, start as int, bytes@),
        forall|j: int|
            0 <= j < BLOCK_SIZE && !(start <= j < start + bytes@.len()) ==> #[trigger] block@[j]
                == base@[j],
        forall|j: int| 0 <= j < bytes@.len() ==> #[trigger] block@[start + j] == bytes@[j],
{
    let mut block = *base;
    let mut k: usize = 0;
    while k < bytes.len()
        invariant
            start + bytes@.len() <= BLOCK_SIZE,
            k <= bytes@.len(),
            block@.len() == BLOCK_SIZE,
            forall|j: int| 0 <= j < start ==> #[trigger] block@[j] == base@[j],
            forall|j: int| start <= j < start + k ==> #[trigger] block@[j] == bytes@[j - start],
            forall|j: int| start + k <= j < BLOCK_SIZE ==> #[trigger] block@[j] == base@[j],
        decreases bytes@.len() - k,
    {
        block[start + k] = bytes[k];
        k = k + 1;
    }
    assert(block@ =~= splice(base@, start as int, bytes@));
    block
}

impl Manager {
    /// The superblock the manager works with.
    pub closed spec fn layout(&self) -> Superblock {
        self.superblock
    }

    /// Every cached inode is filed under its own number, and both bitmaps
    /// are one block long.
    pub open spec fn well_formed(&self) -> bool {
        &&& cache_keys_match(self.cache())
        &&& self.block_bits().len() == BLOCK_SIZE
        &&& self.inode_bits().len() == BLOCK_SIZE
    }

    /// The cached inodes, by number.
    pub closed spec fn cache(&self) -> Map<u64, Inode> {
        self.inode_cache@
    }

    /// The in-memory block bitmap.
    pub closed spec fn block_bits(&self) -> Seq<u8> {
        self.block_bitmap@
    }

    /// The in-memory inode bitmap.
    pub closed spec fn inode_bits(&self) -> Seq<u8> {
        self.inode_bitmap@
    }

    /// A manager over the given superblock and the two bitmap blocks read
    /// from disk, with an empty inode cache.
    pub fn new(superblock: Superblock, block_bitmap: [u8; BLOCK_SIZE], inode_bitmap: [u8; BLOCK_SIZE]) -> (m: Self)
        ensures
            m.well_formed(),
            m.layout() == superblock,
            m.cache() == Map::<u64, Inode>::empty(),
            m.block_bits() == block_bitmap@,
            m.inode_bits() == inode_bitmap@,
    {
        Manager { superblock, inode_cache: HashMap::new(), block_bitmap, inode_bitmap }
    }

    /// Sets bit `index` of a bitmap.
    pub fn set_bit(bitmap: &mut [u8; BLOCK_SIZE], index: usize)
        requires
            index < bitmap_bits(),
        ensures
            final(bitmap)@ == bitmap_with_bit_set(old(bitmap)@, index as int),
            bit_set(final(bitmap)@, index as int),
            forall|j: int|
                0 <= j < bitmap_bits() && j != index ==> #[trigger] bit_set(final(bitmap)@, j)
                    == bit_set(old(bitmap)@, j),
    {
        let byte_idx = index / 8;
        let bit_idx = index % 8;
        let b = bitmap[byte_idx] | (1u8 << (bit_idx as u8));
        bitmap[byte_idx] = b;
        proof {
            assert(bitmap@ =~= bitmap_with_bit_set(old(bitmap)@, index as int));
            lemma_byte_set_bit(old(bitmap)@[byte_idx as int], bit_idx as u8, 0);
            assert forall|j: int| 0 <= j < bitmap_bits() && j != index implies #[trigger] bit_set(
                bitmap@,
                j,
            ) == bit_set(old(bitmap)@, j) by {
                if j / 8 == byte_idx {
                    lemma_byte_set_bit(old(bitmap)@[byte_idx as int], bit_idx as u8, (j % 8) as u8);
                }
            }
        }
    }

    /// Clears bit `index` of a bitmap.
    pub fn clear_bit(bitmap: &mut [u8; BLOCK_SIZE], index: usize)
        requires
            index < bitmap_bits(),
        ensures
            final(bitmap)@ == bitmap_with_bit_cleared(old(bitmap)@, index as int),
            !bit_set(final(bitmap)@, index as int),
            forall|j: int|
                0 <= j < bitmap_bits() && j != index ==> #[trigger] bit_set(final(bitmap)@, j)
                    == bit_set(old(bitmap)@, j),
    {
        let byte_idx = index / 8;
        let bit_idx = index % 8;
        let b = bitmap[byte_idx] & !(1u8 << (bit_idx as u8));
        bitmap[byte_idx] = b;
        proof {
            assert(bitmap@ =~= bitmap_with_bit_cleared(old(bitmap)@, index as int));
            lemma_byte_clear_bit(old(bitmap)@[byte_idx as int], bit_idx as u8, 0);
            assert forall|j: int| 0 <= j < bitmap_bits() && j != index implies #[trigger] bit_set(
                bitmap@,
                j,
            ) == bit_set(old(bitmap)@, j) by {
                if j / 8 == byte_idx {
                    lemma_byte_clear_bit(
                        old(bitmap)@[byte_idx as int],
                        bit_idx as u8,
                        (j % 8) as u8,
                    );
                }
            }
        }
    }

    /// The lowest clear bit of a bitmap, if any.
    pub fn find_free_bit(bitmap: &[u8; BLOCK_SIZE]) -> (r: Option<usize>)
        ensures
            match r {
                Some(i) => {
                    &&& i < bitmap_bits()
                    &&& !bit_set(bitmap@, i as int)
                    &&& forall|j: int| 0 <= j < i ==> #[trigger] bit_set(bitmap@, j)
                },
                None => forall|j: int| 0 <= j < bitmap_bits() ==> #[trigger] bit_set(bitmap@, j),
            },
    {
        let mut byte_idx: usize = 0;
        while byte_idx < BLOCK_SIZE
            invariant
                byte_idx <= BLOCK_SIZE,
                forall|j: int| 0 <= j < byte_idx * 8 ==> #[trigger] bit_set(bitmap@, j),
            decreases BLOCK_SIZE - byte_idx,
        {
            let byte = bitmap[byte_idx];
            if byte != 0xFFu8 {
                let mut bit_idx: usize = 0;
                while bit_idx < 8
                    invariant
                        byte_idx < BLOCK_SIZE,
                        byte == bitmap@[byte_idx as int],
                        bit_idx <= 8,
                        forall|j: int| 0 <= j < byte_idx * 8 ==> #[trigger] bit_set(bitmap@, j),
                        forall|j: int|
                            byte_idx * 8 <= j < byte_idx * 8 + bit_idx ==> #[trigger] bit_set(
                                bitmap@,
                                j,
                            ),
                    decreases 8 - bit_idx,
                {
                    if (byte & (1u8 << (bit_idx as u8))) == 0u8 {
                        let i = byte_idx * 8 + bit_idx;
                        assert(i / 8 == byte_idx && i % 8 == bit_idx);
                        return Some(i);
                    }
                    let ghost i = byte_idx * 8 + bit_idx;
                    assert(i / 8 == byte_idx && i % 8 == bit_idx);
                    bit_idx = bit_idx + 1;
                }
            } else {
                assert forall|j: int| byte_idx * 8 <= j < byte_idx * 8 + 8 implies #[trigger] bit_set(
                    bitmap@,
                    j,
                ) by {
                    assert(j / 8 == byte_idx);
                    lemma_full_byte(byte, (j % 8) as u8);
                }
            }
            byte_idx = byte_idx + 1;
        }
        None
    }

    /// Allocates the lowest free block of the data area (from `data_start`
    /// up to `total_blocks` and the end of the bitmap): marks it used and
    /// logs the new block bitmap.
    pub fn alloc_block(&mut self, journal: &mut Journal) -> (r: Option<u64>)
        ensures
            final(self).layout() == old(self).layout(),
            final(self).cache() == old(self).cache(),
            final(self).inode_bits() == old(self).inode_bits(),
            old(self).well_formed() ==> final(self).well_formed(),
            match r {
                Some(b) => {
                    &&& old(self).layout().data_start <= b < old(self).layout().total_blocks
                    &&& b < bitmap_bits()
                    &&& !bit_set(old(self).block_bits(), b as int)
                    &&& forall|j: int|
                        old(self).layout().data_start <= j < b ==> #[trigger] bit_set(
                            old(self).block_bits(),
                            j,
                        )
                    &&& final(self).block_bits() == bitmap_with_bit_set(old(self).block_bits(), b as int)
                    &&& final(journal).same_header(old(journal))
                    &&& final(journal).pending() == old(journal).pending().push(
                        OpView::WriteBlock(old(self).layout().bitmap_start, final(self).block_bits()),
                    )
                },
                None => {
                    &&& forall|j: int|
                        old(self).layout().data_start <= j < old(self).layout().total_blocks && j
                            < bitmap_bits() ==> #[trigger] bit_set(old(self).block_bits(), j)
                    &&& final(self).block_bits() == old(self).block_bits()
                    &&& *final(journal) == *old(journal)
                },
            },
    {
        let mut b: u64 = self.superblock.data_start;
        while b < self.superblock.total_blocks && b < 8 * BLOCK_SIZE as u64
            invariant
                *self == *old(self),
                *journal == *old(journal),
                self.superblock.data_start <= b,
                forall|j: int|
                    self.superblock.data_start <= j < b ==> #[trigger] bit_set(self.block_bitmap@, j),
            decreases 8 * BLOCK_SIZE as u64 - b,
        {
            let i = b as usize;
            if (self.block_bitmap[i / 8] & (1u8 << ((i % 8) as u8))) == 0u8 {
                Self::set_bit(&mut self.block_bitmap, i);
                journal.log_write_block(self.superblock.bitmap_start, &self.block_bitmap);
                return Some(b);
            }
            b = b + 1;
        }
        None
    }

    /// Marks block `block_num` free and logs the new block bitmap.
    pub fn free_block(&mut self, journal: &mut Journal, block_num: u64)
        requires
            block_num < bitmap_bits(),
        ensures
            final(self).layout() == old(self).layout(),
            final(self).cache() == old(self).cache(),
            final(self).inode_bits() == old(self).inode_bits(),
            final(self).block_bits() == bitmap_with_bit_cleared(old(self).block_bits(), block_num as int),
            final(journal).same_header(old(journal)),
            final(journal).pending() == old(journal).pending().push(
                OpView::WriteBlock(old(self).layout().bitmap_start, final(self).block_bits()),
            ),
            old(self).well_formed() ==> final(self).well_formed(),
    {
        Self::clear_bit(&mut self.block_bitmap, block_num as usize);
        journal.log_write_block(self.superblock.bitmap_start, &self.block_bitmap);
    }

    /// Whether `alloc_inode` can run on the current state: its scan bound fits
    /// in 64 bits, the scan stays inside the bitmap block, and the number of
    /// the inode-bitmap block fits when a free inode is found.
    pub fn inode_scan_in_bounds(&self) -> (ok: bool)
        ensures
            ok == {
                &&& inode_search_limit(self.layout()) <= u64::MAX
                &&& inode_search_limit(self.layout()) <= bitmap_bits() || free_inode_below(
                    self.inode_bits(),
                    bitmap_bits(),
                )
                &&& free_inode_below(self.inode_bits(), inode_search_limit(self.layout()))
                    ==> self.layout().bitmap_start < u64::MAX
            },
    {
        let limit = match self.superblock.inode_table_blocks.checked_mul(INODES_PER_BLOCK) {
            Some(l) => l,
            None => return false,
        };
        // lowest free inode number in 1 .. bitmap end
        let mut j: usize = 1;
        let mut found = false;
        while j < 8 * BLOCK_SIZE && !found
            invariant
                1 <= j <= bitmap_bits(),
                found ==> j < bitmap_bits() && !bit_set(self.inode_bitmap@, j as int),
                forall|k: int| 1 <= k < j ==> #[trigger] bit_set(self.inode_bitmap@, k),
            decreases 8 * BLOCK_SIZE - j + (if found { 0int } else { 1int }),
        {
            if (self.inode_bitmap[j / 8] & (1u8 << ((j % 8) as u8))) == 0u8 {
                found = true;
            } else {
                j = j + 1;
            }
        }
        proof {
            if free_inode_below(self.inode_bitmap@, bitmap_bits()) {
                let k = choose|k: int|
                    1 <= k < bitmap_bits() && k < bitmap_bits() && !#[trigger] bit_set(
                        self.inode_bitmap@,
                        k,
                    );
                assert(k >= j);
            }
            if free_inode_below(self.inode_bitmap@, limit as int) {
                let k = choose|k: int|
                    1 <= k < limit && k < bitmap_bits() && !#[trigger] bit_set(self.inode_bitmap@, k);
                assert(k >= j);
            }
        }
        if !(limit <= 8 * BLOCK_SIZE as u64 || found) {
            return false;
        }
        if found && (j as u64) < limit && self.superblock.bitmap_start == u64::MAX {
            return false;
        }
        true
    }

    /// Allocates the lowest free inode number from 1 up to the search limit:
    /// marks it used, logs the new inode bitmap and the allocation, and caches
    /// a fresh inode of the given type under that number. The caller then
    /// writes the inode to the inode table (`write_inode`).
    pub fn alloc_inode(&mut self, journal: &mut Journal, file_type: FileType) -> (r: Option<Inode>)
        requires
            inode_search_limit(old(self).layout()) <= u64::MAX,
            inode_search_limit(old(self).layout()) <= bitmap_bits() || free_inode_below(
                old(self).inode_bits(),
                bitmap_bits(),
            ),
            free_inode_below(old(self).inode_bits(), inode_search_limit(old(self).layout()))
                ==> old(self).layout().bitmap_start < u64::MAX,
        ensures
            final(self).layout() == old(self).layout(),
            final(self).block_bits() == old(self).block_bits(),
            match r {
                Some(inode) => {
                    let ino = inode.ino;
                    &&& 1 <= ino < inode_search_limit(old(self).layout())
                    &&& ino < bitmap_bits()
                    &&& !bit_set(old(self).inode_bits(), ino as int)
                    &&& forall|j: int| 1 <= j < ino ==> #[trigger] bit_set(old(self).inode_bits(), j)
                    &&& inode.file_type == file_type
                    &&& inode.size == 0
                    &&& inode.link_count == 1
                    &&& forall|i: int| 0 <= i < 12 ==> #[trigger] inode.direct_blocks[i] == 0
                    &&& final(self).inode_bits() == bitmap_with_bit_set(old(self).inode_bits(), ino as int)
                    &&& final(self).cache() == old(self).cache().insert(ino, inode)
                    &&& final(journal).same_header(old(journal))
                    &&& final(journal).pending() == old(journal).pending().push(
                        OpView::WriteBlock(
                            (old(self).layout().bitmap_start + 1) as u64,
                            final(self).inode_bits(),
                        ),
                    ).push(OpView::AllocateInode(ino))
                },
                None => {
                    &&& !free_inode_below(old(self).inode_bits(), inode_search_limit(old(self).layout()))
                    &&& final(self).inode_bits() == old(self).inode_bits()
                    &&& final(self).cache() == old(self).cache()
                    &&& *final(journal) == *old(journal)
                },
            },
            old(self).well_formed() ==> final(self).well_formed(),
    {
        let limit = self.superblock.inode_table_blocks * INODES_PER_BLOCK;
        let mut idx: u64 = 1;
        while idx < limit
            invariant
                *self == *old(self),
                *journal == *old(journal),
                1 <= idx,
                idx <= limit || idx == 1,
                limit == inode_search_limit(self.superblock),
                limit <= bitmap_bits() || free_inode_below(self.inode_bitmap@, bitmap_bits()),
                free_inode_below(self.inode_bitmap@, limit as int) ==> self.superblock.bitmap_start
                    < u64::MAX,
                forall|j: int| 1 <= j < idx ==> #[trigger] bit_set(self.inode_bitmap@, j),
            decreases limit - idx,
        {
            proof {
                // the scan stays inside the bitmap: past its end, every bit
                // would have been seen set, but a free one exists there
                if idx >= bitmap_bits() {
                    let j = choose|j: int|
                        1 <= j < bitmap_bits() && j < bitmap_bits() && !#[trigger] bit_set(
                            self.inode_bitmap@,
                            j,
                        );
                    assert(bit_set(self.inode_bitmap@, j));
                }
            }
            let bit_idx = idx as usize;
            if (self.inode_bitmap[bit_idx / 8] & (1u8 << ((bit_idx % 8) as u8))) == 0u8 {
                assert(!bit_set(self.inode_bitmap@, idx as int));
                assert(free_inode_below(self.inode_bitmap@, limit as int));
                Self::set_bit(&mut self.inode_bitmap, bit_idx);
                journal.log_write_block(self.superblock.bitmap_start + 1, &self.inode_bitmap);
                journal.log_alloc_inode(idx);
                let inode = Inode::new(idx, file_type);
                self.inode_cache.insert(idx, inode);
                return Some(inode);
            }
            idx = idx + 1;
        }
        proof {
            if free_inode_below(self.inode_bitmap@, limit as int) {
                let j = choose|j: int|
                    1 <= j < limit && j < bitmap_bits() && !#[trigger] bit_set(self.inode_bitmap@, j);
                assert(bit_set(self.inode_bitmap@, j));
            }
        }
        None
    }

    /// The cached copy of inode `ino`, if there is one.
    pub fn cached_inode(&self, ino: u64) -> (r: Option<Inode>)
        ensures
            r == (if self.cache().contains_key(ino) {
                Some(self.cache()[ino])
            } else {
                None
            }),
            self.well_formed() ==> (r matches Some(i) ==> i.ino == ino),
    {
        match self.inode_cache.get(&ino) {
            Some(inode) => Some(*inode),
            None => None,
        }
    }

    /// Puts `inode` in the cache under its number.
    pub fn cache_inode(&mut self, inode: &Inode)
        ensures
            final(self).cache() == old(self).cache().insert(inode.ino, *inode),
            final(self).layout() == old(self).layout(),
            final(self).block_bits() == old(self).block_bits(),
            final(self).inode_bits() == old(self).inode_bits(),
            old(self).well_formed() ==> final(self).well_formed(),
    {
        self.inode_cache.insert(inode.ino, *inode);
    }

    /// Where inode `ino` lives: its inode-table block and the byte offset of
    /// its slot in that block; `None` when the block number does not fit in
    /// 64 bits.
    pub fn inode_location(&self, ino: u64) -> (r: Option<(u64, usize)>)
        ensures
            match r {
                Some((block_num, start)) => {
                    &&& block_num == inode_block(self.layout(), ino)
                    &&& start == inode_offset(ino)
                    &&& start + INODE_SLOT_SIZE <= BLOCK_SIZE
                },
                None => inode_block(self.layout(), ino) > u64::MAX,
            },
    {
        let inodes_per_block: u64 = INODES_PER_BLOCK;
        let block_offset = ino / inodes_per_block;
        let inode_idx = ino % inodes_per_block;
        let block_num = match self.superblock.inode_table_start.checked_add(block_offset) {
            Some(b) => b,
            None => return None,
        };
        assert(inode_idx < 16);
        let start: usize = (inode_idx as usize) * INODE_SLOT_SIZE;
        assert(start + INODE_SLOT_SIZE <= BLOCK_SIZE) by (nonlinear_arith)
            requires
                inode_idx < 16,
                start == inode_idx * 256,
                INODE_SLOT_SIZE == 256,
                BLOCK_SIZE == 4096,
        ;
        Some((block_num, start))
    }

    /// The bytes of the inode slot at `start` in an inode-table block.
    pub fn inode_slot(block: &[u8; BLOCK_SIZE], start: usize) -> (slot: &[u8])
        requires
            start + INODE_SLOT_SIZE <= BLOCK_SIZE,
        ensures
            slot@ == block@.subrange(start as int, start + INODE_SLOT_SIZE),
    {
        let bytes = block.as_slice();
        &bytes[start..start + INODE_SLOT_SIZE]
    }

    /// Takes in what the slot of inode `ino` decoded to. Accepts it, and
    /// caches it, only when it decoded to an inode carrying that number.
    pub fn load_inode(&mut self, ino: u64, decoded: Option<Inode>) -> (r: Option<Inode>)
        ensures
            final(self).layout() == old(self).layout(),
            final(self).block_bits() == old(self).block_bits(),
            final(self).inode_bits() == old(self).inode_bits(),
            match decoded {
                Some(i) => if i.ino == ino {
                    r == Some(i) && final(self).cache() == old(self).cache().insert(ino, i)
                } else {
                    r is None && final(self).cache() == old(self).cache()
                },
                None => r is None && final(self).cache() == old(self).cache(),
            },
            old(self).well_formed() ==> final(self).well_formed(),
    {
        match decoded {
            Some(i) => {
                if i.ino == ino {
                    self.inode_cache.insert(ino, i);
                    Some(i)
                } else {
                    None
                }
            },
            None => None,
        }
    }

    /// Writes an inode through the log: caches it and logs its inode-table
    /// block with the inode's encoding `encoded` copied into its slot. The
    /// rest of the block comes from the image of that block last logged, when
    /// one is pending, else from `block` (the block as read from disk), so
    /// that pending updates of other inodes in the same block are kept.
    pub fn write_inode(
        &mut self,
        journal: &mut Journal,
        inode: &Inode,
        block: &[u8; BLOCK_SIZE],
        encoded: &[u8],
    )
        requires
            inode_block(old(self).layout(), inode.ino) <= u64::MAX,
            inode_offset(inode.ino) + encoded@.len() <= BLOCK_SIZE,
        ensures
            final(self).cache() == old(self).cache().insert(inode.ino, *inode),
            final(self).layout() == old(self).layout(),
            final(self).block_bits() == old(self).block_bits(),
            final(self).inode_bits() == old(self).inode_bits(),
            final(journal).same_header(old(journal)),
            old(journal).well_formed() ==> final(journal).well_formed(),
            ({
                let b = inode_block(old(self).layout(), inode.ino) as u64;
                let base = table_base(old(journal).pending(), b, block@);
                final(journal).pending() == old(journal).pending().push(
                    OpView::WriteBlock(b, splice(base, inode_offset(inode.ino), encoded@)),
                )
            }),
            old(self).well_formed() ==> final(self).well_formed(),
    {
        self.inode_cache.insert(inode.ino, *inode);
        let (block_num, start) = match self.inode_location(inode.ino) {
            Some(loc) => loc,
            None => {
                assert(false);
                return;
            },
        };
        let base = match journal.latest_image(block_num) {
            Some(image) => image,
            None => *block,
        };
        let updated = splice_block(&base, start, encoded);
        journal.log_write_block(block_num, &updated);
    }

    /// Frees an unlinked inode and its data: clears the bits of its non-zero
    /// direct blocks in the block bitmap and its own bit in the inode bitmap,
    /// logs both bitmaps, and drops it from the cache.
    pub fn release_inode(&mut self, journal: &mut Journal, inode: &Inode)
        requires
            inode.ino < bitmap_bits(),
            forall|i: int| 0 <= i < 12 ==> #[trigger] inode.direct_blocks[i] < bitmap_bits(),
            old(self).layout().bitmap_start < u64::MAX,
        ensures
            final(self).layout() == old(self).layout(),
            final(self).block_bits() == bitmap_with_bits_cleared(
                old(self).block_bits(),
                inode.direct_blocks@,
            ),
            final(self).inode_bits() == bitmap_with_bit_cleared(old(self).inode_bits(), inode.ino as int),
            old(self).well_formed() ==> forall|j: int|
                0 <= j < bitmap_bits() && (forall|i: int|
                    0 <= i < 12 ==> #[trigger] inode.direct_blocks[i] != j) ==> #[trigger] bit_set(
                    final(self).block_bits(),
                    j,
                ) == bit_set(old(self).block_bits(), j),
            final(self).cache() == old(self).cache().remove(inode.ino),
            final(journal).same_header(old(journal)),
            final(journal).pending() == old(journal).pending().push(
                OpView::WriteBlock(old(self).layout().bitmap_start, final(self).block_bits()),
            ).push(
                OpView::WriteBlock(
                    (old(self).layout().bitmap_start + 1) as u64,
                    final(self).inode_bits(),
                ),
            ),
            old(journal).well_formed() ==> final(journal).well_formed(),
            old(self).well_formed() ==> final(self).well_formed(),
    {
        let mut i: usize = 0;
        while i < 12
            invariant
                i <= 12,
                forall|k: int| 0 <= k < 12 ==> #[trigger] inode.direct_blocks[k] < bitmap_bits(),
                self.block_bitmap@ == bitmap_with_bits_cleared(
                    old(self).block_bitmap@,
                    inode.direct_blocks@.take(i as int),
                ),
                self.inode_bitmap == old(self).inode_bitmap,
                self.inode_cache == old(self).inode_cache,
                self.superblock == old(self).superblock,
            decreases 12 - i,
        {
            let b = inode.direct_blocks[i];
            proof {
                assert(inode.direct_blocks@.take(i + 1).drop_last() =~= inode.direct_blocks@.take(
                    i as int,
                ));
                assert(inode.direct_blocks@.take(i + 1).last() == b);
            }
            if b != 0 {
                Self::clear_bit(&mut self.block_bitmap, b as usize);
            }
            i = i + 1;
        }
        proof {
            assert(inode.direct_blocks@.take(12) =~= inode.direct_blocks@);
        }
        journal.log_write_block(self.superblock.bitmap_start, &self.block_bitmap);
        Self::clear_bit(&mut self.inode_bitmap, inode.ino as usize);
        journal.log_write_block(self.superblock.bitmap_start + 1, &self.inode_bitmap);
        self.inode_cache.remove(&inode.ino);
        proof {
            if old(self).well_formed() {
                assert forall|j: int|
                    0 <= j < bitmap_bits() && (forall|i: int|
                        0 <= i < 12 ==> #[trigger] inode.direct_blocks[i] != j) implies #[trigger] bit_set(
                    self.block_bits(),
                    j,
                ) == bit_set(old(self).block_bits(), j) by {
                    assert forall|i: int| 0 <= i < inode.direct_blocks@.len() implies #[trigger] inode.direct_blocks@[i]
                        < bitmap_bits() by {
                        assert(inode.direct_blocks@[i] == inode.direct_blocks[i]);
                    }
                    assert forall|i: int| 0 <= i < inode.direct_blocks@.len() implies #[trigger] inode.direct_blocks@[i]
                        != j by {
                        assert(inode.direct_blocks@[i] == inode.direct_blocks[i]);
                    }
                    lemma_release_keeps_other_blocks(old(self).block_bits(), inode.direct_blocks@, j);
                }
            }
            if old(self).well_formed() {
                assert forall|k: u64| #[trigger] self.cache().contains_key(k) implies self.cache()[k].ino
                    == k by {
                    assert(old(self).cache().contains_key(k));
                }
            }
        }
    }
}

/// The block `write_inode` builds on: the image last logged for block `b`
/// when there is one of a whole block, else the block as read from disk.
pub open spec fn table_base(pending: Seq<OpView>, b: u64, disk_block: Seq<u8>) -> Seq<u8> {
    match last_logged(pending, b) {
        Some(image) => if image.len() == BLOCK_SIZE {
            image
        } else {
            disk_block
        },
        None => disk_block,
    }
}

/// The bitmap after clearing the bit of every non-zero pointer in `ptrs`,
/// in order.
pub open spec fn bitmap_with_bits_cleared(bitmap: Seq<u8>, ptrs: Seq<u64>) -> Seq<u8>
    decreases ptrs.len(),
{
    if ptrs.len() == 0 {
        bitmap
    } else {
        let prev = bitmap_with_bits_cleared(bitmap, ptrs.drop_last());
        if ptrs.last() == 0 {
            prev
        } else {
            bitmap_with_bit_cleared(prev, ptrs.last() as int)
        }
    }
}

/// The inode of the root directory that formatting creates.
pub fn root_directory(superblock: &Superblock) -> (root: Inode)
    ensures
        root.ino == superblock.root_inode,
        root.file_type == FileType::Directory,
        root.size == 0,
        root.link_count == 1,
        forall|i: int| 0 <= i < 12 ==> #[trigger] root.direct_blocks[i] == 0,
{
    Inode::new(superblock.root_inode, FileType::Directory)
}

/// The blocks that formatting writes besides the superblock: the inode
/// bitmap with the root directory's bit set, and the inode-table block that
/// holds the root directory, with `encoded_root` (the root directory's
/// encoding) in its slot and zeros elsewhere. `None` when the root's inode
/// number lies outside the bitmap, a block number does not fit in 64 bits,
/// or the encoding does not fit its slot's block.
pub fn format_writes(superblock: &Superblock, encoded_root: &[u8]) -> (r: Option<WritePlan>)
    ensures
        match r {
            Some(plan) => {
                &&& plan.complete
                &&& plan@.0 == seq![
                    (
                        (superblock.bitmap_start + 1) as u64,
                        bitmap_with_bit_set(zero_bitmap(), superblock.root_inode as int),
                    ),
                    (
                        inode_block(*superblock, superblock.root_inode) as u64,
                        splice(zero_bitmap(), inode_offset(superblock.root_inode), encoded_root@),
                    ),
                ]
            },
            None => !{
                &&& superblock.root_inode < bitmap_bits()
                &&& superblock.bitmap_start < u64::MAX
                &&& inode_block(*superblock, superblock.root_inode) <= u64::MAX
                &&& inode_offset(superblock.root_inode) + encoded_root@.len() <= BLOCK_SIZE
            },
        },
{
    let root = superblock.root_inode;
    if root >= 8 * BLOCK_SIZE as u64 || superblock.bitmap_start == u64::MAX {
        return None;
    }
    let table_block = match superblock.inode_table_start.checked_add(root / INODES_PER_BLOCK) {
        Some(b) => b,
        None => return None,
    };
    let start: usize = ((root % INODES_PER_BLOCK) as usize) * INODE_SLOT_SIZE;
    assert(start == inode_offset(root)) by (nonlinear_arith)
        requires
            start == (root % 16) * 256,
            INODE_SLOT_SIZE == 256,
            INODES_PER_BLOCK == 16,
    ;
    if encoded_root.len() > BLOCK_SIZE - start {
        return None;
    }
    let mut bitmap = block_with_prefix(&[]);
    assert(bitmap@ =~= zero_bitmap());
    Manager::set_bit(&mut bitmap, root as usize);
    let zero = block_with_prefix(&[]);
    assert(zero@ =~= zero_bitmap());
    let table = splice_block(&zero, start, encoded_root);
    let mut writes: Vec<BlockWrite> = Vec::new();
    writes.push(BlockWrite { block_num: superblock.bitmap_start + 1, data: bitmap });
    writes.push(BlockWrite { block_num: table_block, data: table });
    let plan = WritePlan { writes, complete: true };
    assert(plan@.0 =~= seq![
        (
            (superblock.bitmap_start + 1) as u64,
            bitmap_with_bit_set(zero_bitmap(), superblock.root_inode as int),
        ),
        (
            inode_block(*superblock, superblock.root_inode) as u64,
            splice(zero_bitmap(), inode_offset(superblock.root_inode), encoded_root@),
        ),
    ]);
    Some(plan)
}

/// A block of zeros, as a bitmap or table block.
pub open spec fn zero_bitmap() -> Seq<u8> {
    padded_block(Seq::empty())
}

} // verus!

verus! {

/// Setting bit `i` of a bitmap sets it and leaves every other bit as it was.
pub proof fn lemma_bitmap_set_bit(bitmap: Seq<u8>, i: int)
    requires
        bitmap.len() == BLOCK_SIZE,
        0 <= i < bitmap_bits(),
    ensures
        bit_set(bitmap_with_bit_set(bitmap, i), i),
        forall|j: int|
            0 <= j < bitmap_bits() && j != i ==> #[trigger] bit_set(bitmap_with_bit_set(bitmap, i), j)
                == bit_set(bitmap, j),
{
    lemma_byte_set_bit(bitmap[i / 8], (i % 8) as u8, 0);
    assert forall|j: int| 0 <= j < bitmap_bits() && j != i implies #[trigger] bit_set(
        bitmap_with_bit_set(bitmap, i),
        j,
    ) == bit_set(bitmap, j) by {
        if j / 8 == i / 8 {
            lemma_byte_set_bit(bitmap[i / 8], (i % 8) as u8, (j % 8) as u8);
        }
    }
}

/// Clearing bit `i` of a bitmap clears it and leaves every other bit as it
/// was.
pub proof fn lemma_bitmap_clear_bit(bitmap: Seq<u8>, i: int)
    requires
        bitmap.len() == BLOCK_SIZE,
        0 <= i < bitmap_bits(),
    ensures
        !bit_set(bitmap_with_bit_cleared(bitmap, i), i),
        forall|j: int|
            0 <= j < bitmap_bits() && j != i ==> #[trigger] bit_set(
                bitmap_with_bit_cleared(bitmap, i),
                j,
            ) == bit_set(bitmap, j),
{
    lemma_byte_clear_bit(bitmap[i / 8], (i % 8) as u8, 0);
    assert forall|j: int| 0 <= j < bitmap_bits() && j != i implies #[trigger] bit_set(
        bitmap_with_bit_cleared(bitmap, i),
        j,
    ) == bit_set(bitmap, j) by {
        if j / 8 == i / 8 {
            lemma_byte_clear_bit(bitmap[i / 8], (i % 8) as u8, (j % 8) as u8);
        }
    }
}

/// Freeing a block undoes its allocation: clearing a bit that setting turned
/// on gives back the bitmap as it was.
pub proof fn lemma_free_undoes_alloc(bitmap: Seq<u8>, i: int)
    requires
        bitmap.len() == BLOCK_SIZE,
        0 <= i < bitmap_bits(),
        !bit_set(bitmap, i),
    ensures
        bitmap_with_bit_cleared(bitmap_with_bit_set(bitmap, i), i) == bitmap,
{
    let b = bitmap[i / 8];
    let k = (i % 8) as u8;
    assert(b & (1u8 << k) == 0u8);
    assert((b | (1u8 << k)) & !(1u8 << k) == b) by (bit_vector)
        requires
            b & (1u8 << k) == 0u8,
            k < 8u8,
    ;
    assert(bitmap_with_bit_cleared(bitmap_with_bit_set(bitmap, i), i) =~= bitmap);
}

/// Allocating again after freeing gives back the same bitmap: setting a bit
/// that clearing turned off restores the bitmap.
pub proof fn lemma_alloc_undoes_free(bitmap: Seq<u8>, i: int)
    requires
        bitmap.len() == BLOCK_SIZE,
        0 <= i < bitmap_bits(),
        bit_set(bitmap, i),
    ensures
        bitmap_with_bit_set(bitmap_with_bit_cleared(bitmap, i), i) == bitmap,
{
    let b = bitmap[i / 8];
    let k = (i % 8) as u8;
    assert(b & (1u8 << k) != 0u8);
    assert((b & !(1u8 << k)) | (1u8 << k) == b) by (bit_vector)
        requires
            b & (1u8 << k) != 0u8,
            k < 8u8,
    ;
    assert(bitmap_with_bit_set(bitmap_with_bit_cleared(bitmap, i), i) =~= bitmap);
}

/// Allocation hands out increasing numbers: after the lowest free bit `first`
/// at or above `from` is taken, the lowest free bit at or above `from` of the
/// new bitmap lies above it.
pub proof fn lemma_next_allocation_is_higher(bitmap: Seq<u8>, from: int, first: int, second: int)
    requires
        bitmap.len() == BLOCK_SIZE,
        0 <= from <= first < bitmap_bits(),
        forall|j: int| from <= j < first ==> #[trigger] bit_set(bitmap, j),
        from <= second < bitmap_bits(),
        !bit_set(bitmap_with_bit_set(bitmap, first), second),
    ensures
        first < second,
{
    lemma_bitmap_set_bit(bitmap, first);
    if second < first {
        assert(bit_set(bitmap, second));
    }
}

/// Distinct inode numbers have distinct, non-overlapping slots in the inode
/// table, and every slot lies inside its block.
pub proof fn lemma_inode_slots_disjoint(superblock: Superblock, a: u64, b: u64)
    requires
        a != b,
    ensures
        inode_offset(a) + INODE_SLOT_SIZE <= BLOCK_SIZE,
        inode_block(superblock, a) == inode_block(superblock, b) ==> (inode_offset(a)
            + INODE_SLOT_SIZE <= inode_offset(b) || inode_offset(b) + INODE_SLOT_SIZE
            <= inode_offset(a)),
{
    let qa = a / 16;
    let qb = b / 16;
    let ra = a % 16;
    let rb = b % 16;
    assert(a == 16 * qa + ra);
    assert(b == 16 * qb + rb);
    assert(ra * 256 + 256 <= 4096) by (nonlinear_arith)
        requires
            ra < 16,
    ;
    if qa == qb {
        assert(ra != rb);
        assert(ra * 256 + 256 <= rb * 256 || rb * 256 + 256 <= ra * 256) by (nonlinear_arith)
            requires
                ra != rb,
        ;
    }
}

/// Every cached inode is filed under its own number.
pub open spec fn cache_keys_match(cache: Map<u64, Inode>) -> bool {
    forall|k: u64| #[trigger] cache.contains_key(k) ==> cache[k].ino == k
}

/// The cache gives back what was written to it, and stays filed by number:
/// after an inode is cached (by `cache_inode`, `write_inode`, `alloc_inode`
/// or an accepted `load_inode`), looking its number up returns it, and a
/// cache whose inodes were filed under their own numbers still is.
pub proof fn lemma_cache_returns_written_inode(cache: Map<u64, Inode>, inode: Inode)
    ensures
        cache.insert(inode.ino, inode).contains_key(inode.ino),
        cache.insert(inode.ino, inode)[inode.ino] == inode,
        cache_keys_match(cache) ==> cache_keys_match(cache.insert(inode.ino, inode)),
{
}

/// Unlinking frees the data: after `release_inode`, the bit of every
/// non-zero direct block of the released inode is clear, so the allocator can
/// hand those blocks out again.
pub proof fn lemma_release_frees_blocks(bitmap: Seq<u8>, ptrs: Seq<u64>, k: int)
    requires
        bitmap.len() == BLOCK_SIZE,
        forall|i: int| 0 <= i < ptrs.len() ==> #[trigger] ptrs[i] < bitmap_bits(),
        0 <= k < ptrs.len(),
        ptrs[k] != 0,
    ensures
        bitmap_with_bits_cleared(bitmap, ptrs).len() == BLOCK_SIZE,
        !bit_set(bitmap_with_bits_cleared(bitmap, ptrs), ptrs[k] as int),
    decreases ptrs.len(),
{
    let init = ptrs.drop_last();
    assert forall|i: int| 0 <= i < init.len() implies #[trigger] init[i] < bitmap_bits() by {
        assert(init[i] == ptrs[i]);
    }
    lemma_cleared_len(bitmap, init);
    lemma_cleared_len(bitmap, ptrs);
    let prev = bitmap_with_bits_cleared(bitmap, init);
    let last = ptrs.last();
    if k == ptrs.len() - 1 {
        lemma_bitmap_clear_bit(prev, last as int);
    } else {
        assert(init[k] == ptrs[k]);
        lemma_release_frees_blocks(bitmap, init, k);
        if last != 0 {
            assert(last == ptrs[ptrs.len() - 1]);
            lemma_bitmap_clear_bit(prev, last as int);
        }
    }
}

proof fn lemma_cleared_len(bitmap: Seq<u8>, ptrs: Seq<u64>)
    requires
        bitmap.len() == BLOCK_SIZE,
        forall|i: int| 0 <= i < ptrs.len() ==> #[trigger] ptrs[i] < bitmap_bits(),
    ensures
        bitmap_with_bits_cleared(bitmap, ptrs).len() == BLOCK_SIZE,
    decreases ptrs.len(),
{
    if ptrs.len() > 0 {
        let init = ptrs.drop_last();
        assert forall|i: int| 0 <= i < init.len() implies #[trigger] init[i] < bitmap_bits() by {
            assert(init[i] == ptrs[i]);
        }
        lemma_cleared_len(bitmap, init);
        assert(ptrs.last() == ptrs[ptrs.len() - 1]);
    }
}

/// Formatting creates the root directory: the inode bitmap it writes has the
/// root's bit set, and the root's slot in the inode-table block it writes
/// holds the root's encoding.
pub proof fn lemma_format_holds_root(superblock: Superblock, encoded_root: Seq<u8>)
    requires
        superblock.root_inode < bitmap_bits(),
        inode_offset(superblock.root_inode) + encoded_root.len() <= BLOCK_SIZE,
    ensures
        bit_set(bitmap_with_bit_set(zero_bitmap(), superblock.root_inode as int), superblock.root_inode as int),
        splice(zero_bitmap(), inode_offset(superblock.root_inode), encoded_root).subrange(
            inode_offset(superblock.root_inode),
            inode_offset(superblock.root_inode) + encoded_root.len(),
        ) == encoded_root,
{
    lemma_bitmap_set_bit(zero_bitmap(), superblock.root_inode as int);
    let off = inode_offset(superblock.root_inode);
    assert(splice(zero_bitmap(), off, encoded_root).subrange(off, off + encoded_root.len())
        =~= encoded_root);
}

/// Writing a second inode of the same table block keeps the first: when
/// `write_inode` builds on the image last logged for the block, the slot of
/// an inode written earlier still holds that inode's encoding.
pub proof fn lemma_table_block_keeps_earlier_inode(
    base: Seq<u8>,
    first: u64,
    enc_first: Seq<u8>,
    second: u64,
    enc_second: Seq<u8>,
)
    requires
        base.len() == BLOCK_SIZE,
        first != second,
        first / INODES_PER_BLOCK == second / INODES_PER_BLOCK,
        enc_first.len() <= INODE_SLOT_SIZE,
        enc_second.len() <= INODE_SLOT_SIZE,
    ensures
        ({
            let once = splice(base, inode_offset(first), enc_first);
            let twice = splice(once, inode_offset(second), enc_second);
            twice.subrange(inode_offset(first), inode_offset(first) + enc_first.len()) == enc_first
        }),
{
    lemma_inode_slots_disjoint(vstd::pervasive::arbitrary(), first, second);
    let a = inode_offset(first);
    let b = inode_offset(second);
    let once = splice(base, a, enc_first);
    let twice = splice(once, b, enc_second);
    assert(once.len() == BLOCK_SIZE);
    assert(twice.subrange(a, a + enc_first.len()) =~= enc_first);
}

/// Copying bytes into a block changes only the range they are copied to:
/// the result is as long as the block, holds `bytes` at `start ..`, and
/// every byte outside that range is the block's own.
pub proof fn lemma_splice_changes_only_its_range(block: Seq<u8>, start: int, bytes: Seq<u8>)
    requires
        0 <= start,
        start + bytes.len() <= block.len(),
    ensures
        splice(block, start, bytes).len() == block.len(),
        forall|j: int|
            0 <= j < block.len() && !(start <= j < start + bytes.len()) ==> #[trigger] splice(
                block,
                start,
                bytes,
            )[j] == block[j],
        forall|j: int| 0 <= j < bytes.len() ==> #[trigger] splice(block, start, bytes)[start + j] == bytes[j],
{
    let r = splice(block, start, bytes);
    assert forall|j: int| 0 <= j < block.len() && !(start <= j < start + bytes.len()) implies #[trigger] r[j]
        == block[j] by {
        if j < start {
            assert(r[j] == block.subrange(0, start)[j]);
        } else {
            assert(r[j] == block.subrange(start + bytes.len(), block.len() as int)[j - start - bytes.len()]);
        }
    }
    assert forall|j: int| 0 <= j < bytes.len() implies #[trigger] r[start + j] == bytes[j] by {
        assert(r[start + j] == (block.subrange(0, start) + bytes)[start + j]);
    }
}

/// Releasing an inode frees only its own blocks: clearing the bits of a run
/// of block pointers leaves every bit that is not one of the pointers as it
/// was, so blocks of other files stay allocated.
pub proof fn lemma_release_keeps_other_blocks(bitmap: Seq<u8>, ptrs: Seq<u64>, j: int)
    requires
        bitmap.len() == BLOCK_SIZE,
        forall|i: int| 0 <= i < ptrs.len() ==> #[trigger] ptrs[i] < bitmap_bits(),
        0 <= j < bitmap_bits(),
        forall|i: int| 0 <= i < ptrs.len() ==> #[trigger] ptrs[i] != j,
    ensures
        bit_set(bitmap_with_bits_cleared(bitmap, ptrs), j) == bit_set(bitmap, j),
    decreases ptrs.len(),
{
    if ptrs.len() > 0 {
        let init = ptrs.drop_last();
        assert forall|i: int| 0 <= i < init.len() implies #[trigger] init[i] < bitmap_bits() by {
            assert(init[i] == ptrs[i]);
        }
        assert forall|i: int| 0 <= i < init.len() implies #[trigger] init[i] != j by {
            assert(init[i] == ptrs[i]);
        }
        lemma_release_keeps_other_blocks(bitmap, init, j);
        lemma_cleared_len(bitmap, init);
        let last = ptrs.last();
        assert(last == ptrs[ptrs.len() - 1]);
        if last != 0 {
            lemma_bitmap_clear_bit(bitmap_with_bits_cleared(bitmap, init), last as int);
        }
    }
}

} // verus!
