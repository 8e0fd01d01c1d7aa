use vstd::prelude::*;
use crate::bits::bit_set;
use crate::fs_structs::{block_with_prefix, padded_block, DirEntry, FileType, Inode, BLOCK_SIZE};
use crate::journal::{Journal, OpView};
use crate::manager::{bitmap_with_bit_set, splice, splice_block, Manager};

verus! {

/// Attributes the file system reports for an inode (times are all zero).
#[derive(Clone, Copy, Debug)]
pub struct InodeAttr {
    pub ino: u64,
    pub size: u64,
    pub blocks: u64,
    pub kind: FileType,
    pub perm: u16,
    pub nlink: u32,
    pub uid: u32,
    pub gid: u32,
    pub rdev: u32,
    pub blksize: u32,
    pub flags: u32,
}

/// The attributes of an inode: its number, size, link count and type, the
/// number of blocks its size spans, permissions 0o777, uid 501, gid 20.
pub fn inode_to_attr(inode: &Inode) -> (attr: InodeAttr)
    requires
        inode.size + BLOCK_SIZE <= u64::MAX,
    ensures
        attr.ino == inode.ino,
        attr.size == inode.size,
        attr.blocks == (inode.size + BLOCK_SIZE - 1) / BLOCK_SIZE as int,
        attr.kind == inode.file_type,
        attr.perm == 0o777,
        attr.nlink == inode.link_count,
        attr.uid == 501,
        attr.gid == 20,
        attr.rdev == 0,
        attr.blksize == BLOCK_SIZE,
        attr.flags == 0,
{
    InodeAttr {
        ino: inode.ino,
        size: inode.size,
        blocks: (inode.size + BLOCK_SIZE as u64 - 1) / BLOCK_SIZE as u64,
        kind: inode.file_type,
        perm: 0o777,
        nlink: inode.link_count,
        uid: 501,
        gid: 20,
        rdev: 0,
        blksize: BLOCK_SIZE as u32,
        flags: 0,
    }
}

/// The non-zero block pointers of a run of pointers, in order.
pub open spec fn nonzero_blocks(ptrs: Seq<u64>) -> Seq<u64>
    decreases ptrs.len(),
{
    if ptrs.len() == 0 {
        Seq::empty()
    } else if ptrs.last() == 0 {
        nonzero_blocks(ptrs.drop_last())
    } else {
        nonzero_blocks(ptrs.drop_last()).push(ptrs.last())
    }
}

/// The data blocks of a directory, in the order its entries are read: its
/// non-zero direct block pointers.
pub fn dir_blocks(inode: &Inode) -> (blocks: Vec<u64>)
    ensures
        blocks@ == nonzero_blocks(inode.direct_blocks@),
{
    let mut blocks: Vec<u64> = Vec::new();
    let mut i: usize = 0;
    while i < 12
        invariant
            i <= 12,
            blocks@ == nonzero_blocks(inode.direct_blocks@.take(i as int)),
        decreases 12 - i,
    {
        let b = inode.direct_blocks[i];
        proof {
            assert(inode.direct_blocks@.take(i + 1).drop_last() =~= inode.direct_blocks@.take(
                i as int,
            ));
        }
        if b != 0 {
            blocks.push(b);
        }
        i = i + 1;
    }
    proof {
        assert(inode.direct_blocks@.take(12) =~= inode.direct_blocks@);
    }
    blocks
}

/// The block that holds a file's data, if it has one.
pub fn file_data_block(inode: &Inode) -> (r: Option<u64>)
    ensures
        r == (if inode.direct_blocks[0] == 0 {
            None::<u64>
        } else {
            Some(inode.direct_blocks[0])
        }),
{
    if inode.direct_blocks[0] == 0 {
        None
    } else {
        Some(inode.direct_blocks[0])
    }
}

/// The first data block of an inode, allocating it (and recording it in
/// the inode) when the inode has none. `None` when no block could be
/// allocated, in which case nothing changed.
pub fn first_data_block(manager: &mut Manager, journal: &mut Journal, inode: &mut Inode) -> (r: Option<u64>)
    ensures
        old(inode).direct_blocks[0] != 0 ==> {
            &&& r == Some(old(inode).direct_blocks[0])
            &&& *final(inode) == *old(inode)
            &&& *final(manager) == *old(manager)
            &&& *final(journal) == *old(journal)
        },
        old(inode).direct_blocks[0] == 0 ==> {
            &&& final(manager).layout() == old(manager).layout()
            &&& final(manager).cache() == old(manager).cache()
            &&& final(manager).inode_bits() == old(manager).inode_bits()
            &&& match r {
                Some(b) => {
                    &&& final(inode).direct_blocks@ == old(inode).direct_blocks@.update(0, b)
                    &&& final(inode).ino == old(inode).ino
                    &&& final(inode).file_type == old(inode).file_type
                    &&& final(inode).size == old(inode).size
                    &&& final(inode).link_count == old(inode).link_count
                    &&& old(manager).layout().data_start <= b < old(manager).layout().total_blocks
                    &&& !bit_set(old(manager).block_bits(), b as int)
                    &&& forall|j: int|
                        old(manager).layout().data_start <= j < b ==> #[trigger] bit_set(
                            old(manager).block_bits(),
                            j,
                        )
                    &&& final(manager).block_bits() == bitmap_with_bit_set(
                        old(manager).block_bits(),
                        b as int,
                    )
                    &&& final(journal).same_header(old(journal))
                    &&& final(journal).pending() == old(journal).pending().push(
                        OpView::WriteBlock(
                            old(manager).layout().bitmap_start,
                            final(manager).block_bits(),
                        ),
                    )
                },
                None => {
                    &&& forall|j: int|
                        old(manager).layout().data_start <= j < old(manager).layout().total_blocks
                            && j < crate::bits::bitmap_bits() ==> #[trigger] bit_set(
                            old(manager).block_bits(),
                            j,
                        )
                    &&& *final(inode) == *old(inode)
                    &&& final(manager).block_bits() == old(manager).block_bits()
                    &&& *final(journal) == *old(journal)
                },
            }
        },
{
    if inode.direct_blocks[0] == 0 {
        match manager.alloc_block(journal) {
            Some(new_block) => {
                inode.direct_blocks[0] = new_block;
                Some(new_block)
            },
            None => None,
        }
    } else {
        Some(inode.direct_blocks[0])
    }
}

/// Stores a directory's encoded entry list in its first data block
/// (allocating that block when the directory has none): logs the block
/// holding the first `BLOCK_SIZE` bytes of `encoded`, zero-padded, and sets
/// the directory's size to the number of bytes stored. Returns the block, or
/// `None` when no block could be allocated (then nothing changed).
pub fn write_dir_entries(
    manager: &mut Manager,
    journal: &mut Journal,
    inode: &mut Inode,
    encoded: &[u8],
) -> (r: Option<u64>)
    ensures
        final(manager).layout() == old(manager).layout(),
        final(manager).cache() == old(manager).cache(),
        final(manager).inode_bits() == old(manager).inode_bits(),
        match r {
            Some(b) => {
                let n = if encoded@.len() < BLOCK_SIZE { encoded@.len() as int } else { BLOCK_SIZE as int };
                let stored = OpView::WriteBlock(b, padded_block(encoded@.take(n)));
                &&& final(inode).direct_blocks@ == old(inode).direct_blocks@.update(0, b)
                &&& final(inode).size == n
                &&& final(inode).ino == old(inode).ino
                &&& final(inode).file_type == old(inode).file_type
                &&& final(inode).link_count == old(inode).link_count
                &&& final(journal).same_header(old(journal))
                &&& if old(inode).direct_blocks[0] != 0 {
                    &&& b == old(inode).direct_blocks[0]
                    &&& final(manager).block_bits() == old(manager).block_bits()
                    &&& final(journal).pending() == old(journal).pending().push(stored)
                } else {
                    &&& old(manager).layout().data_start <= b < old(manager).layout().total_blocks
                    &&& !bit_set(old(manager).block_bits(), b as int)
                    &&& forall|j: int|
                        old(manager).layout().data_start <= j < b ==> #[trigger] bit_set(
                            old(manager).block_bits(),
                            j,
                        )
                    &&& final(manager).block_bits() == bitmap_with_bit_set(
                        old(manager).block_bits(),
                        b as int,
                    )
                    &&& final(journal).pending() == old(journal).pending().push(
                        OpView::WriteBlock(
                            old(manager).layout().bitmap_start,
                            final(manager).block_bits(),
                        ),
                    ).push(stored)
                }
            },
            None => {
                &&& old(inode).direct_blocks[0] == 0
                &&& forall|j: int|
                    old(manager).layout().data_start <= j < old(manager).layout().total_blocks && j
                        < crate::bits::bitmap_bits() ==> #[trigger] bit_set(old(manager).block_bits(), j)
                &&& *final(inode) == *old(inode)
                &&& final(manager).block_bits() == old(manager).block_bits()
                &&& *final(journal) == *old(journal)
            },
        },
{
    let block_num = match first_data_block(manager, journal, inode) {
        Some(b) => b,
        None => {
            assert(manager.block_bits() == old(manager).block_bits());
            return None;
        },
    };
    let chunk_size = if BLOCK_SIZE < encoded.len() {
        BLOCK_SIZE
    } else {
        encoded.len()
    };
    let block = block_with_prefix(&encoded[0..chunk_size]);
    assert(encoded@.subrange(0, chunk_size as int) =~= encoded@.take(chunk_size as int));
    journal.log_write_block(block_num, &block);
    inode.size = chunk_size as u64;
    Some(block_num)
}

/// Adds a name to a directory's entry list, after the existing entries.
pub fn add_entry(entries: &mut Vec<DirEntry>, ino: u64, name: String)
    ensures
        final(entries)@ == old(entries)@.push(DirEntry { ino, name }),
{
    entries.push(DirEntry { ino, name });
}

/// The inode numbers of the entries named `name`, in order.
pub open spec fn inos_named(entries: Seq<DirEntry>, name: Seq<char>) -> Seq<u64>
    decreases entries.len(),
{
    if entries.len() == 0 {
        Seq::empty()
    } else if entries.last().name@ == name {
        inos_named(entries.drop_last(), name).push(entries.last().ino)
    } else {
        inos_named(entries.drop_last(), name)
    }
}

/// The inode numbers of the entries named `name`, in order: the candidates a
/// lookup tries.
pub fn entries_named(entries: &Vec<DirEntry>, name: &String) -> (inos: Vec<u64>)
    ensures
        inos@ == inos_named(entries@, name@),
{
    let mut inos: Vec<u64> = Vec::new();
    let mut i: usize = 0;
    while i < entries.len()
        invariant
            i <= entries@.len(),
            inos@ == inos_named(entries@.take(i as int), name@),
        decreases entries@.len() - i,
    {
        proof {
            assert(entries@.take(i + 1).drop_last() =~= entries@.take(i as int));
        }
        if entries[i].name == *name {
            inos.push(entries[i].ino);
        }
        i = i + 1;
    }
    proof {
        assert(entries@.take(entries@.len() as int) =~= entries@);
    }
    inos
}

/// Removes the first entry named `name` and returns its inode number;
/// `None`, and no change, when no entry has that name.
pub fn remove_entry(entries: &mut Vec<DirEntry>, name: &String) -> (r: Option<u64>)
    ensures
        match r {
            Some(ino) => exists|p: int|
                0 <= p < old(entries)@.len() && #[trigger] old(entries)@[p].name@ == name@ && (
                forall|j: int| 0 <= j < p ==> #[trigger] old(entries)@[j].name@ != name@)
                    && old(entries)@[p].ino == ino && final(entries)@ == old(entries)@.remove(p),
            None => {
                &&& forall|j: int|
                    0 <= j < old(entries)@.len() ==> #[trigger] old(entries)@[j].name@ != name@
                &&& final(entries)@ == old(entries)@
            },
        },
{
    let mut i: usize = 0;
    while i < entries.len()
        invariant
            i <= entries@.len(),
            entries@ == old(entries)@,
            forall|j: int| 0 <= j < i ==> #[trigger] entries@[j].name@ != name@,
        decreases entries@.len() - i,
    {
        if entries[i].name == *name {
            let ino = entries[i].ino;
            entries.remove(i);
            assert(old(entries)@[i as int].name@ == name@);
            return Some(ino);
        }
        i = i + 1;
    }
    None
}

/// One line of a directory listing.
#[derive(Debug)]
pub struct DirListItem {
    pub ino: u64,
    pub offset: i64,
    pub kind: FileType,
    pub name: String,
}

impl View for DirListItem {
    type V = (u64, i64, FileType, Seq<char>);

    open spec fn view(&self) -> (u64, i64, FileType, Seq<char>) {
        (self.ino, self.offset, self.kind, self.name@)
    }
}

/// The listing of directory `ino` from position `offset`: at position 0 the
/// entries "." and ".." (both `ino`, offsets 1 and 2); then the entries from
/// index `offset` on, entry `i` with offset `i + 3`, all listed as files.
pub open spec fn listing(ino: u64, entries: Seq<DirEntry>, offset: i64) -> Seq<(u64, i64, FileType, Seq<char>)> {
    let dots = if offset == 0 {
        seq![(ino, 1i64, FileType::Directory, "."@), (ino, 2i64, FileType::Directory, ".."@)]
    } else {
        Seq::empty()
    };
    let skip = (offset as usize) as int;
    let n = if skip < entries.len() { entries.len() - skip } else { 0 };
    dots + Seq::new(
        n as nat,
        |k: int|
            (entries[skip + k].ino, (skip + k + 3) as i64, FileType::File, entries[skip + k].name@),
    )
}

/// The lines of a directory listing (see `listing`); the caller sends them
/// until its reply buffer is full.
pub fn readdir_listing(ino: u64, entries: &Vec<DirEntry>, offset: i64) -> (items: Vec<DirListItem>)
    requires
        entries@.len() + 3 <= i64::MAX,
        entries@.len() + 3 <= usize::MAX,
    ensures
        items@.map_values(|it: DirListItem| it@) == listing(ino, entries@, offset),
{
    let mut items: Vec<DirListItem> = Vec::new();
    if offset == 0 {
        items.push(DirListItem { ino, offset: 1, kind: FileType::Directory, name: ".".to_owned() });
        items.push(DirListItem { ino, offset: 2, kind: FileType::Directory, name: "..".to_owned() });
    }
    let ghost dots = items@.map_values(|it: DirListItem| it@);
    let skip = offset as usize;
    let mut i: usize = skip;
    while i < entries.len()
        invariant
            skip == offset as usize,
            skip <= i || entries@.len() <= i,
            i <= entries@.len() || i == skip,
            entries@.len() + 3 <= i64::MAX,
            entries@.len() + 3 <= usize::MAX,
            items@.len() == dots.len() + (if i <= skip { 0 } else { i - skip }),
            forall|k: int| 0 <= k < dots.len() ==> #[trigger] items@[k]@ == dots[k],
            forall|k: int|
                dots.len() <= k < items@.len() ==> #[trigger] items@[k]@ == (
                    entries@[skip + k - dots.len()].ino,
                    (skip + k - dots.len() + 3) as i64,
                    FileType::File,
                    entries@[skip + k - dots.len()].name@,
                ),
        decreases entries@.len() - i,
    {
        let entry = &entries[i];
        items.push(
            DirListItem {
                ino: entry.ino,
                offset: (i + 3) as i64,
                kind: FileType::File,
                name: entry.name.clone(),
            },
        );
        i = i + 1;
    }
    assert(items@.map_values(|it: DirListItem| it@) =~= listing(ino, entries@, offset));
    items
}

/// Copies file data into the file's data block and logs the block: at most
/// up to the end of the block, starting at byte `offset`. Grows the file's
/// size to the end of the written range when that lies past it. Returns the
/// number of bytes written.
pub fn write_file_block(
    journal: &mut Journal,
    inode: &mut Inode,
    block_num: u64,
    block: [u8; BLOCK_SIZE],
    offset: i64,
    data: &[u8],
) -> (written: usize)
    requires
        0 <= offset <= BLOCK_SIZE,
    ensures
        written == (if data@.len() < BLOCK_SIZE - offset {
            data@.len() as int
        } else {
            BLOCK_SIZE - offset
        }),
        final(journal).same_header(old(journal)),
        final(journal).pending() == old(journal).pending().push(
            OpView::WriteBlock(block_num, splice(block@, offset as int, data@.take(written as int))),
        ),
        final(inode).size == (if offset + written > old(inode).size {
            (offset + written) as u64
        } else {
            old(inode).size
        }),
        final(inode).ino == old(inode).ino,
        final(inode).file_type == old(inode).file_type,
        final(inode).link_count == old(inode).link_count,
        final(inode).direct_blocks == old(inode).direct_blocks,
{
    let room = BLOCK_SIZE - offset as usize;
    let write_len = if data.len() < room {
        data.len()
    } else {
        room
    };
    let start = offset as usize;
    let updated = splice_block(&block, start, &data[0..write_len]);
    assert(data@.subrange(0, write_len as int) =~= data@.take(write_len as int));
    journal.log_write_block(block_num, &updated);
    if offset as u64 + write_len as u64 > inode.size {
        inode.size = offset as u64 + write_len as u64;
    }
    write_len
}

/// What a read of `size` bytes at `offset` returns from a file of
/// `file_size` bytes whose data block is `block`: the bytes from `offset` up
/// to the smaller of `offset + size` and the file size; nothing when that
/// range is empty.
pub open spec fn read_result(block: Seq<u8>, offset: i64, size: u32, file_size: u64) -> Seq<u8> {
    let start = (offset as usize) as int;
    let end = if start + size < (file_size as usize) as int {
        start + size
    } else {
        (file_size as usize) as int
    };
    if start < end {
        block.subrange(start, end)
    } else {
        Seq::empty()
    }
}

/// Whether a read of `size` bytes at `offset` stays within what can be
/// read: the end offset fits in a `usize`, and a non-empty range ends inside
/// the block.
pub open spec fn read_in_bounds(offset: i64, size: u32, file_size: u64) -> bool {
    let start = (offset as usize) as int;
    let end = if start + size < (file_size as usize) as int {
        start + size
    } else {
        (file_size as usize) as int
    };
    &&& start + size <= usize::MAX
    &&& start < end ==> end <= BLOCK_SIZE
}

/// Reads file data from the file's data block (see `read_result`); `None`
/// when the range is out of bounds (see `read_in_bounds`).
pub fn read_range(block: &[u8; BLOCK_SIZE], offset: i64, size: u32, file_size: u64) -> (data: Option<Vec<u8>>)
    ensures
        match data {
            Some(d) => read_in_bounds(offset, size, file_size) && d@ == read_result(
                block@,
                offset,
                size,
                file_size,
            ),
            None => !read_in_bounds(offset, size, file_size),
        },
{
    let start = offset as usize;
    let want = match start.checked_add(size as usize) {
        Some(w) => w,
        None => return None,
    };
    let limit = file_size as usize;
    let end = if want < limit {
        want
    } else {
        limit
    };
    let mut data: Vec<u8> = Vec::new();
    if start < end {
        if end > BLOCK_SIZE {
            return None;
        }
        let mut k: usize = start;
        while k < end
            invariant
                start <= k <= end <= BLOCK_SIZE,
                data@ == block@.subrange(start as int, k as int),
            decreases end - k,
        {
            data.push(block[k]);
            k = k + 1;
            proof {
                assert(data@ =~= block@.subrange(start as int, k as int));
            }
        }
    }
    assert(data@ =~= read_result(block@, offset, size, file_size));
    Some(data)
}

/// Applies a size change requested by `setattr`.
pub fn set_size(inode: &mut Inode, size: Option<u64>)
    ensures
        final(inode).size == (match size {
            Some(s) => s,
            None => old(inode).size,
        }),
        final(inode).ino == old(inode).ino,
        final(inode).file_type == old(inode).file_type,
        final(inode).link_count == old(inode).link_count,
        final(inode).direct_blocks == old(inode).direct_blocks,
{
    if let Some(s) = size {
        inode.size = s;
    }
}

} // verus!

verus! {

/// A read gives back what a write wrote: after `write_file_block` put
/// `data` at `offset` (of which it wrote `written` bytes) and grew the size,
/// reading `written` bytes at `offset` returns exactly those bytes.
pub proof fn lemma_read_after_write(block: Seq<u8>, offset: i64, data: Seq<u8>, old_size: u64)
    requires
        block.len() == BLOCK_SIZE,
        0 <= offset <= BLOCK_SIZE,
        old_size <= usize::MAX,
    ensures
        ({
            let written = if data.len() < BLOCK_SIZE - offset {
                data.len() as int
            } else {
                BLOCK_SIZE - offset
            };
            let new_size = if offset + written > old_size {
                (offset + written) as u64
            } else {
                old_size
            };
            &&& read_in_bounds(offset, written as u32, new_size)
            &&& read_result(splice(block, offset as int, data.take(written)), offset, written as u32, new_size)
                == data.take(written)
        }),
{
    let written = if data.len() < BLOCK_SIZE - offset {
        data.len() as int
    } else {
        BLOCK_SIZE - offset
    };
    let new_size = if offset + written > old_size {
        (offset + written) as u64
    } else {
        old_size
    };
    let written_block = splice(block, offset as int, data.take(written));
    assert((offset as usize) as int == offset);
    assert((written as u32) as int == written);
    assert((new_size as usize) as int == new_size);
    if written > 0 {
        assert(written_block.subrange(offset as int, offset + written) =~= data.take(written));
    } else {
        assert(data.take(written) =~= Seq::<u8>::empty());
    }
}

/// A directory block read back holds the entry list that was stored: when
/// the encoded list fits in a block, the first `size` bytes of the logged
/// block are the encoded list.
pub proof fn lemma_dir_block_holds_entries(encoded: Seq<u8>)
    requires
        encoded.len() <= BLOCK_SIZE,
    ensures
        padded_block(encoded.take(encoded.len() as int)).take(encoded.len() as int) == encoded,
{
    assert(padded_block(encoded.take(encoded.len() as int)).take(encoded.len() as int) =~= encoded);
}

proof fn lemma_inos_named_append(a: Seq<DirEntry>, b: Seq<DirEntry>, name: Seq<char>)
    ensures
        inos_named(a + b, name) == inos_named(a, name) + inos_named(b, name),
    decreases b.len(),
{
    if b.len() == 0 {
        assert(a + b =~= a);
        assert(inos_named(a, name) + inos_named(b, name) =~= inos_named(a, name));
    } else {
        lemma_inos_named_append(a, b.drop_last(), name);
        assert((a + b).drop_last() =~= a + b.drop_last());
        assert((a + b).last() == b.last());
        if b.last().name@ == name {
            assert(inos_named(a, name) + inos_named(b.drop_last(), name).push(b.last().ino)
                =~= (inos_named(a, name) + inos_named(b.drop_last(), name)).push(b.last().ino));
        }
    }
}

proof fn lemma_inos_named_none(entries: Seq<DirEntry>, name: Seq<char>)
    requires
        forall|j: int| 0 <= j < entries.len() ==> #[trigger] entries[j].name@ != name,
    ensures
        inos_named(entries, name) == Seq::<u64>::empty(),
    decreases entries.len(),
{
    if entries.len() > 0 {
        let init = entries.drop_last();
        assert forall|j: int| 0 <= j < init.len() implies #[trigger] init[j].name@ != name by {
            assert(init[j] == entries[j]);
        }
        lemma_inos_named_none(init, name);
        assert(entries.last() == entries[entries.len() - 1]);
    }
}

/// A lookup finds what was added: appending an entry to a directory's list
/// makes its inode number the last candidate for its name.
pub proof fn lemma_added_entry_found(entries: Seq<DirEntry>, entry: DirEntry)
    ensures
        inos_named(entries.push(entry), entry.name@) == inos_named(entries, entry.name@).push(
            entry.ino,
        ),
{
    assert(entries.push(entry).drop_last() =~= entries);
}

/// Unlinking removes one name: removing the first entry named `name` takes
/// the first candidate off the lookup list for that name and keeps the rest.
pub proof fn lemma_remove_drops_first_candidate(entries: Seq<DirEntry>, name: Seq<char>, p: int)
    requires
        0 <= p < entries.len(),
        entries[p].name@ == name,
        forall|j: int| 0 <= j < p ==> #[trigger] entries[j].name@ != name,
    ensures
        inos_named(entries, name).len() > 0,
        inos_named(entries, name)[0] == entries[p].ino,
        inos_named(entries.remove(p), name) == inos_named(entries, name).drop_first(),
{
    let before = entries.take(p);
    let at = seq![entries[p]];
    let after = entries.skip(p + 1);
    assert(entries =~= before + at + after);
    assert(entries.remove(p) =~= before + after);
    assert forall|j: int| 0 <= j < before.len() implies #[trigger] before[j].name@ != name by {
        assert(before[j] == entries[j]);
    }
    lemma_inos_named_none(before, name);
    lemma_inos_named_append(before + at, after, name);
    lemma_inos_named_append(before, at, name);
    lemma_inos_named_append(before, after, name);
    assert(at.drop_last() =~= Seq::<DirEntry>::empty());
    assert(at.last() == entries[p]);
    assert(inos_named(at.drop_last(), name) =~= Seq::<u64>::empty());
    assert(inos_named(at, name) =~= seq![entries[p].ino]);
    assert(inos_named(entries, name) =~= seq![entries[p].ino] + inos_named(after, name));
    assert(inos_named(entries, name).drop_first() =~= inos_named(after, name));
    assert(inos_named(before + after, name) =~= inos_named(after, name));
}

} // verus!

verus! {

/// A read is clipped at the file size: for a file no longer than a block,
/// reading `size` bytes at `offset` is always in bounds, however far
/// `offset + size` reaches past the file's end (as long as it fits in a
/// `usize`), and returns exactly the file's bytes from `offset` to the
/// smaller of `offset + size` and the file size (nothing from the end of the
/// file on).
pub proof fn lemma_read_clipped_at_file_size(block: Seq<u8>, offset: i64, size: u32, file_size: u64)
    requires
        block.len() == BLOCK_SIZE,
        0 <= offset,
        offset + size <= usize::MAX,
        file_size <= BLOCK_SIZE,
    ensures
        read_in_bounds(offset, size, file_size),
        offset < file_size ==> read_result(block, offset, size, file_size) == block.subrange(
            offset as int,
            if offset + size < file_size {
                offset + size
            } else {
                file_size as int
            },
        ),
        offset >= file_size ==> read_result(block, offset, size, file_size) == Seq::<u8>::empty(),
{
    assert((offset as usize) as int == offset);
    assert((file_size as usize) as int == file_size);
}

/// A listing from the start always begins with "." and ".." (both the
/// directory itself, at offsets 1 and 2), whatever the directory holds, and
/// then lists every entry in order, entry `k` at offset `k + 3`.
pub proof fn lemma_listing_from_start(ino: u64, entries: Seq<DirEntry>)
    requires
        entries.len() + 3 <= i64::MAX,
    ensures
        listing(ino, entries, 0).len() == entries.len() + 2,
        listing(ino, entries, 0)[0] == (ino, 1i64, FileType::Directory, "."@),
        listing(ino, entries, 0)[1] == (ino, 2i64, FileType::Directory, ".."@),
        forall|k: int|
            0 <= k < entries.len() ==> #[trigger] listing(ino, entries, 0)[k + 2] == (
                entries[k].ino,
                (k + 3) as i64,
                FileType::File,
                entries[k].name@,
            ),
{
    assert((0i64 as usize) as int == 0);
}

/// A listing from a later position skips the dots and the entries before
/// it: from offset `o > 0` it lists entry `o + k` at offset `o + k + 3`, for
/// every entry from index `o` on.
pub proof fn lemma_listing_from_offset(ino: u64, entries: Seq<DirEntry>, offset: i64)
    requires
        0 < offset <= usize::MAX,
        entries.len() + 3 <= i64::MAX,
    ensures
        listing(ino, entries, offset).len() == if offset < entries.len() {
            entries.len() - offset
        } else {
            0
        },
        forall|k: int|
            0 <= k && offset + k < entries.len() ==> #[trigger] listing(ino, entries, offset)[k] == (
                entries[offset + k].ino,
                (offset + k + 3) as i64,
                FileType::File,
                entries[offset + k].name@,
            ),
{
    assert((offset as usize) as int == offset);
}

} // verus!
