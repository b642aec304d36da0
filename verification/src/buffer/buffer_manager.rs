//! The buffer pool.
//!
//! The pool holds a fixed number of frames. A frame holds the page of one block,
//! and is pinned while somebody uses it. A block is read into a frame that was
//! never used, or into one that the replacer gives up; what that frame held is
//! written to disk first, after the log records that its page depends on.

use vstd::pervasive::unreached;
use vstd::prelude::*;

use crate::assoc::{assoc_map, keys_distinct, lemma_assoc_index, lemma_assoc_witness};
use crate::block_map::BlockMap;
use crate::buffer::replacer::{none_evictable, EvictionPolicy, Replacer, ReplacerView};
use crate::file::{disk_block, disk_written, zeros, BlockId, Disk, FileManager, Page};
use crate::log::{LogManager, LogManagerView, Lsn};
use crate::txn::transaction::TxNum;

verus! {

/// What a [`Buffer`] holds.
pub ghost struct BufferView {
    /// The bytes of the page.
    pub contents: Seq<u8>,
    /// The block that the frame holds, if it holds one.
    pub block: Option<(Seq<char>, usize)>,
    /// The transaction that modified the page since it was read or written; the
    /// page is dirty exactly if there is one.
    pub txn_num: Option<TxNum>,
    /// The number of the latest log record of a modification of the page.
    pub lsn: Option<Lsn>,
}

impl BufferView {
    /// The log manager after the buffer has been flushed: the log is on disk up
    /// to the buffer's latest record, where the buffer is dirty and has one.
    pub open spec fn log_flushed(self, lm: LogManagerView) -> LogManagerView {
        match (self.txn_num, self.lsn) {
            (Some(_), Some(lsn)) => lm.flushed(lsn),
            _ => lm,
        }
    }

    /// The disk after the buffer has been flushed: where the buffer is dirty,
    /// first the log is written as far as the page depends on it, and then the
    /// page to its block.
    pub open spec fn disk_flushed(self, lm: LogManagerView, disk: Disk) -> Disk {
        let logged = match (self.txn_num, self.lsn) {
            (Some(_), Some(lsn)) => lm.disk_flushed(disk, lsn),
            _ => disk,
        };
        match (self.txn_num, self.block) {
            (Some(_), Some(block)) => disk_written(
                logged,
                block,
                self.contents,
                self.contents.len(),
            ),
            _ => logged,
        }
    }

    /// The buffer after it has been flushed: not dirty.
    pub open spec fn cleaned(self) -> BufferView {
        BufferView { txn_num: None, ..self }
    }

    /// The buffer after `block` has been read into it from `disk`.
    pub open spec fn assigned(self, block: (Seq<char>, usize), disk: Disk) -> BufferView {
        BufferView {
            contents: disk_block(disk, block, self.contents.len()),
            block: Some(block),
            txn_num: None,
            lsn: self.lsn,
        }
    }

    /// The buffer after `bytes` have been written into its page at `offset`.
    pub open spec fn written(self, offset: usize, v: crate::txn::recovery::UpdateValueView) -> BufferView {
        BufferView {
            contents: crate::file::overwrite(self.contents, offset as int, v.bytes()),
            ..self
        }
    }

    /// The buffer after transaction `txn_num` has modified it, with `lsn` as the
    /// number of the log record, where one was written.
    pub open spec fn modified(self, txn_num: TxNum, lsn: Option<Lsn>) -> BufferView {
        BufferView {
            txn_num: Some(txn_num),
            lsn: if lsn is Some {
                lsn
            } else {
                self.lsn
            },
            ..self
        }
    }
}

/// A frame of the buffer pool: a page, the block that it holds, and what is
/// needed to write it back.
pub struct Buffer {
    contents: Page,
    block: Option<BlockId>,
    txn_num: Option<TxNum>,
    lsn: Option<Lsn>,
}

impl View for Buffer {
    type V = BufferView;

    closed spec fn view(&self) -> BufferView {
        BufferView {
            contents: self.contents@,
            block: match self.block {
                Some(b) => Some(b@),
                None => None,
            },
            txn_num: self.txn_num,
            lsn: self.lsn,
        }
    }
}

impl Buffer {
    /// A frame that holds no block, with a page of `block_size` zero bytes.
    pub fn new(block_size: usize) -> (buf: Self)
        ensures
            buf@ == (BufferView {
                contents: zeros(block_size as nat),
                block: None,
                txn_num: None,
                lsn: None,
            }),
    {
        Buffer { contents: Page::new(block_size), block: None, txn_num: None, lsn: None }
    }

    /// The page.
    pub fn contents(&self) -> (p: &Page)
        ensures
            p@ == self@.contents,
    {
        &self.contents
    }

    /// The page, to write into.
    pub fn contents_mut(&mut self) -> (p: &mut Page)
        ensures
            p@ == old(self)@.contents,
            final(self)@ == (BufferView { contents: final(p)@, ..old(self)@ }),
    {
        &mut self.contents
    }

    /// The block that the frame holds, if it holds one.
    pub fn block(&self) -> (b: Option<&BlockId>)
        ensures
            match b {
                Some(block) => self@.block == Some(block@),
                None => self@.block is None,
            },
    {
        self.block.as_ref()
    }

    /// The transaction that modified the page, if it is dirty.
    pub fn modifying_txn(&self) -> (t: Option<TxNum>)
        ensures
            t == self@.txn_num,
    {
        self.txn_num
    }

    /// Records that transaction `txn_num` has modified the page. `lsn` is the
    /// number of the log record of the modification; where none was written,
    /// the number that the frame has stays.
    pub fn set_modified(&mut self, txn_num: usize, lsn: Option<Lsn>)
        ensures
            final(self)@ == old(self)@.modified(txn_num, lsn),
    {
        self.txn_num = Some(txn_num);
        if lsn.is_some() {
            self.lsn = lsn;
        }
    }

    /// Flushes the frame, and reads `block` into it.
    fn assign_to_block(&mut self, block: &BlockId, fm: &mut FileManager, lm: &mut LogManager)
        requires
            old(fm).wf(),
            old(lm).wf(old(fm)),
            old(self)@.contents.len() == old(fm).spec_block_size(),
            old(self)@.block matches Some(b) ==> b.1 < usize::MAX,
        ensures
            final(fm).continues(old(fm)),
            final(lm).wf(final(fm)),
            final(lm)@ == old(self)@.log_flushed(old(lm)@),
            final(fm).disk() == old(self)@.disk_flushed(old(lm)@, old(fm).disk()),
            final(self)@ == old(self)@.assigned(block@, final(fm).disk()),
    {
        self.flush(fm, lm);
        self.block = Some(block.clone());
        fm.read(block, &mut self.contents);
    }

    /// Writes the page to its block if it is dirty, after the log has been
    /// written up to the latest record of a modification of the page.
    fn flush(&mut self, fm: &mut FileManager, lm: &mut LogManager)
        requires
            old(fm).wf(),
            old(lm).wf(old(fm)),
            old(self)@.contents.len() == old(fm).spec_block_size(),
            old(self)@.block matches Some(b) ==> b.1 < usize::MAX,
        ensures
            final(fm).continues(old(fm)),
            final(lm).wf(final(fm)),
            final(lm)@ == old(self)@.log_flushed(old(lm)@),
            final(fm).disk() == old(self)@.disk_flushed(old(lm)@, old(fm).disk()),
            final(self)@ == old(self)@.cleaned(),
    {
        if self.txn_num.is_some() {
            if let Some(lsn) = self.lsn {
                lm.flush(fm, lsn);
            }
            if let Some(block) = &self.block {
                fm.write(block, &self.contents);
            }
            self.txn_num = None;
        }
    }
}

/// What the pool knows of a block that it holds: the frame, and how often the
/// block is pinned.
#[derive(Clone, Copy, Debug, PartialEq, Eq, Structural)]
pub struct BufferMeta {
    pub pos: usize,
    pub pins: usize,
}

impl BufferMeta {
    /// The entry after one pin has been taken off.
    pub open spec fn unpinned(self) -> BufferMeta {
        BufferMeta {
            pos: self.pos,
            pins: if self.pins > 0 {
                (self.pins - 1) as usize
            } else {
                0
            },
        }
    }
}

/// What a [`BufferManager`] holds.
pub ghost struct PoolView {
    /// The frames.
    pub frames: Seq<BufferView>,
    /// The blocks that the pool holds, each with its frame and its pins, in the
    /// order in which they came in.
    pub resident: Seq<((Seq<char>, usize), BufferMeta)>,
    /// The frames that were never used; the last one is used next.
    pub free: Seq<usize>,
    /// The replacer.
    pub replacer: ReplacerView,
    /// The size of a page.
    pub block_size: usize,
}

impl PoolView {
    /// The blocks that the pool holds, each with its frame and its pins.
    pub open spec fn table(self) -> Map<(Seq<char>, usize), BufferMeta> {
        assoc_map(self.resident)
    }

    /// Whether frame `i` is in order: its page has the size of a block; where
    /// it holds a block, the table says so, and the replacer knows the frame,
    /// as evictable exactly if the block is not pinned; where it holds none,
    /// it is one of the frames that were never used, and the replacer does not
    /// know it.
    pub open spec fn frame_ok(self, i: int) -> bool {
        &&& self.frames[i].contents.len() == self.block_size
        &&& match self.frames[i].block {
            Some(b) => {
                &&& self.table().contains_key(b)
                &&& self.table()[b].pos == i
                &&& self.replacer.flags().contains_key(i as usize)
                &&& self.replacer.flags()[i as usize] == (self.table()[b].pins == 0)
                &&& !self.free.contains(i as usize)
                &&& b.1 < usize::MAX
            },
            None => {
                &&& self.free.contains(i as usize)
                &&& self.frames[i].txn_num is None
                &&& !self.replacer.flags().contains_key(i as usize)
            },
        }
    }

    /// Whether the pool is in order: every frame is, every block of the table
    /// is in the frame that the table names, and no frame is listed twice as
    /// never used.
    pub open spec fn wf(self) -> bool {
        &&& keys_distinct(self.resident)
        &&& self.frames.len() <= usize::MAX
        &&& forall|i: int| 0 <= i < self.frames.len() ==> #[trigger] self.frame_ok(i)
        &&& forall|b: (Seq<char>, usize)| #[trigger]
            self.table().contains_key(b) ==> self.table()[b].pos < self.frames.len()
                && self.frames[self.table()[b].pos as int].block == Some(b)
        &&& forall|k: usize| #[trigger]
            self.replacer.flags().contains_key(k) ==> k < self.frames.len()
        &&& self.free.no_duplicates()
        &&& forall|j: int| 0 <= j < self.free.len() ==> #[trigger] self.free[j] < self.frames.len()
        &&& self.free.len() + self.replacer.len() <= self.frames.len()
    }

    /// The number of frames that a block can be read into: those that were
    /// never used, and those that the replacer can give up.
    pub open spec fn available(self) -> nat {
        self.free.len() + self.replacer.available()
    }

    /// Whether the pool is in order but for frame `p`, which has been taken to
    /// read a block into: it is no longer listed as never used, no block of the
    /// table is in it, and the replacer does not know it.
    pub open spec fn wf_except(self, p: int) -> bool {
        &&& keys_distinct(self.resident)
        &&& self.frames.len() <= usize::MAX
        &&& 0 <= p < self.frames.len()
        &&& self.frames[p].contents.len() == self.block_size
        &&& forall|i: int| 0 <= i < self.frames.len() && i != p ==> #[trigger] self.frame_ok(i)
        &&& forall|b: (Seq<char>, usize)| #[trigger]
            self.table().contains_key(b) ==> self.table()[b].pos < self.frames.len()
                && self.table()[b].pos != p && self.frames[self.table()[b].pos as int].block
                == Some(b)
        &&& forall|k: usize| #[trigger]
            self.replacer.flags().contains_key(k) ==> k < self.frames.len() && k != p
        &&& self.free.no_duplicates()
        &&& forall|j: int|
            0 <= j < self.free.len() ==> #[trigger] self.free[j] < self.frames.len()
                && self.free[j] != p
        &&& self.free.len() + self.replacer.len() + 1 <= self.frames.len()
    }

    /// Whether `post` is the pool after a block that it holds has been pinned
    /// once more: the block has one pin more, and the replacer has recorded an
    /// access to its frame.
    pub open spec fn pinned_again(self, post: PoolView, block: (Seq<char>, usize)) -> bool {
        let meta = self.table()[block];
        &&& post.frames == self.frames
        &&& post.free == self.free
        &&& post.block_size == self.block_size
        &&& post.table() == self.table().insert(
            block,
            BufferMeta { pos: meta.pos, pins: (meta.pins + 1) as usize },
        )
        &&& forall|i: int|
            0 <= i < self.resident.len() && (#[trigger] self.resident[i]).0 == block
                ==> post.resident == self.resident.update(
                i,
                (block, BufferMeta { pos: meta.pos, pins: (meta.pins + 1) as usize }),
            )
        &&& self.replacer.accessed(post.replacer, meta.pos)
    }

    /// Whether `post` is the pool after `block` has been read from `disk` into
    /// frame `pos`, which was never used: the frame is no longer listed, the
    /// block has one pin, and the replacer has recorded an access to the frame.
    pub open spec fn loaded_into_free(
        self,
        post: PoolView,
        block: (Seq<char>, usize),
        pos: usize,
        disk: Disk,
    ) -> bool {
        &&& pos == self.free.last()
        &&& post.free == self.free.drop_last()
        &&& post.frames == self.frames.update(
            pos as int,
            self.frames[pos as int].assigned(block, disk),
        )
        &&& post.block_size == self.block_size
        &&& post.resident == self.resident.push((block, BufferMeta { pos, pins: 1 }))
        &&& self.replacer.accessed(post.replacer, pos)
    }

    /// Whether `post` is the pool after `block` has been read from `disk` into
    /// frame `pos`, which the replacer gave up: the block that the frame held
    /// has left the table, the new block has one pin, and the replacer, having
    /// forgotten the frame, has recorded an access to it.
    pub open spec fn loaded_into_victim(
        self,
        post: PoolView,
        block: (Seq<char>, usize),
        pos: usize,
        disk: Disk,
    ) -> bool {
        &&& pos < self.frames.len()
        &&& self.frames[pos as int].block is Some
        &&& self.replacer.flags().contains_key(pos)
        &&& self.replacer.flags()[pos]
        &&& post.free == self.free
        &&& post.frames == self.frames.update(
            pos as int,
            self.frames[pos as int].assigned(block, disk),
        )
        &&& post.block_size == self.block_size
        &&& forall|i: int|
            0 <= i < self.resident.len() && (#[trigger] self.resident[i]).0
                == self.frames[pos as int].block->0 ==> post.resident == self.resident.remove(
                i,
            ).push((block, BufferMeta { pos, pins: 1 }))
        &&& exists|mid: ReplacerView| #[trigger]
            self.replacer.evicted(mid, Some(pos)) && mid.accessed(post.replacer, pos)
    }

    /// Whether frame `i` holds a block of the table that stands before position
    /// `j` of the table, and its page was modified by transaction `txn_num`.
    pub open spec fn flushed_before(self, i: int, txn_num: TxNum, j: int) -> bool {
        &&& self.frames[i].txn_num == Some(txn_num)
        &&& exists|a: int| 0 <= a < j && (#[trigger] self.resident[a]).1.pos == i
    }

    /// The frames after those that hold a block of the table and were modified
    /// by transaction `txn_num` have been flushed.
    pub open spec fn frames_flushed(self, txn_num: TxNum) -> Seq<BufferView> {
        Seq::new(
            self.frames.len(),
            |i: int|
                if self.frames[i].txn_num == Some(txn_num) && self.frames[i].block is Some {
                    self.frames[i].cleaned()
                } else {
                    self.frames[i]
                },
        )
    }

    /// The frames of the blocks of the table, in the order of the table, each
    /// as it is flushed for transaction `txn_num`: those that the transaction
    /// did not modify count as clean.
    pub open spec fn to_flush(self, txn_num: TxNum) -> Seq<BufferView> {
        Seq::new(
            self.resident.len(),
            |j: int|
                {
                    let buf = self.frames[self.resident[j].1.pos as int];
                    if buf.txn_num == Some(txn_num) {
                        buf
                    } else {
                        buf.cleaned()
                    }
                },
        )
    }

    /// Whether `post`, `lm2` and `disk2` are what the pool, the log manager and
    /// the disk become, and `r` the frame that is returned, when `block` is
    /// pinned: a block that the pool holds is pinned again; otherwise the block
    /// is read into a frame that was never used; where there is none, into one
    /// that the replacer gives up, which is flushed first; and where no frame
    /// can be given up, nothing changes and no frame is returned.
    pub open spec fn pinned(
        self,
        post: PoolView,
        block: (Seq<char>, usize),
        r: Option<usize>,
        lm: LogManagerView,
        lm2: LogManagerView,
        disk: Disk,
        disk2: Disk,
    ) -> bool {
        if self.table().contains_key(block) {
            &&& r == Some(self.table()[block].pos)
            &&& self.pinned_again(post, block)
            &&& lm2 == lm
            &&& disk2 == disk
        } else if self.free.len() > 0 {
            &&& r == Some(self.free.last())
            &&& self.loaded_into_free(post, block, self.free.last(), disk)
            &&& lm2 == lm
            &&& disk2 == disk
        } else if !none_evictable(self.replacer.flags()) {
            &&& r is Some
            &&& self.loaded_into_victim(post, block, r->0, disk2)
            &&& lm2 == self.frames[r->0 as int].log_flushed(lm)
            &&& disk2 == self.frames[r->0 as int].disk_flushed(lm, disk)
        } else {
            &&& r is None
            &&& post == self
            &&& lm2 == lm
            &&& disk2 == disk
        }
    }

    /// Whether `post` is the pool after a pin has been taken off the block that
    /// frame `handle` holds: the block has one pin less, and where it has none
    /// left, the replacer knows the frame as evictable. Nothing changes where
    /// the frame holds no block.
    pub open spec fn unpinned(self, post: PoolView, handle: usize) -> bool {
        &&& post.frames == self.frames
        &&& post.free == self.free
        &&& post.block_size == self.block_size
        &&& post.replacer.has_time() == self.replacer.has_time()
        &&& self.replacer.same_but_flags(post.replacer)
        &&& post.resident.len() == self.resident.len()
        &&& if handle < self.frames.len() && self.frames[handle as int].block is Some {
            let block = self.frames[handle as int].block->0;
            let meta = self.table()[block].unpinned();
            &&& post.table() == self.table().insert(block, meta)
            &&& forall|i: int|
                0 <= i < self.resident.len() && (#[trigger] self.resident[i]).0 == block
                    ==> post.resident == self.resident.update(i, (block, meta))
            &&& if meta.pins == 0 {
                self.replacer.flagged(post.replacer, handle, true)
            } else {
                post.replacer == self.replacer
            }
        } else {
            post == self
        }
    }

    /// Whether `post` is the pool after a pin has been taken off each block of
    /// `blocks`: each of them has one pin less, and nothing else has changed
    /// but which frames the replacer knows as evictable.
    pub open spec fn unpinned_all(
        self,
        post: PoolView,
        blocks: Map<(Seq<char>, usize), usize>,
    ) -> bool {
        &&& post.frames == self.frames
        &&& post.free == self.free
        &&& post.block_size == self.block_size
        &&& post.replacer.has_time() == self.replacer.has_time()
        &&& self.replacer.same_but_flags(post.replacer)
        &&& post.resident.len() == self.resident.len()
        &&& forall|i: int|
            0 <= i < self.resident.len() ==> #[trigger] post.resident[i] == (
                self.resident[i].0,
                if blocks.contains_key(self.resident[i].0) {
                    self.resident[i].1.unpinned()
                } else {
                    self.resident[i].1
                },
            )
    }

    /// Whether `block` can be pinned without a counter running over.
    pub open spec fn can_pin(self, block: (Seq<char>, usize)) -> bool {
        &&& self.replacer.has_time()
        &&& block.1 < usize::MAX
        &&& self.table().contains_key(block) ==> self.table()[block].pins < usize::MAX
    }
}

/// The log manager and the disk after the buffers have been flushed one after
/// the other.
pub open spec fn flush_seq(bufs: Seq<BufferView>, lm: LogManagerView, disk: Disk) -> (
    LogManagerView,
    Disk,
)
    decreases bufs.len(),
{
    if bufs.len() == 0 {
        (lm, disk)
    } else {
        let (lm1, disk1) = flush_seq(bufs.drop_last(), lm, disk);
        (bufs.last().log_flushed(lm1), bufs.last().disk_flushed(lm1, disk1))
    }
}

/// A frame was flushed before the end of the table exactly if it holds a block
/// of the table.
proof fn lemma_flushed_before_all(v: PoolView, i: int, txn_num: TxNum)
    requires
        v.wf(),
        0 <= i < v.frames.len(),
    ensures
        v.flushed_before(i, txn_num, v.resident.len() as int) <==> v.frames[i].txn_num == Some(
            txn_num,
        ) && v.frames[i].block is Some,
{
    assert(v.frame_ok(i));
    if v.frames[i].txn_num == Some(txn_num) && v.frames[i].block is Some {
        let b = v.frames[i].block->0;
        let a = lemma_assoc_witness(v.resident, b);
        assert(v.resident[a].1.pos == i);
    }
}

/// Flushing frames leaves the pool in order.
proof fn lemma_flush_all_wf(v: PoolView, post: PoolView, txn_num: TxNum)
    requires
        v.wf(),
        post == (PoolView { frames: v.frames_flushed(txn_num), ..v }),
    ensures
        post.wf(),
{
    assert forall|i: int| 0 <= i < post.frames.len() implies #[trigger] post.frame_ok(i) by {
        assert(v.frame_ok(i));
    }
    assert forall|b: (Seq<char>, usize)| #[trigger]
        post.table().contains_key(b) implies post.table()[b].pos < post.frames.len()
        && post.frames[post.table()[b].pos as int].block == Some(b) by {
        assert(v.table().contains_key(b));
    }
}

/// Changing the page of a frame, or marking a frame that holds a block as
/// modified, leaves the pool in order.
proof fn lemma_change_wf(v: PoolView, post: PoolView, handle: int)
    requires
        v.wf(),
        0 <= handle < v.frames.len(),
        post == (PoolView { frames: v.frames.update(handle, post.frames[handle]), ..v }),
        post.frames.len() == v.frames.len(),
        post.frames[handle].block == v.frames[handle].block,
        post.frames[handle].contents.len() == v.frames[handle].contents.len(),
        v.frames[handle].block is None ==> post.frames[handle].txn_num is None,
    ensures
        post.wf(),
{
    assert forall|i: int| 0 <= i < post.frames.len() implies #[trigger] post.frame_ok(i) by {
        assert(v.frame_ok(i));
    }
    assert forall|b: (Seq<char>, usize)| #[trigger]
        post.table().contains_key(b) implies post.table()[b].pos < post.frames.len()
        && post.frames[post.table()[b].pos as int].block == Some(b) by {
        assert(v.table().contains_key(b));
    }
}

/// Taking a pin off a block leaves the pool in order.
proof fn lemma_unpin_wf(v: PoolView, post: PoolView, block: (Seq<char>, usize), pins: usize)
    requires
        v.wf(),
        v.table().contains_key(block),
        post.frames == v.frames,
        post.free == v.free,
        post.block_size == v.block_size,
        keys_distinct(post.resident),
        post.table() == v.table().insert(block, BufferMeta { pos: v.table()[block].pos, pins }),
        post.replacer.len() == v.replacer.len(),
        pins == 0 ==> post.replacer.flags() == v.replacer.flags().insert(
            v.table()[block].pos,
            true,
        ),
        pins > 0 ==> post.replacer.flags() == v.replacer.flags() && v.table()[block].pins > 0,
    ensures
        post.wf(),
{
    let pos = v.table()[block].pos;
    assert forall|i: int| 0 <= i < post.frames.len() implies #[trigger] post.frame_ok(i) by {
        assert(v.frame_ok(i));
    }
    assert forall|b: (Seq<char>, usize)| #[trigger]
        post.table().contains_key(b) implies post.table()[b].pos < post.frames.len()
        && post.frames[post.table()[b].pos as int].block == Some(b) by {
        assert(v.table().contains_key(b));
    }
    assert forall|k: usize| #[trigger]
        post.replacer.flags().contains_key(k) implies k < post.frames.len() by {
        if k != pos {
            assert(v.replacer.flags().contains_key(k));
        }
    }
}

/// A block of the pool is evictable in the replacer exactly if it is not pinned;
/// a frame that holds no block is not known to the replacer.
pub proof fn lemma_evictable_iff_unpinned(v: PoolView, i: int)
    requires
        v.wf(),
        0 <= i < v.frames.len(),
    ensures
        match v.frames[i].block {
            Some(b) => {
                &&& v.table().contains_key(b)
                &&& v.replacer.flags().contains_key(i as usize)
                &&& v.replacer.flags()[i as usize] <==> v.table()[b].pins == 0
            },
            None => !v.replacer.flags().contains_key(i as usize),
        },
{
    assert(v.frame_ok(i));
}

/// At most one frame holds a block.
pub proof fn lemma_one_frame_per_block(v: PoolView, i: int, j: int)
    requires
        v.wf(),
        0 <= i < v.frames.len(),
        0 <= j < v.frames.len(),
        v.frames[i].block is Some,
        v.frames[i].block == v.frames[j].block,
    ensures
        i == j,
{
    assert(v.frame_ok(i));
    assert(v.frame_ok(j));
}

/// Write-ahead logging: when a dirty page is flushed, the log is on disk up to
/// the latest record of a modification of the page, and the page is written to
/// the disk that holds the log so far.
pub proof fn lemma_log_before_page(buf: BufferView, lm: LogManagerView, disk: Disk)
    requires
        buf.txn_num is Some,
        buf.lsn is Some,
        buf.block is Some,
        buf.lsn->0 <= lm.latest_lsn,
        lm.last_saved_lsn <= lm.latest_lsn,
    ensures
        buf.log_flushed(lm).last_saved_lsn >= buf.lsn->0,
        buf.log_flushed(lm) == lm.flushed(buf.lsn->0),
        buf.disk_flushed(lm, disk) == disk_written(
            lm.disk_flushed(disk, buf.lsn->0),
            buf.block->0,
            buf.contents,
            buf.contents.len(),
        ),
        disk_block(buf.disk_flushed(lm, disk), buf.block->0, buf.contents.len())
            == buf.contents,
{
}

/// Flushing buffers leaves the log manager as it was, but for what is on disk.
pub proof fn lemma_flush_seq_log(bufs: Seq<BufferView>, lm: LogManagerView, disk: Disk)
    ensures
        flush_seq(bufs, lm, disk).0 == (LogManagerView {
            last_saved_lsn: flush_seq(bufs, lm, disk).0.last_saved_lsn,
            ..lm
        }),
    decreases bufs.len(),
{
    if bufs.len() > 0 {
        lemma_flush_seq_log(bufs.drop_last(), lm, disk);
    }
}

/// Whether the dirty buffers of `bufs` hold blocks that differ from each other,
/// none of them a block of the log file `logfile`, in pages of `block_size`
/// bytes.
pub open spec fn flushable(bufs: Seq<BufferView>, logfile: Seq<char>, block_size: nat) -> bool {
    &&& forall|i: int|
        0 <= i < bufs.len() && (#[trigger] bufs[i]).txn_num is Some ==> bufs[i].block is Some
            && (bufs[i].block->0).0 != logfile && bufs[i].contents.len() == block_size
    &&& forall|i: int, j: int|
        0 <= i < j < bufs.len() && (#[trigger] bufs[i]).txn_num is Some && (
        #[trigger] bufs[j]).txn_num is Some ==> bufs[i].block != bufs[j].block
}

/// After buffers have been flushed one after the other, each of them that was
/// dirty is on disk: its block holds its page.
pub proof fn lemma_flush_seq_writes(
    bufs: Seq<BufferView>,
    lm: LogManagerView,
    disk: Disk,
    j: int,
)
    requires
        flushable(bufs, lm.logfile, lm.page.len()),
        lm.block.0 == lm.logfile,
        0 <= j < bufs.len(),
        bufs[j].txn_num is Some,
    ensures
        disk_block(flush_seq(bufs, lm, disk).1, bufs[j].block->0, lm.page.len())
            == bufs[j].contents,
    decreases bufs.len(),
{
    let k = bufs.len() - 1;
    let rest = bufs.drop_last();
    let (lm1, disk1) = flush_seq(rest, lm, disk);
    lemma_flush_seq_log(rest, lm, disk);
    let last = bufs[k];
    let b = bufs[j].block->0;
    if j < k {
        assert forall|i: int| 0 <= i < rest.len() implies rest[i] == bufs[i] by {}
        assert(flushable(rest, lm.logfile, lm.page.len()));
        lemma_flush_seq_writes(rest, lm, disk, j);
        assert(rest[j] == bufs[j]);
        if last.txn_num is Some {
            let logged = match last.lsn {
                Some(lsn) => lm1.disk_flushed(disk1, lsn),
                None => disk1,
            };
            assert(logged[b.0] == disk1[b.0]);
            let target = last.block->0;
            assert(target != b);
            lemma_write_elsewhere(logged, target, last.contents, b, lm.page.len());
        }
    }
}

/// Writing a block leaves what is read from any other block as it was.
pub proof fn lemma_write_elsewhere(
    disk: Disk,
    target: (Seq<char>, usize),
    data: Seq<u8>,
    other: (Seq<char>, usize),
    block_size: nat,
)
    requires
        target != other,
    ensures
        disk_block(disk_written(disk, target, data, block_size), other, block_size)
            == disk_block(disk, other, block_size),
{
}

/// Pinning a block that the pool holds leaves the pool in order.
proof fn lemma_pin_hit_wf(v: PoolView, post: PoolView, block: (Seq<char>, usize))
    requires
        v.wf(),
        v.table().contains_key(block),
        post.frames == v.frames,
        post.free == v.free,
        post.block_size == v.block_size,
        keys_distinct(post.resident),
        post.table() == v.table().insert(
            block,
            BufferMeta { pos: v.table()[block].pos, pins: (v.table()[block].pins + 1) as usize },
        ),
        v.table()[block].pins < usize::MAX,
        post.replacer.flags() == v.replacer.flags().insert(v.table()[block].pos, false),
        post.replacer.len() == v.replacer.len(),
    ensures
        post.wf(),
{
    let pos = v.table()[block].pos;
    assert forall|i: int| 0 <= i < post.frames.len() implies #[trigger] post.frame_ok(i) by {
        assert(v.frame_ok(i));
    }
    assert forall|b: (Seq<char>, usize)| #[trigger]
        post.table().contains_key(b) implies post.table()[b].pos < post.frames.len()
        && post.frames[post.table()[b].pos as int].block == Some(b) by {
        assert(v.table().contains_key(b));
    }
    assert forall|k: usize| #[trigger]
        post.replacer.flags().contains_key(k) implies k < post.frames.len() by {
        if k != pos {
            assert(v.replacer.flags().contains_key(k));
        }
    }
}

/// Taking the last of the frames that were never used leaves the pool in order
/// but for that frame.
proof fn lemma_take_free_wf(v: PoolView, post: PoolView)
    requires
        v.wf(),
        v.free.len() > 0,
        post == (PoolView { free: v.free.drop_last(), ..v }),
    ensures
        post.wf_except(v.free.last() as int),
        v.frames[v.free.last() as int].block is None,
        v.frames[v.free.last() as int].txn_num is None,
{
    let p = v.free.last() as int;
    let n = v.free.len() - 1;
    assert(v.free[n] == p);
    assert(v.frame_ok(p));
    assert forall|i: int| 0 <= i < post.frames.len() && i != p implies #[trigger] post.frame_ok(
        i,
    ) by {
        assert(v.frame_ok(i));
        if v.frames[i].block is None {
            let j = choose|j: int| 0 <= j < v.free.len() && v.free[j] == i as usize;
            assert(post.free[j] == i as usize);
        } else {
            if post.free.contains(i as usize) {
                let j = choose|j: int| 0 <= j < post.free.len() && post.free[j] == i as usize;
                assert(v.free[j] == i as usize);
            }
        }
    }
    assert forall|b: (Seq<char>, usize)| #[trigger]
        post.table().contains_key(b) implies post.table()[b].pos != p by {
        assert(v.table().contains_key(b));
    }
    assert forall|k: usize| #[trigger] post.replacer.flags().contains_key(k) implies k != p by {
        assert(v.replacer.flags().contains_key(k));
    }
    assert forall|j: int| 0 <= j < post.free.len() implies #[trigger] post.free[j] != p by {
        assert(v.free[j] != v.free[n]);
    }
}

/// Giving up a frame, and taking its block out of the table, leaves the pool
/// in order but for that frame.
proof fn lemma_take_victim_wf(v: PoolView, post: PoolView, k: usize)
    requires
        v.wf(),
        v.replacer.flags().contains_key(k),
        v.frames[k as int].block is Some,
        post.frames == v.frames,
        post.free == v.free,
        post.block_size == v.block_size,
        keys_distinct(post.resident),
        post.table() == v.table().remove(v.frames[k as int].block->0),
        post.replacer.flags() == v.replacer.flags().remove(k),
        post.replacer.len() + 1 == v.replacer.len(),
    ensures
        post.wf_except(k as int),
{
    let p = k as int;
    let ob = v.frames[p].block->0;
    assert(v.frame_ok(p));
    assert forall|i: int| 0 <= i < post.frames.len() && i != p implies #[trigger] post.frame_ok(
        i,
    ) by {
        assert(v.frame_ok(i));
    }
    assert forall|b: (Seq<char>, usize)| #[trigger]
        post.table().contains_key(b) implies post.table()[b].pos < post.frames.len()
        && post.table()[b].pos != p && post.frames[post.table()[b].pos as int].block == Some(
        b,
    ) by {
        assert(v.table().contains_key(b));
    }
    assert forall|j: usize| #[trigger]
        post.replacer.flags().contains_key(j) implies j < post.frames.len() && j != p by {
        assert(v.replacer.flags().contains_key(j));
    }
    assert forall|j: int| 0 <= j < post.free.len() implies #[trigger] post.free[j]
        < post.frames.len() && post.free[j] != p by {
        assert(v.free.contains(v.free[j]));
        assert(v.free[j] < v.frames.len());
    }
}

/// Reading a new block into the frame that was taken puts the pool in order.
proof fn lemma_load_wf(v: PoolView, post: PoolView, block: (Seq<char>, usize), p: usize)
    requires
        v.wf_except(p as int),
        !v.table().contains_key(block),
        block.1 < usize::MAX,
        post.frames.len() == v.frames.len(),
        forall|i: int| 0 <= i < v.frames.len() && i != p ==> post.frames[i] == v.frames[i],
        post.frames[p as int].block == Some(block),
        post.frames[p as int].contents.len() == v.block_size,
        post.free == v.free,
        post.block_size == v.block_size,
        keys_distinct(post.resident),
        post.table() == v.table().insert(block, BufferMeta { pos: p, pins: 1 }),
        post.replacer.flags() == v.replacer.flags().insert(p, false),
        post.replacer.len() == v.replacer.len() + 1,
    ensures
        post.wf(),
{
    assert forall|i: int| 0 <= i < post.frames.len() implies #[trigger] post.frame_ok(i) by {
        if i != p {
            assert(v.frame_ok(i));
        } else {
            if post.free.contains(p) {
                let j = choose|j: int| 0 <= j < post.free.len() && post.free[j] == p;
                assert(v.free[j] != p);
            }
        }
    }
    assert forall|b: (Seq<char>, usize)| #[trigger]
        post.table().contains_key(b) implies post.table()[b].pos < post.frames.len()
        && post.frames[post.table()[b].pos as int].block == Some(b) by {
        if b != block {
            assert(v.table().contains_key(b));
        }
    }
    assert forall|k: usize| #[trigger]
        post.replacer.flags().contains_key(k) implies k < post.frames.len() by {
        if k != p {
            assert(v.replacer.flags().contains_key(k));
        }
    }
}

/// The buffer pool.
pub struct BufferManager {
    buf_table: BlockMap<BufferMeta>,
    free_list: Vec<usize>,
    pool: Vec<Buffer>,
    replacer: Replacer,
    block_size: usize,
}

impl View for BufferManager {
    type V = PoolView;

    closed spec fn view(&self) -> PoolView {
        PoolView {
            frames: Seq::new(self.pool@.len(), |i: int| self.pool@[i]@),
            resident: self.buf_table.entries(),
            free: self.free_list@,
            replacer: self.replacer@,
            block_size: self.block_size,
        }
    }
}

impl BufferManager {
    /// The pool is in order.
    pub closed spec fn wf(&self) -> bool {
        &&& self@.wf()
        &&& self.buf_table.wf()
        &&& self.replacer.wf()
    }

    /// What the state of the pool always satisfies.
    pub proof fn lemma_wf(&self)
        requires
            self.wf(),
        ensures
            self@.wf(),
    {
    }

    /// A pool of `capacity` frames for pages of `block_size` bytes, which
    /// chooses the frames to give up by `eviction_policy`.
    pub fn new(block_size: usize, capacity: usize, eviction_policy: EvictionPolicy) -> (bm: Self)
        ensures
            bm.wf(),
            bm@.frames == Seq::new(
                capacity as nat,
                |i: int|
                    BufferView {
                        contents: zeros(block_size as nat),
                        block: None,
                        txn_num: None,
                        lsn: None,
                    },
            ),
            bm@.resident == Seq::<((Seq<char>, usize), BufferMeta)>::empty(),
            bm@.free == Seq::new(capacity as nat, |i: int| i as usize),
            bm@.replacer == ReplacerView::fresh(eviction_policy),
            bm@.block_size == block_size,
    {
        let mut pool: Vec<Buffer> = Vec::new();
        let mut free_list: Vec<usize> = Vec::new();
        let mut i: usize = 0;
        while i < capacity
            invariant
                i <= capacity,
                pool@.len() == i,
                free_list@ =~= Seq::new(i as nat, |j: int| j as usize),
                forall|j: int|
                    0 <= j < i ==> (#[trigger] pool@[j])@ == (BufferView {
                        contents: zeros(block_size as nat),
                        block: None,
                        txn_num: None,
                        lsn: None,
                    }),
            decreases capacity - i,
        {
            pool.push(Buffer::new(block_size));
            free_list.push(i);
            i += 1;
        }
        let bm = BufferManager {
            buf_table: BlockMap::new(),
            free_list,
            pool,
            replacer: Replacer::new(eviction_policy),
            block_size,
        };
        proof {
            assert(bm@.frames =~= Seq::new(
                capacity as nat,
                |i: int|
                    BufferView {
                        contents: zeros(block_size as nat),
                        block: None,
                        txn_num: None,
                        lsn: None,
                    },
            ));
            assert forall|i: int| 0 <= i < bm@.frames.len() implies #[trigger] bm@.frame_ok(i) by {
                assert(bm@.free[i] == i as usize);
            }
        }
        bm
    }

    /// Whether `block` can be pinned without a counter running over.
    pub fn can_pin(&self, block: &BlockId) -> (b: bool)
        requires
            self.wf(),
        ensures
            b == self@.can_pin(block@),
    {
        proof {
            self.buf_table.lemma_entries();
        }
        if !self.replacer.has_time() || block.number() == usize::MAX {
            return false;
        }
        match self.buf_table.get(block) {
            Some(meta) => meta.pins < usize::MAX,
            None => true,
        }
    }

    /// The number of frames.
    pub fn capacity(&self) -> (n: usize)
        ensures
            n == self@.frames.len(),
    {
        self.pool.len()
    }

    /// The frame `handle`.
    pub fn buffer(&self, handle: usize) -> (buf: &Buffer)
        requires
            handle < self@.frames.len(),
        ensures
            buf@ == self@.frames[handle as int],
    {
        &self.pool[handle]
    }


    /// Pins `block`: makes sure that a frame holds it, counts one more pin of
    /// it, and returns the frame. A block that the pool holds stays in its
    /// frame. Otherwise the block is read into a frame that was never used, or,
    /// where there is none, into one that the replacer gives up, after what
    /// that frame held has been flushed. Where every frame is pinned, the
    /// result is `None`, and nothing changes.
    pub fn pin(&mut self, block: &BlockId, fm: &mut FileManager, lm: &mut LogManager) -> (r:
        Option<usize>)
        requires
            old(self).wf(),
            old(fm).wf(),
            old(lm).wf(old(fm)),
            old(self)@.block_size == old(fm).spec_block_size(),
            old(self)@.can_pin(block@),
        ensures
            final(self).wf(),
            final(fm).continues(old(fm)),
            final(lm).wf(final(fm)),
            old(self)@.pinned(
                final(self)@,
                block@,
                r,
                old(lm)@,
                final(lm)@,
                old(fm).disk(),
                final(fm).disk(),
            ),
    {
        proof {
            self.buf_table.lemma_entries();
        }
        match self.buf_table.get(block) {
            Some(meta) => {
                let meta: BufferMeta = *meta;
                Some(self.pin_hit(block, meta))
            },
            None => {
                if self.free_list.len() > 0 {
                    Some(self.pin_free(block, fm, lm))
                } else {
                    self.pin_victim(block, fm, lm)
                }
            },
        }
    }

    /// Counts one more pin of a block that the pool holds.
    fn pin_hit(&mut self, block: &BlockId, meta: BufferMeta) -> (pos: usize)
        requires
            old(self).wf(),
            old(self)@.can_pin(block@),
            old(self)@.table().contains_key(block@),
            old(self)@.table()[block@] == meta,
        ensures
            final(self).wf(),
            pos == meta.pos,
            old(self)@.pinned_again(final(self)@, block@),
    {
        let ghost v = self@;
        self.buf_table.insert(block, BufferMeta { pos: meta.pos, pins: meta.pins + 1 });
        self.replacer.record_access(meta.pos);
        proof {
            assert(v.frame_ok(meta.pos as int));
            self.buf_table.lemma_entries();
            assert(self@.frames =~= v.frames);
            lemma_pin_hit_wf(v, self@, block@);
        }
        meta.pos
    }

    /// Reads `block` into the last of the frames that were never used.
    fn pin_free(&mut self, block: &BlockId, fm: &mut FileManager, lm: &mut LogManager) -> (pos:
        usize)
        requires
            old(self).wf(),
            old(fm).wf(),
            old(lm).wf(old(fm)),
            old(self)@.block_size == old(fm).spec_block_size(),
            old(self)@.can_pin(block@),
            !old(self)@.table().contains_key(block@),
            old(self)@.free.len() > 0,
        ensures
            final(self).wf(),
            final(fm).continues(old(fm)),
            final(lm).wf(final(fm)),
            pos == old(self)@.free.last(),
            old(self)@.loaded_into_free(final(self)@, block@, pos, old(fm).disk()),
            final(lm)@ == old(lm)@,
            final(fm).disk() == old(fm).disk(),
    {
        let ghost v = self@;
        let pos: usize = match self.free_list.pop() {
            Some(p) => p,
            None => unreached(),
        };
        let ghost v1 = PoolView { free: v.free.drop_last(), ..v };
        proof {
            assert(self@.frames =~= v.frames);
            assert(self@ == v1);
            lemma_take_free_wf(v, v1);
            self.buf_table.lemma_entries();
        }
        let buf = &mut self.pool[pos];
        buf.assign_to_block(block, fm, lm);
        self.buf_table.insert(block, BufferMeta { pos, pins: 1 });
        self.replacer.record_access(pos);
        proof {
            self.buf_table.lemma_entries();
            assert(self@.frames =~= v.frames.update(
                pos as int,
                v.frames[pos as int].assigned(block@, old(fm).disk()),
            ));
            fm.lemma_block_len(block@);
            lemma_load_wf(v1, self@, block@, pos);
        }
        pos
    }

    /// Reads `block` into a frame that the replacer gives up, if it gives one
    /// up.
    fn pin_victim(&mut self, block: &BlockId, fm: &mut FileManager, lm: &mut LogManager) -> (r:
        Option<usize>)
        requires
            old(self).wf(),
            old(fm).wf(),
            old(lm).wf(old(fm)),
            old(self)@.block_size == old(fm).spec_block_size(),
            old(self)@.can_pin(block@),
            !old(self)@.table().contains_key(block@),
        ensures
            final(self).wf(),
            final(fm).continues(old(fm)),
            final(lm).wf(final(fm)),
            !none_evictable(old(self)@.replacer.flags()) ==> {
                &&& r matches Some(pos)
                &&& old(self)@.loaded_into_victim(final(self)@, block@, pos, final(fm).disk())
                &&& final(lm)@ == old(self)@.frames[pos as int].log_flushed(old(lm)@)
                &&& final(fm).disk() == old(self)@.frames[pos as int].disk_flushed(
                    old(lm)@,
                    old(fm).disk(),
                )
            },
            none_evictable(old(self)@.replacer.flags()) ==> {
                &&& r is None
                &&& final(self)@ == old(self)@
                &&& final(lm)@ == old(lm)@
                &&& final(fm).disk() == old(fm).disk()
            },
    {
        let ghost v = self@;
        let pos: usize = match self.replacer.evict() {
            Some(p) => p,
            None => {
                assert(self@.frames =~= v.frames);
                return None;
            },
        };
        let ghost mid = self.replacer@;
        proof {
            assert(v.frame_ok(pos as int));
            self.buf_table.lemma_entries();
        }
        let old_block: BlockId = match self.pool[pos].block() {
            Some(b) => b.clone(),
            None => unreached(),
        };
        let j: usize = match self.buf_table.position(&old_block) {
            Some(j) => j,
            None => unreached(),
        };
        let _ = self.buf_table.remove_at(j);
        let ghost v1 = self@;
        proof {
            self.buf_table.lemma_entries();
            assert(v1.frames =~= v.frames);
            lemma_take_victim_wf(v, v1, pos);
        }
        let buf = &mut self.pool[pos];
        buf.assign_to_block(block, fm, lm);
        self.buf_table.insert(block, BufferMeta { pos, pins: 1 });
        self.replacer.record_access(pos);
        proof {
            self.buf_table.lemma_entries();
            assert(self@.frames =~= v.frames.update(
                pos as int,
                v.frames[pos as int].assigned(block@, fm.disk()),
            ));
            fm.lemma_block_len(block@);
            lemma_load_wf(v1, self@, block@, pos);
            assert(v.replacer.evicted(mid, Some(pos)) && mid.accessed(self@.replacer, pos));
            assert forall|i: int|
                0 <= i < v.resident.len() && (#[trigger] v.resident[i]).0
                    == v.frames[pos as int].block->0 implies self@.resident == v.resident.remove(
                i,
            ).push((block@, BufferMeta { pos, pins: 1 })) by {
                assert(v.resident[i].0 == v.resident[j as int].0);
                assert(i == j);
            }
        }
        Some(pos)
    }

    /// Takes one pin off the block that frame `handle` holds. A block that is
    /// not pinned any more can be given up: the replacer is told so. Where the
    /// frame holds no block, nothing changes.
    pub fn unpin(&mut self, handle: usize)
        requires
            old(self).wf(),
        ensures
            final(self).wf(),
            old(self)@.unpinned(final(self)@, handle),
    {
        let ghost v = self@;
        proof {
            v.replacer.lemma_same_but_flags_trans(v.replacer, v.replacer);
        }
        if handle >= self.pool.len() {
            assert(self@.frames =~= v.frames);
            return ;
        }
        proof {
            assert(v.frame_ok(handle as int));
            self.buf_table.lemma_entries();
        }
        let block: BlockId = match self.pool[handle].block() {
            Some(b) => b.clone(),
            None => {
                return ;
            },
        };
        let meta: BufferMeta = match self.buf_table.get(&block) {
            Some(m) => *m,
            None => {
                return ;
            },
        };
        let pins: usize = if meta.pins > 0 {
            meta.pins - 1
        } else {
            0
        };
        assert(BufferMeta { pos: meta.pos, pins } == meta.unpinned());
        self.buf_table.insert(&block, BufferMeta { pos: meta.pos, pins });
        if pins == 0 {
            self.replacer.set_evictable(meta.pos, true);
            proof {
                v.replacer.lemma_flagged_same_but_flags(self.replacer@, meta.pos, true);
            }
        }
        proof {
            self.buf_table.lemma_entries();
            assert(self@.frames =~= v.frames);
            lemma_unpin_wf(v, self@, block@, pins);
        }
    }

    /// Flushes every frame whose block the pool holds and whose page was
    /// modified by transaction `txn_num`, in the order of the table.
    pub fn flush_all(&mut self, txn_num: TxNum, fm: &mut FileManager, lm: &mut LogManager)
        requires
            old(self).wf(),
            old(fm).wf(),
            old(lm).wf(old(fm)),
            old(self)@.block_size == old(fm).spec_block_size(),
        ensures
            final(self).wf(),
            final(fm).continues(old(fm)),
            final(lm).wf(final(fm)),
            final(self)@ == (PoolView {
                frames: old(self)@.frames_flushed(txn_num),
                ..old(self)@
            }),
            final(lm)@ == flush_seq(old(self)@.to_flush(txn_num), old(lm)@, old(fm).disk()).0,
            final(fm).disk() == flush_seq(
                old(self)@.to_flush(txn_num),
                old(lm)@,
                old(fm).disk(),
            ).1,
    {
        let ghost v = self@;
        let ghost todo = v.to_flush(txn_num);
        let n: usize = self.buf_table.len();
        let mut j: usize = 0;
        proof {
            self.buf_table.lemma_entries();
            assert(todo.take(0) =~= Seq::<BufferView>::empty());
        }
        while j < n
            invariant
                j <= n,
                n == v.resident.len(),
                v.wf(),
                v == old(self)@,
                todo == v.to_flush(txn_num),
                self.buf_table.wf(),
                self.replacer.wf(),
                fm.continues(old(fm)),
                lm.wf(fm),
                v.block_size == fm.spec_block_size(),
                self@.resident == v.resident,
                self@.free == v.free,
                self@.replacer == v.replacer,
                self@.block_size == v.block_size,
                self@.frames.len() == v.frames.len(),
                forall|i: int|
                    0 <= i < v.frames.len() ==> #[trigger] self@.frames[i] == if v.flushed_before(
                        i,
                        txn_num,
                        j as int,
                    ) {
                        v.frames[i].cleaned()
                    } else {
                        v.frames[i]
                    },
                lm@ == flush_seq(todo.take(j as int), old(lm)@, old(fm).disk()).0,
                fm.disk() == flush_seq(todo.take(j as int), old(lm)@, old(fm).disk()).1,
            decreases n - j,
        {
            let meta: BufferMeta = *self.buf_table.value_at(j);
            let ghost before = self@;
            let ghost lm0 = lm@;
            let ghost disk0 = fm.disk();
            proof {
                lemma_assoc_index(v.resident, j as int);
                assert(v.table().contains_key(v.resident[j as int].0));
                assert(v.frame_ok(meta.pos as int));
                assert(!v.flushed_before(meta.pos as int, txn_num, j as int)) by {
                    if v.flushed_before(meta.pos as int, txn_num, j as int) {
                        let a = choose|a: int|
                            0 <= a < j && (#[trigger] v.resident[a]).1.pos == meta.pos;
                        lemma_assoc_index(v.resident, a);
                        assert(v.table().contains_key(v.resident[a].0));
                    }
                }
                assert(before.frames[meta.pos as int] == v.frames[meta.pos as int]);
                assert(self.pool@[meta.pos as int]@ == v.frames[meta.pos as int]);
            }
            let matches: bool = match self.pool[meta.pos].modifying_txn() {
                Some(t) => t == txn_num,
                None => false,
            };
            if matches {
                let buf = &mut self.pool[meta.pos];
                buf.flush(fm, lm);
            }
            proof {
                let buf = todo[j as int];
                assert(todo.take(j + 1).drop_last() =~= todo.take(j as int));
                assert(todo.take(j + 1).last() == buf);
                assert(v.resident[j as int].1 == meta);
                assert(lm@ == buf.log_flushed(lm0));
                assert(fm.disk() == buf.disk_flushed(lm0, disk0));
                assert forall|i: int| 0 <= i < v.frames.len() implies #[trigger] self@.frames[i]
                    == if v.flushed_before(i, txn_num, j + 1) {
                    v.frames[i].cleaned()
                } else {
                    v.frames[i]
                } by {
                    if i == meta.pos {
                        assert(v.resident[j as int].1.pos == i);
                    } else {
                        assert(self@.frames[i] == before.frames[i]);
                        if v.flushed_before(i, txn_num, j + 1) {
                            let a = choose|a: int|
                                0 <= a < j + 1 && (#[trigger] v.resident[a]).1.pos == i;
                            assert(a < j);
                            assert(v.flushed_before(i, txn_num, j as int));
                        }
                        if v.flushed_before(i, txn_num, j as int) {
                            let a = choose|a: int|
                                0 <= a < j && (#[trigger] v.resident[a]).1.pos == i;
                            assert(v.flushed_before(i, txn_num, j + 1));
                        }
                    }
                }
            }
            j += 1;
        }
        proof {
            assert(todo.take(n as int) =~= todo);
            assert(self@.frames =~= v.frames_flushed(txn_num)) by {
                assert forall|i: int| 0 <= i < v.frames.len() implies self@.frames[i]
                    == v.frames_flushed(txn_num)[i] by {
                    lemma_flushed_before_all(v, i, txn_num);
                }
            }
            lemma_flush_all_wf(v, self@, txn_num);
        }
    }

    /// Stores the integer `n` at `offset` of the page of frame `handle`.
    pub fn write_int(&mut self, handle: usize, offset: usize, n: i32)
        requires
            old(self).wf(),
            handle < old(self)@.frames.len(),
            offset + 4 <= old(self)@.block_size,
        ensures
            final(self).wf(),
            final(self)@ == (PoolView {
                frames: old(self)@.frames.update(
                    handle as int,
                    BufferView {
                        contents: crate::file::with_int(
                            old(self)@.frames[handle as int].contents,
                            offset as int,
                            n,
                        ),
                        ..old(self)@.frames[handle as int]
                    },
                ),
                ..old(self)@
            }),
    {
        let ghost v = self@;
        proof {
            assert(v.frame_ok(handle as int));
            crate::file::lemma_int_at_with_int(v.frames[handle as int].contents, offset as int, n);
        }
        let buf = &mut self.pool[handle];
        buf.contents.set_int(offset, n);
        proof {
            let nb = BufferView {
                contents: crate::file::with_int(
                    v.frames[handle as int].contents,
                    offset as int,
                    n,
                ),
                ..v.frames[handle as int]
            };
            assert(self@.frames =~= v.frames.update(handle as int, nb));
            lemma_change_wf(v, self@, handle as int);
        }
    }

    /// Stores the string `s` at `offset` of the page of frame `handle`.
    pub fn write_string(&mut self, handle: usize, offset: usize, s: &str)
        requires
            old(self).wf(),
            handle < old(self)@.frames.len(),
            offset + 4 + vstd::utf8::encode_utf8(s@).len() <= old(self)@.block_size,
            vstd::utf8::encode_utf8(s@).len() <= i32::MAX,
        ensures
            final(self).wf(),
            final(self)@ == (PoolView {
                frames: old(self)@.frames.update(
                    handle as int,
                    BufferView {
                        contents: crate::file::with_bytes(
                            old(self)@.frames[handle as int].contents,
                            offset as int,
                            vstd::utf8::encode_utf8(s@),
                        ),
                        ..old(self)@.frames[handle as int]
                    },
                ),
                ..old(self)@
            }),
    {
        let ghost v = self@;
        proof {
            assert(v.frame_ok(handle as int));
            crate::file::lemma_bytes_at_with_bytes(
                v.frames[handle as int].contents,
                offset as int,
                vstd::utf8::encode_utf8(s@),
            );
        }
        let buf = &mut self.pool[handle];
        buf.contents.set_string(offset, s);
        proof {
            let nb = BufferView {
                contents: crate::file::with_bytes(
                    v.frames[handle as int].contents,
                    offset as int,
                    vstd::utf8::encode_utf8(s@),
                ),
                ..v.frames[handle as int]
            };
            assert(self@.frames =~= v.frames.update(handle as int, nb));
            lemma_change_wf(v, self@, handle as int);
        }
    }

    /// Records that transaction `txn_num` has modified the page of frame
    /// `handle`, which holds a block. `lsn` is the number of the log record of
    /// the modification, where one was written.
    pub fn set_modified(&mut self, handle: usize, txn_num: TxNum, lsn: Option<Lsn>)
        requires
            old(self).wf(),
            handle < old(self)@.frames.len(),
            old(self)@.frames[handle as int].block is Some,
        ensures
            final(self).wf(),
            final(self)@ == (PoolView {
                frames: old(self)@.frames.update(
                    handle as int,
                    old(self)@.frames[handle as int].modified(txn_num, lsn),
                ),
                ..old(self)@
            }),
    {
        let ghost v = self@;
        let buf = &mut self.pool[handle];
        buf.set_modified(txn_num, lsn);
        proof {
            assert(self@.frames =~= v.frames.update(
                handle as int,
                v.frames[handle as int].modified(txn_num, lsn),
            ));
            lemma_change_wf(v, self@, handle as int);
        }
    }

    /// The number of frames that a block can be read into.
    pub fn available(&self) -> (n: usize)
        requires
            self.wf(),
        ensures
            n == self@.available(),
    {
        proof {
            self.replacer@.lemma_available_bound();
        }
        self.free_list.len() + self.replacer.available()
    }
}

} // verus!
