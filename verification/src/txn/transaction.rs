//! Transactions and the manager that creates them.
//!
//! A transaction pins the blocks that it works on, reads under a shared lock,
//! and writes under an exclusive lock, after having logged what the write
//! replaces. It ends by `commit` or by `rollback`; either way its locks and its
//! pins are given back.

use vstd::pervasive::unreached;
use vstd::prelude::*;

use crate::assoc::{lemma_assoc_index, lemma_assoc_witness};
use crate::block_map::BlockMap;
use crate::buffer::buffer_manager::{BufferManager, BufferMeta, PoolView};
use crate::file::{has_bytes_at, int_at, string_at, BlockId, FileManager};
use crate::log::{LogManager, Lsn};
use crate::txn::concurrency::ConcurrencyManager;
use crate::txn::lock_table::{Lock, LockError};
use crate::txn::recovery::{
    sealed, update_record, LogRecord, LogRecordView, RecoveryManager, UpdateValue,
    UpdateValueView,
};

verus! {

/// The number that identifies a transaction.
pub type TxNum = usize;

/// Why an operation of a transaction did not take place.
#[derive(Clone, Copy, Debug, PartialEq, Eq, Structural)]
pub enum TxnError {
    /// A lock stands in the way, and the time is not up: wait for a lock to be
    /// released, and try again.
    LockWait,
    /// A lock stands in the way, and the time is up: the transaction has to be
    /// rolled back.
    LockTimeout,
    /// No frame can be had for the block: the transaction has to be rolled back.
    PoolExhausted,
    /// The update cannot be logged: no value of the kind lies where it writes,
    /// or the log record does not fit into a block of the log.
    NotLoggable,
}

/// The error of a transaction that a refused lock makes.
pub open spec fn lock_error(e: LockError) -> TxnError {
    match e {
        LockError::WouldBlock => TxnError::LockWait,
        LockError::Timeout => TxnError::LockTimeout,
    }
}

/// The error of a transaction that a refused lock makes.
fn from_lock_error(e: LockError) -> (r: TxnError)
    ensures
        r == lock_error(e),
{
    match e {
        LockError::WouldBlock => TxnError::LockWait,
        LockError::Timeout => TxnError::LockTimeout,
    }
}

/// Where a transaction stands.
#[derive(Clone, Copy, Debug, PartialEq, Eq, Structural)]
pub enum TxnState {
    /// The transaction can pin, read and write.
    Active,
    /// The transaction has committed.
    Committed,
    /// The transaction was rolled back.
    Aborted,
}

/// The managers that transactions work on, and the number of the next
/// transaction.
pub struct TransactionManager {
    pub fm: FileManager,
    pub lm: LogManager,
    pub bm: BufferManager,
    pub concurrency_mgr: ConcurrencyManager,
    pub next_txn_num: usize,
}

impl TransactionManager {
    /// The managers are in order, and fit together: the pool's pages and the
    /// log's blocks have the block size of the store, which is large enough for
    /// the records of a transaction's begin and end.
    pub open spec fn wf(&self) -> bool {
        &&& self.fm.wf()
        &&& self.lm.wf(&self.fm)
        &&& self.bm.wf()
        &&& self.concurrency_mgr.wf()
        &&& self.bm@.block_size == self.fm.spec_block_size()
        &&& self.fm.spec_block_size() >= 16
    }

    /// A transaction manager over the three managers; the first transaction
    /// gets the number 0.
    pub fn new(fm: FileManager, lm: LogManager, bm: BufferManager) -> (tm: Self)
        ensures
            tm.fm == fm,
            tm.lm == lm,
            tm.bm == bm,
            tm.concurrency_mgr.wf(),
            tm.concurrency_mgr.holdings() == Seq::<crate::txn::concurrency::Holding>::empty(),
            tm.concurrency_mgr.table() == Map::<(Seq<char>, usize), Lock>::empty(),
            tm.next_txn_num == 0,
            fm.wf() && lm.wf(&fm) && bm.wf() && bm@.block_size == fm.spec_block_size()
                && fm.spec_block_size() >= 16 ==> tm.wf(),
    {
        TransactionManager {
            fm,
            lm,
            bm,
            concurrency_mgr: ConcurrencyManager::new(),
            next_txn_num: 0,
        }
    }

    /// Whether a transaction can be created: its number can be written into a
    /// log record, and the record can be numbered.
    pub open spec fn can_create(&self) -> bool {
        &&& self.next_txn_num < i32::MAX
        &&& self.lm.has_room()
    }

    /// Begins a transaction: gives it the next number, and writes the record
    /// that it has begun.
    pub fn create_txn(&mut self) -> (tx: Transaction)
        requires
            old(self).wf(),
            old(self).can_create(),
        ensures
            final(self).wf(),
            tx.wf(final(self)),
            tx.spec_txn_num() == old(self).next_txn_num,
            tx.state() == TxnState::Active,
            tx.pinned() == Map::<(Seq<char>, usize), usize>::empty(),
            final(self).next_txn_num == old(self).next_txn_num + 1,
            final(self).bm == old(self).bm,
            final(self).concurrency_mgr == old(self).concurrency_mgr,
            final(self).lm@ == old(self).lm@.appended(
                old(self).fm.disk(),
                (LogRecordView::Start { txn_num: tx.spec_txn_num() }).encoding(),
            ),
            final(self).fm.disk() == old(self).lm@.disk_appended(
                old(self).fm.disk(),
                (LogRecordView::Start { txn_num: tx.spec_txn_num() }).encoding(),
            ),
    {
        let txn_num: usize = self.next_txn_num;
        self.next_txn_num = self.next_txn_num + 1;
        Transaction::new(txn_num, &mut self.fm, &mut self.lm)
    }
}

/// The blocks that a transaction has pinned, each with its frame.
pub struct BufferList {
    buffers: BlockMap<usize>,
}

impl BufferList {
    /// The list is in order.
    pub closed spec fn inv(&self) -> bool {
        self.buffers.wf()
    }

    /// The blocks of the list, each with its frame, in the order in which they
    /// were pinned.
    pub closed spec fn entries(&self) -> Seq<((Seq<char>, usize), usize)> {
        self.buffers.entries()
    }

    /// The frame of each block of the list.
    pub closed spec fn map(&self) -> Map<(Seq<char>, usize), usize> {
        self.buffers.map()
    }

    /// Whether the pool holds each block of the list in the frame that the
    /// list names, with a pin.
    pub open spec fn held_in(&self, pool: PoolView) -> bool {
        forall|b: (Seq<char>, usize)| #[trigger]
            self.map().contains_key(b) ==> pool.table().contains_key(b) && pool.table()[b].pos
                == self.map()[b] && pool.table()[b].pins >= 1
    }

    /// An empty list.
    pub fn new() -> (list: Self)
        ensures
            list.inv(),
            list.map() == Map::<(Seq<char>, usize), usize>::empty(),
            list.entries() == Seq::<((Seq<char>, usize), usize)>::empty(),
    {
        BufferList { buffers: BlockMap::new() }
    }

    /// The frame of `block`, if the block is in the list.
    pub fn get(&self, block: &BlockId) -> (r: Option<usize>)
        requires
            self.inv(),
        ensures
            match r {
                Some(handle) => self.map().contains_key(block@) && self.map()[block@] == handle,
                None => !self.map().contains_key(block@),
            },
    {
        match self.buffers.get(block) {
            Some(handle) => Some(*handle),
            None => None,
        }
    }

    /// Pins `block` in the pool, and enters it with its frame. Where the pool
    /// has no frame for the block, nothing changes, and the result is `false`.
    pub fn pin(
        &mut self,
        block: &BlockId,
        bm: &mut BufferManager,
        fm: &mut FileManager,
        lm: &mut LogManager,
    ) -> (pinned: bool)
        requires
            old(self).inv(),
            old(self).held_in(old(bm)@),
            old(bm).wf(),
            old(fm).wf(),
            old(lm).wf(old(fm)),
            old(bm)@.block_size == old(fm).spec_block_size(),
            old(bm)@.can_pin(block@),
        ensures
            final(self).inv(),
            final(self).held_in(final(bm)@),
            final(bm).wf(),
            final(fm).continues(old(fm)),
            final(lm).wf(final(fm)),
            old(bm)@.pinned(
                final(bm)@,
                block@,
                if pinned {
                    Some(final(self).map()[block@])
                } else {
                    None
                },
                old(lm)@,
                final(lm)@,
                old(fm).disk(),
                final(fm).disk(),
            ),
            pinned ==> final(self).map() == old(self).map().insert(
                block@,
                final(self).map()[block@],
            ),
            !pinned ==> final(self).map() == old(self).map() && final(self).entries() == old(
                self,
            ).entries(),
    {
        let ghost pool = bm@;
        proof {
            bm.lemma_wf();
        }
        match bm.pin(block, fm, lm) {
            Some(handle) => {
                self.buffers.insert(block, handle);
                proof {
                    bm.lemma_wf();
                    lemma_pin_keeps_held(old(self).map(), pool, bm@, block@, handle);
                }
                true
            },
            None => false,
        }
    }

    /// Takes a pin off `block` in the pool, and takes the block out of the
    /// list. Where the block is not in the list, nothing changes.
    pub fn unpin(&mut self, block: &BlockId, bm: &mut BufferManager)
        requires
            old(self).inv(),
            old(self).held_in(old(bm)@),
            old(bm).wf(),
        ensures
            final(self).inv(),
            final(self).held_in(final(bm)@),
            final(bm).wf(),
            final(self).map() == old(self).map().remove(block@),
            old(self).map().contains_key(block@) ==> old(bm)@.unpinned(
                final(bm)@,
                old(self).map()[block@],
            ),
            !old(self).map().contains_key(block@) ==> final(bm)@ == old(bm)@,
    {
        let ghost pool = bm@;
        proof {
            bm.lemma_wf();
        }
        match self.buffers.get(block) {
            Some(handle) => {
                let handle: usize = *handle;
                proof {
                    assert(self.map().contains_key(block@));
                    assert(pool.table().contains_key(block@));
                    assert(pool.frames[handle as int].block == Some(block@));
                }
                bm.unpin(handle);
                let _ = self.buffers.remove(block);
                proof {
                    bm.lemma_wf();
                    assert forall|b: (Seq<char>, usize)| #[trigger]
                        self.map().contains_key(b) implies bm@.table().contains_key(b)
                        && bm@.table()[b].pos == self.map()[b] && bm@.table()[b].pins >= 1 by {
                        assert(old(self).map().contains_key(b));
                        assert(b != block@);
                    }
                }
            },
            None => {
                assert(self.buffers.map().remove(block@) =~= self.buffers.map());
            },
        }
    }

    /// Takes a pin off every block of the list, and empties the list.
    pub fn unpin_all(&mut self, bm: &mut BufferManager)
        requires
            old(self).inv(),
            old(self).held_in(old(bm)@),
            old(bm).wf(),
        ensures
            final(self).inv(),
            final(self).map() == Map::<(Seq<char>, usize), usize>::empty(),
            final(bm).wf(),
            old(bm)@.unpinned_all(final(bm)@, old(self).map()),
    {
        let ghost pool = bm@;
        let ghost mine = self.map();
        let n: usize = self.buffers.len();
        let mut j: usize = 0;
        proof {
            bm.lemma_wf();
            self.buffers.lemma_entries();
            pool.replacer.lemma_same_but_flags_trans(pool.replacer, pool.replacer);
        }
        while j < n
            invariant
                j <= n,
                n == self.entries().len(),
                self.inv(),
                self.map() == mine,
                self.entries() == old(self).entries(),
                self.held_in(pool),
                pool.wf(),
                bm.wf(),
                bm@.frames == pool.frames,
                bm@.free == pool.free,
                bm@.block_size == pool.block_size,
                pool.replacer.same_but_flags(bm@.replacer),
                bm@.replacer.has_time() == pool.replacer.has_time(),
                bm@.resident.len() == pool.resident.len(),
                forall|i: int|
                    0 <= i < pool.resident.len() ==> #[trigger] bm@.resident[i] == (
                        pool.resident[i].0,
                        if exists|a: int|
                            0 <= a < j && (#[trigger] self.entries()[a]).0 == pool.resident[i].0 {
                            pool.resident[i].1.unpinned()
                        } else {
                            pool.resident[i].1
                        },
                    ),
            decreases n - j,
        {
            let handle: usize = *self.buffers.value_at(j);
            let ghost before = bm@;
            let ghost block = self.entries()[j as int].0;
            proof {
                self.buffers.lemma_entries();
                bm.lemma_wf();
                lemma_assoc_index(self.entries(), j as int);
                assert(mine.contains_key(block));
                assert(pool.table().contains_key(block));
                assert(pool.frames[handle as int].block == Some(block));
                let i0 = lemma_assoc_witness(pool.resident, block);
                assert(before.resident[i0].0 == block);
                lemma_assoc_index(before.resident, i0);
                assert(!(exists|a: int|
                    0 <= a < j && (#[trigger] self.entries()[a]).0 == pool.resident[i0].0)) by {
                    if exists|a: int|
                        0 <= a < j && (#[trigger] self.entries()[a]).0 == pool.resident[i0].0 {
                        let a = choose|a: int|
                            0 <= a < j && (#[trigger] self.entries()[a]).0
                                == pool.resident[i0].0;
                        assert(self.entries()[a].0 == self.entries()[j as int].0);
                    }
                }
            }
            bm.unpin(handle);
            proof {
                bm.lemma_wf();
                pool.replacer.lemma_same_but_flags_trans(before.replacer, bm@.replacer);
                let i0 = lemma_assoc_witness(pool.resident, block);
                assert(before.resident[i0].0 == block);
                assert(bm@.resident == before.resident.update(
                    i0,
                    (block, before.table()[block].unpinned()),
                ));
                assert forall|i: int| 0 <= i < pool.resident.len() implies #[trigger] bm@.resident[i]
                    == (
                    pool.resident[i].0,
                    if exists|a: int|
                        0 <= a < j + 1 && (#[trigger] self.entries()[a]).0 == pool.resident[i].0 {
                        pool.resident[i].1.unpinned()
                    } else {
                        pool.resident[i].1
                    },
                ) by {
                    if i == i0 {
                        assert(self.entries()[j as int].0 == pool.resident[i].0);
                    } else {
                        assert(pool.resident[i].0 != pool.resident[i0].0);
                        if exists|a: int|
                            0 <= a < j + 1 && (#[trigger] self.entries()[a]).0
                                == pool.resident[i].0 {
                            let a = choose|a: int|
                                0 <= a < j + 1 && (#[trigger] self.entries()[a]).0
                                    == pool.resident[i].0;
                            assert(a < j);
                        }
                        if exists|a: int|
                            0 <= a < j && (#[trigger] self.entries()[a]).0 == pool.resident[i].0 {
                            let a = choose|a: int|
                                0 <= a < j && (#[trigger] self.entries()[a]).0
                                    == pool.resident[i].0;
                            assert(0 <= a < j + 1);
                        }
                    }
                }
            }
            j += 1;
        }
        proof {
            assert forall|i: int| 0 <= i < pool.resident.len() implies #[trigger] bm@.resident[i]
                == (
                pool.resident[i].0,
                if mine.contains_key(pool.resident[i].0) {
                    pool.resident[i].1.unpinned()
                } else {
                    pool.resident[i].1
                },
            ) by {
                let b = pool.resident[i].0;
                if mine.contains_key(b) {
                    let a = lemma_assoc_witness(self.entries(), b);
                    assert(self.entries()[a].0 == b);
                }
                if exists|a: int| 0 <= a < n && (#[trigger] self.entries()[a]).0 == b {
                    let a = choose|a: int| 0 <= a < n && (#[trigger] self.entries()[a]).0 == b;
                    lemma_assoc_index(self.entries(), a);
                }
            }
        }
        self.buffers.clear();
    }
}

/// Pinning a block keeps the blocks that a list names where they are.
proof fn lemma_pin_keeps_held(
    mine: Map<(Seq<char>, usize), usize>,
    pre: PoolView,
    post: PoolView,
    block: (Seq<char>, usize),
    handle: usize,
)
    requires
        pre.wf(),
        post.wf(),
        pre.can_pin(block),
        forall|b: (Seq<char>, usize)| #[trigger]
            mine.contains_key(b) ==> pre.table().contains_key(b) && pre.table()[b].pos == mine[b]
                && pre.table()[b].pins >= 1,
        exists|lm, lm2, disk, disk2| pre.pinned(post, block, Some(handle), lm, lm2, disk, disk2),
    ensures
        forall|b: (Seq<char>, usize)| #[trigger]
            mine.insert(block, handle).contains_key(b) ==> post.table().contains_key(b)
                && post.table()[b].pos == mine.insert(block, handle)[b] && post.table()[b].pins
                >= 1,
{
    assert forall|b: (Seq<char>, usize)| #[trigger]
        mine.insert(block, handle).contains_key(b) implies post.table().contains_key(b)
        && post.table()[b].pos == mine.insert(block, handle)[b] && post.table()[b].pins >= 1 by {
        assert(post.frame_ok(handle as int));
        if pre.table().contains_key(block) {
        } else if pre.free.len() > 0 {
            crate::assoc::lemma_assoc_push(
                pre.resident,
                block,
                BufferMeta { pos: handle, pins: 1 },
            );
        } else {
            assert(pre.frame_ok(handle as int));
            let ob = pre.frames[handle as int].block->0;
            let i = lemma_assoc_witness(pre.resident, ob);
            crate::assoc::lemma_assoc_remove(pre.resident, i);
            crate::assoc::lemma_assoc_push(
                pre.resident.remove(i),
                block,
                BufferMeta { pos: handle, pins: 1 },
            );
            if b != block {
                assert(mine.contains_key(b));
                assert(pre.table()[b].pins >= 1);
                assert(b != ob);
            }
        }
    }
}

/// A transaction.
pub struct Transaction {
    buffers: BufferList,
    txn_num: TxNum,
    state: TxnState,
}

impl Transaction {
    /// The number of the transaction.
    pub closed spec fn spec_txn_num(&self) -> TxNum {
        self.txn_num
    }

    /// Where the transaction stands.
    pub closed spec fn state(&self) -> TxnState {
        self.state
    }

    /// The blocks that the transaction has pinned, each with its frame.
    pub closed spec fn pinned(&self) -> Map<(Seq<char>, usize), usize> {
        self.buffers.map()
    }

    /// The transaction's list of pinned blocks.
    pub closed spec fn list(&self) -> BufferList {
        self.buffers
    }

    /// The transaction is in order with respect to the managers: its number
    /// can be written into a log record, and the pool holds each block that it
    /// has pinned in the frame that it knows, with a pin.
    pub open spec fn wf(&self, tm: &TransactionManager) -> bool {
        &&& self.list().inv()
        &&& self.list().map() == self.pinned()
        &&& self.spec_txn_num() <= i32::MAX
        &&& self.list().held_in(tm.bm@)
    }

    /// Begins transaction `txn_num`: writes the record that it has begun.
    fn new(txn_num: usize, fm: &mut FileManager, lm: &mut LogManager) -> (tx: Self)
        requires
            old(lm).wf(old(fm)),
            old(fm).wf(),
            old(lm).has_room(),
            txn_num <= i32::MAX,
            old(fm).spec_block_size() >= 16,
        ensures
            final(lm).wf(final(fm)),
            final(fm).continues(old(fm)),
            tx.spec_txn_num() == txn_num,
            tx.state() == TxnState::Active,
            tx.pinned() == Map::<(Seq<char>, usize), usize>::empty(),
            tx.list().inv(),
            tx.list().map() == tx.pinned(),
            final(lm)@ == old(lm)@.appended(
                old(fm).disk(),
                (LogRecordView::Start { txn_num }).encoding(),
            ),
            final(fm).disk() == old(lm)@.disk_appended(
                old(fm).disk(),
                (LogRecordView::Start { txn_num }).encoding(),
            ),
    {
        let _ = RecoveryManager::start(lm, fm, txn_num);
        Transaction { buffers: BufferList::new(), txn_num, state: TxnState::Active }
    }

    /// The number of the transaction.
    pub fn txn_num(&self) -> (n: TxNum)
        ensures
            n == self.spec_txn_num(),
    {
        self.txn_num
    }

    /// Whether `post` is `pre` with nothing changed but the concurrency
    /// manager.
    pub open spec fn only_locks_changed(pre: &TransactionManager, post: &TransactionManager) -> bool {
        &&& post.fm == pre.fm
        &&& post.lm == pre.lm
        &&& post.bm == pre.bm
        &&& post.next_txn_num == pre.next_txn_num
    }

    /// Pins `block`, and enters it with its frame into the transaction's list.
    /// Where the pool has no frame for the block, or a counter of the pool
    /// would run over, nothing changes, and the result is
    /// [`TxnError::PoolExhausted`].
    pub fn pin(&mut self, tm: &mut TransactionManager, block: &BlockId) -> (r: Result<
        (),
        TxnError,
    >)
        requires
            old(tm).wf(),
            old(self).wf(old(tm)),
            old(self).state() == TxnState::Active,
        ensures
            final(tm).wf(),
            final(self).wf(final(tm)),
            final(self).state() == old(self).state(),
            final(self).spec_txn_num() == old(self).spec_txn_num(),
            final(tm).concurrency_mgr == old(tm).concurrency_mgr,
            final(tm).next_txn_num == old(tm).next_txn_num,
            final(tm).fm.continues(&old(tm).fm),
            r is Err ==> r == Err::<(), TxnError>(TxnError::PoolExhausted) && final(self).pinned()
                == old(self).pinned(),
            r is Ok ==> final(self).pinned() == old(self).pinned().insert(
                block@,
                final(self).pinned()[block@],
            ),
            !old(tm).bm@.can_pin(block@) ==> {
                &&& r is Err
                &&& final(tm).bm@ == old(tm).bm@
                &&& final(tm).lm@ == old(tm).lm@
                &&& final(tm).fm.disk() == old(tm).fm.disk()
            },
            old(tm).bm@.can_pin(block@) ==> old(tm).bm@.pinned(
                final(tm).bm@,
                block@,
                if r is Ok {
                    Some(final(self).pinned()[block@])
                } else {
                    None
                },
                old(tm).lm@,
                final(tm).lm@,
                old(tm).fm.disk(),
                final(tm).fm.disk(),
            ),
    {
        if !tm.bm.can_pin(block) {
            return Err(TxnError::PoolExhausted);
        }
        if self.buffers.pin(block, &mut tm.bm, &mut tm.fm, &mut tm.lm) {
            Ok(())
        } else {
            Err(TxnError::PoolExhausted)
        }
    }

    /// Takes a pin off `block`, and takes the block out of the transaction's
    /// list. Where the transaction has not pinned the block, nothing changes.
    pub fn unpin(&mut self, tm: &mut TransactionManager, block: &BlockId)
        requires
            old(tm).wf(),
            old(self).wf(old(tm)),
            old(self).state() == TxnState::Active,
        ensures
            final(tm).wf(),
            final(self).wf(final(tm)),
            final(self).state() == old(self).state(),
            final(self).spec_txn_num() == old(self).spec_txn_num(),
            final(tm).concurrency_mgr == old(tm).concurrency_mgr,
            final(tm).next_txn_num == old(tm).next_txn_num,
            final(tm).fm == old(tm).fm,
            final(tm).lm == old(tm).lm,
            final(self).pinned() == old(self).pinned().remove(block@),
            old(self).pinned().contains_key(block@) ==> old(tm).bm@.unpinned(
                final(tm).bm@,
                old(self).pinned()[block@],
            ),
            !old(self).pinned().contains_key(block@) ==> final(tm).bm@ == old(tm).bm@,
    {
        self.buffers.unpin(block, &mut tm.bm);
    }

    /// Reads the integer at `offset` of `block`, which the transaction has
    /// pinned, under a shared lock. `waited_ms` says how long the transaction
    /// has waited for the lock.
    pub fn get_int(
        &self,
        tm: &mut TransactionManager,
        block: &BlockId,
        offset: usize,
        waited_ms: u64,
    ) -> (r: Result<i32, TxnError>)
        requires
            old(tm).wf(),
            self.wf(old(tm)),
            self.state() == TxnState::Active,
            self.pinned().contains_key(block@),
            offset + 4 <= old(tm).fm.spec_block_size(),
        ensures
            final(tm).wf(),
            self.wf(final(tm)),
            Self::only_locks_changed(old(tm), final(tm)),
            match r {
                Ok(n) => {
                    &&& old(tm).concurrency_mgr.s_locked(
                        &final(tm).concurrency_mgr,
                        self.spec_txn_num(),
                        block@,
                        waited_ms,
                        Ok(()),
                    )
                    &&& n == int_at(
                        old(tm).bm@.frames[self.pinned()[block@] as int].contents,
                        offset as int,
                    )
                },
                Err(e) => exists|refused: LockError|
                    {
                        &&& #[trigger] lock_error(refused) == e
                        &&& old(tm).concurrency_mgr.s_locked(
                            &final(tm).concurrency_mgr,
                            self.spec_txn_num(),
                            block@,
                            waited_ms,
                            Err(refused),
                        )
                    },
            },
    {
        match tm.concurrency_mgr.s_lock(self.txn_num, block, waited_ms) {
            Err(e) => {
                let te = from_lock_error(e);
                assert(lock_error(e) == te);
                return Err(te);
            },
            Ok(()) => {},
        }
        proof {
            tm.bm.lemma_wf();
        }
        let handle: usize = match self.buffers.get(block) {
            Some(h) => h,
            None => unreached(),
        };
        proof {
            assert(tm.bm@.frame_ok(handle as int));
        }
        Ok(tm.bm.buffer(handle).contents().get_int(offset))
    }

    /// Reads the string at `offset` of `block`, which the transaction has
    /// pinned, under a shared lock. `waited_ms` says how long the transaction
    /// has waited for the lock.
    pub fn get_string(
        &self,
        tm: &mut TransactionManager,
        block: &BlockId,
        offset: usize,
        waited_ms: u64,
    ) -> (r: Result<String, TxnError>)
        requires
            old(tm).wf(),
            self.wf(old(tm)),
            self.state() == TxnState::Active,
            self.pinned().contains_key(block@),
            has_bytes_at(
                old(tm).bm@.frames[self.pinned()[block@] as int].contents,
                offset as int,
            ),
        ensures
            final(tm).wf(),
            self.wf(final(tm)),
            Self::only_locks_changed(old(tm), final(tm)),
            match r {
                Ok(s) => {
                    &&& old(tm).concurrency_mgr.s_locked(
                        &final(tm).concurrency_mgr,
                        self.spec_txn_num(),
                        block@,
                        waited_ms,
                        Ok(()),
                    )
                    &&& s@ == string_at(
                        old(tm).bm@.frames[self.pinned()[block@] as int].contents,
                        offset as int,
                    )
                },
                Err(e) => exists|refused: LockError|
                    {
                        &&& #[trigger] lock_error(refused) == e
                        &&& old(tm).concurrency_mgr.s_locked(
                            &final(tm).concurrency_mgr,
                            self.spec_txn_num(),
                            block@,
                            waited_ms,
                            Err(refused),
                        )
                    },
            },
    {
        match tm.concurrency_mgr.s_lock(self.txn_num, block, waited_ms) {
            Err(e) => {
                let te = from_lock_error(e);
                assert(lock_error(e) == te);
                return Err(te);
            },
            Ok(()) => {},
        }
        proof {
            tm.bm.lemma_wf();
        }
        let handle: usize = match self.buffers.get(block) {
            Some(h) => h,
            None => unreached(),
        };
        Ok(tm.bm.buffer(handle).contents().get_string(offset))
    }

    /// Writes `v` at `offset` of `block`, which the transaction has pinned,
    /// under an exclusive lock, and marks the frame as modified by the
    /// transaction. With `ok_to_log`, the record of the update is written to the
    /// log first, with the value that `v` replaces; where there is no such
    /// record, nothing is written, and the result is
    /// [`TxnError::NotLoggable`]. `waited_ms` says how long the transaction has
    /// waited for the lock.
    pub fn set_value(
        &mut self,
        tm: &mut TransactionManager,
        block: &BlockId,
        offset: usize,
        v: &UpdateValue,
        ok_to_log: bool,
        waited_ms: u64,
    ) -> (r: Result<(), TxnError>)
        requires
            old(tm).wf(),
            old(self).wf(old(tm)),
            old(self).state() == TxnState::Active,
            old(self).pinned().contains_key(block@),
            offset + v@.bytes().len() <= old(tm).fm.spec_block_size(),
            ok_to_log ==> old(tm).lm.has_room(),
        ensures
            final(tm).wf(),
            final(self).wf(final(tm)),
            final(self).state() == old(self).state(),
            final(self).spec_txn_num() == old(self).spec_txn_num(),
            final(self).pinned() == old(self).pinned(),
            final(tm).next_txn_num == old(tm).next_txn_num,
            final(tm).fm.continues(&old(tm).fm),
            Self::value_set(
                old(self).spec_txn_num(),
                old(self).pinned(),
                old(tm),
                final(tm),
                block@,
                offset,
                v@,
                ok_to_log,
                waited_ms,
                r,
            ),
    {
        proof {
            tm.bm.lemma_wf();
        }
        let ghost handle0 = self.pinned()[block@];
        let ghost frame = tm.bm@.frames[handle0 as int];
        match tm.concurrency_mgr.x_lock(self.txn_num, block, waited_ms) {
            Err(e) => {
                let te = from_lock_error(e);
                assert(lock_error(e) == te);
                return Err(te);
            },
            Ok(()) => {},
        }
        proof {
            tm.bm.lemma_wf();
            crate::txn::recovery::lemma_value_len(v@);
        }
        let handle: usize = match self.buffers.get(block) {
            Some(h) => h,
            None => unreached(),
        };
        proof {
            assert(tm.bm@.frame_ok(handle as int));
        }
        let mut lsn: Option<Lsn> = None;
        if ok_to_log {
            match RecoveryManager::set_update(
                &mut tm.lm,
                &mut tm.fm,
                self.txn_num,
                tm.bm.buffer(handle),
                offset,
                v,
            ) {
                Some(l) => {
                    lsn = Some(l);
                },
                None => {
                    return Err(TxnError::NotLoggable);
                },
            }
        }
        match v {
            UpdateValue::INT(n) => tm.bm.write_int(handle, offset, *n),
            UpdateValue::STRING(s) => tm.bm.write_string(handle, offset, s.as_str()),
        }
        proof {
            tm.bm.lemma_wf();
        }
        tm.bm.set_modified(handle, self.txn_num, lsn);
        proof {
            assert(tm.bm@.frames[handle as int] == frame.written(offset, v@).modified(
                self.txn_num,
                lsn,
            ));
            assert(tm.bm@.frames =~= old(tm).bm@.frames.update(
                handle as int,
                frame.written(offset, v@).modified(self.txn_num, lsn),
            ));
        }
        Ok(())
    }

    /// Whether `post` is what the managers become, and `r` the result, when the
    /// transaction writes `v` at `offset` of `block`: where the exclusive lock
    /// is refused, nothing else changes; where the update is to be logged and
    /// cannot be, the lock is the only change; otherwise the record is written,
    /// if the update is to be logged, the value is written into the page of the
    /// block's frame, and the frame is marked as modified.
    pub open spec fn value_set(
        txn_num: TxNum,
        pinned: Map<(Seq<char>, usize), usize>,
        pre: &TransactionManager,
        post: &TransactionManager,
        block: (Seq<char>, usize),
        offset: usize,
        v: UpdateValueView,
        ok_to_log: bool,
        waited_ms: u64,
        r: Result<(), TxnError>,
    ) -> bool {
        let handle = pinned[block];
        let frame = pre.bm@.frames[handle as int];
        let record = update_record(
            txn_num,
            frame,
            offset,
            v,
            pre.fm.spec_block_size(),
        );
        if r is Err && r != Err::<(), TxnError>(TxnError::NotLoggable) {
            &&& exists|refused: LockError|
                {
                    &&& #[trigger] lock_error(refused) == r->Err_0
                    &&& pre.concurrency_mgr.x_locked_by(
                        &post.concurrency_mgr,
                        txn_num,
                        block,
                        waited_ms,
                        Err(refused),
                    )
                }
            &&& post.bm@ == pre.bm@
            &&& post.lm@ == pre.lm@
            &&& post.fm.disk() == pre.fm.disk()
        } else {
            &&& pre.concurrency_mgr.x_locked_by(
                &post.concurrency_mgr,
                txn_num,
                block,
                waited_ms,
                Ok(()),
            )
            &&& if ok_to_log && record is None {
                &&& r == Err::<(), TxnError>(TxnError::NotLoggable)
                &&& post.bm@ == pre.bm@
                &&& post.lm@ == pre.lm@
                &&& post.fm.disk() == pre.fm.disk()
            } else {
                let lsn = if ok_to_log {
                    Some((pre.lm@.latest_lsn + 1) as Lsn)
                } else {
                    None
                };
                &&& r is Ok
                &&& post.bm@ == (PoolView {
                    frames: pre.bm@.frames.update(
                        handle as int,
                        frame.written(offset, v).modified(txn_num, lsn),
                    ),
                    ..pre.bm@
                })
                &&& post.lm@ == if ok_to_log {
                    pre.lm@.appended(pre.fm.disk(), record->0.encoding())
                } else {
                    pre.lm@
                }
                &&& post.fm.disk() == if ok_to_log {
                    pre.lm@.disk_appended(pre.fm.disk(), record->0.encoding())
                } else {
                    pre.fm.disk()
                }
            }
        }
    }

    /// Commits the transaction: flushes the frames that it modified, writes the
    /// record that it has committed, writes the log to disk, gives back its
    /// locks, and takes its pins off. Returns whether a lock left the lock
    /// table, in which case those who wait for a lock are to be woken.
    pub fn commit(&mut self, tm: &mut TransactionManager) -> (wake: bool)
        requires
            old(tm).wf(),
            old(self).wf(old(tm)),
            old(self).state() == TxnState::Active,
            old(tm).lm.has_room(),
        ensures
            final(tm).wf(),
            final(self).wf(final(tm)),
            final(self).state() == TxnState::Committed,
            final(self).spec_txn_num() == old(self).spec_txn_num(),
            final(self).pinned() == Map::<(Seq<char>, usize), usize>::empty(),
            final(tm).next_txn_num == old(tm).next_txn_num,
            final(tm).fm.continues(&old(tm).fm),
            old(tm).concurrency_mgr.released(&final(tm).concurrency_mgr, old(self).spec_txn_num()),
            wake == old(tm).concurrency_mgr.wakes(old(self).spec_txn_num()),
            (PoolView {
                frames: old(tm).bm@.frames_flushed(old(self).spec_txn_num()),
                ..old(tm).bm@
            }).unpinned_all(final(tm).bm@, old(self).pinned()),
            final(tm).lm@ == sealed(
                old(tm).bm@.to_flush(old(self).spec_txn_num()),
                old(tm).lm@,
                old(tm).fm.disk(),
                (LogRecordView::Commit { txn_num: old(self).spec_txn_num() }).encoding(),
            ).0,
            final(tm).fm.disk() == sealed(
                old(tm).bm@.to_flush(old(self).spec_txn_num()),
                old(tm).lm@,
                old(tm).fm.disk(),
                (LogRecordView::Commit { txn_num: old(self).spec_txn_num() }).encoding(),
            ).1,
    {
        RecoveryManager::commit(&mut tm.bm, &mut tm.lm, &mut tm.fm, self.txn_num);
        let wake = tm.concurrency_mgr.release(self.txn_num);
        self.buffers.unpin_all(&mut tm.bm);
        self.state = TxnState::Committed;
        wake
    }

    /// Whether the pin that `pin` asks of the pool for `block` brings a frame.
    pub open spec fn pin_succeeds(pre: &TransactionManager, block: (Seq<char>, usize)) -> bool {
        &&& pre.bm@.can_pin(block)
        &&& pre.bm@.table().contains_key(block) || pre.bm@.free.len() > 0
            || !crate::buffer::replacer::none_evictable(pre.bm@.replacer.flags())
    }

    /// Whether `post` is what the managers become, and `r` the result, when the
    /// transaction `txn_num`, which has pinned the blocks of `pinned`, undoes
    /// `record`. An update whose value lies within a page is undone by writing
    /// the value that it carries where it stood, without logging; the block is
    /// pinned for the time of the writing: `m1` and `m2` are the managers after
    /// the pinning and after the writing, and `handle` is the frame. Undoing
    /// any other record changes nothing.
    #[verifier::opaque]
    pub open spec fn undone(
        txn_num: TxNum,
        pinned: Map<(Seq<char>, usize), usize>,
        pre: &TransactionManager,
        m1: &TransactionManager,
        handle: usize,
        m2: &TransactionManager,
        post: &TransactionManager,
        record: LogRecordView,
        waited_ms: u64,
        r: Result<(), TxnError>,
    ) -> bool {
        match record {
            LogRecordView::Update { value, offset, block, .. } => {
                if offset + value.bytes().len() > pre.fm.spec_block_size() {
                    r is Ok && post == pre
                } else if !Self::pin_succeeds(pre, block) {
                    &&& r == Err::<(), TxnError>(TxnError::PoolExhausted)
                    &&& post.bm@ == pre.bm@
                    &&& post.lm@ == pre.lm@
                    &&& post.fm.disk() == pre.fm.disk()
                    &&& post.concurrency_mgr == pre.concurrency_mgr
                } else {
                    &&& pre.bm@.pinned(
                        m1.bm@,
                        block,
                        Some(handle),
                        pre.lm@,
                        m1.lm@,
                        pre.fm.disk(),
                        m1.fm.disk(),
                    )
                    &&& m1.concurrency_mgr == pre.concurrency_mgr
                    &&& m1.fm.spec_block_size() == pre.fm.spec_block_size()
                    &&& Self::value_set(
                        txn_num,
                        pinned.insert(block, handle),
                        m1,
                        m2,
                        block,
                        offset,
                        value,
                        false,
                        waited_ms,
                        r,
                    )
                    &&& m2.bm@.unpinned(post.bm@, handle)
                    &&& post.lm == m2.lm
                    &&& post.fm == m2.fm
                    &&& post.concurrency_mgr == m2.concurrency_mgr
                }
            },
            _ => r is Ok && post == pre,
        }
    }

    /// Undoes `record`: pins the block of an update, writes the value that the
    /// update carries where it stood, without logging, and takes the pin off
    /// again. A block that the transaction has pinned stays in its list. Other
    /// records are left alone, and so is an update whose value does not lie
    /// within a page.
    pub fn undo(
        &mut self,
        tm: &mut TransactionManager,
        record: &LogRecord,
        waited_ms: u64,
    ) -> (r: Result<(), TxnError>)
        requires
            old(tm).wf(),
            old(self).wf(old(tm)),
            old(self).state() == TxnState::Active,
        ensures
            final(tm).wf(),
            final(self).wf(final(tm)),
            final(self).state() == old(self).state(),
            final(self).spec_txn_num() == old(self).spec_txn_num(),
            final(self).pinned() == old(self).pinned(),
            final(tm).next_txn_num == old(tm).next_txn_num,
            final(tm).fm.continues(&old(tm).fm),
            final(tm).lm@.latest_lsn == old(tm).lm@.latest_lsn,
            exists|m1: TransactionManager, handle: usize, m2: TransactionManager| #[trigger]
                Self::undone(
                    old(self).spec_txn_num(),
                    old(self).pinned(),
                    old(tm),
                    &m1,
                    handle,
                    &m2,
                    final(tm),
                    record@,
                    waited_ms,
                    r,
                ),
    {
        let ghost pre = *tm;
        let ghost me = *self;
        reveal(Transaction::undone);
        match record {
            LogRecord::Update { value, offset, block, .. } => {
                proof {
                    crate::txn::recovery::lemma_value_len(value@);
                }
                let block_size: usize = tm.fm.block_size();
                let fits: bool = match value {
                    UpdateValue::INT(_) => block_size >= 4 && *offset <= block_size - 4,
                    UpdateValue::STRING(s) => {
                        let len: usize = s.as_str().as_bytes().len();
                        block_size >= 4 && len <= block_size - 4 && *offset <= block_size - 4
                            - len
                    },
                };
                if !fits {
                    assert(Self::undone(me.spec_txn_num(), me.pinned(), &pre, &pre, 0, &pre, &(*tm), record@, waited_ms, Ok(())));
                    return Ok(());
                }
                let listed: bool = self.buffers.get(block).is_some();
                proof {
                    tm.bm.lemma_wf();
                }
                match self.pin(tm, block) {
                    Err(e) => {
                        assert(Self::undone(me.spec_txn_num(), me.pinned(), &pre, &pre, 0, &pre, &(*tm), record@, waited_ms, Err(e)));
                        return Err(e);
                    },
                    Ok(()) => {},
                }
                let ghost m1 = *tm;
                let ghost handle = self.pinned()[block@];
                let r = self.set_value(tm, block, *offset, value, false, waited_ms);
                let ghost m2 = *tm;
                if listed {
                    let frame: usize = match self.buffers.get(block) {
                        Some(h) => h,
                        None => unreached(),
                    };
                    proof {
                        tm.bm.lemma_wf();
                        assert(pre.bm@.table().contains_key(block@));
                        assert(m2.bm@.frames[frame as int].block == Some(block@));
                    }
                    tm.bm.unpin(frame);
                    proof {
                        tm.bm.lemma_wf();
                        assert forall|b: (Seq<char>, usize)| #[trigger]
                            self.pinned().contains_key(b) implies tm.bm@.table().contains_key(b)
                            && tm.bm@.table()[b].pos == self.pinned()[b]
                            && tm.bm@.table()[b].pins >= 1 by {
                            assert(m2.bm@.table().contains_key(b));
                        }
                    }
                } else {
                    self.unpin(tm, block);
                }
                proof {
                    assert(self.pinned() =~= me.pinned());
                    assert(Self::undone(
                        me.spec_txn_num(),
                        me.pinned(),
                        &pre,
                        &m1,
                        handle,
                        &m2,
                        &(*tm),
                        record@,
                        waited_ms,
                        r,
                    ));
                }
                r
            },
            _ => {
                assert(Self::undone(me.spec_txn_num(), me.pinned(), &pre, &pre, 0, &pre, &(*tm), record@, waited_ms, Ok(())));
                Ok(())
            },
        }
    }

    /// Rolls the transaction back: undoes its updates, latest first, flushes
    /// the frames that it modified, writes the record that it was rolled back,
    /// writes the log to disk, gives back its locks, and takes its pins off.
    /// Returns whether a lock left the lock table, in which case those who wait
    /// for a lock are to be woken. Where an update cannot be undone, the
    /// transaction stays as it is, and the error is returned.
    pub fn rollback(&mut self, tm: &mut TransactionManager, waited_ms: u64) -> (r: Result<
        bool,
        TxnError,
    >)
        requires
            old(tm).wf(),
            old(self).wf(old(tm)),
            old(self).state() == TxnState::Active,
            old(tm).lm.has_room(),
        ensures
            final(tm).wf(),
            final(self).wf(final(tm)),
            final(self).spec_txn_num() == old(self).spec_txn_num(),
            final(tm).next_txn_num == old(tm).next_txn_num,
            final(tm).fm.continues(&old(tm).fm),
            r is Err ==> {
                &&& final(self).state() == TxnState::Active
                &&& final(self).pinned() == old(self).pinned()
                &&& exists|failed: Result<(), TxnError>|
                    {
                        &&& #[trigger] RecoveryManager::rollback_failed(
                            old(self).spec_txn_num(),
                            old(self).pinned(),
                            old(tm),
                            final(tm),
                            waited_ms,
                            failed,
                        )
                        &&& failed->Err_0 == r->Err_0
                    }
            },
            r is Ok ==> {
                &&& final(self).state() == TxnState::Aborted
                &&& final(self).pinned() == Map::<(Seq<char>, usize), usize>::empty()
                &&& exists|done: TransactionManager|
                    {
                        &&& #[trigger] RecoveryManager::rolled_back(
                            old(self).spec_txn_num(),
                            old(self).pinned(),
                            old(tm),
                            &done,
                            waited_ms,
                        )
                        &&& Self::let_go(&done, final(tm), old(self).spec_txn_num(), old(self).pinned())
                        &&& r->Ok_0 == done.concurrency_mgr.wakes(old(self).spec_txn_num())
                    }
            },
    {
        let undone = RecoveryManager::rollback(self, tm, waited_ms);
        match undone {
            Err(e) => {
                return Err(e);
            },
            Ok(()) => {},
        }
        let ghost done = *tm;
        let wake = tm.concurrency_mgr.release(self.txn_num);
        self.buffers.unpin_all(&mut tm.bm);
        self.state = TxnState::Aborted;
        proof {
            assert(Self::let_go(&done, tm, old(self).spec_txn_num(), old(self).pinned()));
        }
        Ok(wake)
    }

    /// Whether `post` is `pre` after transaction `txn_num` has given back its
    /// locks and taken its pins off the blocks of `pinned`.
    pub open spec fn let_go(
        pre: &TransactionManager,
        post: &TransactionManager,
        txn_num: TxNum,
        pinned: Map<(Seq<char>, usize), usize>,
    ) -> bool {
        &&& post.fm == pre.fm
        &&& post.lm == pre.lm
        &&& post.next_txn_num == pre.next_txn_num
        &&& pre.concurrency_mgr.released(&post.concurrency_mgr, txn_num)
        &&& pre.bm@.unpinned_all(post.bm@, pinned)
    }

    /// Recovers after a restart: flushes the frames that the transaction
    /// modified, undoes the updates of the transactions that have not ended,
    /// and writes a checkpoint. The transaction stays active.
    pub fn recover(&mut self, tm: &mut TransactionManager, waited_ms: u64) -> (r: Result<
        (),
        TxnError,
    >)
        requires
            old(tm).wf(),
            old(self).wf(old(tm)),
            old(self).state() == TxnState::Active,
            old(tm).lm.has_room(),
        ensures
            final(tm).wf(),
            final(self).wf(final(tm)),
            final(self).state() == old(self).state(),
            final(self).spec_txn_num() == old(self).spec_txn_num(),
            final(self).pinned() == old(self).pinned(),
            final(tm).next_txn_num == old(tm).next_txn_num,
            final(tm).fm.continues(&old(tm).fm),
            r is Ok ==> exists|flushed: TransactionManager|
                {
                    &&& #[trigger] RecoveryManager::flushed_for(
                        old(tm),
                        &flushed,
                        old(self).spec_txn_num(),
                    )
                    &&& RecoveryManager::recovered(
                        old(self).spec_txn_num(),
                        old(self).pinned(),
                        &flushed,
                        final(tm),
                        waited_ms,
                    )
                },
            r is Err ==> exists|flushed: TransactionManager|
                {
                    &&& #[trigger] RecoveryManager::flushed_for(
                        old(tm),
                        &flushed,
                        old(self).spec_txn_num(),
                    )
                    &&& RecoveryManager::recovery_failed(
                        old(self).spec_txn_num(),
                        old(self).pinned(),
                        &flushed,
                        final(tm),
                        waited_ms,
                        r,
                    )
                },
    {
        proof {
            crate::txn::recovery::lemma_flush_seq_keeps_latest(
                tm.bm@.to_flush(self.spec_txn_num()),
                tm.lm@,
                tm.fm.disk(),
            );
        }
        tm.bm.flush_all(self.txn_num, &mut tm.fm, &mut tm.lm);
        let ghost flushed = *tm;
        proof {
            assert(RecoveryManager::flushed_for(old(tm), &flushed, self.spec_txn_num()));
        }
        RecoveryManager::recover(self, tm, waited_ms)
    }

    /// Whether the transaction stands at `state`.
    pub fn state_is(&self, state: TxnState) -> (b: bool)
        ensures
            b == (self.state() == state),
    {
        self.state == state
    }

    /// The frame of `block`, if the transaction has pinned the block.
    pub fn frame_of(&self, block: &BlockId) -> (r: Option<usize>)
        requires
            self.list().inv(),
        ensures
            match r {
                Some(handle) => self.pinned().contains_key(block@) && self.pinned()[block@]
                    == handle,
                None => !self.pinned().contains_key(block@),
            },
    {
        self.buffers.get(block)
    }

    /// Whether the transaction can still pin, read and write.
    pub fn is_active(&self) -> (b: bool)
        ensures
            b == (self.state() == TxnState::Active),
    {
        match self.state {
            TxnState::Active => true,
            _ => false,
        }
    }
}

} // verus!