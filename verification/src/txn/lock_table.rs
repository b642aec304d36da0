//! The lock table: shared and exclusive locks on blocks.
//!
//! A request that cannot be granted at once has to wait until a lock is released,
//! and is given up after [`MAX_WAIT_MILLIS`]. The table does not wait itself: a
//! request says how long it has waited already, and learns whether the lock is
//! granted, whether to wait on, or whether the time is up.

use vstd::prelude::*;

use crate::block_map::BlockMap;
use crate::file::BlockId;
use crate::txn::transaction::TxNum;

verus! {

/// The longest time that a request waits for a lock, in milliseconds.
pub const MAX_WAIT_MILLIS: u64 = 10_000;

/// The state of the lock on a block.
#[derive(Clone, Copy, Debug, PartialEq, Eq, Structural)]
pub enum Lock {
    /// An exclusive lock.
    XLock,
    /// A shared lock, with the number of its holders.
    SLock(usize),
}

/// Why a lock was not granted.
#[derive(Clone, Copy, Debug, PartialEq, Eq, Structural)]
pub enum LockError {
    /// Another lock stands in the way, and the time is not up: wait for a lock
    /// to be released, and ask again.
    WouldBlock,
    /// Another lock stands in the way, and the time is up: the request is given
    /// up, and the transaction has to be rolled back.
    Timeout,
}

/// What a request in whose way a lock stands is told after `waited_ms`.
pub open spec fn refusal(waited_ms: u64) -> LockError {
    if waited_ms >= MAX_WAIT_MILLIS {
        LockError::Timeout
    } else {
        LockError::WouldBlock
    }
}

/// The shared lock on a block after one more holder has joined.
pub open spec fn shared_joined(locks: Map<(Seq<char>, usize), Lock>, block: (Seq<char>, usize)) -> Lock {
    if locks.contains_key(block) {
        match locks[block] {
            Lock::SLock(n) => Lock::SLock((n + 1) as usize),
            Lock::XLock => Lock::SLock(1),
        }
    } else {
        Lock::SLock(1)
    }
}

/// The locks after one holder of the lock on `block` has left.
pub open spec fn released(locks: Map<(Seq<char>, usize), Lock>, block: (Seq<char>, usize)) -> Map<
    (Seq<char>, usize),
    Lock,
> {
    if locks.contains_key(block) {
        match locks[block] {
            Lock::SLock(n) if n > 1 => locks.insert(block, Lock::SLock((n - 1) as usize)),
            _ => locks.remove(block),
        }
    } else {
        locks
    }
}

/// The table of the locks that are held, by block.
pub struct LockTable {
    locks: BlockMap<Lock>,
}

impl View for LockTable {
    type V = Map<(Seq<char>, usize), Lock>;

    closed spec fn view(&self) -> Map<(Seq<char>, usize), Lock> {
        self.locks.map()
    }
}

impl LockTable {
    /// The table is in order.
    pub closed spec fn wf(&self) -> bool {
        self.locks.wf()
    }

    /// Whether an exclusive lock is held on `block`.
    pub open spec fn spec_has_x_lock(&self, block: (Seq<char>, usize)) -> bool {
        self@.contains_key(block) && self@[block] == Lock::XLock
    }

    /// Whether a shared lock is held on `block` by more than one holder.
    pub open spec fn spec_has_other_s_locks(&self, block: (Seq<char>, usize)) -> bool {
        self@.contains_key(block) && match self@[block] {
            Lock::SLock(n) => n > 1,
            Lock::XLock => false,
        }
    }

    /// Whether the number of holders of the shared lock on `block` can grow.
    pub open spec fn can_share(&self, block: (Seq<char>, usize)) -> bool {
        self@.contains_key(block) ==> match self@[block] {
            Lock::SLock(n) => n < usize::MAX,
            Lock::XLock => true,
        }
    }

    /// A table with no lock.
    pub fn new() -> (t: Self)
        ensures
            t.wf(),
            t@ == Map::<(Seq<char>, usize), Lock>::empty(),
    {
        LockTable { locks: BlockMap::new() }
    }

    /// Asks for a shared lock on `block`, after having waited `waited_ms` for
    /// it. The lock is granted unless an exclusive lock is held on the block.
    pub fn s_lock(&mut self, txn_num: TxNum, block: &BlockId, waited_ms: u64) -> (r: Result<
        (),
        LockError,
    >)
        requires
            old(self).wf(),
            old(self).can_share(block@),
        ensures
            final(self).wf(),
            old(self).spec_has_x_lock(block@) ==> r == Err::<(), LockError>(refusal(waited_ms))
                && final(self)@ == old(self)@,
            !old(self).spec_has_x_lock(block@) ==> r is Ok && final(self)@ == old(self)@.insert(
                block@,
                shared_joined(old(self)@, block@),
            ),
    {
        if self.has_x_lock(txn_num, block) {
            if Self::waiting_too_long(waited_ms) {
                return Err(LockError::Timeout);
            }
            return Err(LockError::WouldBlock);
        }
        let new_val = match self.locks.get(block) {
            Some(Lock::SLock(n)) => Lock::SLock(*n + 1),
            _ => Lock::SLock(1),
        };
        self.locks.insert(block, new_val);
        Ok(())
    }

    /// Asks for an exclusive lock on `block`, after having waited `waited_ms`
    /// for it. The transaction is expected to hold a shared lock on the block
    /// already: the lock is granted unless the shared lock has other holders.
    pub fn x_lock(&mut self, txn_num: TxNum, block: &BlockId, waited_ms: u64) -> (r: Result<
        (),
        LockError,
    >)
        requires
            old(self).wf(),
        ensures
            final(self).wf(),
            old(self).spec_has_other_s_locks(block@) ==> r == Err::<(), LockError>(
                refusal(waited_ms),
            ) && final(self)@ == old(self)@,
            !old(self).spec_has_other_s_locks(block@) ==> r is Ok && final(self)@ == old(
                self,
            )@.insert(block@, Lock::XLock),
    {
        if self.has_other_s_locks(txn_num, block) {
            if Self::waiting_too_long(waited_ms) {
                return Err(LockError::Timeout);
            }
            return Err(LockError::WouldBlock);
        }
        self.locks.insert(block, Lock::XLock);
        Ok(())
    }

    /// Releases one lock on `block`: a shared lock with other holders loses one
    /// holder; any other lock leaves the table. Returns whether the lock left
    /// the table, in which case those who wait for a lock are to be woken.
    pub fn unlock(&mut self, txn_num: TxNum, block: &BlockId) -> (wake: bool)
        requires
            old(self).wf(),
        ensures
            final(self).wf(),
            final(self)@ == released(old(self)@, block@),
            wake == !old(self).spec_has_other_s_locks(block@),
    {
        match self.locks.get(block) {
            Some(Lock::SLock(n)) if *n > 1 => {
                let new_val = Lock::SLock(*n - 1);
                self.locks.insert(block, new_val);
                false
            },
            _ => {
                let _ = self.locks.remove(block);
                proof {
                    if !old(self)@.contains_key(block@) {
                        assert(old(self)@.remove(block@) =~= old(self)@);
                    }
                }
                true
            },
        }
    }

    /// Whether an exclusive lock is held on `block`.
    pub fn has_x_lock(&self, txn_num: TxNum, block: &BlockId) -> (b: bool)
        requires
            self.wf(),
        ensures
            b == self.spec_has_x_lock(block@),
    {
        match self.locks.get(block) {
            Some(Lock::XLock) => true,
            _ => false,
        }
    }

    /// Whether a shared lock is held on `block` by more than one holder.
    pub fn has_other_s_locks(&self, txn_num: TxNum, block: &BlockId) -> (b: bool)
        requires
            self.wf(),
        ensures
            b == self.spec_has_other_s_locks(block@),
    {
        match self.locks.get(block) {
            Some(Lock::SLock(n)) => *n > 1,
            _ => false,
        }
    }

    /// Whether a request that has waited `waited_ms` has waited too long.
    pub fn waiting_too_long(waited_ms: u64) -> (b: bool)
        ensures
            b == (waited_ms >= MAX_WAIT_MILLIS),
    {
        waited_ms >= MAX_WAIT_MILLIS
    }

    /// The state of the lock on `block`, if one is held.
    pub fn state(&self, block: &BlockId) -> (r: Option<Lock>)
        requires
            self.wf(),
        ensures
            match r {
                Some(lock) => self@.contains_key(block@) && self@[block@] == lock,
                None => !self@.contains_key(block@),
            },
    {
        match self.locks.get(block) {
            Some(lock) => Some(*lock),
            None => None,
        }
    }
}

} // verus!
