//! The concurrency manager: it records which transaction holds which lock, and
//! asks the lock table only for locks that the transaction does not hold yet.
//! Locks are kept until the transaction ends, when `release` gives them all
//! back.

use vstd::pervasive::unreached;
use vstd::prelude::*;

use crate::assoc::{
    assoc_map, count_where, keys_distinct, lemma_assoc_absent, lemma_assoc_index,
    lemma_assoc_push, lemma_assoc_remove, lemma_assoc_update, lemma_assoc_witness,
    lemma_count_bounds, lemma_count_push, lemma_count_remove, lemma_count_update,
};
use crate::file::BlockId;
use crate::txn::lock_table::{released, shared_joined, Lock, LockError, LockTable, refusal};
use crate::txn::transaction::TxNum;

verus! {

/// The kind of lock that a transaction holds on a block.
#[derive(Clone, Copy, Debug, PartialEq, Eq, Structural)]
pub enum LockType {
    /// Exclusive.
    X,
    /// Shared.
    S,
}

/// A lock that is held: the transaction and the block, and the kind of lock.
pub type Holding = ((TxNum, (Seq<char>, usize)), LockType);

/// Whether a holding is on `block`.
pub open spec fn on_block(block: (Seq<char>, usize)) -> spec_fn(Holding) -> bool {
    |h: Holding| h.0.1 == block
}

/// The number of transactions that hold a lock on `block`.
pub open spec fn holder_count(held: Seq<Holding>, block: (Seq<char>, usize)) -> nat {
    count_where(held, on_block(block))
}

/// Whether the state of the lock on `block` in the lock table is the one that
/// the holdings call for: no lock where nobody holds one; a shared lock with as
/// many holders as hold one, all of them shared; an exclusive lock where one
/// transaction holds one, which is exclusive.
pub open spec fn lock_agrees(
    held: Seq<Holding>,
    table: Map<(Seq<char>, usize), Lock>,
    block: (Seq<char>, usize),
) -> bool {
    if table.contains_key(block) {
        match table[block] {
            Lock::SLock(n) => {
                &&& n == holder_count(held, block)
                &&& n > 0
                &&& forall|i: int|
                    0 <= i < held.len() && (#[trigger] held[i]).0.1 == block ==> held[i].1
                        == LockType::S
            },
            Lock::XLock => {
                &&& holder_count(held, block) == 1
                &&& forall|i: int|
                    0 <= i < held.len() && (#[trigger] held[i]).0.1 == block ==> held[i].1
                        == LockType::X
            },
        }
    } else {
        holder_count(held, block) == 0
    }
}

/// Whether the holdings and the lock table agree on every block, and no
/// transaction holds two locks on one block.
pub open spec fn locks_agree(held: Seq<Holding>, table: Map<(Seq<char>, usize), Lock>) -> bool {
    &&& keys_distinct(held)
    &&& forall|block: (Seq<char>, usize)| #[trigger] lock_agrees(held, table, block)
}

/// Where one holding is on a block, any holding on that block is that one.
pub proof fn lemma_single_holder(held: Seq<Holding>, block: (Seq<char>, usize), i: int, j: int)
    requires
        holder_count(held, block) == 1,
        0 <= i < held.len(),
        0 <= j < held.len(),
        held[i].0.1 == block,
        held[j].0.1 == block,
    ensures
        i == j,
{
    if i != j {
        let f = on_block(block);
        lemma_count_remove(held, f, i);
        let rest = held.remove(i);
        lemma_count_bounds(rest, f);
        let j1 = if j < i {
            j
        } else {
            j - 1
        };
        assert(rest[j1] == held[j]);
        assert(f(rest[j1]));
    }
}

/// A holding on a block is counted.
pub proof fn lemma_holder_counted(held: Seq<Holding>, block: (Seq<char>, usize), i: int)
    requires
        0 <= i < held.len(),
        held[i].0.1 == block,
    ensures
        holder_count(held, block) >= 1,
{
    lemma_count_bounds(held, on_block(block));
    assert(on_block(block)(held[i]));
}

/// A new shared holding, with the shared lock on its block joined, keeps the
/// holdings and the table in agreement.
proof fn lemma_share_agrees(
    held: Seq<Holding>,
    table: Map<(Seq<char>, usize), Lock>,
    txn: TxNum,
    block: (Seq<char>, usize),
)
    requires
        locks_agree(held, table),
        !assoc_map(held).contains_key((txn, block)),
        !(table.contains_key(block) && table[block] == Lock::XLock),
        holder_count(held, block) < usize::MAX,
    ensures
        locks_agree(
            held.push(((txn, block), LockType::S)),
            table.insert(block, shared_joined(table, block)),
        ),
{
    let h: Holding = ((txn, block), LockType::S);
    let held2 = held.push(h);
    let table2 = table.insert(block, shared_joined(table, block));
    lemma_assoc_push(held, (txn, block), LockType::S);
    assert forall|b: (Seq<char>, usize)| #[trigger] lock_agrees(held2, table2, b) by {
        assert(lock_agrees(held, table, b));
        lemma_count_push(held, on_block(b), h);
        assert(on_block(b)(h) == (block == b));
        assert forall|i: int| 0 <= i < held2.len() && (#[trigger] held2[i]).0.1
            == b implies held2[i].1 == LockType::S || (i < held.len() && held2[i] == held[i]) by {}
        if b == block {
            assert(holder_count(held2, b) == holder_count(held, b) + 1);
            assert(table2[b] == Lock::SLock(holder_count(held2, b) as usize));
            assert forall|i: int| 0 <= i < held2.len() && (#[trigger] held2[i]).0.1
                == b implies held2[i].1 == LockType::S by {
                if i < held.len() {
                    assert(held2[i] == held[i]);
                    lemma_holder_counted(held, block, i);
                }
            }
        } else {
            assert(table2.contains_key(b) == table.contains_key(b));
            assert(table2.contains_key(b) ==> table2[b] == table[b]);
            assert forall|i: int| 0 <= i < held2.len() && (#[trigger] held2[i]).0.1
                == b implies held2[i] == held[i] && held[i].0.1 == b by {}
        }
    }
}

/// Making the one shared holding on a block exclusive, in the holdings and in
/// the table, keeps the two in agreement.
proof fn lemma_upgrade_agrees(
    held: Seq<Holding>,
    table: Map<(Seq<char>, usize), Lock>,
    i: int,
)
    requires
        locks_agree(held, table),
        0 <= i < held.len(),
        !(table.contains_key(held[i].0.1) && match table[held[i].0.1] {
            Lock::SLock(n) => n > 1,
            Lock::XLock => false,
        }),
    ensures
        locks_agree(
            held.update(i, (held[i].0, LockType::X)),
            table.insert(held[i].0.1, Lock::XLock),
        ),
{
    let block = held[i].0.1;
    let h: Holding = (held[i].0, LockType::X);
    let held2 = held.update(i, h);
    let table2 = table.insert(block, Lock::XLock);
    lemma_assoc_update(held, i, LockType::X);
    assert(lock_agrees(held, table, block));
    lemma_holder_counted(held, block, i);
    assert(holder_count(held, block) == 1);
    assert forall|b: (Seq<char>, usize)| #[trigger] lock_agrees(held2, table2, b) by {
        assert(lock_agrees(held, table, b));
        lemma_count_update(held, on_block(b), i, h);
        assert(on_block(b)(held[i]) == (block == b));
        assert(on_block(b)(h) == (block == b));
        assert(holder_count(held2, b) == holder_count(held, b));
        if b == block {
            assert forall|j: int| 0 <= j < held2.len() && (#[trigger] held2[j]).0.1
                == b implies held2[j].1 == LockType::X by {
                if j != i {
                    assert(held2[j] == held[j]);
                    lemma_single_holder(held, block, i, j);
                }
            }
        } else {
            assert(table2.contains_key(b) == table.contains_key(b));
            assert(table2.contains_key(b) ==> table2[b] == table[b]);
            assert forall|j: int| 0 <= j < held2.len() && (#[trigger] held2[j]).0.1
                == b implies held2[j] == held[j] && held[j].0.1 == b by {}
        }
    }
}

/// Giving a holding up, in the holdings and in the table, keeps the two in
/// agreement.
proof fn lemma_release_agrees(
    held: Seq<Holding>,
    table: Map<(Seq<char>, usize), Lock>,
    i: int,
)
    requires
        locks_agree(held, table),
        0 <= i < held.len(),
    ensures
        locks_agree(held.remove(i), released(table, held[i].0.1)),
{
    let block = held[i].0.1;
    let held2 = held.remove(i);
    let table2 = released(table, block);
    lemma_assoc_remove(held, i);
    assert(lock_agrees(held, table, block));
    lemma_holder_counted(held, block, i);
    assert forall|j: int| 0 <= j < held2.len() implies #[trigger] held2[j] == held[if j < i {
        j
    } else {
        j + 1
    }] by {}
    assert forall|b: (Seq<char>, usize)| #[trigger] lock_agrees(held2, table2, b) by {
        assert(lock_agrees(held, table, b));
        lemma_count_remove(held, on_block(b), i);
        assert forall|j: int| 0 <= j < held2.len() && (#[trigger] held2[j]).0.1
            == b implies held2[j].1 == held[if j < i {
            j
        } else {
            j + 1
        }].1 && held[if j < i {
            j
        } else {
            j + 1
        }].0.1 == b by {}
    }
}

/// The concurrency manager.
pub struct ConcurrencyManager {
    lock_tbl: LockTable,
    txns: Vec<TxNum>,
    blocks: Vec<BlockId>,
    types: Vec<LockType>,
}

impl ConcurrencyManager {
    /// The holdings, in the order in which the locks were granted.
    pub closed spec fn holdings(&self) -> Seq<Holding> {
        Seq::new(
            self.txns@.len(),
            |i: int| ((self.txns@[i], self.blocks@[i]@), self.types@[i]),
        )
    }

    /// The locks in the lock table, by block.
    pub closed spec fn table(&self) -> Map<(Seq<char>, usize), Lock> {
        self.lock_tbl@
    }

    /// The locks that are held: the kind of lock, by transaction and block.
    pub open spec fn held(&self) -> Map<(TxNum, (Seq<char>, usize)), LockType> {
        assoc_map(self.holdings())
    }

    /// The holdings and the lock table agree.
    pub closed spec fn wf(&self) -> bool {
        &&& self.lock_tbl.wf()
        &&& self.txns@.len() == self.blocks@.len()
        &&& self.txns@.len() == self.types@.len()
        &&& locks_agree(self.holdings(), self.table())
    }

    /// What the state of the manager always satisfies: the holdings and the lock
    /// table agree on every block.
    pub proof fn lemma_locks_agree(&self)
        requires
            self.wf(),
        ensures
            locks_agree(self.holdings(), self.table()),
    {
    }

    /// The lock on a block is either exclusive, held by one transaction, or
    /// shared, held by as many transactions as its count says, or not there,
    /// held by none; and the holders of a lock differ from each other.
    pub proof fn lemma_lock_state(&self, block: (Seq<char>, usize))
        requires
            self.wf(),
        ensures
            self.table().contains_key(block) && self.table()[block] == Lock::XLock ==> {
                &&& holder_count(self.holdings(), block) == 1
                &&& exists|t: TxNum| #[trigger] self.spec_has_x_lock(t, block)
                &&& forall|t: TxNum| #[trigger]
                    self.held().contains_key((t, block)) ==> self.spec_has_x_lock(t, block)
            },
            self.table().contains_key(block) && self.table()[block] is SLock ==> {
                &&& holder_count(self.holdings(), block) == self.table()[block]->SLock_0
                &&& self.table()[block]->SLock_0 > 0
                &&& forall|t: TxNum| #[trigger]
                    self.held().contains_key((t, block)) ==> self.held()[(t, block)]
                        == LockType::S
            },
            !self.table().contains_key(block) ==> forall|t: TxNum|
                !(#[trigger] self.held().contains_key((t, block))),
            forall|i: int, j: int|
                0 <= i < j < self.holdings().len() && (#[trigger] self.holdings()[i]).0.1 == block
                    && (#[trigger] self.holdings()[j]).0.1 == block ==> self.holdings()[i].0.0
                    != self.holdings()[j].0.0,
    {
        let held = self.holdings();
        assert(lock_agrees(held, self.table(), block));
        lemma_count_bounds(held, on_block(block));
        assert forall|t: TxNum| #[trigger] self.held().contains_key((t, block)) implies {
            let i = crate::assoc::index_of(held, (t, block));
            0 <= i < held.len() && held[i].0 == (t, block) && self.held()[(t, block)] == held[i].1
        } by {
            let i = lemma_assoc_witness(held, (t, block));
        }
        if self.table().contains_key(block) && self.table()[block] == Lock::XLock {
            let i = choose|i: int| 0 <= i < held.len() && on_block(block)(#[trigger] held[i]);
            lemma_assoc_index(held, i);
            assert(self.spec_has_x_lock(held[i].0.0, block));
        }
        if !self.table().contains_key(block) {
            assert forall|t: TxNum| !(#[trigger] self.held().contains_key((t, block))) by {
                if self.held().contains_key((t, block)) {
                    let i = lemma_assoc_witness(held, (t, block));
                    assert(on_block(block)(held[i]));
                }
            }
        }
    }

    /// A manager under which no lock is held.
    pub fn new() -> (cm: Self)
        ensures
            cm.wf(),
            cm.holdings() == Seq::<Holding>::empty(),
            cm.table() == Map::<(Seq<char>, usize), Lock>::empty(),
    {
        let cm = ConcurrencyManager {
            lock_tbl: LockTable::new(),
            txns: Vec::new(),
            blocks: Vec::new(),
            types: Vec::new(),
        };
        proof {
            assert(cm.holdings() =~= Seq::<Holding>::empty());
            assert forall|b: (Seq<char>, usize)| #[trigger]
                lock_agrees(cm.holdings(), cm.table(), b) by {}
        }
        cm
    }

    /// The position of the holding of `txn_num` on `block`, if there is one.
    fn find(&self, txn_num: TxNum, block: &BlockId) -> (r: Option<usize>)
        requires
            self.wf(),
        ensures
            match r {
                Some(i) => i < self.holdings().len() && self.holdings()[i as int].0 == (
                    txn_num,
                    block@,
                ) && self.held().contains_key((txn_num, block@)) && self.held()[(
                    txn_num,
                    block@,
                )] == self.holdings()[i as int].1,
                None => !self.held().contains_key((txn_num, block@)),
            },
    {
        let mut i: usize = 0;
        while i < self.txns.len()
            invariant
                i <= self.txns@.len(),
                self.wf(),
                forall|j: int| 0 <= j < i ==> (#[trigger] self.holdings()[j]).0 != (txn_num, block@),
            decreases self.txns@.len() - i,
        {
            if self.txns[i] == txn_num && self.blocks[i] == *block {
                proof {
                    lemma_assoc_index(self.holdings(), i as int);
                }
                return Some(i);
            }
            i += 1;
        }
        proof {
            lemma_assoc_absent(self.holdings(), (txn_num, block@));
        }
        None
    }

    /// Whether `post` is what this manager becomes, and `r` what the
    /// transaction is told, when `txn_num` asks for a shared lock on `block`
    /// after having waited `waited_ms`: nothing changes where the transaction
    /// holds a lock on the block already; the request is refused where an
    /// exclusive lock is held on the block; otherwise the transaction joins the
    /// holders of the shared lock.
    pub open spec fn s_locked(
        &self,
        post: &ConcurrencyManager,
        txn_num: TxNum,
        block: (Seq<char>, usize),
        waited_ms: u64,
        r: Result<(), LockError>,
    ) -> bool {
        if self.held().contains_key((txn_num, block)) {
            &&& r is Ok
            &&& post.holdings() == self.holdings()
            &&& post.table() == self.table()
        } else if self.x_locked(block) {
            &&& r == Err::<(), LockError>(refusal(waited_ms))
            &&& post.holdings() == self.holdings()
            &&& post.table() == self.table()
        } else {
            &&& r is Ok
            &&& post.holdings() == self.holdings().push(((txn_num, block), LockType::S))
            &&& post.held() == self.held().insert((txn_num, block), LockType::S)
            &&& post.table() == self.table().insert(block, shared_joined(self.table(), block))
        }
    }

    /// Whether `post` is what this manager becomes, and `r` what the
    /// transaction is told, when `txn_num` asks for an exclusive lock on
    /// `block` after having waited `waited_ms`: nothing changes where the
    /// transaction holds one already; otherwise the transaction first gets a
    /// shared lock, unless it holds one, and then the exclusive lock in its
    /// place, if it is the only holder of the shared lock.
    pub open spec fn x_locked_by(
        &self,
        post: &ConcurrencyManager,
        txn_num: TxNum,
        block: (Seq<char>, usize),
        waited_ms: u64,
        r: Result<(), LockError>,
    ) -> bool {
        if self.spec_has_x_lock(txn_num, block) {
            &&& r is Ok
            &&& post.holdings() == self.holdings()
            &&& post.table() == self.table()
        } else if !self.held().contains_key((txn_num, block)) && self.x_locked(block) {
            &&& r == Err::<(), LockError>(refusal(waited_ms))
            &&& post.holdings() == self.holdings()
            &&& post.table() == self.table()
        } else {
            let shared = if self.held().contains_key((txn_num, block)) {
                self.held()
            } else {
                self.held().insert((txn_num, block), LockType::S)
            };
            let joined = if self.held().contains_key((txn_num, block)) {
                self.table()
            } else {
                self.table().insert(block, shared_joined(self.table(), block))
            };
            if joined[block] == Lock::SLock(1) {
                &&& r is Ok
                &&& post.held() == shared.insert((txn_num, block), LockType::X)
                &&& post.table() == joined.insert(block, Lock::XLock)
            } else {
                &&& r == Err::<(), LockError>(refusal(waited_ms))
                &&& post.held() == shared
                &&& post.table() == joined
            }
        }
    }

    /// Whether `post` is what this manager becomes when `txn_num` gives back
    /// its locks: the transaction holds none, and every other holding is as it
    /// was.
    pub open spec fn released(&self, post: &ConcurrencyManager, txn_num: TxNum) -> bool {
        &&& forall|t: TxNum, b: (Seq<char>, usize)|
            #![trigger post.held().contains_key((t, b))]
            post.held().contains_key((t, b)) <==> t != txn_num && self.held().contains_key((t, b))
        &&& forall|t: TxNum, b: (Seq<char>, usize)|
            #![trigger post.held()[(t, b)]]
            post.held().contains_key((t, b)) ==> post.held()[(t, b)] == self.held()[(t, b)]
    }

    /// Whether a lock leaves the lock table when `txn_num` gives back its locks:
    /// the transaction holds a lock that it does not share with others.
    pub open spec fn wakes(&self, txn_num: TxNum) -> bool {
        exists|b: (Seq<char>, usize)|
            #![trigger self.held().contains_key((txn_num, b))]
            self.held().contains_key((txn_num, b)) && !self.shared_by_others(b)
    }

    /// Gets a shared lock on `block` for `txn_num`, unless the transaction holds
    /// a lock on the block already. `waited_ms` says how long the transaction
    /// has waited for the lock.
    pub fn s_lock(&mut self, txn_num: TxNum, block: &BlockId, waited_ms: u64) -> (r: Result<
        (),
        LockError,
    >)
        requires
            old(self).wf(),
        ensures
            final(self).wf(),
            old(self).s_locked(final(self), txn_num, block@, waited_ms, r),
    {
        if self.find(txn_num, block).is_some() {
            return Ok(());
        }
        if self.lock_tbl.has_x_lock(txn_num, block) {
            if LockTable::waiting_too_long(waited_ms) {
                return Err(LockError::Timeout);
            }
            return Err(LockError::WouldBlock);
        }
        let ghost held = self.holdings();
        let ghost table = self.table();
        proof {
            lemma_count_bounds(held, on_block(block@));
            assert(lock_agrees(held, table, block@));
        }
        self.txns.push(txn_num);
        self.blocks.push(block.clone());
        self.types.push(LockType::S);
        // the shared lock has fewer holders than there are holdings, which fit
        // in a vector
        let len: usize = self.txns.len();
        assert(holder_count(held, block@) < len);
        let granted = self.lock_tbl.s_lock(txn_num, block, waited_ms);
        proof {
            assert(self.holdings() =~= held.push(((txn_num, block@), LockType::S)));
            lemma_share_agrees(held, table, txn_num, block@);
            lemma_assoc_push(held, (txn_num, block@), LockType::S);
        }
        granted
    }

    /// Whether an exclusive lock is held on `block`.
    pub open spec fn x_locked(&self, block: (Seq<char>, usize)) -> bool {
        self.table().contains_key(block) && self.table()[block] == Lock::XLock
    }

    /// Whether the shared lock on `block` has more than one holder.
    pub open spec fn shared_by_others(&self, block: (Seq<char>, usize)) -> bool {
        self.table().contains_key(block) && match self.table()[block] {
            Lock::SLock(n) => n > 1,
            Lock::XLock => false,
        }
    }

    /// Whether `txn_num` holds an exclusive lock on `block`.
    pub open spec fn spec_has_x_lock(&self, txn_num: TxNum, block: (Seq<char>, usize)) -> bool {
        self.held().contains_key((txn_num, block)) && self.held()[(txn_num, block)] == LockType::X
    }

    /// Gets an exclusive lock on `block` for `txn_num`, unless the transaction
    /// holds one already: first a shared lock, where the transaction holds no
    /// lock on the block, and then the exclusive lock in its place, once no
    /// other transaction shares the lock. A shared lock that was granted on
    /// the way stays. `waited_ms` says how long the transaction has waited.
    pub fn x_lock(&mut self, txn_num: TxNum, block: &BlockId, waited_ms: u64) -> (r: Result<
        (),
        LockError,
    >)
        requires
            old(self).wf(),
        ensures
            final(self).wf(),
            old(self).x_locked_by(final(self), txn_num, block@, waited_ms, r),
    {
        if self.has_x_lock(txn_num, block) {
            return Ok(());
        }
        match self.s_lock(txn_num, block, waited_ms) {
            Err(e) => {
                return Err(e);
            },
            Ok(()) => {},
        }
        let ghost held = self.holdings();
        let ghost table = self.table();
        let i: usize = match self.find(txn_num, block) {
            Some(i) => i,
            None => unreached(),
        };
        proof {
            assert(lock_agrees(held, table, block@));
            lemma_holder_counted(held, block@, i as int);
            assert(held[i as int].1 == LockType::S);
            assert(table.contains_key(block@));
        }
        match self.lock_tbl.x_lock(txn_num, block, waited_ms) {
            Err(e) => Err(e),
            Ok(()) => {
                self.types.set(i, LockType::X);
                proof {
                    assert(self.holdings() =~= held.update(
                        i as int,
                        (held[i as int].0, LockType::X),
                    ));
                    lemma_upgrade_agrees(held, table, i as int);
                    lemma_assoc_update(held, i as int, LockType::X);
                }
                Ok(())
            },
        }
    }

    /// Gives back every lock that `txn_num` holds. Returns whether a lock left
    /// the lock table, in which case those who wait for a lock are to be woken.
    pub fn release(&mut self, txn_num: TxNum) -> (wake: bool)
        requires
            old(self).wf(),
        ensures
            final(self).wf(),
            old(self).released(final(self), txn_num),
            wake == old(self).wakes(txn_num),
    {
        let mut wake = false;
        let mut i: usize = 0;
        while i < self.txns.len()
            invariant
                i <= self.txns@.len(),
                self.wf(),
                forall|j: int| 0 <= j < i ==> (#[trigger] self.holdings()[j]).0.0 != txn_num,
                forall|k: (TxNum, (Seq<char>, usize))|
                    k.0 != txn_num ==> (#[trigger] self.held().contains_key(k) == old(
                        self,
                    ).held().contains_key(k)),
                forall|k: (TxNum, (Seq<char>, usize))| #[trigger]
                    self.held().contains_key(k) ==> old(self).held().contains_key(k)
                        && self.held()[k] == old(self).held()[k],
                forall|b: (Seq<char>, usize)|
                    #![trigger self.held().contains_key((txn_num, b))]
                    self.held().contains_key((txn_num, b)) ==> self.shared_by_others(b) == old(
                        self,
                    ).shared_by_others(b),
                wake <==> exists|b: (Seq<char>, usize)|
                    #![trigger old(self).held().contains_key((txn_num, b))]
                    old(self).held().contains_key((txn_num, b)) && !self.held().contains_key(
                        (txn_num, b),
                    ) && !old(self).shared_by_others(b),
            decreases self.txns@.len() - i,
        {
            if self.txns[i] == txn_num {
                let ghost held = self.holdings();
                let ghost table = self.table();
                let ghost before = self.held();
                let ghost was = wake;
                let ghost b0 = held[i as int].0.1;
                proof {
                    lemma_assoc_index(held, i as int);
                    assert(before.contains_key((txn_num, b0)));
                }
                let removed = self.lock_tbl.unlock(txn_num, &self.blocks[i]);
                wake = wake || removed;
                let _ = self.txns.remove(i);
                let _ = self.blocks.remove(i);
                let _ = self.types.remove(i);
                proof {
                    assert(self.holdings() =~= held.remove(i as int));
                    lemma_release_agrees(held, table, i as int);
                    lemma_assoc_remove(held, i as int);
                    assert(self.held() == before.remove(held[i as int].0));
                    assert(removed == !old(self).shared_by_others(b0));
                    if removed {
                        assert(old(self).held().contains_key((txn_num, b0))
                            && !self.held().contains_key((txn_num, b0)) && !old(
                            self,
                        ).shared_by_others(b0));
                    }
                    if was {
                        let b = choose|b: (Seq<char>, usize)|
                            #![trigger old(self).held().contains_key((txn_num, b))]
                            old(self).held().contains_key((txn_num, b)) && !before.contains_key(
                                (txn_num, b),
                            ) && !old(self).shared_by_others(b);
                        assert(!self.held().contains_key((txn_num, b)));
                    }
                    if exists|b: (Seq<char>, usize)|
                        #![trigger old(self).held().contains_key((txn_num, b))]
                        old(self).held().contains_key((txn_num, b)) && !self.held().contains_key(
                            (txn_num, b),
                        ) && !old(self).shared_by_others(b) {
                        let b = choose|b: (Seq<char>, usize)|
                            #![trigger old(self).held().contains_key((txn_num, b))]
                            old(self).held().contains_key((txn_num, b))
                                && !self.held().contains_key((txn_num, b)) && !old(
                                self,
                            ).shared_by_others(b);
                        if b != b0 {
                            assert(!before.contains_key((txn_num, b)));
                        }
                    }
                }
            } else {
                i += 1;
            }
        }
        proof {
            assert forall|t: TxNum, b: (Seq<char>, usize)|
                final(self).held().contains_key((t, b)) implies t != txn_num by {
                let j = lemma_assoc_witness(self.holdings(), (t, b));
            }
            if wake {
                let b = choose|b: (Seq<char>, usize)|
                    #![trigger old(self).held().contains_key((txn_num, b))]
                    old(self).held().contains_key((txn_num, b)) && !self.held().contains_key(
                        (txn_num, b),
                    ) && !old(self).shared_by_others(b);
                assert(old(self).held().contains_key((txn_num, b)) && !old(
                    self,
                ).shared_by_others(b));
            }
            if old(self).wakes(txn_num) {
                let b = choose|b: (Seq<char>, usize)|
                    #![trigger old(self).held().contains_key((txn_num, b))]
                    old(self).held().contains_key((txn_num, b)) && !old(self).shared_by_others(b);
                assert(!self.held().contains_key((txn_num, b)));
            }
        }
        wake
    }

    /// Whether `txn_num` holds an exclusive lock on `block`.
    pub fn has_x_lock(&self, txn_num: TxNum, block: &BlockId) -> (b: bool)
        requires
            self.wf(),
        ensures
            b == self.spec_has_x_lock(txn_num, block@),
    {
        match self.find(txn_num, block) {
            Some(i) => match self.types[i] {
                LockType::X => true,
                LockType::S => false,
            },
            None => false,
        }
    }
}

} // verus!
