//! Eviction policies.
//!
//! A replacer keeps track of frames by their index. A frame that is in use is
//! known but not evictable; once nobody uses it, it is marked evictable, and
//! `evict` may choose it. Two policies are offered: first in first out, and
//! LRU-K, which gives up the frame whose k-th last access is the oldest.

use std::collections::VecDeque;
use vstd::prelude::*;

use crate::assoc::{
    assoc_map, count_where, keys_distinct, lemma_assoc_index, lemma_assoc_push,
    lemma_assoc_remove, lemma_assoc_update, lemma_assoc_witness, lemma_count_bounds,
    lemma_count_push, lemma_count_remove, lemma_count_update,
};

verus! {

/// The policy by which the buffer pool chooses a frame to give up.
#[derive(Clone, Copy, Debug, PartialEq, Eq, Structural)]
pub enum EvictionPolicy {
    Fifo,
    LruK,
}

impl Default for EvictionPolicy {
    fn default() -> (policy: Self)
        ensures
            policy == EvictionPolicy::LruK,
    {
        EvictionPolicy::LruK
    }
}

/// Whether an entry of the first-in-first-out replacer is evictable.
pub open spec fn fifo_flag() -> spec_fn((usize, bool)) -> bool {
    |e: (usize, bool)| e.1
}

/// How the entries change when an access to `key` is recorded: the key is not
/// evictable afterwards; one that was there keeps its place, a new one goes to
/// the end.
pub open spec fn fifo_accessed(
    pre: Seq<(usize, bool)>,
    post: Seq<(usize, bool)>,
    key: usize,
) -> bool {
    &&& forall|i: int|
        0 <= i < pre.len() && (#[trigger] pre[i]).0 == key ==> post == pre.update(i, (key, false))
    &&& (forall|i: int| 0 <= i < pre.len() ==> (#[trigger] pre[i]).0 != key) ==> post
        == pre.push((key, false))
}

/// How the entries change when `key` is marked: its flag is set; where the key
/// is not there, nothing changes.
pub open spec fn fifo_flagged(
    pre: Seq<(usize, bool)>,
    post: Seq<(usize, bool)>,
    key: usize,
    flag: bool,
) -> bool {
    &&& forall|i: int|
        0 <= i < pre.len() && (#[trigger] pre[i]).0 == key ==> post == pre.update(i, (key, flag))
    &&& (forall|i: int| 0 <= i < pre.len() ==> (#[trigger] pre[i]).0 != key) ==> post == pre
}

/// How the entries change when a key is given up: the first evictable entry
/// leaves, and those before it, which are not evictable, stay. Where no entry is
/// evictable, none leaves.
pub open spec fn fifo_evicted(
    pre: Seq<(usize, bool)>,
    post: Seq<(usize, bool)>,
    r: Option<usize>,
) -> bool {
    match r {
        Some(key) => exists|i: int|
            {
                &&& 0 <= i < pre.len()
                &&& #[trigger] pre[i] == (key, true)
                &&& forall|j: int| 0 <= j < i ==> !(#[trigger] pre[j]).1
                &&& post == pre.remove(i)
            },
        None => {
            &&& forall|j: int| 0 <= j < pre.len() ==> !(#[trigger] pre[j]).1
            &&& post == pre
        },
    }
}

/// When a key is given up, the entries that are not evictable stay, and so
/// does every entry but the one of the key.
pub proof fn lemma_fifo_keeps_the_rest(
    pre: Seq<(usize, bool)>,
    post: Seq<(usize, bool)>,
    key: usize,
    j: int,
)
    requires
        keys_distinct(pre),
        fifo_evicted(pre, post, Some(key)),
        0 <= j < pre.len(),
        !pre[j].1 || pre[j].0 != key,
    ensures
        post.contains(pre[j]),
        post.len() + 1 == pre.len(),
{
    let i = choose|i: int|
        {
            &&& 0 <= i < pre.len()
            &&& #[trigger] pre[i] == (key, true)
            &&& forall|j: int| 0 <= j < i ==> !(#[trigger] pre[j]).1
            &&& post == pre.remove(i)
        };
    if j < i {
        assert(post[j] == pre[j]);
    } else {
        assert(pre[j].0 != pre[i].0 || j == i);
        assert(j != i);
        assert(post[j - 1] == pre[j]);
    }
}

/// First in, first out: `evict` gives up the evictable key that was recorded
/// first.
pub struct Fifo {
    store: Vec<(usize, bool)>,
    available: usize,
}

impl View for Fifo {
    type V = Seq<(usize, bool)>;

    /// The keys that the replacer knows, in the order in which they were first recorded, each
    /// with its flag: whether it is evictable.
    closed spec fn view(&self) -> Seq<(usize, bool)> {
        self.store@
    }
}

impl Default for Fifo {
    fn default() -> (r: Self)
        ensures
            r.wf(),
            r@ == Seq::<(usize, bool)>::empty(),
    {
        Fifo { store: Vec::new(), available: 0 }
    }
}

impl Fifo {
    /// The number of evictable keys that the replacer has counted.
    pub closed spec fn spec_available(&self) -> nat {
        self.available as nat
    }

    /// No key is known twice, and the count of evictable keys is right.
    pub open spec fn wf(&self) -> bool {
        &&& keys_distinct(self@)
        &&& self.spec_available() == count_where(self@, fifo_flag())
    }

    /// Whether the replacer knows `key`.
    pub open spec fn contains(&self, key: usize) -> bool {
        exists|i: int| 0 <= i < self@.len() && (#[trigger] self@[i]).0 == key
    }

    /// Whether the replacer knows `key`, as evictable.
    pub open spec fn evictable(&self, key: usize) -> bool {
        exists|i: int| 0 <= i < self@.len() && #[trigger] self@[i] == (key, true)
    }

    /// The position of `key` among the entries, if the replacer knows it.
    fn find(&self, key: usize) -> (r: Option<usize>)
        ensures
            match r {
                Some(i) => i < self@.len() && self@[i as int].0 == key,
                None => !self.contains(key),
            },
    {
        let mut i: usize = 0;
        while i < self.store.len()
            invariant
                i <= self@.len(),
                forall|j: int| 0 <= j < i ==> (#[trigger] self@[j]).0 != key,
            decreases self@.len() - i,
        {
            if self.store[i].0 == key {
                return Some(i);
            }
            i += 1;
        }
        None
    }

    /// Records that `key` is in use: the replacer knows it from now on, as not
    /// evictable. A key that it knew already keeps its place.
    pub fn record_access(&mut self, key: usize)
        requires
            old(self).wf(),
        ensures
            final(self).wf(),
            fifo_accessed(old(self)@, final(self)@, key),
    {
        match self.find(key) {
            Some(i) => {
                proof {
                    lemma_count_update(self@, fifo_flag(), i as int, (key, false));
                    lemma_count_bounds(self@, fifo_flag());
                }
                if self.store[i].1 {
                    self.available -= 1;
                }
                self.store.set(i, (key, false));
            },
            None => {
                proof {
                    lemma_count_push(self@, fifo_flag(), (key, false));
                }
                self.store.push((key, false));
            },
        }
    }

    /// Gives up the evictable key that was recorded first, and forgets it. The
    /// keys before it, which are not evictable, stay as they are.
    pub fn evict(&mut self) -> (r: Option<usize>)
        requires
            old(self).wf(),
        ensures
            final(self).wf(),
            fifo_evicted(old(self)@, final(self)@, r),
    {
        let mut i: usize = 0;
        while i < self.store.len()
            invariant
                i <= self@.len(),
                self.wf(),
                self@ == old(self)@,
                forall|j: int| 0 <= j < i ==> !(#[trigger] self@[j]).1,
            decreases self@.len() - i,
        {
            if self.store[i].1 {
                proof {
                    lemma_count_remove(self@, fifo_flag(), i as int);
                }
                let entry = self.store.remove(i);
                self.available -= 1;
                return Some(entry.0);
            }
            i += 1;
        }
        None
    }

    /// Marks `key` as evictable or not. A key that the replacer does not know stays unknown.
    pub fn set_evictable(&mut self, key: usize, is_evictable: bool)
        requires
            old(self).wf(),
        ensures
            final(self).wf(),
            fifo_flagged(old(self)@, final(self)@, key, is_evictable),
    {
        if let Some(i) = self.find(key) {
            proof {
                lemma_count_update(self@, fifo_flag(), i as int, (key, is_evictable));
                lemma_count_bounds(self@, fifo_flag());
                lemma_count_bounds(self@.update(i as int, (key, is_evictable)), fifo_flag());
            }
            let was: bool = self.store[i].1;
            let len: usize = self.store.len();
            assert(is_evictable && !was ==> self.available < len);
            if is_evictable && !was {
                self.available += 1;
            } else if !is_evictable && was {
                self.available -= 1;
            }
            self.store.set(i, (key, is_evictable));
        }
    }

    /// The number of evictable keys.
    pub fn available(&self) -> (n: usize)
        requires
            self.wf(),
        ensures
            n == count_where(self@, fifo_flag()),
    {
        self.available
    }
}

/// What the LRU-K replacer knows of one key.
pub struct LruKNode {
    key: usize,
    is_evictable: bool,
    history: VecDeque<usize>,
}

/// What an [`LruKNode`] holds: the key, whether it is evictable, and the times of
/// its last accesses, the oldest first.
pub ghost struct LruKNodeView {
    pub key: usize,
    pub is_evictable: bool,
    pub history: Seq<usize>,
}

impl View for LruKNode {
    type V = LruKNodeView;

    closed spec fn view(&self) -> LruKNodeView {
        LruKNodeView { key: self.key, is_evictable: self.is_evictable, history: self.history@ }
    }
}

impl LruKNodeView {
    /// The backward k-distance at time `current_ts`: the time that has passed
    /// since the k-th last access, and `usize::MAX`, which stands for infinity,
    /// where there were fewer than `k` accesses.
    pub open spec fn distance(self, current_ts: usize, k: usize) -> int {
        if self.history.len() < k {
            usize::MAX as int
        } else {
            current_ts - self.history[0]
        }
    }

    /// The time of the oldest access that is remembered.
    pub open spec fn oldest(self) -> usize {
        self.history[0]
    }

    /// Whether this node is given up rather than `other`: its distance is
    /// larger, or the same and its oldest access earlier.
    pub open spec fn beats(self, other: LruKNodeView, current_ts: usize, k: usize) -> bool {
        let mine = self.distance(current_ts, k);
        let theirs = other.distance(current_ts, k);
        mine > theirs || (mine == theirs && self.oldest() < other.oldest())
    }

    /// The node after an access at time `ts`: not evictable, and `ts` added to
    /// the history, of which the last `k` times are kept.
    pub open spec fn touched(self, ts: usize, k: usize) -> LruKNodeView {
        let all = self.history.push(ts);
        LruKNodeView {
            key: self.key,
            is_evictable: false,
            history: if all.len() > k {
                all.subrange(1, all.len() as int)
            } else {
                all
            },
        }
    }

    /// A node for `key` that has not been accessed yet.
    pub open spec fn fresh(key: usize) -> LruKNodeView {
        LruKNodeView { key, is_evictable: false, history: Seq::empty() }
    }
}

impl LruKNode {
    /// The backward k-distance of the node at time `current_ts`.
    pub fn backward_k_distance(&self, current_ts: usize, k: usize) -> (d: usize)
        requires
            self@.history.len() >= k ==> self@.history.len() > 0 && self@.history[0]
                <= current_ts,
        ensures
            d == self@.distance(current_ts, k),
    {
        if self.history.len() < k {
            usize::MAX
        } else {
            current_ts - self.history[0]
        }
    }

    /// The time of the oldest access that is remembered.
    pub fn least_recent_timestamp(&self) -> (ts: usize)
        requires
            self@.history.len() > 0,
        ensures
            ts == self@.oldest(),
    {
        self.history[0]
    }
}

/// Whether a node of the LRU-K replacer is evictable.
pub open spec fn lruk_flag() -> spec_fn(LruKNodeView) -> bool {
    |n: LruKNodeView| n.is_evictable
}

/// What an [`LruK`] holds: its nodes, the number of accesses that count, and the
/// time of the last access.
pub ghost struct LruKView {
    pub nodes: Seq<LruKNodeView>,
    pub k: usize,
    pub current_ts: usize,
}

impl LruKView {
    /// Whether the state is one that the replacer can be in: no key has two
    /// nodes, each node remembers between one and `k` accesses, and no two
    /// remembered accesses happened at the same time, nor after the last.
    pub open spec fn wf(self) -> bool {
        &&& self.k >= 1
        &&& forall|i: int, j: int|
            0 <= i < j < self.nodes.len() ==> (#[trigger] self.nodes[i]).key
                != (#[trigger] self.nodes[j]).key
        &&& forall|i: int|
            0 <= i < self.nodes.len() ==> 1 <= (#[trigger] self.nodes[i]).history.len() <= self.k
        &&& forall|i: int, a: int|
            0 <= i < self.nodes.len() && 0 <= a < self.nodes[i].history.len() ==> 1
                <= #[trigger] self.nodes[i].history[a] <= self.current_ts
        &&& forall|i: int, a: int, j: int, b: int|
            0 <= i < self.nodes.len() && 0 <= a < self.nodes[i].history.len() && 0 <= j
                < self.nodes.len() && 0 <= b < self.nodes[j].history.len() && (i != j || a != b)
                ==> #[trigger] self.nodes[i].history[a] != #[trigger] self.nodes[j].history[b]
    }

    /// Whether `key` has a node.
    pub open spec fn contains(self, key: usize) -> bool {
        exists|i: int| 0 <= i < self.nodes.len() && (#[trigger] self.nodes[i]).key == key
    }

    /// Whether `key` has a node that is evictable.
    pub open spec fn evictable(self, key: usize) -> bool {
        exists|i: int|
            0 <= i < self.nodes.len() && (#[trigger] self.nodes[i]).key == key
                && self.nodes[i].is_evictable
    }

    /// Whether the node at `v` is the one to give up: it is evictable, and it
    /// beats every other evictable node.
    pub open spec fn is_victim(self, v: int) -> bool {
        &&& 0 <= v < self.nodes.len()
        &&& self.nodes[v].is_evictable
        &&& forall|j: int|
            0 <= j < self.nodes.len() && j != v && (#[trigger] self.nodes[j]).is_evictable
                ==> self.nodes[v].beats(self.nodes[j], self.current_ts, self.k)
    }
}

/// A node with fewer than `k` accesses is at infinite distance; of two such
/// nodes, the one whose oldest access is the earlier beats the other.
pub proof fn lemma_few_accesses(a: LruKNodeView, b: LruKNodeView, current_ts: usize, k: usize)
    requires
        a.history.len() < k,
        b.history.len() < k,
    ensures
        a.distance(current_ts, k) == usize::MAX,
        a.beats(b, current_ts, k) <==> a.oldest() < b.oldest(),
{
}

/// A node with fewer than `k` accesses beats every node with `k` accesses that
/// has been accessed at all.
pub proof fn lemma_infinite_beats_finite(
    a: LruKNodeView,
    b: LruKNodeView,
    current_ts: usize,
    k: usize,
)
    requires
        a.history.len() < k,
        b.history.len() >= k,
        1 <= b.history[0] <= current_ts,
    ensures
        a.beats(b, current_ts, k),
{
}

/// The node that is given up is the only one that beats all others.
pub proof fn lemma_victim_unique(s: LruKView, v: int, w: int)
    requires
        s.is_victim(v),
        s.is_victim(w),
    ensures
        v == w,
{
    if v != w {
        assert(s.nodes[v].beats(s.nodes[w], s.current_ts, s.k));
        assert(s.nodes[w].beats(s.nodes[v], s.current_ts, s.k));
    }
}

/// How the state changes when an access to `key` is recorded: time moves on by
/// one, and the key's node is touched at the new time; a key without a node gets
/// one at the end.
pub open spec fn lruk_accessed(pre: LruKView, post: LruKView, key: usize) -> bool {
    &&& post.k == pre.k
    &&& post.current_ts == pre.current_ts + 1
    &&& forall|i: int|
        0 <= i < pre.nodes.len() && (#[trigger] pre.nodes[i]).key == key ==> post.nodes
            == pre.nodes.update(i, pre.nodes[i].touched(post.current_ts, pre.k))
    &&& !pre.contains(key) ==> post.nodes == pre.nodes.push(
        LruKNodeView::fresh(key).touched(post.current_ts, pre.k),
    )
}

/// How the state changes when `key` is marked: the flag of its node is set;
/// where the key has no node, nothing changes.
pub open spec fn lruk_flagged(pre: LruKView, post: LruKView, key: usize, flag: bool) -> bool {
    &&& post.k == pre.k
    &&& post.current_ts == pre.current_ts
    &&& forall|i: int|
        0 <= i < pre.nodes.len() && (#[trigger] pre.nodes[i]).key == key ==> post.nodes
            == pre.nodes.update(i, LruKNodeView { is_evictable: flag, ..pre.nodes[i] })
    &&& !pre.contains(key) ==> post.nodes == pre.nodes
}

/// How the state changes when a key is given up: the node that beats all other
/// evictable nodes leaves. Where no node is evictable, none leaves.
pub open spec fn lruk_evicted(pre: LruKView, post: LruKView, r: Option<usize>) -> bool {
    &&& post.k == pre.k
    &&& post.current_ts == pre.current_ts
    &&& match r {
        Some(key) => exists|v: int|
            {
                &&& #[trigger] pre.is_victim(v)
                &&& pre.nodes[v].key == key
                &&& post.nodes == pre.nodes.remove(v)
            },
        None => {
            &&& forall|j: int| 0 <= j < pre.nodes.len() ==> !(#[trigger] pre.nodes[j]).is_evictable
            &&& post.nodes == pre.nodes
        },
    }
}

/// LRU-K: `evict` gives up the evictable key whose backward k-distance is the
/// largest; among keys at the same distance, the one whose oldest remembered
/// access is the earliest.
pub struct LruK {
    store: Vec<LruKNode>,
    k: usize,
    current_ts: usize,
    available: usize,
}

impl View for LruK {
    type V = LruKView;

    closed spec fn view(&self) -> LruKView {
        LruKView {
            nodes: Seq::new(self.store@.len(), |i: int| self.store@[i]@),
            k: self.k,
            current_ts: self.current_ts,
        }
    }
}

impl Default for LruK {
    /// A replacer with no key, for which the last two accesses count.
    fn default() -> (r: Self)
        ensures
            r.wf(),
            r@.nodes == Seq::<LruKNodeView>::empty(),
            r@.k == 2,
            r@.current_ts == 0,
    {
        let r = LruK { store: Vec::new(), k: 2, current_ts: 0, available: 0 };
        assert(r@.nodes =~= Seq::<LruKNodeView>::empty());
        r
    }
}

impl LruK {
    /// The number of evictable keys that the replacer has counted.
    pub closed spec fn spec_available(&self) -> nat {
        self.available as nat
    }

    /// The state is one that the replacer can be in, and the count of evictable
    /// keys is right.
    pub open spec fn wf(&self) -> bool {
        &&& self@.wf()
        &&& self.spec_available() == count_where(self@.nodes, lruk_flag())
    }

    /// Whether another access can be recorded: the clock has not reached the
    /// largest number.
    pub fn has_time(&self) -> (b: bool)
        ensures
            b == (self@.current_ts < usize::MAX),
    {
        self.current_ts < usize::MAX
    }

    /// The position of the node of `key`, if it has one.
    fn find(&self, key: usize) -> (r: Option<usize>)
        ensures
            match r {
                Some(i) => i < self@.nodes.len() && self@.nodes[i as int].key == key,
                None => !self@.contains(key),
            },
    {
        let mut i: usize = 0;
        while i < self.store.len()
            invariant
                i <= self.store@.len(),
                self@.nodes.len() == self.store@.len(),
                forall|j: int| 0 <= j < i ==> (#[trigger] self@.nodes[j]).key != key,
            decreases self.store@.len() - i,
        {
            if self.store[i].key == key {
                return Some(i);
            }
            i += 1;
        }
        None
    }

    /// Records an access to `key` at the next point in time: the key is not
    /// evictable from now on, and the access joins its history.
    pub fn record_access(&mut self, key: usize)
        requires
            old(self).wf(),
            old(self)@.current_ts < usize::MAX,
        ensures
            final(self).wf(),
            lruk_accessed(old(self)@, final(self)@, key),
    {
        let ghost before = self@;
        self.current_ts += 1;
        let ts: usize = self.current_ts;
        let k: usize = self.k;
        assert(self@.nodes =~= before.nodes);
        match self.find(key) {
            Some(i) => {
                let len: usize = self.store.len();
                let was: bool = self.store[i].is_evictable;
                let node = &mut self.store[i];
                node.is_evictable = false;
                node.history.push_back(ts);
                if node.history.len() > k {
                    node.history.pop_front();
                }
                proof {
                    let after = before.nodes[i as int].touched(ts, k);
                    assert(self.store@[i as int]@ == after);
                    assert(self@.nodes =~= before.nodes.update(i as int, after));
                    lemma_count_update(before.nodes, lruk_flag(), i as int, after);
                    lemma_count_bounds(before.nodes, lruk_flag());
                }
                if was {
                    self.available -= 1;
                }
                proof {
                    lemma_touch_keeps_wf(before, i as int);
                }
            },
            None => {
                let mut history: VecDeque<usize> = VecDeque::new();
                history.push_back(ts);
                self.store.push(LruKNode { key, is_evictable: false, history });
                proof {
                    let after = LruKNodeView::fresh(key).touched(ts, k);
                    assert(after.history =~= seq![ts]);
                    assert(self@.nodes =~= before.nodes.push(after));
                    lemma_count_push(before.nodes, lruk_flag(), after);
                    lemma_push_keeps_wf(before, key);
                }
            },
        }
    }

    /// Gives up the evictable key that beats all others, and forgets it.
    pub fn evict(&mut self) -> (r: Option<usize>)
        requires
            old(self).wf(),
        ensures
            final(self).wf(),
            lruk_evicted(old(self)@, final(self)@, r),
    {
        let ghost before = self@;
        let n: usize = self.store.len();
        let mut best: Option<usize> = None;
        let mut i: usize = 0;
        while i < n
            invariant
                i <= n,
                n == self.store@.len(),
                self@ == before,
                before.wf(),
                match best {
                    Some(b) => {
                        &&& b < i
                        &&& before.nodes[b as int].is_evictable
                        &&& forall|j: int|
                            0 <= j < i && j != b && (#[trigger] before.nodes[j]).is_evictable
                                ==> before.nodes[b as int].beats(
                                before.nodes[j],
                                before.current_ts,
                                before.k,
                            )
                    },
                    None => forall|j: int|
                        0 <= j < i ==> !(#[trigger] before.nodes[j]).is_evictable,
                },
            decreases n - i,
        {
            let node = &self.store[i];
            assert(node@ == before.nodes[i as int]);
            if node.is_evictable {
                match best {
                    None => {
                        best = Some(i);
                    },
                    Some(b) => {
                        let held = &self.store[b];
                        assert(held@ == before.nodes[b as int]);
                        assert(before.nodes[i as int].history[0] != before.nodes[b as int].history[0]);
                        let dist: usize = node.backward_k_distance(self.current_ts, self.k);
                        let max_dist: usize = held.backward_k_distance(self.current_ts, self.k);
                        let ts: usize = node.least_recent_timestamp();
                        let earliest_ts: usize = held.least_recent_timestamp();
                        if dist > max_dist || (dist == max_dist && ts < earliest_ts) {
                            best = Some(i);
                        }
                    },
                }
            }
            i += 1;
        }
        match best {
            Some(b) => {
                proof {
                    lemma_count_remove(before.nodes, lruk_flag(), b as int);
                    lemma_count_bounds(before.nodes, lruk_flag());
                }
                let node = self.store.remove(b);
                self.available -= 1;
                proof {
                    assert(self@.nodes =~= before.nodes.remove(b as int));
                    assert(before.is_victim(b as int));
                    lemma_remove_keeps_wf(before, b as int);
                }
                Some(node.key)
            },
            None => None,
        }
    }

    /// Marks `key` as evictable or not. A key without a node stays without.
    pub fn set_evictable(&mut self, key: usize, is_evictable: bool)
        requires
            old(self).wf(),
        ensures
            final(self).wf(),
            lruk_flagged(old(self)@, final(self)@, key, is_evictable),
    {
        let ghost before = self@;
        if let Some(i) = self.find(key) {
            let len: usize = self.store.len();
            let was: bool = self.store[i].is_evictable;
            let node = &mut self.store[i];
            node.is_evictable = is_evictable;
            proof {
                let after = LruKNodeView { is_evictable, ..before.nodes[i as int] };
                assert(self.store@[i as int]@ == after);
                assert(self@.nodes =~= before.nodes.update(i as int, after));
                lemma_count_update(before.nodes, lruk_flag(), i as int, after);
                lemma_count_bounds(before.nodes, lruk_flag());
                lemma_count_bounds(self@.nodes, lruk_flag());
                lemma_flag_keeps_wf(before, i as int, is_evictable);
            }
            assert(is_evictable && !was ==> self.available < len);
            if is_evictable && !was {
                self.available += 1;
            } else if !is_evictable && was {
                self.available -= 1;
            }
        }
    }

    /// The number of evictable keys.
    pub fn available(&self) -> (n: usize)
        requires
            self.wf(),
        ensures
            n == count_where(self@.nodes, lruk_flag()),
    {
        self.available
    }
}

/// An access to a key that has a node leaves the state well formed.
proof fn lemma_touch_keeps_wf(s: LruKView, i: int)
    requires
        s.wf(),
        0 <= i < s.nodes.len(),
        s.current_ts < usize::MAX,
    ensures
        (LruKView {
            nodes: s.nodes.update(i, s.nodes[i].touched((s.current_ts + 1) as usize, s.k)),
            k: s.k,
            current_ts: (s.current_ts + 1) as usize,
        }).wf(),
{
    let ts = (s.current_ts + 1) as usize;
    let after = s.nodes[i].touched(ts, s.k);
    let t = LruKView { nodes: s.nodes.update(i, after), k: s.k, current_ts: ts };
    let shift: int = if s.nodes[i].history.len() + 1 > s.k {
        1
    } else {
        0
    };
    assert forall|a: int| 0 <= a < after.history.len() implies (if a + shift
        < s.nodes[i].history.len() {
        after.history[a] == s.nodes[i].history[a + shift]
    } else {
        after.history[a] == ts
    }) by {}
    assert forall|j: int, a: int|
        0 <= j < t.nodes.len() && 0 <= a < t.nodes[j].history.len() implies 1
        <= #[trigger] t.nodes[j].history[a] <= t.current_ts by {
        if j == i {
            if a + shift < s.nodes[i].history.len() {
                assert(t.nodes[j].history[a] == s.nodes[i].history[a + shift]);
            }
        } else {
            assert(t.nodes[j].history[a] == s.nodes[j].history[a]);
        }
    }
    assert forall|j: int, a: int, l: int, b: int|
        0 <= j < t.nodes.len() && 0 <= a < t.nodes[j].history.len() && 0 <= l < t.nodes.len()
            && 0 <= b < t.nodes[l].history.len() && (j != l || a != b) implies #[trigger] t.nodes[j].history[a]
        != #[trigger] t.nodes[l].history[b] by {
        let x = if j == i && a + shift >= s.nodes[i].history.len() {
            ts
        } else if j == i {
            s.nodes[i].history[a + shift]
        } else {
            s.nodes[j].history[a]
        };
        let y = if l == i && b + shift >= s.nodes[i].history.len() {
            ts
        } else if l == i {
            s.nodes[i].history[b + shift]
        } else {
            s.nodes[l].history[b]
        };
        assert(t.nodes[j].history[a] == x);
        assert(t.nodes[l].history[b] == y);
    }
}

/// An access to a key that has no node yet leaves the state well formed.
proof fn lemma_push_keeps_wf(s: LruKView, key: usize)
    requires
        s.wf(),
        !s.contains(key),
        s.current_ts < usize::MAX,
    ensures
        (LruKView {
            nodes: s.nodes.push(
                LruKNodeView::fresh(key).touched((s.current_ts + 1) as usize, s.k),
            ),
            k: s.k,
            current_ts: (s.current_ts + 1) as usize,
        }).wf(),
{
    let ts = (s.current_ts + 1) as usize;
    let after = LruKNodeView::fresh(key).touched(ts, s.k);
    assert(after.history =~= seq![ts]);
    let t = LruKView { nodes: s.nodes.push(after), k: s.k, current_ts: ts };
    let n = s.nodes.len() as int;
    assert forall|i: int, j: int| 0 <= i < j < t.nodes.len() implies (#[trigger] t.nodes[i]).key
        != (#[trigger] t.nodes[j]).key by {
        if j == n {
            assert(s.nodes[i].key != key);
        }
    }
    assert forall|j: int, a: int|
        0 <= j < t.nodes.len() && 0 <= a < t.nodes[j].history.len() implies 1
        <= #[trigger] t.nodes[j].history[a] <= t.current_ts by {
        if j < n {
            assert(t.nodes[j].history[a] == s.nodes[j].history[a]);
        }
    }
    assert forall|j: int, a: int, l: int, b: int|
        0 <= j < t.nodes.len() && 0 <= a < t.nodes[j].history.len() && 0 <= l < t.nodes.len()
            && 0 <= b < t.nodes[l].history.len() && (j != l || a != b) implies #[trigger] t.nodes[j].history[a]
        != #[trigger] t.nodes[l].history[b] by {
        if j < n {
            assert(t.nodes[j].history[a] == s.nodes[j].history[a]);
        }
        if l < n {
            assert(t.nodes[l].history[b] == s.nodes[l].history[b]);
        }
    }
}

/// Forgetting a node leaves the state well formed.
proof fn lemma_remove_keeps_wf(s: LruKView, v: int)
    requires
        s.wf(),
        0 <= v < s.nodes.len(),
    ensures
        (LruKView { nodes: s.nodes.remove(v), k: s.k, current_ts: s.current_ts }).wf(),
{
    let t = LruKView { nodes: s.nodes.remove(v), k: s.k, current_ts: s.current_ts };
    assert forall|i: int| 0 <= i < t.nodes.len() implies #[trigger] t.nodes[i] == s.nodes[if i
        < v {
        i
    } else {
        i + 1
    }] by {}
    assert forall|j: int, a: int, l: int, b: int|
        0 <= j < t.nodes.len() && 0 <= a < t.nodes[j].history.len() && 0 <= l < t.nodes.len()
            && 0 <= b < t.nodes[l].history.len() && (j != l || a != b) implies #[trigger] t.nodes[j].history[a]
        != #[trigger] t.nodes[l].history[b] by {
        let j0 = if j < v {
            j
        } else {
            j + 1
        };
        let l0 = if l < v {
            l
        } else {
            l + 1
        };
        assert(t.nodes[j].history[a] == s.nodes[j0].history[a]);
        assert(t.nodes[l].history[b] == s.nodes[l0].history[b]);
    }
    assert forall|j: int, a: int|
        0 <= j < t.nodes.len() && 0 <= a < t.nodes[j].history.len() implies 1
        <= #[trigger] t.nodes[j].history[a] <= t.current_ts by {
        let j0 = if j < v {
            j
        } else {
            j + 1
        };
        assert(t.nodes[j].history[a] == s.nodes[j0].history[a]);
    }
}

/// Changing a node's flag leaves the state well formed.
proof fn lemma_flag_keeps_wf(s: LruKView, i: int, is_evictable: bool)
    requires
        s.wf(),
        0 <= i < s.nodes.len(),
    ensures
        (LruKView {
            nodes: s.nodes.update(i, LruKNodeView { is_evictable, ..s.nodes[i] }),
            k: s.k,
            current_ts: s.current_ts,
        }).wf(),
{
    let t = LruKView {
        nodes: s.nodes.update(i, LruKNodeView { is_evictable, ..s.nodes[i] }),
        k: s.k,
        current_ts: s.current_ts,
    };
    assert forall|j: int| 0 <= j < t.nodes.len() implies (#[trigger] t.nodes[j]).history
        == s.nodes[j].history && t.nodes[j].key == s.nodes[j].key by {}
    assert forall|j: int, a: int, l: int, b: int|
        0 <= j < t.nodes.len() && 0 <= a < t.nodes[j].history.len() && 0 <= l < t.nodes.len()
            && 0 <= b < t.nodes[l].history.len() && (j != l || a != b) implies #[trigger] t.nodes[j].history[a]
        != #[trigger] t.nodes[l].history[b] by {
        assert(t.nodes[j].history[a] == s.nodes[j].history[a]);
        assert(t.nodes[l].history[b] == s.nodes[l].history[b]);
    }
    assert forall|j: int, a: int|
        0 <= j < t.nodes.len() && 0 <= a < t.nodes[j].history.len() implies 1
        <= #[trigger] t.nodes[j].history[a] <= t.current_ts by {
        assert(t.nodes[j].history[a] == s.nodes[j].history[a]);
    }
}

/// The keys of a sequence of entries, each with its flag: whether it is evictable.
pub open spec fn flags_of(s: Seq<(usize, bool)>) -> Map<usize, bool> {
    assoc_map(s)
}

/// The nodes of an LRU-K replacer as entries: each key with its flag.
pub open spec fn lruk_entries(v: LruKView) -> Seq<(usize, bool)> {
    Seq::new(v.nodes.len(), |i: int| (v.nodes[i].key, v.nodes[i].is_evictable))
}

/// No key occurs twice among the entries of a replacer that is in order.
proof fn lemma_lruk_entries_distinct(v: LruKView)
    requires
        v.wf(),
    ensures
        keys_distinct(lruk_entries(v)),
{
    let e = lruk_entries(v);
    assert forall|a: int, b: int| 0 <= a < b < e.len() implies (#[trigger] e[a]).0 != (
    #[trigger] e[b]).0 by {
        assert(v.nodes[a].key != v.nodes[b].key);
    }
}

/// A replacer of either policy.
pub enum Replacer {
    Fifo(Fifo),
    LruK(LruK),
}

/// What a [`Replacer`] holds, by its policy.
pub ghost enum ReplacerView {
    Fifo(Seq<(usize, bool)>),
    LruK(LruKView),
}

impl ReplacerView {
    /// The replacer that follows `policy` and knows no key: for LRU-K, the last
    /// two accesses count, and time stands at 0.
    pub open spec fn fresh(policy: EvictionPolicy) -> ReplacerView {
        match policy {
            EvictionPolicy::Fifo => ReplacerView::Fifo(Seq::empty()),
            EvictionPolicy::LruK => ReplacerView::LruK(
                LruKView { nodes: Seq::empty(), k: 2, current_ts: 0 },
            ),
        }
    }

    /// The policy that the replacer follows.
    pub open spec fn policy(self) -> EvictionPolicy {
        match self {
            ReplacerView::Fifo(_) => EvictionPolicy::Fifo,
            ReplacerView::LruK(_) => EvictionPolicy::LruK,
        }
    }

    /// The keys that the replacer knows, each with its flag: whether it is
    /// evictable.
    pub open spec fn flags(self) -> Map<usize, bool> {
        match self {
            ReplacerView::Fifo(s) => flags_of(s),
            ReplacerView::LruK(v) => flags_of(lruk_entries(v)),
        }
    }

    /// The number of evictable keys.
    pub open spec fn available(self) -> nat {
        match self {
            ReplacerView::Fifo(s) => count_where(s, fifo_flag()),
            ReplacerView::LruK(v) => count_where(v.nodes, lruk_flag()),
        }
    }

    /// The number of keys that the replacer knows.
    pub open spec fn len(self) -> nat {
        match self {
            ReplacerView::Fifo(s) => s.len(),
            ReplacerView::LruK(v) => v.nodes.len(),
        }
    }

    /// Whether `post` differs from this replacer at most in which keys are
    /// evictable: the keys, their order, and what is remembered of their
    /// accesses are the same.
    pub open spec fn same_but_flags(self, post: ReplacerView) -> bool {
        match (self, post) {
            (ReplacerView::Fifo(a), ReplacerView::Fifo(b)) => {
                &&& a.len() == b.len()
                &&& forall|i: int| 0 <= i < a.len() ==> (#[trigger] a[i]).0 == b[i].0
            },
            (ReplacerView::LruK(a), ReplacerView::LruK(b)) => {
                &&& a.k == b.k
                &&& a.current_ts == b.current_ts
                &&& a.nodes.len() == b.nodes.len()
                &&& forall|i: int|
                    0 <= i < a.nodes.len() ==> (#[trigger] a.nodes[i]).key == b.nodes[i].key
                        && a.nodes[i].history == b.nodes[i].history
            },
            _ => false,
        }
    }

    /// Marking a key changes at most which keys are evictable.
    pub proof fn lemma_flagged_same_but_flags(self, post: ReplacerView, key: usize, flag: bool)
        requires
            self.flagged(post, key, flag),
        ensures
            self.same_but_flags(post),
    {
        match (self, post) {
            (ReplacerView::Fifo(a), ReplacerView::Fifo(b)) => {
                if exists|i: int| 0 <= i < a.len() && (#[trigger] a[i]).0 == key {
                    let i = choose|i: int| 0 <= i < a.len() && (#[trigger] a[i]).0 == key;
                    assert(b == a.update(i, (key, flag)));
                }
            },
            (ReplacerView::LruK(a), ReplacerView::LruK(b)) => {
                if a.contains(key) {
                    let i = choose|i: int|
                        0 <= i < a.nodes.len() && (#[trigger] a.nodes[i]).key == key;
                    assert(b.nodes == a.nodes.update(
                        i,
                        LruKNodeView { is_evictable: flag, ..a.nodes[i] },
                    ));
                }
            },
            _ => {},
        }
    }

    /// Changing at most which keys are evictable, twice, changes at most that.
    pub proof fn lemma_same_but_flags_trans(self, mid: ReplacerView, post: ReplacerView)
        requires
            self.same_but_flags(mid),
            mid.same_but_flags(post),
        ensures
            self.same_but_flags(post),
            self.same_but_flags(self),
    {
        match (self, mid, post) {
            (ReplacerView::Fifo(a), ReplacerView::Fifo(m), ReplacerView::Fifo(b)) => {
                assert forall|i: int| 0 <= i < a.len() implies (#[trigger] a[i]).0 == b[i].0 by {
                    assert(a[i].0 == m[i].0);
                    assert(m[i].0 == b[i].0);
                }
            },
            (ReplacerView::LruK(a), ReplacerView::LruK(m), ReplacerView::LruK(b)) => {
                assert forall|i: int| 0 <= i < a.nodes.len() implies (#[trigger] a.nodes[i]).key
                    == b.nodes[i].key && a.nodes[i].history == b.nodes[i].history by {
                    assert(a.nodes[i].key == m.nodes[i].key);
                    assert(m.nodes[i].key == b.nodes[i].key);
                }
            },
            _ => {},
        }
    }

    /// No more keys are evictable than the replacer knows.
    pub proof fn lemma_available_bound(self)
        ensures
            self.available() <= self.len(),
    {
        match self {
            ReplacerView::Fifo(s) => lemma_count_bounds(s, fifo_flag()),
            ReplacerView::LruK(v) => lemma_count_bounds(v.nodes, lruk_flag()),
        }
    }

    /// Whether another access can be recorded: the clock of LRU-K has not
    /// reached the largest number.
    pub open spec fn has_time(self) -> bool {
        match self {
            ReplacerView::Fifo(_) => true,
            ReplacerView::LruK(v) => v.current_ts < usize::MAX,
        }
    }

    /// Whether `post` is what this replacer becomes when an access to `key` is
    /// recorded.
    pub open spec fn accessed(self, post: ReplacerView, key: usize) -> bool {
        match (self, post) {
            (ReplacerView::Fifo(a), ReplacerView::Fifo(b)) => fifo_accessed(a, b, key),
            (ReplacerView::LruK(a), ReplacerView::LruK(b)) => lruk_accessed(a, b, key),
            _ => false,
        }
    }

    /// Whether `post` is what this replacer becomes when `key` is marked with
    /// `flag`.
    pub open spec fn flagged(self, post: ReplacerView, key: usize, flag: bool) -> bool {
        match (self, post) {
            (ReplacerView::Fifo(a), ReplacerView::Fifo(b)) => fifo_flagged(a, b, key, flag),
            (ReplacerView::LruK(a), ReplacerView::LruK(b)) => lruk_flagged(a, b, key, flag),
            _ => false,
        }
    }

    /// Whether `post` is what this replacer becomes when it gives up `r`.
    pub open spec fn evicted(self, post: ReplacerView, r: Option<usize>) -> bool {
        match (self, post) {
            (ReplacerView::Fifo(a), ReplacerView::Fifo(b)) => fifo_evicted(a, b, r),
            (ReplacerView::LruK(a), ReplacerView::LruK(b)) => lruk_evicted(a, b, r),
            _ => false,
        }
    }
}

impl View for Replacer {
    type V = ReplacerView;

    open spec fn view(&self) -> ReplacerView {
        match self {
            Replacer::Fifo(f) => ReplacerView::Fifo(f@),
            Replacer::LruK(l) => ReplacerView::LruK(l@),
        }
    }
}

impl Replacer {
    /// The replacer is in a state that its policy allows.
    pub open spec fn wf(&self) -> bool {
        match self {
            Replacer::Fifo(f) => f.wf(),
            Replacer::LruK(l) => l.wf(),
        }
    }

    /// A replacer that follows `policy` and knows no key yet.
    pub fn new(policy: EvictionPolicy) -> (r: Self)
        ensures
            r.wf(),
            r@ == ReplacerView::fresh(policy),
            r@.policy() == policy,
            r@.flags() == Map::<usize, bool>::empty(),
            r@.available() == 0,
            r@.len() == 0,
            r@.has_time(),
    {
        let r = match policy {
            EvictionPolicy::Fifo => Replacer::Fifo(Fifo::default()),
            EvictionPolicy::LruK => Replacer::LruK(LruK::default()),
        };
        proof {
            assert(r@.flags() =~= Map::<usize, bool>::empty());
        }
        r
    }

    /// Records that `key` is in use: the replacer knows it from now on, as not
    /// evictable.
    pub fn record_access(&mut self, key: usize)
        requires
            old(self).wf(),
            old(self)@.has_time(),
        ensures
            final(self).wf(),
            old(self)@.accessed(final(self)@, key),
            final(self)@.flags() == old(self)@.flags().insert(key, false),
            final(self)@.len() == old(self)@.len() + if old(self)@.flags().contains_key(key) {
                0nat
            } else {
                1nat
            },
    {
        match self {
            Replacer::Fifo(f) => {
                let ghost pre = f@;
                f.record_access(key);
                proof {
                    lemma_fifo_accessed_flags(pre, f@, key);
                }
            },
            Replacer::LruK(l) => {
                let ghost pre = l@;
                l.record_access(key);
                proof {
                    lemma_lruk_accessed_flags(pre, l@, key);
                }
            },
        }
    }

    /// Gives up one evictable key, which the policy chooses, and forgets it.
    /// Returns `None` where no key is evictable.
    pub fn evict(&mut self) -> (r: Option<usize>)
        requires
            old(self).wf(),
        ensures
            final(self).wf(),
            final(self)@.has_time() == old(self)@.has_time(),
            old(self)@.evicted(final(self)@, r),
            match r {
                Some(key) => {
                    &&& old(self)@.flags().contains_key(key)
                    &&& old(self)@.flags()[key]
                    &&& final(self)@.flags() == old(self)@.flags().remove(key)
                    &&& final(self)@.len() + 1 == old(self)@.len()
                },
                None => {
                    &&& none_evictable(old(self)@.flags())
                    &&& final(self)@ == old(self)@
                },
            },
    {
        match self {
            Replacer::Fifo(f) => {
                let ghost pre = f@;
                let r = f.evict();
                proof {
                    lemma_fifo_evicted_flags(pre, f@, r);
                }
                r
            },
            Replacer::LruK(l) => {
                let ghost pre = l@;
                let r = l.evict();
                proof {
                    lemma_lruk_evicted_flags(pre, l@, r);
                }
                r
            },
        }
    }

    /// Marks `key` as evictable or not. A key that the replacer does not know
    /// stays unknown.
    pub fn set_evictable(&mut self, key: usize, is_evictable: bool)
        requires
            old(self).wf(),
        ensures
            final(self).wf(),
            final(self)@.has_time() == old(self)@.has_time(),
            old(self)@.flagged(final(self)@, key, is_evictable),
            final(self)@.flags() == if old(self)@.flags().contains_key(key) {
                old(self)@.flags().insert(key, is_evictable)
            } else {
                old(self)@.flags()
            },
            final(self)@.len() == old(self)@.len(),
    {
        match self {
            Replacer::Fifo(f) => {
                let ghost pre = f@;
                f.set_evictable(key, is_evictable);
                proof {
                    lemma_fifo_flagged_flags(pre, f@, key, is_evictable);
                }
            },
            Replacer::LruK(l) => {
                let ghost pre = l@;
                l.set_evictable(key, is_evictable);
                proof {
                    lemma_lruk_flagged_flags(pre, l@, key, is_evictable);
                }
            },
        }
    }

    /// Whether another access can be recorded.
    pub fn has_time(&self) -> (b: bool)
        ensures
            b == self@.has_time(),
    {
        match self {
            Replacer::Fifo(_) => true,
            Replacer::LruK(l) => l.has_time(),
        }
    }

    /// The number of evictable keys.
    pub fn available(&self) -> (n: usize)
        requires
            self.wf(),
        ensures
            n == self@.available(),
            n == 0 <==> none_evictable(self@.flags()),
    {
        proof {
            self.lemma_none_available();
        }
        match self {
            Replacer::Fifo(f) => f.available(),
            Replacer::LruK(l) => l.available(),
        }
    }

    /// No key is counted as evictable exactly if no key is evictable.
    pub proof fn lemma_none_available(&self)
        requires
            self.wf(),
        ensures
            self@.available() == 0 <==> none_evictable(self@.flags()),
    {
        match self {
            Replacer::Fifo(f) => {
                lemma_fifo_count_zero(f@);
            },
            Replacer::LruK(l) => {
                lemma_lruk_count_zero(l@);
            },
        }
    }
}

/// Whether no key is evictable.
pub open spec fn none_evictable(flags: Map<usize, bool>) -> bool {
    forall|k: usize| flags.contains_key(k) ==> !flags[k]
}

/// No entry is counted as evictable exactly if no key is evictable.
proof fn lemma_fifo_count_zero(s: Seq<(usize, bool)>)
    requires
        keys_distinct(s),
    ensures
        count_where(s, fifo_flag()) == 0 <==> none_evictable(flags_of(s)),
{
    lemma_count_bounds(s, fifo_flag());
    if count_where(s, fifo_flag()) == 0 {
        assert forall|k: usize| flags_of(s).contains_key(k) implies !flags_of(s)[k] by {
            let i = lemma_assoc_witness(s, k);
            assert(!fifo_flag()(s[i]));
        }
    }
    if none_evictable(flags_of(s)) {
        assert forall|i: int| 0 <= i < s.len() implies !fifo_flag()(#[trigger] s[i]) by {
            lemma_assoc_index(s, i);
        }
    }
}

/// No node is counted as evictable exactly if no key is evictable.
proof fn lemma_lruk_count_zero(v: LruKView)
    requires
        v.wf(),
    ensures
        count_where(v.nodes, lruk_flag()) == 0 <==> none_evictable(flags_of(lruk_entries(v))),
{
    let s = lruk_entries(v);
    lemma_lruk_entries_distinct(v);
    lemma_count_bounds(v.nodes, lruk_flag());
    if count_where(v.nodes, lruk_flag()) == 0 {
        assert forall|k: usize| flags_of(s).contains_key(k) implies !flags_of(s)[k] by {
            let i = lemma_assoc_witness(s, k);
            assert(!lruk_flag()(v.nodes[i]));
        }
    }
    if none_evictable(flags_of(s)) {
        assert forall|i: int| 0 <= i < v.nodes.len() implies !lruk_flag()(
            #[trigger] v.nodes[i],
        ) by {
            lemma_assoc_index(s, i);
        }
    }
}

/// No entry is evictable exactly if no key is.
proof fn lemma_no_flag_set(s: Seq<(usize, bool)>)
    requires
        keys_distinct(s),
    ensures
        (forall|i: int| 0 <= i < s.len() ==> !(#[trigger] s[i]).1) ==> none_evictable(
            flags_of(s),
        ),
{
    if forall|i: int| 0 <= i < s.len() ==> !(#[trigger] s[i]).1 {
        assert forall|k: usize| flags_of(s).contains_key(k) implies !flags_of(s)[k] by {
            let i = lemma_assoc_witness(s, k);
        }
    }
}

/// Recording an access enters the key as not evictable.
proof fn lemma_fifo_accessed_flags(pre: Seq<(usize, bool)>, post: Seq<(usize, bool)>, key: usize)
    requires
        keys_distinct(pre),
        fifo_accessed(pre, post, key),
    ensures
        flags_of(post) == flags_of(pre).insert(key, false),
        post.len() == pre.len() + if flags_of(pre).contains_key(key) {
            0nat
        } else {
            1nat
        },
{
    if flags_of(pre).contains_key(key) {
        let i = lemma_assoc_witness(pre, key);
        lemma_assoc_update(pre, i, false);
    } else {
        assert forall|i: int| 0 <= i < pre.len() implies (#[trigger] pre[i]).0 != key by {
            lemma_assoc_index(pre, i);
        }
        lemma_assoc_push(pre, key, false);
    }
}

/// Marking a key sets its flag, if the key is known.
proof fn lemma_fifo_flagged_flags(
    pre: Seq<(usize, bool)>,
    post: Seq<(usize, bool)>,
    key: usize,
    flag: bool,
)
    requires
        keys_distinct(pre),
        fifo_flagged(pre, post, key, flag),
    ensures
        flags_of(post) == if flags_of(pre).contains_key(key) {
            flags_of(pre).insert(key, flag)
        } else {
            flags_of(pre)
        },
        post.len() == pre.len(),
{
    if flags_of(pre).contains_key(key) {
        let i = lemma_assoc_witness(pre, key);
        lemma_assoc_update(pre, i, flag);
    } else {
        assert forall|i: int| 0 <= i < pre.len() implies (#[trigger] pre[i]).0 != key by {
            lemma_assoc_index(pre, i);
        }
    }
}

/// The key that is given up was evictable, and is known no more.
proof fn lemma_fifo_evicted_flags(
    pre: Seq<(usize, bool)>,
    post: Seq<(usize, bool)>,
    r: Option<usize>,
)
    requires
        keys_distinct(pre),
        fifo_evicted(pre, post, r),
    ensures
        match r {
            Some(key) => {
                &&& flags_of(pre).contains_key(key)
                &&& flags_of(pre)[key]
                &&& flags_of(post) == flags_of(pre).remove(key)
                &&& post.len() + 1 == pre.len()
            },
            None => {
                &&& none_evictable(flags_of(pre))
                &&& flags_of(post) == flags_of(pre)
            },
        },
{
    match r {
        Some(key) => {
            let i = choose|i: int|
                {
                    &&& 0 <= i < pre.len()
                    &&& #[trigger] pre[i] == (key, true)
                    &&& forall|j: int| 0 <= j < i ==> !(#[trigger] pre[j]).1
                    &&& post == pre.remove(i)
                };
            lemma_assoc_index(pre, i);
            lemma_assoc_remove(pre, i);
        },
        None => {
            lemma_no_flag_set(pre);
        },
    }
}

/// Recording an access enters the key as not evictable.
proof fn lemma_lruk_accessed_flags(pre: LruKView, post: LruKView, key: usize)
    requires
        pre.wf(),
        lruk_accessed(pre, post, key),
    ensures
        flags_of(lruk_entries(post)) == flags_of(lruk_entries(pre)).insert(key, false),
        post.nodes.len() == pre.nodes.len() + if flags_of(lruk_entries(pre)).contains_key(key) {
            0nat
        } else {
            1nat
        },
{
    let s = lruk_entries(pre);
    let t = lruk_entries(post);
    lemma_lruk_entries_distinct(pre);
    if flags_of(s).contains_key(key) {
        let i = lemma_assoc_witness(s, key);
        assert(pre.nodes[i].key == key);
        assert(t =~= s.update(i, (key, false)));
        lemma_assoc_update(s, i, false);
    } else {
        assert forall|i: int| 0 <= i < pre.nodes.len() implies (#[trigger] pre.nodes[i]).key
            != key by {
            lemma_assoc_index(s, i);
        }
        assert(t =~= s.push((key, false)));
        lemma_assoc_push(s, key, false);
    }
}

/// Marking a key sets its flag, if the key is known.
proof fn lemma_lruk_flagged_flags(pre: LruKView, post: LruKView, key: usize, flag: bool)
    requires
        pre.wf(),
        lruk_flagged(pre, post, key, flag),
    ensures
        flags_of(lruk_entries(post)) == if flags_of(lruk_entries(pre)).contains_key(key) {
            flags_of(lruk_entries(pre)).insert(key, flag)
        } else {
            flags_of(lruk_entries(pre))
        },
        post.nodes.len() == pre.nodes.len(),
{
    let s = lruk_entries(pre);
    let t = lruk_entries(post);
    lemma_lruk_entries_distinct(pre);
    if flags_of(s).contains_key(key) {
        let i = lemma_assoc_witness(s, key);
        assert(pre.nodes[i].key == key);
        assert(t =~= s.update(i, (key, flag)));
        lemma_assoc_update(s, i, flag);
    } else {
        assert forall|i: int| 0 <= i < pre.nodes.len() implies (#[trigger] pre.nodes[i]).key
            != key by {
            lemma_assoc_index(s, i);
        }
        assert(t =~= s);
    }
}

/// The key that is given up was evictable, and is known no more.
proof fn lemma_lruk_evicted_flags(pre: LruKView, post: LruKView, r: Option<usize>)
    requires
        pre.wf(),
        lruk_evicted(pre, post, r),
    ensures
        match r {
            Some(key) => {
                &&& flags_of(lruk_entries(pre)).contains_key(key)
                &&& flags_of(lruk_entries(pre))[key]
                &&& flags_of(lruk_entries(post)) == flags_of(lruk_entries(pre)).remove(key)
                &&& post.nodes.len() + 1 == pre.nodes.len()
            },
            None => {
                &&& none_evictable(flags_of(lruk_entries(pre)))
                &&& flags_of(lruk_entries(post)) == flags_of(lruk_entries(pre))
            },
        },
{
    let s = lruk_entries(pre);
    let t = lruk_entries(post);
    lemma_lruk_entries_distinct(pre);
    match r {
        Some(key) => {
            let v = choose|v: int|
                {
                    &&& #[trigger] pre.is_victim(v)
                    &&& pre.nodes[v].key == key
                    &&& post.nodes == pre.nodes.remove(v)
                };
            assert(s[v] == (key, true));
            lemma_assoc_index(s, v);
            assert(t =~= s.remove(v));
            lemma_assoc_remove(s, v);
        },
        None => {
            assert(t =~= s);
            assert forall|i: int| 0 <= i < s.len() implies !(#[trigger] s[i]).1 by {
                assert(!pre.nodes[i].is_evictable);
            }
            lemma_no_flag_set(s);
        },
    }
}

} // verus!
