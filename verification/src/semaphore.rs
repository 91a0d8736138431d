//! Counting semaphores with FIFO wake-up, keyed by a user-chosen value.
//!
//! Each semaphore holds a count and a queue of blocked process ids. A signal
//! hands the permit directly to the oldest waiter instead of incrementing,
//! so no waiter starves; [`lemma_semaphore_fifo`] proves that `n` signals
//! wake the first `n` queued waiters in exactly their queue order.

use crate::pid::ProcessId;
use vstd::prelude::*;

verus! {

/// What a semaphore operation did, for the syscall layer to act on.
#[derive(Clone, Copy, PartialEq, Eq, Structural, Debug)]
pub enum SemaphoreResult {
    /// The operation completed; the caller continues.
    Done,
    /// No semaphore with that key exists.
    NotExist,
    /// The caller must block; it was appended to the waiter queue.
    Block,
    /// A waiter was woken and must be made ready.
    WakeUp(ProcessId),
}

/// One counting semaphore: a count and the FIFO queue of blocked processes.
pub struct Semaphore {
    /// Permits currently available.
    pub count: u64,
    /// Blocked processes, oldest first.
    pub waiters: Vec<ProcessId>,
}

/// The count a signal leaves behind: unchanged when the permit goes straight
/// to a waiter, one more otherwise (saturating at the machine limit).
pub open spec fn spec_signal_count(count: u64, waiters: Seq<ProcessId>) -> u64 {
    if count == 0 && waiters.len() > 0 {
        0u64
    } else if count < u64::MAX {
        (count + 1) as u64
    } else {
        count
    }
}

/// The waiter queue a signal leaves behind.
pub open spec fn spec_signal_waiters(count: u64, waiters: Seq<ProcessId>) -> Seq<ProcessId> {
    if count == 0 && waiters.len() > 0 {
        waiters.drop_first()
    } else {
        waiters
    }
}

/// What a signal reports.
pub open spec fn spec_signal_result(count: u64, waiters: Seq<ProcessId>) -> SemaphoreResult {
    if count == 0 && waiters.len() > 0 {
        SemaphoreResult::WakeUp(waiters[0])
    } else {
        SemaphoreResult::Done
    }
}

/// The ids woken by `n` successive signals, in wake order.
pub open spec fn spec_wake_order(count: u64, waiters: Seq<ProcessId>, n: nat) -> Seq<ProcessId>
    decreases n,
{
    if n == 0 {
        Seq::empty()
    } else if count == 0 && waiters.len() > 0 {
        seq![waiters[0]] + spec_wake_order(0, waiters.drop_first(), (n - 1) as nat)
    } else {
        spec_wake_order(spec_signal_count(count, waiters), waiters, (n - 1) as nat)
    }
}

/// Semaphore FIFO fairness: with the count consumed and `n` processes queued
/// in order, `n` signals wake exactly the first `n` of them, in that order.
pub proof fn lemma_semaphore_fifo(waiters: Seq<ProcessId>, n: nat)
    requires
        n <= waiters.len(),
    ensures
        spec_wake_order(0, waiters, n) =~= waiters.take(n as int),
    decreases n,
{
    if n > 0 {
        lemma_semaphore_fifo(waiters.drop_first(), (n - 1) as nat);
        assert(waiters.take(n as int) =~= seq![waiters[0]] + waiters.drop_first().take(
            n as int - 1,
        ));
    }
}

impl Semaphore {
    /// A semaphore holding `value` permits and no waiters.
    pub fn new(value: u64) -> (s: Semaphore)
        ensures
            s.count == value,
            s.waiters@ =~= Seq::<ProcessId>::empty(),
    {
        Semaphore { count: value, waiters: Vec::new() }
    }

    /// Takes a permit, or queues `pid` at the tail of the waiter queue when
    /// none is left.
    pub fn wait(&mut self, pid: ProcessId) -> (r: SemaphoreResult)
        ensures
            old(self).count > 0 ==> r == SemaphoreResult::Done && final(self).count == old(
                self,
            ).count - 1 && final(self).waiters@ == old(self).waiters@,
            old(self).count == 0 ==> r == SemaphoreResult::Block && final(self).count == 0 && final(self).waiters@ == old(self).waiters@.push(pid),
    {
        if self.count > 0 {
            self.count = self.count - 1;
            SemaphoreResult::Done
        } else {
            self.waiters.push(pid);
            SemaphoreResult::Block
        }
    }

    /// Wakes the oldest waiter when the count is consumed and one is queued;
    /// otherwise returns the permit to the count.
    pub fn signal(&mut self) -> (r: SemaphoreResult)
        ensures
            final(self).count == spec_signal_count(old(self).count, old(self).waiters@),
            final(self).waiters@ == spec_signal_waiters(old(self).count, old(self).waiters@),
            r == spec_signal_result(old(self).count, old(self).waiters@),
    {
        if self.count == 0 && self.waiters.len() > 0 {
            let pid = self.waiters.remove(0);
            proof {
                assert(self.waiters@ =~= old(self).waiters@.drop_first());
            }
            SemaphoreResult::WakeUp(pid)
        } else if self.count < u64::MAX {
            self.count = self.count + 1;
            SemaphoreResult::Done
        } else {
            SemaphoreResult::Done
        }
    }
}

/// One keyed slot of the semaphore table.
pub struct SemaphoreEntry {
    /// The user-chosen key.
    pub key: u32,
    /// The semaphore behind it.
    pub sem: Semaphore,
}

/// The semaphore table of one process family: user keys to semaphores.
pub struct SemaphoreSet {
    /// The live semaphores; keys are unique.
    pub entries: Vec<SemaphoreEntry>,
}

impl SemaphoreSet {
    /// Keys are unique.
    pub open spec fn wf(self) -> bool {
        forall|i: int, j: int|
            0 <= i < j < self.entries@.len() ==> self.entries@[i].key != self.entries@[j].key
    }

    /// Whether some slot carries `key`.
    pub open spec fn spec_contains(self, key: u32) -> bool {
        exists|i: int| 0 <= i < self.entries@.len() && self.entries@[i].key == key
    }

    /// The index of the slot carrying `key`.
    pub open spec fn index_of(self, key: u32) -> int {
        choose|i: int| 0 <= i < self.entries@.len() && self.entries@[i].key == key
    }

    /// The semaphore behind `key`.
    pub open spec fn sem_of(self, key: u32) -> Semaphore {
        self.entries@[self.index_of(key)].sem
    }

    /// An empty table.
    pub fn new() -> (s: SemaphoreSet)
        ensures
            s.wf(),
            forall|key: u32| !s.spec_contains(key),
            s.entries@.len() == 0,
    {
        SemaphoreSet { entries: Vec::new() }
    }

    /// The index of the slot carrying `key`, if any.
    fn find(&self, key: u32) -> (r: Option<usize>)
        requires
            self.wf(),
        ensures
            match r {
                Some(i) => i < self.entries@.len() && self.entries@[i as int].key == key
                    && self.spec_contains(key) && self.index_of(key) == i,
                None => !self.spec_contains(key),
            },
    {
        let n = self.entries.len();
        let mut i: usize = 0;
        while i < n
            invariant
                n == self.entries@.len(),
                i <= n,
                self.wf(),
                forall|j: int| 0 <= j < i ==> self.entries@[j].key != key,
            decreases n - i,
        {
            if self.entries[i].key == key {
                proof {
                    let w = self.index_of(key);
                    assert(self.entries@[w].key == key);
                }
                return Some(i);
            }
            i += 1;
        }
        None
    }

    /// Creates the semaphore `key` with `value` permits; false when the key
    /// is already present, and then nothing changes.
    pub fn init(&mut self, key: u32, value: u64) -> (r: bool)
        requires
            old(self).wf(),
        ensures
            final(self).wf(),
            r == !old(self).spec_contains(key),
            !r ==> *final(self) == *old(self),
            r ==> {
                &&& final(self).spec_contains(key)
                &&& final(self).sem_of(key).count == value
                &&& final(self).sem_of(key).waiters@ =~= Seq::<ProcessId>::empty()
                &&& forall|k: u32|
                    k != key ==> #[trigger] final(self).spec_contains(k) == old(
                        self,
                    ).spec_contains(k) && (old(self).spec_contains(k) ==> final(self).sem_of(k)
                        == old(self).sem_of(k))
            },
    {
        if self.find(key).is_some() {
            return false;
        }
        let ghost pre = *self;
        self.entries.push(SemaphoreEntry { key, sem: Semaphore::new(value) });
        proof {
            lemma_set_push(pre, *self, key);
        }
        true
    }

    /// Deletes the semaphore `key`; false when it is absent, and then
    /// nothing changes. Waiters still queued on the key are dropped with it:
    /// the caller decides their fate before removing.
    pub fn remove(&mut self, key: u32) -> (r: bool)
        requires
            old(self).wf(),
        ensures
            final(self).wf(),
            r == old(self).spec_contains(key),
            !r ==> *final(self) == *old(self),
            r ==> {
                &&& !final(self).spec_contains(key)
                &&& forall|k: u32|
                    k != key ==> #[trigger] final(self).spec_contains(k) == old(
                        self,
                    ).spec_contains(k) && (old(self).spec_contains(k) ==> final(self).sem_of(k)
                        == old(self).sem_of(k))
            },
    {
        match self.find(key) {
            None => false,
            Some(i) => {
                let ghost pre = *self;
                self.entries.remove(i);
                proof {
                    lemma_set_remove(pre, *self, key, i as int);
                }
                true
            },
        }
    }

    /// Takes a permit from semaphore `key` for `pid`, queueing `pid` when
    /// none is left; `NotExist` when the key is absent.
    pub fn wait(&mut self, key: u32, pid: ProcessId) -> (r: SemaphoreResult)
        requires
            old(self).wf(),
        ensures
            final(self).wf(),
            !old(self).spec_contains(key) ==> r == SemaphoreResult::NotExist && *final(self)
                == *old(self),
            old(self).spec_contains(key) ==> {
                &&& final(self).spec_contains(key)
                &&& (old(self).sem_of(key).count > 0 ==> r == SemaphoreResult::Done && final(self).sem_of(key).count == old(self).sem_of(key).count - 1 && final(self).sem_of(
                    key,
                ).waiters@ == old(self).sem_of(key).waiters@)
                &&& (old(self).sem_of(key).count == 0 ==> r == SemaphoreResult::Block && final(self).sem_of(key).count == 0 && final(self).sem_of(key).waiters@ == old(self).sem_of(
                    key,
                ).waiters@.push(pid))
                &&& forall|k: u32|
                    k != key ==> #[trigger] final(self).spec_contains(k) == old(
                        self,
                    ).spec_contains(k) && (old(self).spec_contains(k) ==> final(self).sem_of(k)
                        == old(self).sem_of(k))
            },
    {
        match self.find(key) {
            None => SemaphoreResult::NotExist,
            Some(i) => {
                let ghost pre = *self;
                let r = self.entries[i].sem.wait(pid);
                proof {
                    lemma_set_update(pre, *self, key, i as int);
                }
                r
            },
        }
    }

    /// Signals semaphore `key`: wakes its oldest waiter or raises its count;
    /// `NotExist` when the key is absent.
    pub fn signal(&mut self, key: u32) -> (r: SemaphoreResult)
        requires
            old(self).wf(),
        ensures
            final(self).wf(),
            !old(self).spec_contains(key) ==> r == SemaphoreResult::NotExist && *final(self)
                == *old(self),
            old(self).spec_contains(key) ==> {
                &&& final(self).spec_contains(key)
                &&& final(self).sem_of(key).count == spec_signal_count(
                    old(self).sem_of(key).count,
                    old(self).sem_of(key).waiters@,
                )
                &&& final(self).sem_of(key).waiters@ == spec_signal_waiters(
                    old(self).sem_of(key).count,
                    old(self).sem_of(key).waiters@,
                )
                &&& r == spec_signal_result(
                    old(self).sem_of(key).count,
                    old(self).sem_of(key).waiters@,
                )
                &&& forall|k: u32|
                    k != key ==> #[trigger] final(self).spec_contains(k) == old(
                        self,
                    ).spec_contains(k) && (old(self).spec_contains(k) ==> final(self).sem_of(k)
                        == old(self).sem_of(k))
            },
    {
        match self.find(key) {
            None => SemaphoreResult::NotExist,
            Some(i) => {
                let ghost pre = *self;
                let r = self.entries[i].sem.signal();
                proof {
                    lemma_set_update(pre, *self, key, i as int);
                }
                r
            },
        }
    }
}

/// Pushing a slot with a fresh key keeps the table sound and leaves every
/// other key's slot where it was.
proof fn lemma_set_push(pre: SemaphoreSet, post: SemaphoreSet, key: u32)
    requires
        pre.wf(),
        !pre.spec_contains(key),
        post.entries@.len() == pre.entries@.len() + 1,
        post.entries@[pre.entries@.len() as int].key == key,
        forall|j: int| 0 <= j < pre.entries@.len() ==> post.entries@[j] == pre.entries@[j],
    ensures
        post.wf(),
        post.spec_contains(key),
        post.index_of(key) == pre.entries@.len(),
        forall|k: u32|
            k != key ==> #[trigger] post.spec_contains(k) == pre.spec_contains(k) && (
            pre.spec_contains(k) ==> post.sem_of(k) == pre.sem_of(k)),
{
    let n = pre.entries@.len() as int;
    assert forall|i: int, j: int| 0 <= i < j < post.entries@.len() implies post.entries@[i].key
        != post.entries@[j].key by {
        if j == n {
            assert(post.entries@[i] == pre.entries@[i]);
            if pre.entries@[i].key == key {
                assert(pre.spec_contains(key));
            }
        }
    }
    assert(post.entries@[n].key == key);
    lemma_index_unique(post, key, n);
    assert forall|k: u32| k != key implies #[trigger] post.spec_contains(k) == pre.spec_contains(
        k,
    ) && (pre.spec_contains(k) ==> post.sem_of(k) == pre.sem_of(k)) by {
        if pre.spec_contains(k) {
            let i = pre.index_of(k);
            assert(pre.entries@[i].key == k);
            assert(post.entries@[i] == pre.entries@[i]);
            assert(post.spec_contains(k));
            lemma_index_unique(post, k, i);
            lemma_index_unique(pre, k, i);
        }
        if post.spec_contains(k) {
            let i = post.index_of(k);
            assert(post.entries@[i].key == k);
            assert(i != n);
            assert(pre.entries@[i].key == k);
            assert(pre.spec_contains(k));
        }
    }
}

/// Removing the slot carrying a key keeps the table sound and leaves every
/// other key's slot where it was.
proof fn lemma_set_remove(pre: SemaphoreSet, post: SemaphoreSet, key: u32, i: int)
    requires
        pre.wf(),
        0 <= i < pre.entries@.len(),
        pre.entries@[i].key == key,
        post.entries@ == pre.entries@.remove(i),
    ensures
        post.wf(),
        !post.spec_contains(key),
        forall|k: u32|
            k != key ==> #[trigger] post.spec_contains(k) == pre.spec_contains(k) && (
            pre.spec_contains(k) ==> post.sem_of(k) == pre.sem_of(k)),
{
    assert forall|a: int, b: int| 0 <= a < b < post.entries@.len() implies post.entries@[a].key
        != post.entries@[b].key by {
        if b < i {
            assert(post.entries@[a] == pre.entries@[a] && post.entries@[b] == pre.entries@[b]);
        } else if a < i {
            assert(post.entries@[a] == pre.entries@[a] && post.entries@[b] == pre.entries@[b + 1]);
        } else {
            assert(post.entries@[a] == pre.entries@[a + 1] && post.entries@[b] == pre.entries@[b
                + 1]);
        }
    }
    assert forall|j: int| 0 <= j < post.entries@.len() implies post.entries@[j].key != key by {
        if j < i {
            assert(post.entries@[j] == pre.entries@[j]);
        } else {
            assert(post.entries@[j] == pre.entries@[j + 1]);
        }
    }
    assert forall|k: u32| k != key implies #[trigger] post.spec_contains(k) == pre.spec_contains(
        k,
    ) && (pre.spec_contains(k) ==> post.sem_of(k) == pre.sem_of(k)) by {
        if pre.spec_contains(k) {
            let a = pre.index_of(k);
            assert(pre.entries@[a].key == k);
            assert(a != i);
            let b = if a < i {
                a
            } else {
                a - 1
            };
            assert(post.entries@[b] == pre.entries@[a]);
            assert(post.spec_contains(k));
            lemma_index_unique(post, k, b);
            lemma_index_unique(pre, k, a);
        }
        if post.spec_contains(k) {
            let b = post.index_of(k);
            assert(post.entries@[b].key == k);
            let a = if b < i {
                b
            } else {
                b + 1
            };
            assert(pre.entries@[a] == post.entries@[b]);
            assert(pre.spec_contains(k));
        }
    }
}

/// Replacing the semaphore in the slot carrying a key (key unchanged) keeps
/// the table sound and leaves every other key's slot where it was.
proof fn lemma_set_update(pre: SemaphoreSet, post: SemaphoreSet, key: u32, i: int)
    requires
        pre.wf(),
        0 <= i < pre.entries@.len(),
        pre.entries@[i].key == key,
        post.entries@.len() == pre.entries@.len(),
        post.entries@[i].key == key,
        forall|j: int| 0 <= j < pre.entries@.len() && j != i ==> post.entries@[j] == pre.entries@[j],
    ensures
        post.wf(),
        post.spec_contains(key),
        pre.spec_contains(key),
        post.index_of(key) == i,
        pre.index_of(key) == i,
        post.sem_of(key) == post.entries@[i].sem,
        pre.sem_of(key) == pre.entries@[i].sem,
        forall|k: u32|
            k != key ==> #[trigger] post.spec_contains(k) == pre.spec_contains(k) && (
            pre.spec_contains(k) ==> post.sem_of(k) == pre.sem_of(k)),
{
    assert forall|a: int, b: int| 0 <= a < b < post.entries@.len() implies post.entries@[a].key
        != post.entries@[b].key by {
        assert(post.entries@[a].key == pre.entries@[a].key);
        assert(post.entries@[b].key == pre.entries@[b].key);
    }
    lemma_index_unique(post, key, i);
    lemma_index_unique(pre, key, i);
    assert forall|k: u32| k != key implies #[trigger] post.spec_contains(k) == pre.spec_contains(
        k,
    ) && (pre.spec_contains(k) ==> post.sem_of(k) == pre.sem_of(k)) by {
        if pre.spec_contains(k) {
            let a = pre.index_of(k);
            assert(pre.entries@[a].key == k);
            assert(a != i);
            assert(post.entries@[a] == pre.entries@[a]);
            assert(post.spec_contains(k));
            lemma_index_unique(post, k, a);
            lemma_index_unique(pre, k, a);
        }
        if post.spec_contains(k) {
            let a = post.index_of(k);
            assert(post.entries@[a].key == k);
            assert(a != i);
            assert(pre.entries@[a] == post.entries@[a]);
            assert(pre.spec_contains(k));
        }
    }
}

/// In a sound table the slot carrying a key is the one `index_of` picks.
proof fn lemma_index_unique(s: SemaphoreSet, key: u32, i: int)
    requires
        s.wf(),
        0 <= i < s.entries@.len(),
        s.entries@[i].key == key,
    ensures
        s.spec_contains(key),
        s.index_of(key) == i,
{
    assert(s.spec_contains(key));
    let w = s.index_of(key);
    assert(s.entries@[w].key == key);
    if w != i {
        if w < i {
            assert(s.entries@[w].key != s.entries@[i].key);
        } else {
            assert(s.entries@[i].key != s.entries@[w].key);
        }
    }
}

} // verus!
