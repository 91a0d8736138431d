//! Shared per-process resources: environment variables and the semaphore
//! table. A forked child shares its parent's slot until the family dies, so
//! a semaphore created by one is visible to the other.

use crate::pid::ProcessId;
use crate::semaphore::{SemaphoreResult, SemaphoreSet};
use vstd::prelude::*;

verus! {

/// A file-descriptor-like read/write target. Moving the bytes belongs to
/// the console and device layer outside the core; the core only keeps the
/// table of which handle points where.
#[derive(Clone, Copy, PartialEq, Eq, Structural, Debug)]
pub enum Resource {
    /// The console input stream.
    Stdin,
    /// The console output stream.
    Stdout,
    /// The console error stream.
    Stderr,
    /// A handle that swallows writes and yields no input.
    Null,
}

/// One open handle.
#[derive(Clone, Copy, PartialEq, Eq, Structural, Debug)]
pub struct HandleEntry {
    /// The descriptor number.
    pub fd: u8,
    /// What it points at.
    pub resource: Resource,
}

/// The open handles of one process family; descriptors are unique.
pub struct ResourceSet {
    /// The open handles.
    pub handles: Vec<HandleEntry>,
}

impl ResourceSet {
    /// Descriptors are unique.
    pub open spec fn wf(self) -> bool {
        forall|i: int, j: int|
            0 <= i < j < self.handles@.len() ==> self.handles@[i].fd != self.handles@[j].fd
    }

    /// Whether some handle carries `fd`.
    pub open spec fn spec_contains(self, fd: u8) -> bool {
        exists|i: int| 0 <= i < self.handles@.len() && self.handles@[i].fd == fd
    }

    /// The resource behind `fd`.
    pub open spec fn resource_at(self, fd: u8) -> Resource {
        self.handles@[choose|i: int|
            0 <= i < self.handles@.len() && self.handles@[i].fd == fd].resource
    }

    /// The standard table: 0 reads the console, 1 and 2 write to it.
    pub fn new() -> (s: ResourceSet)
        ensures
            s.wf(),
            s.spec_contains(0) && s.resource_at(0) == Resource::Stdin,
            s.spec_contains(1) && s.resource_at(1) == Resource::Stdout,
            s.spec_contains(2) && s.resource_at(2) == Resource::Stderr,
    {
        let mut handles: Vec<HandleEntry> = Vec::new();
        handles.push(HandleEntry { fd: 0, resource: Resource::Stdin });
        handles.push(HandleEntry { fd: 1, resource: Resource::Stdout });
        handles.push(HandleEntry { fd: 2, resource: Resource::Stderr });
        let s = ResourceSet { handles };
        proof {
            assert(s.handles@[0].fd == 0 && s.handles@[1].fd == 1 && s.handles@[2].fd == 2);
            lemma_handle_unique(s, 0, 0);
            lemma_handle_unique(s, 1, 1);
            lemma_handle_unique(s, 2, 2);
        }
        s
    }

    /// The resource behind `fd`, for the device layer to serve.
    pub fn get(&self, fd: u8) -> (r: Option<Resource>)
        requires
            self.wf(),
        ensures
            match r {
                Some(res) => self.spec_contains(fd) && res == self.resource_at(fd),
                None => !self.spec_contains(fd),
            },
    {
        let n = self.handles.len();
        let mut i: usize = 0;
        while i < n
            invariant
                n == self.handles@.len(),
                i <= n,
                self.wf(),
                forall|j: int| 0 <= j < i ==> self.handles@[j].fd != fd,
            decreases n - i,
        {
            if self.handles[i].fd == fd {
                proof {
                    lemma_handle_unique(*self, fd, i as int);
                }
                return Some(self.handles[i].resource);
            }
            i += 1;
        }
        None
    }
}

/// In a sound handle table the slot carrying a descriptor is the one the
/// lookup picks.
proof fn lemma_handle_unique(s: ResourceSet, fd: u8, i: int)
    requires
        s.wf(),
        0 <= i < s.handles@.len(),
        s.handles@[i].fd == fd,
    ensures
        s.spec_contains(fd),
        s.resource_at(fd) == s.handles@[i].resource,
{
    assert(s.spec_contains(fd));
    let w = choose|w: int| 0 <= w < s.handles@.len() && s.handles@[w].fd == fd;
    if w != i {
        if w < i {
            assert(s.handles@[w].fd != s.handles@[i].fd);
        } else {
            assert(s.handles@[i].fd != s.handles@[w].fd);
        }
    }
}

/// One environment binding.
pub struct EnvEntry {
    /// The variable's name.
    pub key: String,
    /// The variable's value.
    pub val: String,
}

/// The shared resources of one process family.
pub struct ProcessData {
    /// Environment bindings; names are unique.
    pub env: Vec<EnvEntry>,
    /// The family's open handles.
    pub resources: ResourceSet,
    /// The family's semaphores.
    pub semaphores: SemaphoreSet,
}

impl ProcessData {
    /// Names and descriptors are unique and the semaphore table is sound.
    pub open spec fn wf(self) -> bool {
        &&& self.semaphores.wf()
        &&& self.resources.wf()
        &&& forall|i: int, j: int|
            0 <= i < j < self.env@.len() ==> self.env@[i].key@ != self.env@[j].key@
    }

    /// Whether a binding named `key` exists.
    pub open spec fn env_contains(self, key: Seq<char>) -> bool {
        exists|i: int| 0 <= i < self.env@.len() && self.env@[i].key@ == key
    }

    /// The value bound to `key`.
    pub open spec fn env_val(self, key: Seq<char>) -> Seq<char> {
        self.env@[choose|i: int| 0 <= i < self.env@.len() && self.env@[i].key@ == key].val@
    }

    /// Fresh resources: no bindings, no semaphores.
    pub fn new() -> (d: ProcessData)
        ensures
            d.wf(),
            d.env@.len() == 0,
            d.semaphores.entries@.len() == 0,
            forall|key: u32| !d.semaphores.spec_contains(key),
            forall|key: Seq<char>| !d.env_contains(key),
    {
        ProcessData { env: Vec::new(), resources: ResourceSet::new(), semaphores: SemaphoreSet::new() }
    }

    /// The value bound to `key`, if any.
    pub fn env(&self, key: &String) -> (r: Option<String>)
        requires
            self.wf(),
        ensures
            match r {
                Some(v) => self.env_contains(key@) && v@ == self.env_val(key@),
                None => !self.env_contains(key@),
            },
    {
        let n = self.env.len();
        let mut i: usize = 0;
        while i < n
            invariant
                n == self.env@.len(),
                i <= n,
                self.wf(),
                forall|j: int| 0 <= j < i ==> self.env@[j].key@ != key@,
            decreases n - i,
        {
            if self.env[i].key == *key {
                proof {
                    let w = choose|w: int| 0 <= w < self.env@.len() && self.env@[w].key@ == key@;
                    if w != i {
                        assert(self.env@[w].key@ != self.env@[i as int].key@ || self.env@[i as int].key@
                            != self.env@[w].key@);
                    }
                }
                return Some(self.env[i].val.clone());
            }
            i += 1;
        }
        None
    }

    /// Binds `key` to `val`, replacing any existing binding of that name.
    pub fn set_env(&mut self, key: String, val: String)
        requires
            old(self).wf(),
        ensures
            final(self).wf(),
            final(self).env_contains(key@),
            final(self).env_val(key@) == val@,
            final(self).semaphores == old(self).semaphores,
    {
        let n = self.env.len();
        let mut i: usize = 0;
        while i < n
            invariant
                n == self.env@.len(),
                i <= n,
                self.wf(),
                *self == *old(self),
                forall|j: int| 0 <= j < i ==> self.env@[j].key@ != key@,
            decreases n - i,
        {
            if self.env[i].key == key {
                let ghost pre = self.env@;
                self.env[i] = EnvEntry { key, val };
                proof {
                    assert forall|a: int, b: int| 0 <= a < b < self.env@.len() implies
                        self.env@[a].key@ != self.env@[b].key@ by {
                        if a != i && b != i {
                            assert(self.env@[a] == pre[a] && self.env@[b] == pre[b]);
                        } else if a == i {
                            assert(self.env@[b] == pre[b]);
                            assert(pre[b].key@ != pre[i as int].key@);
                        } else {
                            assert(self.env@[a] == pre[a]);
                            assert(pre[a].key@ != pre[i as int].key@);
                        }
                    }
                    let w = choose|w: int|
                        0 <= w < self.env@.len() && self.env@[w].key@ == self.env@[i as int].key@;
                    if w != i {
                        assert(self.env@[w].key@ != self.env@[i as int].key@ || self.env@[i as int].key@
                            != self.env@[w].key@);
                    }
                }
                return ;
            }
            i += 1;
        }
        let ghost pre = self.env@;
        self.env.push(EnvEntry { key, val });
        proof {
            assert forall|a: int, b: int| 0 <= a < b < self.env@.len() implies self.env@[a].key@
                != self.env@[b].key@ by {
                if b == pre.len() {
                    assert(self.env@[a] == pre[a]);
                } else {
                    assert(self.env@[a] == pre[a] && self.env@[b] == pre[b]);
                }
            }
            let n0 = pre.len() as int;
            let w = choose|w: int|
                0 <= w < self.env@.len() && self.env@[w].key@ == self.env@[n0].key@;
            if w != n0 {
                assert(self.env@[w].key@ != self.env@[n0].key@ || self.env@[n0].key@
                    != self.env@[w].key@);
            }
        }
    }

    /// The resource behind `fd` for this family, for the device layer.
    pub fn resource_of(&self, fd: u8) -> (r: Option<Resource>)
        requires
            self.wf(),
        ensures
            match r {
                Some(res) => self.resources.spec_contains(fd) && res == self.resources.resource_at(
                    fd,
                ),
                None => !self.resources.spec_contains(fd),
            },
    {
        self.resources.get(fd)
    }

    /// Creates semaphore `key` with `value` permits; see
    /// [`SemaphoreSet::init`].
    pub fn sem_init(&mut self, key: u32, value: u64) -> (r: bool)
        requires
            old(self).wf(),
        ensures
            final(self).wf(),
            final(self).env == old(self).env,
            r == !old(self).semaphores.spec_contains(key),
            !r ==> *final(self) == *old(self),
            r ==> final(self).semaphores.spec_contains(key) && final(self).semaphores.sem_of(
                key,
            ).count == value && final(self).semaphores.sem_of(key).waiters@
                =~= Seq::<ProcessId>::empty(),
            r ==> forall|k: u32|
                k != key ==> #[trigger] final(self).semaphores.spec_contains(k) == old(self).semaphores.spec_contains(k) && (old(self).semaphores.spec_contains(k) ==> final(self).semaphores.sem_of(k) == old(self).semaphores.sem_of(k)),
    {
        self.semaphores.init(key, value)
    }

    /// Deletes semaphore `key`; see [`SemaphoreSet::remove`].
    pub fn sem_remove(&mut self, key: u32) -> (r: bool)
        requires
            old(self).wf(),
        ensures
            final(self).wf(),
            final(self).env == old(self).env,
            r == old(self).semaphores.spec_contains(key),
            !r ==> *final(self) == *old(self),
            r ==> !final(self).semaphores.spec_contains(key),
            r ==> forall|k: u32|
                k != key ==> #[trigger] final(self).semaphores.spec_contains(k) == old(self).semaphores.spec_contains(k) && (old(self).semaphores.spec_contains(k) ==> final(self).semaphores.sem_of(k) == old(self).semaphores.sem_of(k)),
    {
        self.semaphores.remove(key)
    }

    /// Takes or queues on semaphore `key`; see [`SemaphoreSet::wait`].
    pub fn sem_wait(&mut self, key: u32, pid: ProcessId) -> (r: SemaphoreResult)
        requires
            old(self).wf(),
        ensures
            final(self).wf(),
            final(self).env == old(self).env,
            !old(self).semaphores.spec_contains(key) ==> r == SemaphoreResult::NotExist && *final(self) == *old(self),
            old(self).semaphores.spec_contains(key) ==> {
                &&& final(self).semaphores.spec_contains(key)
                &&& (old(self).semaphores.sem_of(key).count > 0 ==> r == SemaphoreResult::Done
                    && final(self).semaphores.sem_of(key).count == old(self).semaphores.sem_of(
                    key,
                ).count - 1 && final(self).semaphores.sem_of(key).waiters@ == old(self).semaphores.sem_of(key).waiters@)
                &&& (old(self).semaphores.sem_of(key).count == 0 ==> r == SemaphoreResult::Block
                    && final(self).semaphores.sem_of(key).count == 0 && final(self).semaphores.sem_of(key).waiters@ == old(self).semaphores.sem_of(
                    key,
                ).waiters@.push(pid))
                &&& forall|k: u32|
                    k != key ==> #[trigger] final(self).semaphores.spec_contains(k) == old(self).semaphores.spec_contains(k) && (old(self).semaphores.spec_contains(k)
                        ==> final(self).semaphores.sem_of(k) == old(self).semaphores.sem_of(k))
            },
    {
        self.semaphores.wait(key, pid)
    }

    /// Signals semaphore `key`; see [`SemaphoreSet::signal`].
    pub fn sem_signal(&mut self, key: u32) -> (r: SemaphoreResult)
        requires
            old(self).wf(),
        ensures
            final(self).wf(),
            final(self).env == old(self).env,
            !old(self).semaphores.spec_contains(key) ==> r == SemaphoreResult::NotExist && *final(self) == *old(self),
            old(self).semaphores.spec_contains(key) ==> {
                &&& final(self).semaphores.spec_contains(key)
                &&& final(self).semaphores.sem_of(key).count
                    == crate::semaphore::spec_signal_count(
                    old(self).semaphores.sem_of(key).count,
                    old(self).semaphores.sem_of(key).waiters@,
                )
                &&& final(self).semaphores.sem_of(key).waiters@
                    == crate::semaphore::spec_signal_waiters(
                    old(self).semaphores.sem_of(key).count,
                    old(self).semaphores.sem_of(key).waiters@,
                )
                &&& r == crate::semaphore::spec_signal_result(
                    old(self).semaphores.sem_of(key).count,
                    old(self).semaphores.sem_of(key).waiters@,
                )
                &&& forall|k: u32|
                    k != key ==> #[trigger] final(self).semaphores.spec_contains(k) == old(self).semaphores.spec_contains(k) && (old(self).semaphores.spec_contains(k)
                        ==> final(self).semaphores.sem_of(k) == old(self).semaphores.sem_of(k))
            },
    {
        self.semaphores.signal(key)
    }
}

} // verus!
