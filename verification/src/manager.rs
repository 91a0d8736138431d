//! The scheduler: the process table, the FIFO ready queue, the wait queue,
//! the shared-resource pool, the per-core slots, and the machine's memory,
//! all owned by one manager built once at boot.
//!
//! Every operation preserves [`ProcessManager::wf`]: process ids are unique,
//! every live process's address space is sound against the memory model,
//! live stacks sharing a page table never overlap, and each table's
//! reference count equals the number of live processes holding it.

use crate::context::ProcessContext;
use crate::data::ProcessData;
use crate::memory::{Memory, PageInfo};
use crate::pid::{ProcessId, KERNEL_PID};
use crate::process::{Process, ProgramStatus};
use crate::processor::{ProcessorSet, MAX_CPU_COUNT};
use crate::semaphore::SemaphoreResult;
use crate::fmt::u64_to_string;
use crate::vm::{ElfImage, PageRange, ProcessVm};
use vstd::prelude::*;
use vstd::string::StringExecFns;

verus! {

/// One target pid and the processes blocked on its exit.
pub struct WaitEntry {
    /// The pid being waited for.
    pub target: ProcessId,
    /// The blocked waiters, in registration order.
    pub waiters: Vec<ProcessId>,
}

/// One loadable user program the boot stage handed over.
pub struct App {
    /// The program's name.
    pub name: String,
    /// Its parsed image.
    pub elf: ElfImage,
}

/// Live processes among `procs` holding table `t`.
pub open spec fn count_users(procs: Seq<Process>, t: int) -> int
    decreases procs.len(),
{
    if procs.len() == 0 {
        0
    } else {
        count_users(procs.drop_last(), t) + if procs.last().proc_vm matches Some(vm)
            && vm.page_table == t {
            1int
        } else {
            0int
        }
    }
}

/// Counts never go negative.
pub proof fn lemma_count_users_nonneg(procs: Seq<Process>, t: int)
    ensures
        count_users(procs, t) >= 0,
    decreases procs.len(),
{
    if procs.len() > 0 {
        lemma_count_users_nonneg(procs.drop_last(), t);
    }
}

/// Replacing one process changes a table's count by that process's
/// contribution alone.
pub proof fn lemma_count_users_update(procs: Seq<Process>, updated: Seq<Process>, i: int, t: int)
    requires
        0 <= i < procs.len(),
        updated.len() == procs.len(),
        forall|j: int| 0 <= j < procs.len() && j != i ==> updated[j] == procs[j],
    ensures
        count_users(updated, t) == count_users(procs, t) + (if updated[i].proc_vm matches Some(vm)
            && vm.page_table == t {
            1int
        } else {
            0int
        }) - (if procs[i].proc_vm matches Some(vm) && vm.page_table == t {
            1int
        } else {
            0int
        }),
    decreases procs.len(),
{
    if i == procs.len() - 1 {
        assert(updated.drop_last() =~= procs.drop_last());
    } else {
        assert(updated.last() == procs.last());
        lemma_count_users_update(procs.drop_last(), updated.drop_last(), i, t);
        assert(updated.drop_last()[i] == updated[i]);
        assert(procs.drop_last()[i] == procs[i]);
    }
}

/// Appending a process adds its contribution to each table's count.
pub proof fn lemma_count_users_push(procs: Seq<Process>, p: Process, t: int)
    ensures
        count_users(procs.push(p), t) == count_users(procs, t) + (if p.proc_vm matches Some(vm)
            && vm.page_table == t {
            1int
        } else {
            0int
        }),
{
    assert(procs.push(p).drop_last() =~= procs);
    assert(procs.push(p).last() == p);
}

/// Two distinct live holders of one table put its count at two or more.
pub proof fn lemma_count_users_two(procs: Seq<Process>, t: int, i: int, j: int)
    requires
        0 <= i < j < procs.len(),
        procs[i].proc_vm matches Some(vi) && vi.page_table == t,
        procs[j].proc_vm matches Some(vj) && vj.page_table == t,
    ensures
        count_users(procs, t) >= 2,
    decreases procs.len(),
{
    if j == procs.len() - 1 {
        lemma_count_users_one(procs.drop_last(), t, i);
    } else {
        assert(procs.drop_last()[i] == procs[i]);
        assert(procs.drop_last()[j] == procs[j]);
        lemma_count_users_two(procs.drop_last(), t, i, j);
        lemma_count_users_nonneg(procs.drop_last(), t);
    }
}

/// One live holder of a table puts its count at one or more.
pub proof fn lemma_count_users_one(procs: Seq<Process>, t: int, i: int)
    requires
        0 <= i < procs.len(),
        procs[i].proc_vm matches Some(vi) && vi.page_table == t,
    ensures
        count_users(procs, t) >= 1,
    decreases procs.len(),
{
    if i == procs.len() - 1 {
        lemma_count_users_nonneg(procs.drop_last(), t);
    } else {
        assert(procs.drop_last()[i] == procs[i]);
        lemma_count_users_one(procs.drop_last(), t, i);
        lemma_count_users_nonneg(procs.drop_last(), t);
    }
}

/// The scheduler and everything it owns.
pub struct ProcessManager {
    /// Every process ever created; index 0 is the kernel process. Entries
    /// are never removed: dead ones are filtered at read time.
    pub processes: Vec<Process>,
    /// The FIFO ready queue of runnable pids.
    pub ready_queue: Vec<ProcessId>,
    /// Who waits for whose exit.
    pub wait_queue: Vec<WaitEntry>,
    /// The shared-resource pool; processes hold indexes into it, and a
    /// forked family shares one slot.
    pub datas: Vec<ProcessData>,
    /// The machine's frames and page tables.
    pub memory: Memory,
    /// The per-core occupancy slots.
    pub processors: ProcessorSet,
    /// The core this manager is driven from.
    pub cpu: usize,
    /// Next identifier to hand out.
    pub next_pid: u16,
    /// Timer ticks seen since boot.
    pub clock_ticks: u64,
    /// The loadable user programs.
    pub apps: Vec<App>,
}

impl ProcessManager {
    /// Whether some process carries `pid`.
    pub open spec fn has_proc(self, pid: u16) -> bool {
        exists|i: int| 0 <= i < self.processes@.len() && self.processes@[i].pid.0 == pid
    }

    /// The index of the process carrying `pid`.
    pub open spec fn idx_of(self, pid: u16) -> int {
        choose|i: int| 0 <= i < self.processes@.len() && self.processes@[i].pid.0 == pid
    }

    /// The process carrying `pid`.
    pub open spec fn proc_of(self, pid: u16) -> Process {
        self.processes@[self.idx_of(pid)]
    }

    /// The pid running on this manager's core.
    pub open spec fn current_pid(self) -> u16 {
        self.processors.pid_on(self.cpu as int)
    }

    /// The process running on this manager's core.
    pub open spec fn current_proc(self) -> Process {
        self.proc_of(self.current_pid())
    }

    /// Whether `pid` names a process that is ready to run.
    pub open spec fn is_ready_pid(self, pid: u16) -> bool {
        self.has_proc(pid) && self.proc_of(pid).status == ProgramStatus::Ready
    }

    /// A spawn is sure to land: an id and a stack area remain, and the
    /// image's segments are sound and backed by enough free frames for them
    /// and the initial stack page.
    pub open spec fn spec_spawn_ready(self, segs: Seq<crate::vm::PageRange>) -> bool {
        &&& self.next_pid < u16::MAX
        &&& self.next_pid <= crate::vm::MAX_STACK_PID
        &&& crate::vm::spec_elf_loadable(segs, self.memory.frames_free)
        &&& crate::vm::segments_pages(segs) + crate::memory::STACK_DEF_PAGE
            <= self.memory.frames_free
    }

    /// The well-formedness the manager maintains across every operation.
    pub open spec fn wf(self) -> bool {
        &&& self.memory.wf()
        &&& self.processors.wf()
        &&& self.cpu < MAX_CPU_COUNT
        &&& self.processes@.len() >= 1
        &&& self.processes@[0].pid.0 == KERNEL_PID
        &&& (self.processes@[0].status == ProgramStatus::Ready || self.processes@[0].status
            == ProgramStatus::Running)
        &&& forall|i: int, j: int|
            0 <= i < j < self.processes@.len() ==> self.processes@[i].pid.0
                != self.processes@[j].pid.0
        &&& forall|i: int|
            0 <= i < self.processes@.len() ==> (#[trigger] self.processes@[i]).pid.0 != 0
        &&& forall|i: int|
            0 <= i < self.processes@.len() ==> ((#[trigger] self.processes@[i]).status
                != ProgramStatus::Dead <==> self.processes@[i].proc_vm is Some)
        &&& forall|i: int|
            0 <= i < self.processes@.len() ==> ((#[trigger] self.processes@[i]).status
                == ProgramStatus::Dead ==> self.processes@[i].exit_code is Some)
        &&& forall|i: int|
            0 <= i < self.processes@.len() ==> ((#[trigger] self.processes@[i]).proc_vm
                matches Some(vm) ==> vm.wf(self.memory))
        &&& forall|i: int|
            0 <= i < self.processes@.len() ==> ((#[trigger] self.processes@[i]).proc_data
                matches Some(d) ==> d < self.datas@.len())
        &&& forall|d: int| 0 <= d < self.datas@.len() ==> (#[trigger] self.datas@[d]).wf()
        &&& forall|i: int, j: int|
            #![trigger self.processes@[i], self.processes@[j]]
            0 <= i < self.processes@.len() && 0 <= j < self.processes@.len() && i != j
                && (self.processes@[i].proc_vm matches Some(vi)) && (self.processes@[j].proc_vm
                matches Some(vj)) && self.processes@[i].proc_vm.unwrap().page_table
                == self.processes@[j].proc_vm.unwrap().page_table ==> (
            self.processes@[i].proc_vm.unwrap().stack.end
                <= self.processes@[j].proc_vm.unwrap().stack.start
                || self.processes@[j].proc_vm.unwrap().stack.end
                <= self.processes@[i].proc_vm.unwrap().stack.start)
        &&& forall|t: int|
            0 <= t < self.memory.table_count() ==> (#[trigger] self.memory.tables@[t]).refs
                == count_users(self.processes@, t)
        &&& forall|k1: int, k2: int|
            0 <= k1 < k2 < self.wait_queue@.len() ==> self.wait_queue@[k1].target.0
                != self.wait_queue@[k2].target.0
        &&& forall|k: int|
            0 <= k < self.wait_queue@.len() ==> self.has_proc(
                (#[trigger] self.wait_queue@[k]).target.0,
            ) && self.proc_of(self.wait_queue@[k].target.0).status != ProgramStatus::Dead
        &&& forall|c: int|
            0 <= c < MAX_CPU_COUNT && #[trigger] self.processors.pid_on(c) != 0 ==> self.has_proc(
                self.processors.pid_on(c),
            )
        &&& self.current_pid() != 0
        &&& self.next_pid >= 2
        &&& forall|i: int|
            0 <= i < self.processes@.len() ==> (#[trigger] self.processes@[i]).pid.0
                < self.next_pid
    }

    /// The index of the process carrying `pid`, if any.
    pub fn find_proc(&self, pid: ProcessId) -> (r: Option<usize>)
        requires
            self.wf(),
        ensures
            match r {
                Some(i) => i < self.processes@.len() && self.processes@[i as int].pid == pid
                    && self.has_proc(pid.0) && self.idx_of(pid.0) == i,
                None => !self.has_proc(pid.0),
            },
    {
        let n = self.processes.len();
        let mut i: usize = 0;
        while i < n
            invariant
                n == self.processes@.len(),
                i <= n,
                self.wf(),
                forall|j: int| 0 <= j < i ==> self.processes@[j].pid.0 != pid.0,
            decreases n - i,
        {
            if self.processes[i].pid.0 == pid.0 {
                proof {
                    lemma_proc_index_unique(*self, pid.0, i as int);
                    assert(self.processes@[i as int].pid == pid);
                }
                return Some(i);
            }
            i += 1;
        }
        None
    }

    /// Appends `pid` to the tail of the ready queue.
    pub fn push_ready(&mut self, pid: ProcessId)
        ensures
            *final(self) == (ProcessManager { ready_queue: final(self).ready_queue, ..*old(self) }),
            final(self).ready_queue@ == old(self).ready_queue@.push(pid),
            old(self).wf() ==> final(self).wf(),
    {
        self.ready_queue.push(pid);
    }

    /// Pops the head of the ready queue; the kernel's reserved pid stands in
    /// when the queue is empty, so selection never stalls.
    pub fn pop_ready(&mut self) -> (r: ProcessId)
        ensures
            *final(self) == (ProcessManager { ready_queue: final(self).ready_queue, ..*old(self) }),
            old(self).ready_queue@.len() == 0 ==> r.0 == KERNEL_PID && final(self).ready_queue@
                == old(self).ready_queue@,
            old(self).ready_queue@.len() > 0 ==> r == old(self).ready_queue@[0] && final(self).ready_queue@ == old(self).ready_queue@.drop_first(),
            old(self).wf() ==> final(self).wf(),
    {
        if self.ready_queue.len() == 0 {
            ProcessId(KERNEL_PID)
        } else {
            let r = self.ready_queue.remove(0);
            proof {
                assert(self.ready_queue@ =~= old(self).ready_queue@.drop_first());
            }
            r
        }
    }

    /// Timer ticks seen since boot.
    pub fn read_counter(&self) -> (r: u64)
        ensures
            r == self.clock_ticks,
    {
        self.clock_ticks
    }

    /// Counts one timer tick and returns the count before it (the counter
    /// saturates rather than wrap).
    pub fn inc_counter(&mut self) -> (r: u64)
        ensures
            r == old(self).clock_ticks,
            *final(self) == (ProcessManager {
                clock_ticks: if old(self).clock_ticks < u64::MAX {
                    (old(self).clock_ticks + 1) as u64
                } else {
                    old(self).clock_ticks
                },
                ..*old(self)
            }),
            old(self).wf() ==> final(self).wf(),
    {
        let r = self.clock_ticks;
        if self.clock_ticks < u64::MAX {
            self.clock_ticks = self.clock_ticks + 1;
        }
        r
    }

    /// The pid running on this manager's core.
    pub fn sys_get_pid(&self) -> (r: u16)
        requires
            self.wf(),
        ensures
            r == self.current_pid(),
    {
        self.processors.cpus[self.cpu].0
    }

    /// Whether `pid` names a process that is not yet dead.
    pub fn still_alive(&self, pid: ProcessId) -> (r: bool)
        requires
            self.wf(),
        ensures
            r == (self.has_proc(pid.0) && self.proc_of(pid.0).status != ProgramStatus::Dead),
    {
        match self.find_proc(pid) {
            Some(i) => !self.processes[i].is_dead(),
            None => false,
        }
    }

    /// The exit code of `pid`, once it is dead.
    pub fn get_exit_code(&self, pid: ProcessId) -> (r: Option<isize>)
        requires
            self.wf(),
        ensures
            match r {
                Some(code) => self.has_proc(pid.0) && self.proc_of(pid.0).status
                    == ProgramStatus::Dead && self.proc_of(pid.0).exit_code == Some(code),
                None => !self.has_proc(pid.0) || self.proc_of(pid.0).status != ProgramStatus::Dead,
            },
    {
        match self.find_proc(pid) {
            Some(i) => {
                if self.processes[i].is_dead() {
                    self.processes[i].exit_code()
                } else {
                    None
                }
            },
            None => None,
        }
    }
}

/// Fields of the manager other than the process table, for framing: the
/// parts an operation on one process leaves alone.
pub proof fn lemma_wf_update_one(pre: ProcessManager, post: ProcessManager, i: int)
    requires
        pre.wf(),
        0 <= i < pre.processes@.len(),
        post.processes@.len() == pre.processes@.len(),
        forall|j: int| 0 <= j < pre.processes@.len() && j != i ==> post.processes@[j] == pre.processes@[j],
        post.processes@[i].pid == pre.processes@[i].pid,
        post.processes@[i].proc_vm == pre.processes@[i].proc_vm,
        post.processes@[i].proc_data == pre.processes@[i].proc_data,
        (post.processes@[i].status == ProgramStatus::Dead) == (pre.processes@[i].status
            == ProgramStatus::Dead),
        post.processes@[i].exit_code == pre.processes@[i].exit_code,
        i == 0 ==> (post.processes@[0].status == ProgramStatus::Ready || post.processes@[0].status
            == ProgramStatus::Running),
        post.memory == pre.memory,
        post.processors == pre.processors,
        post.cpu == pre.cpu,
        post.datas == pre.datas,
        post.next_pid == pre.next_pid,
        post.wait_queue == pre.wait_queue,
    ensures
        post.wf(),
{
    lemma_waitq_clauses_preserved(pre, post, -1);
    assert forall|t: int| 0 <= t < post.memory.table_count() implies (
    #[trigger] post.memory.tables@[t]).refs == count_users(post.processes@, t) by {
        lemma_count_users_update(pre.processes@, post.processes@, i, t);
    }
    assert forall|c: int|
        0 <= c < MAX_CPU_COUNT && #[trigger] post.processors.pid_on(c) != 0 implies post.has_proc(
        post.processors.pid_on(c),
    ) by {
        assert(pre.has_proc(pre.processors.pid_on(c)));
        let w = pre.idx_of(pre.processors.pid_on(c));
        assert(post.processes@[w].pid == pre.processes@[w].pid);
    }
}

impl ProcessManager {
    /// Builds the kernel at boot: one manager, the kernel process running on
    /// core 0 with its stack mapped, an empty ready queue, and the handed-over
    /// program list. Fails only when the machine cannot back the kernel
    /// stack.
    pub fn init(frames_total: u64, kernel_pages: Vec<PageRange>, apps: Vec<App>) -> (r: Option<
        ProcessManager,
    >)
        ensures
            frames_total >= crate::memory::KSTACK_DEF_PAGE ==> r is Some,
            r matches Some(m) ==> {
                &&& m.wf()
                &&& m.processes@.len() == 1
                &&& m.processes@[0].pid.0 == KERNEL_PID
                &&& m.processes@[0].status == ProgramStatus::Running
                &&& m.current_pid() == KERNEL_PID
                &&& m.ready_queue@.len() == 0
                &&& m.wait_queue@.len() == 0
                &&& m.next_pid == 2
            },
    {
        let mut memory = Memory::new(frames_total);
        let t0 = 0usize;
        let vm0 = ProcessVm::new(t0);
        let vm = match vm0.init_kernel_vm(&mut memory, &kernel_pages) {
            Some(vm) => vm,
            None => {
                return None;
            },
        };
        let mut kernel = Process::new(
            ProcessId(KERNEL_PID),
            String::from_str("kernel"),
            None,
            Some(vm),
            Some(0),
        );
        kernel.resume();
        let mut processors = ProcessorSet::new();
        crate::processor::set_pid(&mut processors, 0, ProcessId(KERNEL_PID));
        let mut datas: Vec<ProcessData> = Vec::new();
        datas.push(ProcessData::new());
        let m = ProcessManager {
            processes: vec![kernel],
            ready_queue: Vec::new(),
            wait_queue: Vec::new(),
            datas,
            memory,
            processors,
            cpu: 0,
            next_pid: 2,
            clock_ticks: 0,
            apps,
        };
        proof {
            assert(m.processes@.len() == 1);
            assert forall|t: int| 0 <= t < m.memory.table_count() implies (
            #[trigger] m.memory.tables@[t]).refs == count_users(m.processes@, t) by {
                assert(t == 0);
                assert(m.processes@.drop_last() =~= Seq::<Process>::empty());
                assert(count_users(m.processes@.drop_last(), t) == 0);
            }
            assert(m.current_pid() == KERNEL_PID);
            lemma_proc_index_unique(m, KERNEL_PID, 0);
        }
        Some(m)
    }

    /// Counts a tick against the current process and saves `context` into
    /// it, moving it from running to ready; the save is a no-op if it died.
    pub fn save_current(&mut self, context: &ProcessContext)
        requires
            old(self).wf(),
        ensures
            final(self).wf(),
            final(self).processes@.len() == old(self).processes@.len(),
            ({
                let i = old(self).idx_of(old(self).current_pid());
                let pre = old(self).processes@[i];
                let ticked = if pre.ticks_passed < u64::MAX {
                    (pre.ticks_passed + 1) as u64
                } else {
                    pre.ticks_passed
                };
                &&& (pre.status != ProgramStatus::Dead ==> final(self).processes@[i] == (Process {
                    ticks_passed: ticked,
                    context: *context,
                    status: ProgramStatus::Ready,
                    ..pre
                }))
                &&& (pre.status == ProgramStatus::Dead ==> final(self).processes@[i] == (Process {
                    ticks_passed: ticked,
                    ..pre
                }))
                &&& forall|j: int|
                    0 <= j < old(self).processes@.len() && j != i ==> final(self).processes@[j]
                        == old(self).processes@[j]
            }),
            *final(self) == (ProcessManager { processes: final(self).processes, ..*old(self) }),
    {
        let pid = ProcessId(self.sys_get_pid());
        let i = match self.find_proc(pid) {
            Some(i) => i,
            None => {
                proof {
                    assert(false);
                }
                return ;
            },
        };
        let ghost pre = *self;
        self.processes[i].tick();
        self.processes[i].save(context);
        proof {
            lemma_wf_update_one(pre, *self, i as int);
        }
    }

    /// Marks `pid` blocked. A no-op on an unknown, dead, or kernel pid: the
    /// kernel must stay schedulable and the dead must stay dead.
    pub fn block(&mut self, pid: ProcessId)
        requires
            old(self).wf(),
        ensures
            final(self).wf(),
            final(self).processes@.len() == old(self).processes@.len(),
            *final(self) == (ProcessManager { processes: final(self).processes, ..*old(self) }),
            !old(self).has_proc(pid.0) || pid.0 == KERNEL_PID || old(self).proc_of(pid.0).status
                == ProgramStatus::Dead ==> *final(self) == *old(self),
            old(self).has_proc(pid.0) && pid.0 != KERNEL_PID && old(self).proc_of(pid.0).status
                != ProgramStatus::Dead ==> {
                &&& final(self).processes@[old(self).idx_of(pid.0)] == (Process {
                    status: ProgramStatus::Blocked,
                    ..old(self).proc_of(pid.0)
                })
                &&& forall|j: int|
                    0 <= j < old(self).processes@.len() && j != old(self).idx_of(pid.0) ==> final(self).processes@[j] == old(self).processes@[j]
            },
    {
        if pid.0 == KERNEL_PID {
            return ;
        }
        let i = match self.find_proc(pid) {
            Some(i) => i,
            None => {
                return ;
            },
        };
        if self.processes[i].is_dead() {
            return ;
        }
        let ghost pre = *self;
        self.processes[i].block();
        proof {
            lemma_wf_update_one(pre, *self, i as int);
            assert(i as int != 0);
        }
    }

    /// Makes `pid` ready and queues it, writing `ret` into its syscall
    /// return slot first when given. A no-op on an unknown or dead pid.
    pub fn wake_up(&mut self, pid: ProcessId, ret: Option<isize>)
        requires
            old(self).wf(),
        ensures
            final(self).wf(),
            final(self).processes@.len() == old(self).processes@.len(),
            *final(self) == (ProcessManager {
                processes: final(self).processes,
                ready_queue: final(self).ready_queue,
                ..*old(self)
            }),
            !old(self).has_proc(pid.0) || old(self).proc_of(pid.0).status == ProgramStatus::Dead
                ==> *final(self) == *old(self),
            old(self).has_proc(pid.0) && old(self).proc_of(pid.0).status != ProgramStatus::Dead
                ==> {
                &&& final(self).processes@[old(self).idx_of(pid.0)] == (Process {
                    status: ProgramStatus::Ready,
                    context: ProcessContext {
                        rax: match ret {
                            Some(v) => v as usize as u64,
                            None => old(self).proc_of(pid.0).context.rax,
                        },
                        ..old(self).proc_of(pid.0).context
                    },
                    ..old(self).proc_of(pid.0)
                })
                &&& forall|j: int|
                    0 <= j < old(self).processes@.len() && j != old(self).idx_of(pid.0) ==> final(self).processes@[j] == old(self).processes@[j]
                &&& final(self).ready_queue@ == old(self).ready_queue@.push(pid)
            },
    {
        let i = match self.find_proc(pid) {
            Some(i) => i,
            None => {
                return ;
            },
        };
        if self.processes[i].is_dead() {
            return ;
        }
        let ghost pre = *self;
        match ret {
            Some(v) => {
                self.processes[i].set_rax(v as usize);
            },
            None => {},
        }
        self.processes[i].pause();
        proof {
            lemma_wf_update_one(pre, *self, i as int);
        }
        self.ready_queue.push(pid);
    }
}

/// Index in `q` of the first entry naming a ready process of `m`; `q.len()`
/// when none does. The scheduler selects exactly this entry.
pub open spec fn first_ready(m: ProcessManager, q: Seq<ProcessId>) -> int
    decreases q.len(),
{
    if q.len() == 0 {
        0
    } else if m.is_ready_pid(q[0].0) {
        0
    } else {
        1 + first_ready(m, q.drop_first())
    }
}

/// What `first_ready` picks: a ready entry with none ready before it.
pub proof fn lemma_first_ready_bounds(m: ProcessManager, q: Seq<ProcessId>)
    ensures
        0 <= first_ready(m, q) <= q.len(),
        forall|k: int| 0 <= k < first_ready(m, q) ==> !m.is_ready_pid(q[k].0),
        first_ready(m, q) < q.len() ==> m.is_ready_pid(q[first_ready(m, q)].0),
    decreases q.len(),
{
    if q.len() > 0 && !m.is_ready_pid(q[0].0) {
        lemma_first_ready_bounds(m, q.drop_first());
        assert forall|k: int| 0 <= k < first_ready(m, q) implies !m.is_ready_pid(q[k].0) by {
            if k > 0 {
                assert(q.drop_first()[k - 1] == q[k]);
            }
        }
        if first_ready(m, q) < q.len() {
            assert(q.drop_first()[first_ready(m, q.drop_first())] == q[first_ready(m, q)]);
        }
    }
}

/// Scheduling fairness: the scheduler never passes over an earlier ready
/// entry for a later one — whatever ready entry `q[i]` holds, the selected
/// index is at most `i`.
pub proof fn lemma_scheduling_fifo(m: ProcessManager, q: Seq<ProcessId>, i: int)
    requires
        0 <= i < q.len(),
        m.is_ready_pid(q[i].0),
    ensures
        first_ready(m, q) <= i,
    decreases q.len(),
{
    if !m.is_ready_pid(q[0].0) {
        assert(i > 0);
        assert(q.drop_first()[i - 1] == q[i]);
        lemma_scheduling_fifo(m, q.drop_first(), i - 1);
    }
}

/// The exact selection: with everything before `i` not ready and `q[i]`
/// ready, the scheduler picks `i`.
pub proof fn lemma_first_ready_exact(m: ProcessManager, q: Seq<ProcessId>, i: int)
    requires
        0 <= i <= q.len(),
        forall|k: int| 0 <= k < i ==> !m.is_ready_pid(q[k].0),
        i < q.len() ==> m.is_ready_pid(q[i].0),
    ensures
        first_ready(m, q) == i,
    decreases q.len(),
{
    if q.len() > 0 {
        if m.is_ready_pid(q[0].0) {
            assert(i == 0);
        } else {
            assert(i > 0);
            assert forall|k: int| 0 <= k < i - 1 implies !m.is_ready_pid(
                q.drop_first()[k].0,
            ) by {
                assert(q.drop_first()[k] == q[k + 1]);
            }
            if i - 1 < q.drop_first().len() {
                assert(q.drop_first()[i - 1] == q[i]);
            }
            lemma_first_ready_exact(m, q.drop_first(), i - 1);
        }
    }
}

impl ProcessManager {
    /// Selects the next process: pops ready-queue entries in FIFO order,
    /// dropping ids that no longer name a ready process, until one is found
    /// (the kernel stands in when the queue runs dry); restores its saved
    /// context into `context`, loads its address space, marks it running and
    /// records it on this core. Exactly the first ready entry of the queue
    /// is selected.
    #[verifier::rlimit(60)]
    pub fn switch_next(&mut self, context: &mut ProcessContext) -> (r: ProcessId)
        requires
            old(self).wf(),
            old(self).processes@[0].status == ProgramStatus::Ready,
        ensures
            final(self).wf(),
            old(self).is_ready_pid(r.0),
            ({
                let q = old(self).ready_queue@;
                let k = first_ready(*old(self), q);
                &&& (k < q.len() ==> r == q[k] && final(self).ready_queue@ == q.skip(k + 1))
                &&& (k == q.len() ==> r.0 == KERNEL_PID && final(self).ready_queue@.len() == 0)
            }),
            *final(context) == old(self).proc_of(r.0).context,
            final(self).processes@.len() == old(self).processes@.len(),
            final(self).processes@[old(self).idx_of(r.0)] == (Process {
                status: ProgramStatus::Running,
                ..old(self).proc_of(r.0)
            }),
            forall|j: int|
                0 <= j < old(self).processes@.len() && j != old(self).idx_of(r.0) ==> final(self).processes@[j] == old(self).processes@[j],
            final(self).current_pid() == r.0,
            final(self).memory.tables == old(self).memory.tables,
            final(self).memory.frames_total == old(self).memory.frames_total,
            final(self).memory.frames_free == old(self).memory.frames_free,
            final(self).wait_queue == old(self).wait_queue,
            final(self).datas == old(self).datas,
            final(self).next_pid == old(self).next_pid,
            final(self).clock_ticks == old(self).clock_ticks,
            final(self).cpu == old(self).cpu,
    {
        let ghost q = old(self).ready_queue@;
        let ghost mut skipped: int = 0;
        loop
            invariant
                self.wf(),
                self.processes@ == old(self).processes@,
                self.memory == old(self).memory,
                self.processors == old(self).processors,
                self.wait_queue == old(self).wait_queue,
                self.datas == old(self).datas,
                self.next_pid == old(self).next_pid,
                self.clock_ticks == old(self).clock_ticks,
                self.cpu == old(self).cpu,
                self.apps == old(self).apps,
                self.processes@[0].status == ProgramStatus::Ready,
                q == old(self).ready_queue@,
                old(self).wf(),
                0 <= skipped <= q.len(),
                self.ready_queue@ == q.skip(skipped),
                forall|k: int| 0 <= k < skipped ==> !old(self).is_ready_pid(q[k].0),
            decreases q.len() - skipped,
        {
            let ghost pre_iter = *self;
            let pid = self.pop_ready();
            let ghost was_empty = pre_iter.ready_queue@.len() == 0;
            proof {
                if !was_empty {
                    assert(q.skip(skipped).drop_first() =~= q.skip(skipped + 1));
                    assert(pid == q[skipped]);
                }
            }
            let i = match self.find_proc(pid) {
                Some(i) => i,
                None => {
                    proof {
                        assert(!was_empty);
                        assert(!old(self).is_ready_pid(q[skipped].0));
                        skipped = skipped + 1;
                    }
                    continue ;
                },
            };
            if self.processes[i].is_ready() {
                proof {
                    assert(self.processes@[i as int].pid.0 == pid.0);
                    lemma_proc_index_unique(*old(self), pid.0, i as int);
                    assert(old(self).proc_of(pid.0).status == ProgramStatus::Ready);
                    assert(old(self).is_ready_pid(pid.0));
                    if was_empty {
                        assert(skipped == q.len());
                        lemma_first_ready_exact(*old(self), q, q.len() as int);
                        assert(pid.0 == KERNEL_PID);
                    } else {
                        assert(pid == q[skipped]);
                        assert(old(self).is_ready_pid(q[skipped].0));
                        lemma_first_ready_exact(*old(self), q, skipped);
                    }
                }
                let ghost pre = *self;
                self.processes[i].restore(&mut self.memory, context);
                crate::processor::set_pid(&mut self.processors, self.cpu, pid);
                proof {
                    lemma_wf_update_sched(pre, *self, i as int);
                    lemma_proc_index_unique(*old(self), pid.0, i as int);
                }
                return pid;
            }
            proof {
                assert(!was_empty);
                assert(!old(self).is_ready_pid(q[skipped].0));
                skipped = skipped + 1;
            }
        }
    }
}

/// The scheduler's switch step keeps the manager sound: one process turned
/// running, the address space switched, the core slot updated.
pub proof fn lemma_wf_update_sched(pre: ProcessManager, post: ProcessManager, i: int)
    requires
        pre.wf(),
        0 <= i < pre.processes@.len(),
        post.processes@.len() == pre.processes@.len(),
        forall|j: int| 0 <= j < pre.processes@.len() && j != i ==> post.processes@[j] == pre.processes@[j],
        post.processes@[i] == (Process { status: ProgramStatus::Running, ..pre.processes@[i] }),
        pre.processes@[i].status != ProgramStatus::Dead,
        post.memory.tables == pre.memory.tables,
        post.memory.frames_total == pre.memory.frames_total,
        post.memory.frames_free == pre.memory.frames_free,
        post.memory.active < post.memory.table_count(),
        post.processors.wf(),
        forall|c: int|
            0 <= c < MAX_CPU_COUNT ==> post.processors.pid_on(c) == pre.processors.pid_on(c)
                || post.processors.pid_on(c) == post.processes@[i].pid.0,
        post.current_pid() != 0,
        post.cpu == pre.cpu,
        post.datas == pre.datas,
        post.next_pid == pre.next_pid,
        post.wait_queue == pre.wait_queue,
    ensures
        post.wf(),
{
    lemma_waitq_clauses_preserved(pre, post, -1);
    assert(post.memory.wf()) by {
        assert(post.memory.tables@ == pre.memory.tables@);
        assert(crate::memory::total_mapped(post.memory.tables@) == crate::memory::total_mapped(
            pre.memory.tables@,
        ));
    }
    assert forall|j: int|
        0 <= j < post.processes@.len() && ((#[trigger] post.processes@[j]).proc_vm matches Some(
            vm,
        )) implies post.processes@[j].proc_vm.unwrap().wf(post.memory) by {
        assert(post.processes@[j].proc_vm == pre.processes@[j].proc_vm);
        assert(pre.processes@[j].proc_vm.unwrap().wf(pre.memory));
        crate::vm::lemma_vm_wf_same_tables(
            post.processes@[j].proc_vm.unwrap(),
            pre.memory,
            post.memory,
        );
    }
    assert forall|t: int| 0 <= t < post.memory.table_count() implies (
    #[trigger] post.memory.tables@[t]).refs == count_users(post.processes@, t) by {
        lemma_count_users_update(pre.processes@, post.processes@, i, t);
    }
    assert forall|c: int|
        0 <= c < MAX_CPU_COUNT && #[trigger] post.processors.pid_on(c) != 0 implies post.has_proc(
        post.processors.pid_on(c),
    ) by {
        if post.processors.pid_on(c) == pre.processors.pid_on(c) {
            assert(pre.has_proc(pre.processors.pid_on(c)));
            let w = pre.idx_of(pre.processors.pid_on(c));
            assert(post.processes@[w].pid == pre.processes@[w].pid);
        } else {
            assert(post.processes@[i].pid.0 == post.processors.pid_on(c));
        }
    }
}

/// The page-fault error flags the trap layer hands in.
#[derive(Clone, Copy, PartialEq, Eq, Structural, Debug)]
pub struct PageFaultErrorCode {
    /// The fault hit a present but protected mapping.
    pub protection_violation: bool,
    /// The faulting access was a write.
    pub caused_by_write: bool,
    /// The access came from user mode.
    pub user_mode: bool,
    /// A page-table entry itself was malformed.
    pub malformed_table: bool,
    /// The access was an instruction fetch.
    pub instruction_fetch: bool,
}

/// Growing the current process's stack keeps the manager sound: the grown
/// range was free, everything else is untouched.
pub proof fn lemma_wf_after_grow(pre: ProcessManager, post: ProcessManager, i: int)
    requires
        pre.wf(),
        0 <= i < pre.processes@.len(),
        post.processes@.len() == pre.processes@.len(),
        forall|j: int| 0 <= j < pre.processes@.len() && j != i ==> post.processes@[j] == pre.processes@[j],
        post.processes@[i].pid == pre.processes@[i].pid,
        post.processes@[i].status == pre.processes@[i].status,
        post.processes@[i].exit_code == pre.processes@[i].exit_code,
        post.processes@[i].proc_data == pre.processes@[i].proc_data,
        pre.processes@[i].proc_vm is Some,
        post.processes@[i].proc_vm is Some,
        post.processes@[i].proc_vm.unwrap().page_table == pre.processes@[i].proc_vm.unwrap().page_table,
        post.processes@[i].proc_vm.unwrap().wf(post.memory),
        post.processes@[i].proc_vm.unwrap().stack.end == pre.processes@[i].proc_vm.unwrap().stack.end,
        post.processes@[i].proc_vm.unwrap().stack.start <= pre.processes@[i].proc_vm.unwrap().stack.start,
        forall|p: u64|
            post.processes@[i].proc_vm.unwrap().stack.start <= p < pre.processes@[i].proc_vm.unwrap().stack.start
                ==> !pre.memory.is_mapped(pre.processes@[i].proc_vm.unwrap().page_table as int, p),
        forall|p: u64|
            !(post.processes@[i].proc_vm.unwrap().stack.start <= p < pre.processes@[i].proc_vm.unwrap().stack.start)
                ==> (post.memory.is_mapped(pre.processes@[i].proc_vm.unwrap().page_table as int, p)
                == pre.memory.is_mapped(pre.processes@[i].proc_vm.unwrap().page_table as int, p)),
        post.memory.wf(),
        post.memory.table_count() == pre.memory.table_count(),
        forall|u: int|
            0 <= u < post.memory.table_count() && u != pre.processes@[i].proc_vm.unwrap().page_table
                ==> post.memory.tables@[u] == pre.memory.tables@[u],
        post.memory.tables@[pre.processes@[i].proc_vm.unwrap().page_table as int].refs
            == pre.memory.tables@[pre.processes@[i].proc_vm.unwrap().page_table as int].refs,
        post.memory.tables@[pre.processes@[i].proc_vm.unwrap().page_table as int].heap_end
            == pre.memory.tables@[pre.processes@[i].proc_vm.unwrap().page_table as int].heap_end,
        post.processors == pre.processors,
        post.cpu == pre.cpu,
        post.datas == pre.datas,
        post.next_pid == pre.next_pid,
        post.wait_queue == pre.wait_queue,
        post.processes@[0].status == pre.processes@[0].status,
    ensures
        post.wf(),
{
    lemma_waitq_clauses_preserved(pre, post, -1);
    let t = pre.processes@[i].proc_vm.unwrap().page_table as int;
    let new_start = post.processes@[i].proc_vm.unwrap().stack.start;
    let old_start = pre.processes@[i].proc_vm.unwrap().stack.start;
    assert forall|j: int|
        0 <= j < post.processes@.len() && ((#[trigger] post.processes@[j]).proc_vm matches Some(
            vmj,
        )) implies post.processes@[j].proc_vm.unwrap().wf(post.memory) by {
        if j != i {
            let vmj = post.processes@[j].proc_vm.unwrap();
            assert(vmj == pre.processes@[j].proc_vm.unwrap());
            assert(vmj.wf(pre.memory));
            if vmj.page_table == t {
                assert forall|p: u64| pre.memory.is_mapped(t, p) implies post.memory.is_mapped(
                    t,
                    p,
                ) by {
                    assert(!(new_start <= p < old_start));
                }
                assert forall|p: u64|
                    crate::memory::spec_page_of(crate::memory::HEAP_START) <= p
                        < crate::memory::spec_page_of(crate::memory::HEAP_START)
                        + crate::memory::HEAP_PAGES implies post.memory.is_mapped(t, p)
                    == pre.memory.is_mapped(t, p) by {
                    crate::vm::lemma_heap_area_region(p);
                    if new_start <= p < old_start {
                        let vmi = pre.processes@[i].proc_vm.unwrap();
                        crate::stack::lemma_same_region_range(
                            new_start,
                            new_start,
                            (post.processes@[i].proc_vm.unwrap().stack.end - 1) as u64,
                        );
                        assert(crate::memory::spec_region_of_page(p)
                            == post.processes@[i].proc_vm.unwrap().stack.region());
                    }
                }
                crate::vm::lemma_vm_wf_preserved(vmj, pre.memory, post.memory);
            } else {
                crate::vm::lemma_vm_wf_preserved(vmj, pre.memory, post.memory);
            }
        }
    }
    assert forall|a: int, b: int|
        #![trigger post.processes@[a], post.processes@[b]]
        0 <= a < post.processes@.len() && 0 <= b < post.processes@.len() && a != b
            && (post.processes@[a].proc_vm matches Some(va)) && (post.processes@[b].proc_vm
            matches Some(vb)) && post.processes@[a].proc_vm.unwrap().page_table
            == post.processes@[b].proc_vm.unwrap().page_table implies (
    post.processes@[a].proc_vm.unwrap().stack.end
        <= post.processes@[b].proc_vm.unwrap().stack.start
        || post.processes@[b].proc_vm.unwrap().stack.end
        <= post.processes@[a].proc_vm.unwrap().stack.start) by {
        if a == i || b == i {
            let j = if a == i {
                b
            } else {
                a
            };
            let vmj = post.processes@[j].proc_vm.unwrap();
            if vmj.page_table == t {
                assert(vmj == pre.processes@[j].proc_vm.unwrap());
                assert(vmj.wf(pre.memory));
                let sj = vmj.stack.start;
                let ej = vmj.stack.end;
                let e_i = pre.processes@[i].proc_vm.unwrap().stack.end;
                assert(ej <= old_start || e_i <= sj);
                if ej <= old_start {
                    if ej > new_start {
                        assert(vmj.stack.usage > 0);
                        let w = (ej - 1) as u64;
                        assert(sj <= w && w < ej);
                        assert(pre.memory.is_mapped(t, w));
                        assert(new_start <= w && w < old_start);
                        assert(false);
                    }
                }
            }
        }
    }
    assert forall|t2: int| 0 <= t2 < post.memory.table_count() implies (
    #[trigger] post.memory.tables@[t2]).refs == count_users(post.processes@, t2) by {
        lemma_count_users_update(pre.processes@, post.processes@, i, t2);
    }
    assert forall|c: int|
        0 <= c < MAX_CPU_COUNT && #[trigger] post.processors.pid_on(c) != 0 implies post.has_proc(
        post.processors.pid_on(c),
    ) by {
        assert(pre.has_proc(pre.processors.pid_on(c)));
        let w = pre.idx_of(pre.processors.pid_on(c));
        assert(post.processes@[w].pid == pre.processes@[w].pid);
    }
}

impl ProcessManager {
    /// Handles a page fault at `addr` with flags `err`: only a write (to an
    /// unmapped stack page, or protected region) is eligible; an eligible
    /// fault is handed to the current process's stack, which grows by
    /// exactly the missing pages. Returns whether the fault was resolved.
    pub fn handle_page_fault(&mut self, addr: u64, err: PageFaultErrorCode) -> (r: bool)
        requires
            old(self).wf(),
        ensures
            final(self).wf(),
            !err.caused_by_write ==> !r,
            !r ==> final(self).processes@ == old(self).processes@ && final(self).memory == old(self).memory,
            *final(self) == (ProcessManager {
                processes: final(self).processes,
                memory: final(self).memory,
                ..*old(self)
            }),
            final(self).processes@.len() == old(self).processes@.len(),
            ({
                let i = old(self).idx_of(old(self).current_pid());
                let pre = old(self).processes@[i];
                &&& (err.caused_by_write && pre.proc_vm is Some ==> {
                    let vm = pre.proc_vm.unwrap();
                    &&& (!vm.stack.spec_is_on_stack(addr) ==> !r)
                    &&& (vm.stack.spec_is_on_stack(addr) && (crate::memory::page_of(addr)
                        >= vm.stack.start || (vm.stack.start - crate::memory::page_of(addr)
                        <= old(self).memory.frames_free && forall|p: u64|
                        crate::memory::page_of(addr) <= p < vm.stack.start ==> !old(
                            self,
                        ).memory.is_mapped(vm.page_table as int, p))) ==> r)
                    &&& (r ==> final(self).memory.is_mapped(
                        vm.page_table as int,
                        crate::memory::page_of(addr),
                    ))
                    &&& final(self).processes@[i].proc_vm is Some
                    &&& final(self).processes@[i].proc_vm.unwrap().stack.usage >= vm.stack.usage
                    &&& (r && crate::memory::page_of(addr) < vm.stack.start ==> final(self).processes@[i].proc_vm.unwrap().stack.start == crate::memory::page_of(addr))
                    &&& forall|j: int|
                        0 <= j < old(self).processes@.len() && j != i ==> final(self).processes@[j]
                            == old(self).processes@[j]
                })
                &&& (err.caused_by_write && pre.proc_vm is None ==> !r)
            }),
    {
        if !err.caused_by_write {
            return false;
        }
        let pid = ProcessId(self.sys_get_pid());
        let i = match self.find_proc(pid) {
            Some(i) => i,
            None => {
                proof {
                    assert(false);
                }
                return false;
            },
        };
        if self.processes[i].proc_vm.is_none() {
            return false;
        }
        let vm_taken = self.processes[i].proc_vm.take();
        let mut vm = match vm_taken {
            Some(vm) => vm,
            None => {
                proof {
                    assert(false);
                }
                return false;
            },
        };
        let ghost pre = *old(self);
        let r = vm.handle_page_fault(&mut self.memory, addr);
        self.processes[i].proc_vm = Some(vm);
        proof {
            if !r {
                let a = self.processes@[i as int];
                let b = old(self).processes@[i as int];
                assert(a.pid == b.pid && a.name == b.name && a.parent == b.parent && a.children
                    == b.children && a.ticks_passed == b.ticks_passed && a.status == b.status
                    && a.context == b.context && a.exit_code == b.exit_code && a.proc_vm
                    == b.proc_vm && a.proc_data == b.proc_data);
                assert(a == b);
                assert(self.processes@ =~= old(self).processes@);
                lemma_wf_update_one(*old(self), *self, i as int);
            } else {
                lemma_wf_after_grow(pre, *self, i as int);
            }
        }
        r
    }
}

/// Killing one non-kernel process keeps the manager sound.
pub proof fn lemma_wf_after_kill(pre: ProcessManager, post: ProcessManager, i: int)
    requires
        pre.wf(),
        0 < i < pre.processes@.len(),
        pre.processes@[i].proc_vm is Some,
        post.processes@.len() == pre.processes@.len(),
        forall|j: int| 0 <= j < pre.processes@.len() && j != i ==> post.processes@[j] == pre.processes@[j],
        post.processes@[i].pid == pre.processes@[i].pid,
        post.processes@[i].status == ProgramStatus::Dead,
        post.processes@[i].exit_code is Some,
        post.processes@[i].proc_vm is None,
        post.processes@[i].proc_data is None,
        post.memory.wf(),
        post.memory.table_count() == pre.memory.table_count(),
        forall|u: int|
            0 <= u < post.memory.table_count() && u != pre.processes@[i].proc_vm.unwrap().page_table
                ==> post.memory.tables@[u] == pre.memory.tables@[u],
        post.memory.tables@[pre.processes@[i].proc_vm.unwrap().page_table as int].refs
            == pre.memory.tables@[pre.processes@[i].proc_vm.unwrap().page_table as int].refs - 1,
        pre.memory.tables@[pre.processes@[i].proc_vm.unwrap().page_table as int].refs > 1 ==> {
            &&& post.memory.tables@[pre.processes@[i].proc_vm.unwrap().page_table as int].heap_end
                == pre.memory.tables@[pre.processes@[i].proc_vm.unwrap().page_table as int].heap_end
            &&& forall|p: u64|
                !(pre.processes@[i].proc_vm.unwrap().stack.start <= p
                    < pre.processes@[i].proc_vm.unwrap().stack.end) ==> post.memory.is_mapped(
                    pre.processes@[i].proc_vm.unwrap().page_table as int,
                    p,
                ) == pre.memory.is_mapped(
                    pre.processes@[i].proc_vm.unwrap().page_table as int,
                    p,
                )
        },
        post.processors == pre.processors,
        post.cpu == pre.cpu,
        post.datas == pre.datas,
        post.next_pid == pre.next_pid,
        post.wait_queue == pre.wait_queue,
        forall|k: int|
            0 <= k < pre.wait_queue@.len() ==> (#[trigger] pre.wait_queue@[k]).target.0
                != pre.processes@[i].pid.0,
    ensures
        post.wf(),
{
    lemma_waitq_clauses_preserved(pre, post, i);
    let vmi = pre.processes@[i].proc_vm.unwrap();
    let t = vmi.page_table as int;
    assert forall|j: int|
        0 <= j < post.processes@.len() && ((#[trigger] post.processes@[j]).proc_vm matches Some(
            vmj,
        )) implies post.processes@[j].proc_vm.unwrap().wf(post.memory) by {
        if j != i {
            let vmj = post.processes@[j].proc_vm.unwrap();
            assert(vmj == pre.processes@[j].proc_vm.unwrap());
            assert(vmj.wf(pre.memory));
            if vmj.page_table == vmi.page_table {
                if i < j {
                    lemma_count_users_two(pre.processes@, t, i, j);
                } else {
                    lemma_count_users_two(pre.processes@, t, j, i);
                }
                assert(pre.memory.tables@[t].refs > 1);
                assert forall|p: u64|
                    vmi.stack.start <= p < vmi.stack.end implies
                    #[trigger] crate::memory::spec_region_of_page(p)
                    >= crate::stack::STACK_REGION_MIN by {
                    crate::stack::lemma_same_region_range(
                        vmi.stack.start,
                        vmi.stack.start,
                        (vmi.stack.end - 1) as u64,
                    );
                }
                assert(vmi.stack.end <= vmj.stack.start || vmj.stack.end <= vmi.stack.start);
                crate::vm::lemma_vm_wf_excluding(
                    vmj,
                    pre.memory,
                    post.memory,
                    vmi.stack.start,
                    vmi.stack.end,
                );
            } else {
                crate::vm::lemma_vm_wf_preserved(vmj, pre.memory, post.memory);
            }
        }
    }
    assert forall|t2: int| 0 <= t2 < post.memory.table_count() implies (
    #[trigger] post.memory.tables@[t2]).refs == count_users(post.processes@, t2) by {
        lemma_count_users_update(pre.processes@, post.processes@, i, t2);
    }
    assert forall|c: int|
        0 <= c < MAX_CPU_COUNT && #[trigger] post.processors.pid_on(c) != 0 implies post.has_proc(
        post.processors.pid_on(c),
    ) by {
        assert(pre.has_proc(pre.processors.pid_on(c)));
        let w = pre.idx_of(pre.processors.pid_on(c));
        assert(post.processes@[w].pid == pre.processes@[w].pid);
    }
}

impl ProcessManager {
    /// Kills `pid` with exit code `ret`: wakes everything waiting on its
    /// exit, delivering `ret`, then marks it dead and tears its address
    /// space down, keeping only the exit code. Idempotent: a no-op on an
    /// unknown, already-dead, or kernel pid (beyond waking any waiters
    /// still registered for it).
    /// Wakes every process registered as waiting on `pid`'s exit,
    /// delivering `ret`, and drops the registration.
    #[verifier::rlimit(100)]
    pub fn wake_waiters(&mut self, pid: ProcessId, ret: isize)
        requires
            old(self).wf(),
        ensures
            final(self).wf(),
            final(self).processes@.len() == old(self).processes@.len(),
            forall|x: int|
                0 <= x < old(self).processes@.len() ==> (#[trigger] final(self).processes@[x]).pid
                    == old(self).processes@[x].pid,
            forall|x: int|
                0 <= x < old(self).processes@.len() ==> (#[trigger] final(self).processes@[x]).proc_vm
                    == old(self).processes@[x].proc_vm,
            forall|x: int|
                0 <= x < old(self).processes@.len() ==> ((#[trigger] final(self).processes@[x]).status
                    == ProgramStatus::Dead) == (old(self).processes@[x].status
                    == ProgramStatus::Dead),
            final(self).memory == old(self).memory,
            final(self).processors == old(self).processors,
            final(self).cpu == old(self).cpu,
            final(self).datas == old(self).datas,
            final(self).next_pid == old(self).next_pid,
            old(self).processes@[0].status == ProgramStatus::Ready ==> final(self).processes@[0].status
                == ProgramStatus::Ready,
            forall|k: int|
                0 <= k < final(self).wait_queue@.len() ==> (
                #[trigger] final(self).wait_queue@[k]).target.0 != pid.0,
            (forall|k: int|
                0 <= k < old(self).wait_queue@.len() ==> (
                #[trigger] old(self).wait_queue@[k]).target.0 != pid.0) ==> *final(self) == *old(
                self,
            ),
            forall|x: int|
                0 <= x < old(self).processes@.len() && !old(self).wait_queue_waiters(
                    pid.0,
                ).contains(old(self).processes@[x].pid) ==> final(self).processes@[x] == old(
                    self,
                ).processes@[x],
            forall|w: ProcessId|
                old(self).wait_queue_waiters(pid.0).contains(w) && old(self).has_proc(w.0) && old(self).proc_of(w.0).status != ProgramStatus::Dead ==> {
                    &&& #[trigger] final(self).proc_of(w.0).status == ProgramStatus::Ready
                    &&& final(self).proc_of(w.0).context.rax == ret as usize as u64
                    &&& final(self).ready_queue@.contains(w)
                },
    {
        let ghost orig = *self;
        let mut wi: usize = 0;
        let nw = self.wait_queue.len();
        let mut found: Option<usize> = None;
        while wi < nw
            invariant
                *self == orig,
                nw == self.wait_queue@.len(),
                wi <= nw,
                match found {
                    Some(k) => k < nw && self.wait_queue@[k as int].target.0 == pid.0 && forall|
                        j: int,
                    |
                        0 <= j < k ==> self.wait_queue@[j].target.0 != pid.0,
                    None => forall|j: int| 0 <= j < wi ==> self.wait_queue@[j].target.0 != pid.0,
                },
            decreases nw - wi,
        {
            if found.is_none() && self.wait_queue[wi].target.0 == pid.0 {
                proof {
                    assert(self.wait_queue@[wi as int].target.0 == pid.0);
                }
                found = Some(wi);
            }
            wi += 1;
        }
        let k = match found {
            Some(k) => k,
            None => {
                proof {
                    lemma_wq_none(orig.wait_queue@, pid.0);
                }
                return ;
            },
        };
        proof {
            assert(orig.wait_queue@[k as int].target.0 == pid.0);
        }
        proof {
            lemma_wq_first(orig.wait_queue@, pid.0, k as int);
        }
        let entry = self.wait_queue.remove(k);
        let ghost ws = entry.waiters@;
        proof {
            assert(ws == orig.wait_queue_waiters(pid.0));
            assert forall|k2: int| 0 <= k2 < self.wait_queue@.len() implies (
            #[trigger] self.wait_queue@[k2]).target.0 != pid.0 by {
                if k2 < k {
                    assert(self.wait_queue@[k2] == orig.wait_queue@[k2]);
                    assert(orig.wait_queue@[k2].target.0 != orig.wait_queue@[k as int].target.0);
                } else {
                    assert(self.wait_queue@[k2] == orig.wait_queue@[k2 + 1]);
                    assert(orig.wait_queue@[k as int].target.0 != orig.wait_queue@[k2
                        + 1].target.0);
                }
            }
        }
        let nws = entry.waiters.len();
        let mut j: usize = 0;
        while j < nws
            invariant
                self.wf(),
                orig.wf(),
                self.wait_queue@ == orig.wait_queue@.remove(k as int),
                forall|k2: int|
                    0 <= k2 < self.wait_queue@.len() ==> (
                    #[trigger] self.wait_queue@[k2]).target.0 != pid.0,
                forall|x: int|
                    0 <= x < orig.processes@.len() && !ws.contains(orig.processes@[x].pid)
                        ==> #[trigger] self.processes@[x] == orig.processes@[x],
                nws == ws.len(),
                entry.waiters@ == ws,
                j <= nws,
                self.processes@.len() == orig.processes@.len(),
                forall|x: int|
                    0 <= x < orig.processes@.len() ==> (#[trigger] self.processes@[x]).pid
                        == orig.processes@[x].pid,
                forall|x: int|
                    0 <= x < orig.processes@.len() ==> ((#[trigger] self.processes@[x]).status
                        == ProgramStatus::Dead) == (orig.processes@[x].status
                        == ProgramStatus::Dead),
                forall|x: int|
                    0 <= x < orig.processes@.len() ==> (#[trigger] self.processes@[x]).proc_vm
                        == orig.processes@[x].proc_vm,
                self.memory == orig.memory,
                self.processors == orig.processors,
                self.cpu == orig.cpu,
                self.datas == orig.datas,
                self.next_pid == orig.next_pid,
                orig.processes@[0].status == ProgramStatus::Ready ==> self.processes@[0].status
                    == ProgramStatus::Ready,
                forall|k2: int|
                    0 <= k2 < j ==> (orig.has_proc(ws[k2].0) && orig.proc_of(ws[k2].0).status
                        != ProgramStatus::Dead ==> {
                        &&& (#[trigger] self.proc_of(ws[k2].0)).status == ProgramStatus::Ready
                        &&& self.proc_of(ws[k2].0).context.rax == ret as usize as u64
                        &&& self.ready_queue@.contains(ws[k2])
                    }),
            decreases nws - j,
        {
            let w = entry.waiters[j];
            let ghost before = *self;
            self.wake_up(w, Some(ret));
            proof {
                lemma_kill_wake_step(orig, before, *self, ws, j as int, ret);
                assert(ws[j as int] == w);
                assert forall|x: int|
                    0 <= x < orig.processes@.len() && !ws.contains(orig.processes@[x].pid) implies
                    #[trigger] self.processes@[x] == orig.processes@[x] by {
                    assert(before.processes@[x] == orig.processes@[x]);
                    if before.has_proc(w.0) && before.proc_of(w.0).status != ProgramStatus::Dead {
                        if x == before.idx_of(w.0) {
                            assert(before.processes@[x].pid.0 == w.0);
                            assert(orig.processes@[x].pid.0 == w.0);
                            assert(orig.processes@[x].pid == w);
                            assert(ws.contains(orig.processes@[x].pid));
                        }
                    }
                }
            }
            j += 1;
        }
        proof {
            assert forall|w: ProcessId|
                orig.wait_queue_waiters(pid.0).contains(w) && orig.has_proc(w.0) && orig.proc_of(
                    w.0,
                ).status != ProgramStatus::Dead implies {
                &&& #[trigger] self.proc_of(w.0).status == ProgramStatus::Ready
                &&& self.proc_of(w.0).context.rax == ret as usize as u64
                &&& self.ready_queue@.contains(w)
            } by {
                let k2 = choose|k2: int| 0 <= k2 < ws.len() && ws[k2] == w;
                assert(ws[k2] == w);
                assert(self.proc_of(ws[k2].0).status == ProgramStatus::Ready);
            }
        }
    }

    /// Kills `pid` with exit code `ret`: wakes everything waiting on its
    /// exit, delivering `ret`, then marks it dead and tears its address
    /// space down, keeping only the exit code. Idempotent: a no-op on an
    /// unknown, already-dead, or kernel pid (beyond waking any waiters
    /// still registered for it).
    #[verifier::rlimit(80)]
    pub fn kill(&mut self, pid: ProcessId, ret: isize)
        requires
            old(self).wf(),
        ensures
            final(self).wf(),
            final(self).processes@.len() == old(self).processes@.len(),
            old(self).processes@[0].status == ProgramStatus::Ready ==> final(self).processes@[0].status
                == ProgramStatus::Ready,
            pid.0 == KERNEL_PID ==> *final(self) == *old(self),
            pid.0 != KERNEL_PID && (!old(self).has_proc(pid.0) || old(self).proc_of(
                pid.0,
            ).status == ProgramStatus::Dead) ==> *final(self) == *old(self),
            old(self).has_proc(pid.0) && pid.0 != KERNEL_PID && old(self).proc_of(pid.0).status
                != ProgramStatus::Dead ==> {
                let i = old(self).idx_of(pid.0);
                &&& final(self).processes@[i].status == ProgramStatus::Dead
                &&& final(self).processes@[i].exit_code == Some(ret)
                &&& final(self).processes@[i].proc_vm is None
                &&& final(self).processes@[i].proc_data is None
                &&& final(self).processes@[i].pid == pid
                &&& forall|k: int|
                    0 <= k < final(self).wait_queue@.len() ==> (
                    #[trigger] final(self).wait_queue@[k]).target.0 != pid.0
            },
            pid.0 != KERNEL_PID ==> forall|j: int|
                0 <= j < old(self).processes@.len() && (#[trigger] old(self).processes@[j]).pid.0
                    != pid.0 && !old(self).wait_queue_waiters(pid.0).contains(
                    old(self).processes@[j].pid,
                ) ==> final(self).processes@[j] == old(self).processes@[j],
            pid.0 != KERNEL_PID ==> forall|w: ProcessId|
                old(self).wait_queue_waiters(pid.0).contains(w) && old(self).has_proc(w.0) && old(self).proc_of(w.0).status != ProgramStatus::Dead && w.0 != pid.0 ==> {
                    &&& #[trigger] final(self).proc_of(w.0).status == ProgramStatus::Ready
                    &&& final(self).proc_of(w.0).context.rax == ret as usize as u64
                    &&& final(self).ready_queue@.contains(w)
                },
    {
        if pid.0 == KERNEL_PID {
            return ;
        }
        proof {
            if !old(self).has_proc(pid.0) || old(self).proc_of(pid.0).status
                == ProgramStatus::Dead {
                assert forall|k: int| 0 <= k < old(self).wait_queue@.len() implies (
                #[trigger] old(self).wait_queue@[k]).target.0 != pid.0 by {
                    assert(old(self).has_proc(old(self).wait_queue@[k].target.0));
                    assert(old(self).proc_of(old(self).wait_queue@[k].target.0).status
                        != ProgramStatus::Dead);
                }
                lemma_wq_none(old(self).wait_queue@, pid.0);
            }
        }
        self.wake_waiters(pid, ret);
        let ghost woken = *self;
        let i = match self.find_proc(pid) {
            Some(i) => i,
            None => {
                proof {
                    assert(!old(self).has_proc(pid.0)) by {
                        if old(self).has_proc(pid.0) {
                            let w = old(self).idx_of(pid.0);
                            assert(woken.processes@[w].pid.0 == pid.0);
                        }
                    }
                }
                return ;
            },
        };
        if self.processes[i].is_dead() {
            proof {
                if old(self).has_proc(pid.0) && old(self).proc_of(pid.0).status
                    != ProgramStatus::Dead {
                    let w = old(self).idx_of(pid.0);
                    assert(woken.processes@[w].pid.0 == pid.0);
                    lemma_proc_index_unique(woken, pid.0, w);
                    assert(w == i as int);
                    assert(false);
                }
            }
            return ;
        }
        proof {
            assert(self.processes@[i as int].proc_vm is Some);
            assert(self.processes@[i as int].proc_vm.unwrap().wf(self.memory));
            assert(i as int != 0) by {
                assert(self.processes@[0].pid.0 == KERNEL_PID);
            }
        }
        let ghost pre_kill2 = *self;
        self.processes[i].kill(&mut self.memory, ret);
        proof {
            lemma_wf_after_kill(pre_kill2, *self, i as int);
            assert(self.processes@[0] == pre_kill2.processes@[0]);
            assert(old(self).has_proc(pid.0)) by {
                assert(woken.processes@[i as int].pid.0 == pid.0);
                assert(old(self).processes@[i as int].pid.0 == pid.0);
            }
            lemma_proc_index_unique(*old(self), pid.0, i as int);
            assert forall|w: ProcessId|
                old(self).wait_queue_waiters(pid.0).contains(w) && old(self).has_proc(w.0) && old(self).proc_of(w.0).status != ProgramStatus::Dead && w.0 != pid.0 implies {
                &&& #[trigger] self.proc_of(w.0).status == ProgramStatus::Ready
                &&& self.proc_of(w.0).context.rax == ret as usize as u64
                &&& self.ready_queue@.contains(w)
            } by {
                let ow = old(self).idx_of(w.0);
                assert(old(self).processes@[ow].pid.0 == w.0);
                assert(woken.processes@[ow].pid.0 == w.0);
                lemma_proc_index_unique(woken, w.0, ow);
                assert(woken.proc_of(w.0).status == ProgramStatus::Ready);
                assert(woken.proc_of(w.0).context.rax == ret as usize as u64);
                assert(woken.ready_queue@.contains(w));
                let wo = woken.idx_of(w.0);
                assert(woken.processes@[wo].pid.0 == w.0);
                assert(wo != i as int) by {
                    assert(woken.processes@[i as int].pid.0 == pid.0);
                }
                assert(self.processes@[wo] == woken.processes@[wo]);
                lemma_proc_index_unique(*self, w.0, wo);
                let wq = choose|q: int|
                    0 <= q < woken.ready_queue@.len() && woken.ready_queue@[q] == w;
                assert(self.ready_queue@[wq] == w);
            }
        }
    }

    /// The waiters registered for `pid`'s exit.
    pub open spec fn wait_queue_waiters(self, pid: u16) -> Seq<ProcessId> {
        wq_lookup(self.wait_queue@, pid)
    }
}

/// The index of the first loadable program named `name`; the list's length
/// when none carries it.
pub open spec fn app_lookup(s: Seq<App>, name: Seq<char>) -> int
    decreases s.len(),
{
    if s.len() == 0 {
        0
    } else if s[0].name@ == name {
        0
    } else {
        1 + app_lookup(s.drop_first(), name)
    }
}

/// The first matching program decides the lookup.
pub proof fn lemma_app_first(s: Seq<App>, name: Seq<char>, k: int)
    requires
        0 <= k < s.len(),
        s[k].name@ == name,
        forall|j: int| 0 <= j < k ==> s[j].name@ != name,
    ensures
        app_lookup(s, name) == k,
    decreases s.len(),
{
    if k > 0 {
        assert forall|j: int| 0 <= j < k - 1 implies s.drop_first()[j].name@ != name by {
            assert(s.drop_first()[j] == s[j + 1]);
        }
        assert(s.drop_first()[k - 1] == s[k]);
        lemma_app_first(s.drop_first(), name, k - 1);
    }
}

/// With no matching program, the lookup reports the length.
pub proof fn lemma_app_none(s: Seq<App>, name: Seq<char>)
    requires
        forall|j: int| 0 <= j < s.len() ==> s[j].name@ != name,
    ensures
        app_lookup(s, name) == s.len(),
    decreases s.len(),
{
    if s.len() > 0 {
        assert forall|j: int| 0 <= j < s.drop_first().len() implies s.drop_first()[j].name@
            != name by {
            assert(s.drop_first()[j] == s[j + 1]);
        }
        lemma_app_none(s.drop_first(), name);
    }
}

/// The waiters of the first entry for `pid`, none when no entry matches.
pub open spec fn wq_lookup(s: Seq<WaitEntry>, pid: u16) -> Seq<ProcessId>
    decreases s.len(),
{
    if s.len() == 0 {
        Seq::empty()
    } else if s[0].target.0 == pid {
        s[0].waiters@
    } else {
        wq_lookup(s.drop_first(), pid)
    }
}

/// The first matching entry decides the lookup.
pub proof fn lemma_wq_first(s: Seq<WaitEntry>, pid: u16, k: int)
    requires
        0 <= k < s.len(),
        s[k].target.0 == pid,
        forall|j: int| 0 <= j < k ==> s[j].target.0 != pid,
    ensures
        wq_lookup(s, pid) == s[k].waiters@,
    decreases s.len(),
{
    if k > 0 {
        assert forall|j: int| 0 <= j < k - 1 implies s.drop_first()[j].target.0 != pid by {
            assert(s.drop_first()[j] == s[j + 1]);
        }
        assert(s.drop_first()[k - 1] == s[k]);
        lemma_wq_first(s.drop_first(), pid, k - 1);
    }
}

/// With no matching entry, the lookup is empty.
pub proof fn lemma_wq_none(s: Seq<WaitEntry>, pid: u16)
    requires
        forall|j: int| 0 <= j < s.len() ==> s[j].target.0 != pid,
    ensures
        wq_lookup(s, pid) == Seq::<ProcessId>::empty(),
    decreases s.len(),
{
    if s.len() > 0 {
        assert forall|j: int| 0 <= j < s.drop_first().len() implies s.drop_first()[j].target.0
            != pid by {
            assert(s.drop_first()[j] == s[j + 1]);
        }
        lemma_wq_none(s.drop_first(), pid);
    }
}

/// One wake of a registered waiter establishes its resumed state and keeps
/// the earlier waiters' resumed state.
pub proof fn lemma_kill_wake_step(
    orig: ProcessManager,
    before: ProcessManager,
    after: ProcessManager,
    ws: Seq<ProcessId>,
    j: int,
    ret: isize,
)
    requires
        0 <= j < ws.len(),
        before.wf(),
        after.wf(),
        before.processes@.len() == orig.processes@.len(),
        after.processes@.len() == before.processes@.len(),
        forall|x: int|
            0 <= x < orig.processes@.len() ==> (#[trigger] before.processes@[x]).pid
                == orig.processes@[x].pid,
        forall|x: int|
            0 <= x < orig.processes@.len() ==> ((#[trigger] before.processes@[x]).status
                == ProgramStatus::Dead) == (orig.processes@[x].status == ProgramStatus::Dead),
        !before.has_proc(ws[j].0) || before.proc_of(ws[j].0).status == ProgramStatus::Dead
            ==> after == before,
        before.has_proc(ws[j].0) && before.proc_of(ws[j].0).status != ProgramStatus::Dead ==> {
            &&& after.processes@[before.idx_of(ws[j].0)] == (Process {
                status: ProgramStatus::Ready,
                context: ProcessContext {
                    rax: ret as usize as u64,
                    ..before.proc_of(ws[j].0).context
                },
                ..before.proc_of(ws[j].0)
            })
            &&& forall|x: int|
                0 <= x < before.processes@.len() && x != before.idx_of(ws[j].0)
                    ==> after.processes@[x] == before.processes@[x]
            &&& after.ready_queue@ == before.ready_queue@.push(ws[j])
        },
        after.ready_queue@ == before.ready_queue@ || after.ready_queue@
            == before.ready_queue@.push(ws[j]),
        forall|k2: int|
            0 <= k2 < j ==> (orig.has_proc(ws[k2].0) && orig.proc_of(ws[k2].0).status
                != ProgramStatus::Dead ==> {
                &&& (#[trigger] before.proc_of(ws[k2].0)).status == ProgramStatus::Ready
                &&& before.proc_of(ws[k2].0).context.rax == ret as usize as u64
                &&& before.ready_queue@.contains(ws[k2])
            }),
    ensures
        forall|k2: int|
            0 <= k2 < j + 1 ==> (orig.has_proc(ws[k2].0) && orig.proc_of(ws[k2].0).status
                != ProgramStatus::Dead ==> {
                &&& (#[trigger] after.proc_of(ws[k2].0)).status == ProgramStatus::Ready
                &&& after.proc_of(ws[k2].0).context.rax == ret as usize as u64
                &&& after.ready_queue@.contains(ws[k2])
            }),
{
    assert forall|k2: int|
        0 <= k2 < j + 1 && orig.has_proc(ws[k2].0) && orig.proc_of(ws[k2].0).status
            != ProgramStatus::Dead implies {
        &&& (#[trigger] after.proc_of(ws[k2].0)).status == ProgramStatus::Ready
        &&& after.proc_of(ws[k2].0).context.rax == ret as usize as u64
        &&& after.ready_queue@.contains(ws[k2])
    } by {
        let pid2 = ws[k2].0;
        let wo = orig.idx_of(pid2);
        assert(orig.processes@[wo].pid.0 == pid2);
        assert(before.processes@[wo].pid.0 == pid2);
        lemma_proc_index_unique(before, pid2, wo);
        assert(before.has_proc(pid2));
        assert(before.proc_of(pid2).status != ProgramStatus::Dead);
        lemma_proc_index_unique(after, pid2, wo);
        if k2 < j {
            if before.idx_of(ws[j].0) != wo {
                assert(after.processes@[wo] == before.processes@[wo]);
            } else {
                assert(after.processes@[wo].status == ProgramStatus::Ready);
                assert(after.processes@[wo].context.rax == ret as usize as u64);
            }
            assert(before.ready_queue@.contains(ws[k2]));
            let wq = choose|q: int|
                0 <= q < before.ready_queue@.len() && before.ready_queue@[q] == ws[k2];
            assert(after.ready_queue@[wq] == ws[k2]);
        } else {
            assert(k2 == j);
            assert(before.idx_of(ws[j].0) == wo);
            assert(after.processes@[wo].status == ProgramStatus::Ready);
            assert(after.ready_queue@ == before.ready_queue@.push(ws[j]));
            assert(after.ready_queue@[before.ready_queue@.len() as int] == ws[j]);
        }
    }
}

/// Forking appends a fresh child sharing the parent's table and keeps the
/// manager sound.
#[verifier::rlimit(60)]
pub proof fn lemma_wf_after_fork(pre: ProcessManager, post: ProcessManager, i: int)
    requires
        pre.wf(),
        0 <= i < pre.processes@.len(),
        pre.processes@[i].proc_vm is Some,
        pre.next_pid < u16::MAX,
        post.processes@.len() == pre.processes@.len() + 1,
        forall|j: int| 0 <= j < pre.processes@.len() && j != i ==> post.processes@[j] == pre.processes@[j],
        post.processes@[i].pid == pre.processes@[i].pid,
        post.processes@[i].status == pre.processes@[i].status,
        post.processes@[i].exit_code == pre.processes@[i].exit_code,
        post.processes@[i].proc_vm == pre.processes@[i].proc_vm,
        post.processes@[i].proc_data == pre.processes@[i].proc_data,
        ({
            let child = post.processes@[pre.processes@.len() as int];
            let childvm = child.proc_vm.unwrap();
            let parentvm = pre.processes@[i].proc_vm.unwrap();
            let t = parentvm.page_table as int;
            &&& child.pid.0 == pre.next_pid
            &&& child.status == ProgramStatus::Ready
            &&& child.exit_code is None
            &&& child.proc_vm is Some
            &&& child.proc_data == pre.processes@[i].proc_data
            &&& childvm.page_table == parentvm.page_table
            &&& childvm.wf(post.memory)
            &&& childvm.stack.end <= parentvm.stack.start
            &&& forall|p: u64|
                childvm.stack.start <= p < childvm.stack.end ==> !pre.memory.is_mapped(t, p)
            &&& forall|p: u64|
                !(childvm.stack.start <= p < childvm.stack.end) ==> post.memory.is_mapped(t, p)
                    == pre.memory.is_mapped(t, p)
            &&& post.memory.wf()
            &&& post.memory.table_count() == pre.memory.table_count()
            &&& forall|u: int|
                0 <= u < post.memory.table_count() && u != t ==> post.memory.tables@[u]
                    == pre.memory.tables@[u]
            &&& post.memory.tables@[t].refs == pre.memory.tables@[t].refs + 1
            &&& post.memory.tables@[t].heap_end == pre.memory.tables@[t].heap_end
        }),
        post.next_pid == pre.next_pid + 1,
        post.processors == pre.processors,
        post.cpu == pre.cpu,
        post.datas == pre.datas,
        post.wait_queue == pre.wait_queue,
    ensures
        post.wf(),
{
    let n = pre.processes@.len() as int;
    let child = post.processes@[n];
    let childvm = child.proc_vm.unwrap();
    let parentvm = pre.processes@[i].proc_vm.unwrap();
    let t = parentvm.page_table as int;
    assert forall|a: int, b: int| 0 <= a < b < post.processes@.len() implies post.processes@[a].pid.0
        != post.processes@[b].pid.0 by {
        if b == n {
            assert(post.processes@[a].pid == pre.processes@[a].pid);
            assert(pre.processes@[a].pid.0 < pre.next_pid);
        }
    }
    lemma_waitq_clauses_preserved(pre, post, -1);
    assert forall|j: int|
        0 <= j < post.processes@.len() && ((#[trigger] post.processes@[j]).proc_vm matches Some(
            vmj,
        )) implies post.processes@[j].proc_vm.unwrap().wf(post.memory) by {
        if j == n {
        } else {
            let vmj = post.processes@[j].proc_vm.unwrap();
            assert(vmj == pre.processes@[j].proc_vm.unwrap());
            assert(vmj.wf(pre.memory));
            if vmj.page_table == parentvm.page_table {
                assert forall|p: u64| pre.memory.is_mapped(t, p) implies post.memory.is_mapped(
                    t,
                    p,
                ) by {
                    assert(!(childvm.stack.start <= p < childvm.stack.end));
                }
                assert forall|p: u64|
                    crate::memory::spec_page_of(crate::memory::HEAP_START) <= p
                        < crate::memory::spec_page_of(crate::memory::HEAP_START)
                        + crate::memory::HEAP_PAGES implies post.memory.is_mapped(t, p)
                    == pre.memory.is_mapped(t, p) by {
                    crate::vm::lemma_heap_area_region(p);
                    if childvm.stack.start <= p < childvm.stack.end {
                        crate::stack::lemma_same_region_range(
                            childvm.stack.start,
                            childvm.stack.start,
                            (childvm.stack.end - 1) as u64,
                        );
                        assert(crate::memory::spec_region_of_page(p) == childvm.stack.region());
                    }
                }
                crate::vm::lemma_vm_wf_preserved(vmj, pre.memory, post.memory);
            } else {
                crate::vm::lemma_vm_wf_preserved(vmj, pre.memory, post.memory);
            }
        }
    }
    assert forall|a: int, b: int|
        #![trigger post.processes@[a], post.processes@[b]]
        0 <= a < post.processes@.len() && 0 <= b < post.processes@.len() && a != b
            && (post.processes@[a].proc_vm matches Some(va)) && (post.processes@[b].proc_vm
            matches Some(vb)) && post.processes@[a].proc_vm.unwrap().page_table
            == post.processes@[b].proc_vm.unwrap().page_table implies (
    post.processes@[a].proc_vm.unwrap().stack.end
        <= post.processes@[b].proc_vm.unwrap().stack.start
        || post.processes@[b].proc_vm.unwrap().stack.end
        <= post.processes@[a].proc_vm.unwrap().stack.start) by {
        if a == n || b == n {
            let j = if a == n {
                b
            } else {
                a
            };
            let vmj = post.processes@[j].proc_vm.unwrap();
            if vmj.page_table == childvm.page_table {
                assert(vmj == pre.processes@[j].proc_vm.unwrap());
                assert(vmj.wf(pre.memory));
                assert(vmj.stack.usage > 0);
                if !(childvm.stack.end <= vmj.stack.start || vmj.stack.end <= childvm.stack.start) {
                    if vmj.stack.start < childvm.stack.end && childvm.stack.start
                        < vmj.stack.end {
                        let w = if vmj.stack.start >= childvm.stack.start {
                            vmj.stack.start
                        } else {
                            childvm.stack.start
                        };
                        assert(vmj.stack.start <= w && w < vmj.stack.end);
                        assert(pre.memory.is_mapped(t, w));
                        assert(childvm.stack.start <= w && w < childvm.stack.end);
                        assert(false);
                    }
                }
            }
        }
    }
    assert forall|t2: int| 0 <= t2 < post.memory.table_count() implies (
    #[trigger] post.memory.tables@[t2]).refs == count_users(post.processes@, t2) by {
        let mid = pre.processes@.update(i, post.processes@[i]);
        lemma_count_users_update(pre.processes@, mid, i, t2);
        lemma_count_users_push(mid, child, t2);
        assert(post.processes@ =~= mid.push(child));
    }
    assert forall|c: int|
        0 <= c < MAX_CPU_COUNT && #[trigger] post.processors.pid_on(c) != 0 implies post.has_proc(
        post.processors.pid_on(c),
    ) by {
        assert(pre.has_proc(pre.processors.pid_on(c)));
        let w = pre.idx_of(pre.processors.pid_on(c));
        assert(post.processes@[w].pid == pre.processes@[w].pid);
    }
}

impl ProcessManager {
    /// Forks the current process: the child shares the page table and the
    /// resource slot, gets a byte-identical copy of the parent's stack in a
    /// fresh non-overlapping range, and a context whose stack pointer is
    /// rebased onto its own stack and whose return slot reads 0; the parent's
    /// return slot reads the child's pid. The child is registered and
    /// enqueued ready. Fails, with nothing observable changed, when ids,
    /// address space or frames have run out.
    #[verifier::rlimit(80)]
    pub fn fork(&mut self) -> (r: Option<ProcessId>)
        requires
            old(self).wf(),
        ensures
            final(self).wf(),
            ({
                let i = old(self).idx_of(old(self).current_pid());
                let parent = old(self).processes@[i];
                &&& old(self).next_pid < u16::MAX
                &&& old(self).has_proc(old(self).current_pid())
                &&& parent.proc_vm is Some
                &&& parent.children@.len() + 1 <= u64::MAX as int / crate::memory::STACK_MAX_PAGES as int
                &&& old(self).memory.tables@[parent.proc_vm.unwrap().page_table as int].refs
                    < u64::MAX
                &&& parent.proc_vm.unwrap().stack.spec_fork_ready(
                    old(self).memory,
                    parent.proc_vm.unwrap().page_table as int,
                    (((parent.children@.len() + 1) * crate::memory::STACK_MAX_PAGES as int)) as u64,
                )
            }) ==> r is Some,
            r is None ==> final(self).processes@ == old(self).processes@ && final(self).memory
                == old(self).memory && final(self).ready_queue == old(self).ready_queue,
            r matches Some(cpid) ==> ({
                let i = old(self).idx_of(old(self).current_pid());
                let parent = old(self).processes@[i];
                let parentvm = parent.proc_vm.unwrap();
                let t = parentvm.page_table as int;
                let child = final(self).processes@[old(self).processes@.len() as int];
                let childvm = child.proc_vm.unwrap();
                &&& parent.proc_vm is Some
                &&& cpid.0 == old(self).next_pid
                &&& final(self).processes@.len() == old(self).processes@.len() + 1
                &&& child.pid == cpid
                &&& child.status == ProgramStatus::Ready
                &&& child.parent == Some(parent.pid)
                &&& child.proc_data == parent.proc_data
                &&& child.name == parent.name
                &&& child.ticks_passed == 0
                &&& child.exit_code is None
                &&& child.children@.len() == 0
                &&& child.context.rax == 0
                &&& child.context.rip == parent.context.rip
                &&& child.context.rflags == parent.context.rflags
                &&& child.context.cs == parent.context.cs
                &&& child.context.ss == parent.context.ss
                &&& child.context.rsp == (parent.context.rsp % 0x1_0000_0000) + ((
                childvm.stack.start * crate::memory::PAGE_SIZE) / 0x1_0000_0000) * 0x1_0000_0000
                &&& childvm.page_table == parentvm.page_table
                &&& childvm.stack.usage == parentvm.stack.usage
                &&& childvm.stack.end <= parentvm.stack.start
                &&& forall|p: u64|
                    childvm.stack.start <= p < childvm.stack.end ==> !old(self).memory.is_mapped(
                        t,
                        p,
                    )
                &&& forall|p: u64|
                    childvm.stack.start <= p < childvm.stack.end ==> #[trigger] final(self).memory.page_at(t, p).word == old(self).memory.page_at(
                        t,
                        (parentvm.stack.start + (p - childvm.stack.start)) as u64,
                    ).word
                &&& final(self).processes@[i] == (Process {
                    children: final(self).processes@[i].children,
                    context: ProcessContext { rax: cpid.0 as u64, ..parent.context },
                    ..parent
                })
                &&& final(self).processes@[i].children@ == parent.children@.push(cpid)
                &&& final(self).ready_queue@ == old(self).ready_queue@.push(cpid)
                &&& final(self).next_pid == old(self).next_pid + 1
            }),
    {
        if self.next_pid == u16::MAX {
            return None;
        }
        let pid = ProcessId(self.sys_get_pid());
        let i = match self.find_proc(pid) {
            Some(i) => i,
            None => {
                proof {
                    assert(false);
                }
                return None;
            },
        };
        if self.processes[i].proc_vm.is_none() {
            return None;
        }
        let children_count = self.processes[i].children.len();
        if children_count as u64 >= u64::MAX / crate::memory::STACK_MAX_PAGES {
            proof {
                assert(children_count as int + 1 > u64::MAX as int
                    / crate::memory::STACK_MAX_PAGES as int);
            }
            return None;
        }
        let offset = (children_count as u64 + 1) * crate::memory::STACK_MAX_PAGES;
        proof {
            assert(offset >= crate::memory::STACK_MAX_PAGES) by (nonlinear_arith)
                requires
                    offset == (children_count as u64 + 1) * crate::memory::STACK_MAX_PAGES,
                    crate::memory::STACK_MAX_PAGES == 0x100000,
                    children_count as u64 + 1 >= 1,
            ;
        }
        let vm_taken = self.processes[i].proc_vm.take();
        let vm = match vm_taken {
            Some(vm) => vm,
            None => {
                proof {
                    assert(false);
                }
                return None;
            },
        };
        let child_vm_r = vm.fork(&mut self.memory, offset);
        self.processes[i].proc_vm = Some(vm);
        let child_vm = match child_vm_r {
            None => {
                proof {
                    let a = self.processes@[i as int];
                    let b = old(self).processes@[i as int];
                    assert(a.pid == b.pid && a.name == b.name && a.parent == b.parent && a.children
                        == b.children && a.ticks_passed == b.ticks_passed && a.status == b.status
                        && a.context == b.context && a.exit_code == b.exit_code && a.proc_vm
                        == b.proc_vm && a.proc_data == b.proc_data);
                    assert(a == b);
                    assert(self.processes@ =~= old(self).processes@);
                    lemma_wf_update_one(*old(self), *self, i as int);
                }
                return None;
            },
            Some(child_vm) => child_vm,
        };
        let cpid = ProcessId(self.next_pid);
        let parent_ctx = self.processes[i].context;
        let child_stack_addr = child_vm.stack_start();
        let child_rsp = (parent_ctx.rsp % 0x1_0000_0000) + (child_stack_addr / 0x1_0000_0000)
            * 0x1_0000_0000;
        let child_name = self.processes[i].name.clone();
        let child = Process {
            pid: cpid,
            name: child_name,
            parent: Some(pid),
            children: Vec::new(),
            ticks_passed: 0,
            status: ProgramStatus::Ready,
            context: ProcessContext {
                rax: 0,
                rip: parent_ctx.rip,
                rsp: child_rsp,
                rflags: parent_ctx.rflags,
                cs: parent_ctx.cs,
                ss: parent_ctx.ss,
            },
            exit_code: None,
            proc_vm: Some(child_vm),
            proc_data: self.processes[i].proc_data,
        };
        self.processes[i].children.push(cpid);
        self.processes[i].set_rax(cpid.0 as usize);
        self.processes.push(child);
        self.next_pid = self.next_pid + 1;
        self.ready_queue.push(cpid);
        proof {
            lemma_wf_after_fork(*old(self), *self, i as int);
            lemma_proc_index_unique(*old(self), pid.0, i as int);
        }
        Some(cpid)
    }
}

/// A table nobody holds counts zero users.
pub proof fn lemma_count_users_none(procs: Seq<Process>, t: int)
    requires
        forall|i: int|
            0 <= i < procs.len() ==> !((#[trigger] procs[i]).proc_vm matches Some(vm)
                && vm.page_table == t),
    ensures
        count_users(procs, t) == 0,
    decreases procs.len(),
{
    if procs.len() > 0 {
        assert(procs[procs.len() - 1] == procs.last());
        lemma_count_users_none(procs.drop_last(), t);
    }
}

/// Memory gained fresh tables beyond the old ones (held by nobody or by the
/// newly appended process alone); old tables are unchanged. Everything else
/// equal keeps the manager sound.
pub proof fn lemma_wf_tables_grown(pre: ProcessManager, post: ProcessManager)
    requires
        pre.wf(),
        post.processes@ == pre.processes@,
        post.memory.wf(),
        post.memory.table_count() >= pre.memory.table_count(),
        forall|u: int|
            0 <= u < pre.memory.table_count() ==> post.memory.tables@[u] == pre.memory.tables@[u],
        forall|u: int|
            pre.memory.table_count() <= u < post.memory.table_count()
                ==> (#[trigger] post.memory.tables@[u]).refs == 0,
        post.processors == pre.processors,
        post.cpu == pre.cpu,
        post.datas == pre.datas,
        post.next_pid == pre.next_pid,
        post.wait_queue == pre.wait_queue,
    ensures
        post.wf(),
{
    lemma_waitq_clauses_preserved(pre, post, -1);
    assert forall|j: int|
        0 <= j < post.processes@.len() && ((#[trigger] post.processes@[j]).proc_vm matches Some(
            vmj,
        )) implies post.processes@[j].proc_vm.unwrap().wf(post.memory) by {
        let vmj = post.processes@[j].proc_vm.unwrap();
        assert(vmj.wf(pre.memory));
        let t = vmj.page_table as int;
        assert(post.memory.tables@[t] == pre.memory.tables@[t]);
        assert(post.memory.table_pages(t) == pre.memory.table_pages(t));
        assert forall|p: u64| pre.memory.is_mapped(t, p) implies post.memory.is_mapped(t, p) by {
            assert(post.memory.table_pages(t).dom() == pre.memory.table_pages(t).dom());
        }
        assert forall|p: u64|
            crate::memory::spec_page_of(crate::memory::HEAP_START) <= p
                < crate::memory::spec_page_of(crate::memory::HEAP_START)
                + crate::memory::HEAP_PAGES implies post.memory.is_mapped(t, p)
            == pre.memory.is_mapped(t, p) by {
            assert(post.memory.table_pages(t).dom() == pre.memory.table_pages(t).dom());
        }
        crate::vm::lemma_vm_wf_preserved(vmj, pre.memory, post.memory);
    }
    assert forall|t2: int| 0 <= t2 < post.memory.table_count() implies (
    #[trigger] post.memory.tables@[t2]).refs == count_users(post.processes@, t2) by {
        if t2 < pre.memory.table_count() {
        } else {
            assert forall|x: int|
                0 <= x < post.processes@.len() implies !((#[trigger] post.processes@[x]).proc_vm
                matches Some(vm) && vm.page_table == t2) by {
                if post.processes@[x].proc_vm is Some {
                    assert(post.processes@[x].proc_vm.unwrap().wf(pre.memory));
                }
            }
            lemma_count_users_none(post.processes@, t2);
        }
    }
    assert forall|c: int|
        0 <= c < MAX_CPU_COUNT && #[trigger] post.processors.pid_on(c) != 0 implies post.has_proc(
        post.processors.pid_on(c),
    ) by {
        assert(pre.has_proc(pre.processors.pid_on(c)));
    }
}

/// Spawning appends a fresh process on a fresh table and keeps the manager
/// sound.
pub proof fn lemma_wf_after_spawn(pre: ProcessManager, post: ProcessManager)
    requires
        pre.wf(),
        pre.next_pid < u16::MAX,
        post.processes@.len() == pre.processes@.len() + 1,
        forall|j: int| 0 <= j < pre.processes@.len() ==> post.processes@[j] == pre.processes@[j],
        ({
            let newp = post.processes@[pre.processes@.len() as int];
            let newvm = newp.proc_vm.unwrap();
            &&& newp.pid.0 == pre.next_pid
            &&& newp.status == ProgramStatus::Ready
            &&& newp.exit_code is None
            &&& newp.proc_vm is Some
            &&& (newp.proc_data matches Some(d) && d < post.datas@.len())
            &&& newvm.page_table as int == pre.memory.table_count()
            &&& newvm.wf(post.memory)
            &&& post.memory.wf()
            &&& post.memory.table_count() == pre.memory.table_count() + 1
            &&& forall|u: int|
                0 <= u < pre.memory.table_count() ==> post.memory.tables@[u]
                    == pre.memory.tables@[u]
            &&& post.memory.tables@[pre.memory.table_count()].refs == 1
        }),
        post.next_pid == pre.next_pid + 1,
        post.processors == pre.processors,
        post.cpu == pre.cpu,
        post.wait_queue == pre.wait_queue,
        post.datas@.len() >= pre.datas@.len(),
        forall|d: int| 0 <= d < pre.datas@.len() ==> post.datas@[d] == pre.datas@[d],
        forall|d: int|
            pre.datas@.len() <= d < post.datas@.len() ==> (#[trigger] post.datas@[d]).wf(),
    ensures
        post.wf(),
{
    let n = pre.processes@.len() as int;
    let newp = post.processes@[n];
    let newvm = newp.proc_vm.unwrap();
    let tn = pre.memory.table_count();
    assert forall|a: int, b: int| 0 <= a < b < post.processes@.len() implies post.processes@[a].pid.0
        != post.processes@[b].pid.0 by {
        if b == n {
            assert(post.processes@[a].pid == pre.processes@[a].pid);
            assert(pre.processes@[a].pid.0 < pre.next_pid);
        }
    }
    assert forall|j: int|
        0 <= j < post.processes@.len() && ((#[trigger] post.processes@[j]).proc_vm matches Some(
            vmj,
        )) implies post.processes@[j].proc_vm.unwrap().wf(post.memory) by {
        if j == n {
        } else {
            let vmj = post.processes@[j].proc_vm.unwrap();
            assert(vmj == pre.processes@[j].proc_vm.unwrap());
            assert(vmj.wf(pre.memory));
            let t = vmj.page_table as int;
            assert(post.memory.tables@[t] == pre.memory.tables@[t]);
            assert(post.memory.table_pages(t) == pre.memory.table_pages(t));
            assert forall|p: u64| pre.memory.is_mapped(t, p) implies post.memory.is_mapped(
                t,
                p,
            ) by {
                assert(post.memory.table_pages(t).dom() == pre.memory.table_pages(t).dom());
            }
            assert forall|p: u64|
                crate::memory::spec_page_of(crate::memory::HEAP_START) <= p
                    < crate::memory::spec_page_of(crate::memory::HEAP_START)
                    + crate::memory::HEAP_PAGES implies post.memory.is_mapped(t, p)
                == pre.memory.is_mapped(t, p) by {
                assert(post.memory.table_pages(t).dom() == pre.memory.table_pages(t).dom());
            }
            crate::vm::lemma_vm_wf_preserved(vmj, pre.memory, post.memory);
        }
    }
    assert forall|a: int, b: int|
        #![trigger post.processes@[a], post.processes@[b]]
        0 <= a < post.processes@.len() && 0 <= b < post.processes@.len() && a != b
            && (post.processes@[a].proc_vm matches Some(va)) && (post.processes@[b].proc_vm
            matches Some(vb)) && post.processes@[a].proc_vm.unwrap().page_table
            == post.processes@[b].proc_vm.unwrap().page_table implies (
    post.processes@[a].proc_vm.unwrap().stack.end
        <= post.processes@[b].proc_vm.unwrap().stack.start
        || post.processes@[b].proc_vm.unwrap().stack.end
        <= post.processes@[a].proc_vm.unwrap().stack.start) by {
        if a == n || b == n {
            let j = if a == n {
                b
            } else {
                a
            };
            let vmj = post.processes@[j].proc_vm.unwrap();
            if vmj.page_table == newvm.page_table {
                assert(vmj == pre.processes@[j].proc_vm.unwrap());
                assert(vmj.wf(pre.memory));
                assert(vmj.page_table < pre.memory.table_count());
                assert(false);
            }
        }
    }
    assert forall|t2: int| 0 <= t2 < post.memory.table_count() implies (
    #[trigger] post.memory.tables@[t2]).refs == count_users(post.processes@, t2) by {
        lemma_count_users_push(pre.processes@, newp, t2);
        assert(post.processes@ =~= pre.processes@.push(newp));
        if t2 == tn {
            assert forall|x: int|
                0 <= x < pre.processes@.len() implies !((#[trigger] pre.processes@[x]).proc_vm
                matches Some(vm) && vm.page_table == t2) by {
                if pre.processes@[x].proc_vm is Some {
                    assert(pre.processes@[x].proc_vm.unwrap().wf(pre.memory));
                }
            }
            lemma_count_users_none(pre.processes@, t2);
        }
    }
    assert forall|c: int|
        0 <= c < MAX_CPU_COUNT && #[trigger] post.processors.pid_on(c) != 0 implies post.has_proc(
        post.processors.pid_on(c),
    ) by {
        assert(pre.has_proc(pre.processors.pid_on(c)));
        let w = pre.idx_of(pre.processors.pid_on(c));
        assert(post.processes@[w].pid == pre.processes@[w].pid);
    }
}

impl ProcessManager {
    /// Spawns a fresh process from a parsed program image: clones a fresh
    /// address space off the kernel's, maps the image's segments, maps the
    /// initial stack in the area reserved for the new pid, points the
    /// context at the entry with the new stack, registers the process ready
    /// and enqueues it. Fails, with no process added, when ids, frames or
    /// stack areas have run out or the image is malformed.
    #[verifier::rlimit(80)]
    pub fn spawn(
        &mut self,
        elf: &ElfImage,
        name: String,
        parent: Option<ProcessId>,
        proc_data: Option<ProcessData>,
    ) -> (r: Option<ProcessId>)
        requires
            old(self).wf(),
            proc_data matches Some(d) ==> d.wf(),
        ensures
            final(self).wf(),
            old(self).spec_spawn_ready(elf.segments@) ==> r is Some,
            r is None ==> final(self).processes@ == old(self).processes@ && final(self).ready_queue
                == old(self).ready_queue && final(self).datas == old(self).datas && final(self).next_pid == old(self).next_pid,
            r matches Some(pid) ==> ({
                let newp = final(self).processes@[old(self).processes@.len() as int];
                let newvm = newp.proc_vm.unwrap();
                &&& pid.0 == old(self).next_pid
                &&& final(self).processes@.len() == old(self).processes@.len() + 1
                &&& newp.pid == pid
                &&& newp.name == name
                &&& newp.parent == parent
                &&& newp.status == ProgramStatus::Ready
                &&& newp.context.rip == elf.entry
                &&& newp.context.rax == 0
                &&& newp.context.rsp == crate::memory::STACK_INIT_TOP
                    - crate::memory::STACK_MAX_SIZE * ((pid.0 - 1) as u64)
                &&& newp.proc_vm is Some
                &&& newvm.page_table as int == old(self).memory.table_count()
                &&& newvm.stack.usage == crate::memory::STACK_DEF_PAGE
                &&& newvm.code@ == elf.segments@
                &&& final(self).ready_queue@ == old(self).ready_queue@.push(pid)
                &&& final(self).next_pid == old(self).next_pid + 1
                &&& forall|j: int|
                    0 <= j < old(self).processes@.len() ==> final(self).processes@[j] == old(self).processes@[j]
            }),
    {
        if self.next_pid == u16::MAX {
            return None;
        }
        let pid = ProcessId(self.next_pid);
        let ghost orig = *self;
        let t = self.memory.new_table();
        let mut vm = ProcessVm::new(t);
        proof {
            assert forall|p: u64|
                p < crate::memory::spec_page_of(crate::memory::HEAP_START) implies
                !self.memory.is_mapped(t as int, p) by {
                assert(self.memory.table_pages(t as int) =~= Map::<u64, PageInfo>::empty());
            }
        }
        if !vm.load_elf(&mut self.memory, elf) {
            proof {
                assert(!orig.spec_spawn_ready(elf.segments@));
            }
            self.memory.release_table(t);
            proof {
                lemma_wf_tables_grown(orig, *self);
            }
            return None;
        }
        let ghost loaded = *self;
        proof {
            if orig.spec_spawn_ready(elf.segments@) {
                crate::vm::lemma_segments_pages_nonneg(elf.segments@);
                assert(crate::memory::STACK_DEF_PAGE <= self.memory.frames_free);
                assert(!self.memory.is_mapped(t as int, crate::vm::spec_stack_bot_page(pid.0)))
                    by {
                    let bot = crate::vm::spec_stack_bot_page(pid.0);
                    assert(bot >= crate::memory::spec_page_of(crate::memory::HEAP_START))
                        by (nonlinear_arith)
                        requires
                            bot == crate::memory::spec_page_of(crate::memory::STACK_INIT_TOP) - (
                            pid.0 - 1) * crate::memory::STACK_MAX_PAGES,
                            1 <= pid.0 <= crate::vm::MAX_STACK_PID,
                            crate::vm::MAX_STACK_PID == 0x1fff,
                            crate::memory::spec_page_of(crate::memory::STACK_INIT_TOP)
                                == 0x3ffffffff,
                            crate::memory::STACK_MAX_PAGES == 0x100000,
                            crate::memory::spec_page_of(crate::memory::HEAP_START) == 0x2_0000_0000,
                    ;
                    if crate::vm::in_segments(elf.segments@, elf.segments@.len() as int, bot) {
                        let j = choose|j: int|
                            0 <= j < elf.segments@.len() && (
                            #[trigger] elf.segments@[j]).start <= bot < elf.segments@[j].start
                                + elf.segments@[j].count;
                        assert(elf.segments@[j].start + elf.segments@[j].count
                            <= crate::memory::spec_page_of(crate::memory::HEAP_START));
                    }
                }
            }
        }
        let stack_top = match vm.init_proc_stack(&mut self.memory, pid) {
            Some(x) => x,
            None => {
                proof {
                    assert(!orig.spec_spawn_ready(elf.segments@));
                }
                self.memory.release_table(t);
                proof {
                    lemma_wf_tables_grown(orig, *self);
                }
                return None;
            },
        };
        let d = self.datas.len();
        match proc_data {
            Some(pd) => self.datas.push(pd),
            None => self.datas.push(ProcessData::new()),
        }
        let newp = Process {
            pid,
            name,
            parent,
            children: Vec::new(),
            ticks_passed: 0,
            status: ProgramStatus::Ready,
            context: ProcessContext {
                rax: 0,
                rip: elf.entry,
                rsp: stack_top,
                rflags: crate::context::RFLAGS_DEFAULT,
                cs: crate::context::SELECTOR_CODE,
                ss: crate::context::SELECTOR_DATA,
            },
            exit_code: None,
            proc_vm: Some(vm),
            proc_data: Some(d),
        };
        self.processes.push(newp);
        self.next_pid = self.next_pid + 1;
        self.ready_queue.push(pid);
        proof {
            lemma_wf_after_spawn(orig, *self);
        }
        Some(pid)
    }
}

/// Replacing one resource slot with a sound one keeps the manager sound.
pub proof fn lemma_wf_update_data(pre: ProcessManager, post: ProcessManager, d: int)
    requires
        pre.wf(),
        0 <= d < pre.datas@.len(),
        post.datas@.len() == pre.datas@.len(),
        forall|x: int| 0 <= x < pre.datas@.len() && x != d ==> post.datas@[x] == pre.datas@[x],
        post.datas@[d].wf(),
        post.processes == pre.processes,
        post.memory == pre.memory,
        post.processors == pre.processors,
        post.cpu == pre.cpu,
        post.next_pid == pre.next_pid,
        post.wait_queue == pre.wait_queue,
    ensures
        post.wf(),
{
    lemma_waitq_clauses_preserved(pre, post, -1);
    assert forall|c: int|
        0 <= c < MAX_CPU_COUNT && #[trigger] post.processors.pid_on(c) != 0 implies post.has_proc(
        post.processors.pid_on(c),
    ) by {
        assert(pre.has_proc(pre.processors.pid_on(c)));
    }
}

impl ProcessManager {
    /// The resource-pool index of the current process, if it still holds
    /// resources.
    fn current_data_index(&self) -> (r: Option<usize>)
        requires
            self.wf(),
        ensures
            match r {
                Some(d) => d < self.datas@.len() && self.has_proc(self.current_pid())
                    && self.proc_of(self.current_pid()).proc_data == Some(d),
                None => !self.has_proc(self.current_pid()) || self.proc_of(
                    self.current_pid(),
                ).proc_data is None,
            },
    {
        let pid = ProcessId(self.sys_get_pid());
        match self.find_proc(pid) {
            Some(i) => self.processes[i].proc_data,
            None => None,
        }
    }

    /// The environment value bound to `key` for the current process.
    pub fn env(&self, key: &String) -> (r: Option<String>)
        requires
            self.wf(),
        ensures
            r is Some ==> self.has_proc(self.current_pid()) && (self.proc_of(
                self.current_pid(),
            ).proc_data matches Some(d) && self.datas@[d as int].env_contains(key@) && r.unwrap()@
                == self.datas@[d as int].env_val(key@)),
            r is None ==> !self.has_proc(self.current_pid()) || self.proc_of(
                self.current_pid(),
            ).proc_data is None || (self.proc_of(self.current_pid()).proc_data matches Some(d)
                && !self.datas@[d as int].env_contains(key@)),
    {
        match self.current_data_index() {
            Some(d) => self.datas[d].env(key),
            None => None,
        }
    }

    /// Binds `key` to `val` in the current process's environment.
    pub fn set_env(&mut self, key: String, val: String)
        requires
            old(self).wf(),
        ensures
            final(self).wf(),
            final(self).processes == old(self).processes,
            final(self).memory == old(self).memory,
            old(self).has_proc(old(self).current_pid()) && (old(self).proc_of(
                old(self).current_pid(),
            ).proc_data matches Some(d) ==> final(self).datas@[d as int].env_contains(key@)
                && final(self).datas@[d as int].env_val(key@) == val@),
    {
        let d = match self.current_data_index() {
            Some(d) => d,
            None => {
                return ;
            },
        };
        let ghost pre = *self;
        self.datas[d].set_env(key, val);
        proof {
            lemma_wf_update_data(pre, *self, d as int);
        }
    }

    /// Creates semaphore `key` with `value` permits in the current process's
    /// family; false when the key exists already or the caller is dead.
    pub fn sem_init(&mut self, key: u32, value: u64) -> (r: bool)
        requires
            old(self).wf(),
        ensures
            final(self).wf(),
            final(self).processes == old(self).processes,
            final(self).memory == old(self).memory,
            final(self).ready_queue == old(self).ready_queue,
            old(self).has_proc(old(self).current_pid()) ==> (old(self).proc_of(
                old(self).current_pid(),
            ).proc_data matches Some(d) ==> {
                &&& r == !old(self).datas@[d as int].semaphores.spec_contains(key)
                &&& (r ==> final(self).datas@[d as int].semaphores.spec_contains(key)
                    && final(self).datas@[d as int].semaphores.sem_of(key).count == value
                    && final(self).datas@[d as int].semaphores.sem_of(key).waiters@
                    =~= Seq::<ProcessId>::empty())
            }),
    {
        let d = match self.current_data_index() {
            Some(d) => d,
            None => {
                return false;
            },
        };
        let ghost pre = *self;
        let r = self.datas[d].sem_init(key, value);
        proof {
            lemma_wf_update_data(pre, *self, d as int);
        }
        r
    }

    /// Deletes semaphore `key` from the current process's family; false when
    /// it is absent or the caller is dead. Waiters still queued are dropped
    /// with it.
    pub fn sem_remove(&mut self, key: u32) -> (r: bool)
        requires
            old(self).wf(),
        ensures
            final(self).wf(),
            final(self).processes == old(self).processes,
            final(self).memory == old(self).memory,
            final(self).ready_queue == old(self).ready_queue,
            old(self).has_proc(old(self).current_pid()) ==> (old(self).proc_of(
                old(self).current_pid(),
            ).proc_data matches Some(d) ==> {
                &&& r == old(self).datas@[d as int].semaphores.spec_contains(key)
                &&& (r ==> !final(self).datas@[d as int].semaphores.spec_contains(key))
            }),
    {
        let d = match self.current_data_index() {
            Some(d) => d,
            None => {
                return false;
            },
        };
        let ghost pre = *self;
        let r = self.datas[d].sem_remove(key);
        proof {
            lemma_wf_update_data(pre, *self, d as int);
        }
        r
    }
}

impl ProcessManager {
    /// The timer path: counts a tick against the current process, saves its
    /// context, re-enqueues it, and switches to the first ready entry of the
    /// queue, mutating `context` in place to that process's saved context.
    pub fn switch(&mut self, context: &mut ProcessContext) -> (r: ProcessId)
        requires
            old(self).wf(),
            old(self).processes@[0].status == ProgramStatus::Ready || old(self).current_pid()
                == KERNEL_PID,
        ensures
            final(self).wf(),
            final(self).current_pid() == r.0,
            final(self).has_proc(r.0),
            final(self).proc_of(r.0).status == ProgramStatus::Running,
            *final(context) == final(self).proc_of(r.0).context,
            old(self).proc_of(old(self).current_pid()).status != ProgramStatus::Dead && r.0 != old(self).current_pid() ==> final(self).proc_of(old(self).current_pid()).status
                == ProgramStatus::Ready && final(self).proc_of(old(self).current_pid()).context
                == *old(context),
    {
        let pid = ProcessId(self.sys_get_pid());
        self.save_current(context);
        self.push_ready(pid);
        let ghost mid = *self;
        proof {
            lemma_proc_index_unique(*old(self), pid.0, old(self).idx_of(pid.0));
            assert(mid.processes@[0].status == ProgramStatus::Ready) by {
                if old(self).current_pid() == KERNEL_PID {
                    assert(old(self).idx_of(KERNEL_PID) == 0) by {
                        lemma_proc_index_unique(*old(self), KERNEL_PID, 0);
                    }
                }
            }
        }
        let r = self.switch_next(context);
        proof {
            lemma_proc_index_unique(*final(self), r.0, mid.idx_of(r.0));
            if old(self).proc_of(pid.0).status != ProgramStatus::Dead && r.0 != pid.0 {
                let ci = old(self).idx_of(pid.0);
                assert(mid.processes@[ci].status == ProgramStatus::Ready);
                assert(mid.processes@[ci].context == *old(context));
                lemma_proc_index_unique(mid, pid.0, ci);
                assert(mid.idx_of(r.0) != ci) by {
                    assert(mid.processes@[mid.idx_of(r.0)].pid.0 == r.0);
                }
                assert(self.processes@[ci] == mid.processes@[ci]);
                lemma_proc_index_unique(*self, pid.0, ci);
            }
        }
        r
    }

    /// Kills the current process with `ret` and switches to the next ready
    /// process; the exiting caller's kernel path never resumes it.
    pub fn process_exit(&mut self, ret: isize, context: &mut ProcessContext) -> (r: ProcessId)
        requires
            old(self).wf(),
            old(self).processes@[0].status == ProgramStatus::Ready,
            old(self).current_pid() != KERNEL_PID,
        ensures
            final(self).wf(),
            final(self).current_pid() == r.0,
            final(self).has_proc(r.0),
            final(self).proc_of(r.0).status == ProgramStatus::Running,
            old(self).has_proc(old(self).current_pid()) && old(self).proc_of(
                old(self).current_pid(),
            ).status != ProgramStatus::Dead ==> final(self).proc_of(
                old(self).current_pid(),
            ).exit_code == Some(ret),
    {
        let pid = ProcessId(self.sys_get_pid());
        self.kill(pid, ret);
        let ghost mid = *self;
        let r = self.switch_next(context);
        proof {
            lemma_proc_index_unique(*final(self), r.0, mid.idx_of(r.0));
            if old(self).has_proc(pid.0) && old(self).proc_of(pid.0).status
                != ProgramStatus::Dead {
                let ci = old(self).idx_of(pid.0);
                assert(old(self).processes@[ci].pid.0 == pid.0);
                assert(mid.processes@[ci].exit_code == Some(ret));
                assert(mid.processes@[ci].status == ProgramStatus::Dead);
                lemma_proc_index_unique(mid, pid.0, ci);
                assert(mid.idx_of(r.0) != ci) by {
                    assert(mid.processes@[mid.idx_of(r.0)].pid.0 == r.0);
                    assert(mid.is_ready_pid(r.0) || r.0 == KERNEL_PID);
                    if mid.idx_of(r.0) == ci {
                        assert(r.0 == pid.0);
                        assert(mid.proc_of(r.0).status == ProgramStatus::Dead);
                        assert(!mid.is_ready_pid(r.0));
                        assert(r.0 != KERNEL_PID);
                    }
                }
                assert(self.processes@[ci] == mid.processes@[ci]);
                lemma_proc_index_unique(*self, pid.0, ci);
            }
        }
        r
    }

    /// Kills the current process with `ret`; see [`ProcessManager::kill`].
    pub fn kill_current(&mut self, ret: isize)
        requires
            old(self).wf(),
        ensures
            final(self).wf(),
            old(self).current_pid() == KERNEL_PID ==> *final(self) == *old(self),
            old(self).current_pid() != KERNEL_PID && (!old(self).has_proc(
                old(self).current_pid(),
            ) || old(self).proc_of(old(self).current_pid()).status == ProgramStatus::Dead)
                ==> *final(self) == *old(self),
            old(self).has_proc(old(self).current_pid()) && old(self).current_pid() != KERNEL_PID
                && old(self).proc_of(old(self).current_pid()).status != ProgramStatus::Dead ==> {
                let i = old(self).idx_of(old(self).current_pid());
                &&& final(self).processes@[i].status == ProgramStatus::Dead
                &&& final(self).processes@[i].exit_code == Some(ret)
                &&& final(self).processes@[i].proc_vm is None
                &&& final(self).processes@[i].proc_data is None
            },
    {
        let pid = ProcessId(self.sys_get_pid());
        self.kill(pid, ret);
    }

    /// Waits for `pid` to exit: an unknown pid resumes the caller at once
    /// with 0, a dead one with its stored exit code; otherwise the caller is
    /// registered as a waiter, blocked, and the next ready process is
    /// switched in. `kill` later resumes the caller with the exit code.
    pub fn wait_pid(&mut self, pid: ProcessId, context: &mut ProcessContext)
        requires
            old(self).wf(),
            old(self).processes@[0].status == ProgramStatus::Ready,
            old(self).current_pid() != KERNEL_PID,
        ensures
            final(self).wf(),
            !old(self).has_proc(pid.0) ==> *final(context) == (ProcessContext {
                rax: 0,
                ..*old(context)
            }),
            old(self).has_proc(pid.0) && old(self).proc_of(pid.0).status == ProgramStatus::Dead
                ==> *final(context) == (ProcessContext {
                rax: old(self).proc_of(pid.0).exit_code.unwrap() as usize as u64,
                ..*old(context)
            }),
            old(self).has_proc(pid.0) && old(self).proc_of(pid.0).status != ProgramStatus::Dead
                ==> {
                &&& final(self).wait_queue_waiters(pid.0).contains(
                    ProcessId(old(self).current_pid()),
                )
                &&& final(self).wait_queue_waiters(pid.0) == (if old(self).wait_queue_waiters(
                    pid.0,
                ).contains(ProcessId(old(self).current_pid())) {
                    old(self).wait_queue_waiters(pid.0)
                } else {
                    old(self).wait_queue_waiters(pid.0).push(ProcessId(old(self).current_pid()))
                })
                &&& (old(self).current_pid() != pid.0 && old(self).has_proc(
                    old(self).current_pid(),
                ) && old(self).proc_of(old(self).current_pid()).status != ProgramStatus::Dead
                    ==> final(self).proc_of(old(self).current_pid()).status
                    == ProgramStatus::Blocked)
            },
    {
        let i = match self.find_proc(pid) {
            Some(i) => i,
            None => {
                context.set_rax(0);
                return ;
            },
        };
        if self.processes[i].is_dead() {
            let code = match self.processes[i].exit_code() {
                Some(code) => code,
                None => {
                    proof {
                        assert(false);
                    }
                    0
                },
            };
            context.set_rax(code as usize);
            return ;
        }
        let cur = ProcessId(self.sys_get_pid());
        self.register_waiter(pid, cur);
        let ghost registered = *self;
        let ci = match self.find_proc(cur) {
            Some(ci) => ci,
            None => {
                proof {
                    assert(false);
                }
                return ;
            },
        };
        if self.processes[ci].is_dead() {
            return ;
        }
        let ghost pre_block = *self;
        proof {
            assert(ci as int != 0) by {
                assert(self.processes@[0].pid.0 == KERNEL_PID);
            }
        }
        self.processes[ci].save(context);
        self.processes[ci].block();
        proof {
            lemma_wf_update_one(pre_block, *self, ci as int);
        }
        let ghost blocked = *self;
        self.switch_next(context);
        proof {
            if cur.0 != pid.0 && old(self).has_proc(cur.0) && old(self).proc_of(cur.0).status
                != ProgramStatus::Dead {
                assert(blocked.processes@[ci as int].status == ProgramStatus::Blocked);
                assert(blocked.processes@[ci as int].pid.0 == cur.0);
                assert(self.processes@[ci as int].status == ProgramStatus::Blocked) by {
                    if blocked.idx_of(self.current_pid()) == ci as int {
                        lemma_proc_index_unique(blocked, cur.0, ci as int);
                        assert(blocked.is_ready_pid(cur.0) || self.current_pid() == KERNEL_PID);
                    }
                }
                lemma_proc_index_unique(*self, cur.0, ci as int);
            }
            assert(self.wait_queue == blocked.wait_queue);
            assert(blocked.wait_queue == registered.wait_queue);
        }
    }

    /// Whether `w` already stands in `v`.
    fn waiters_contain(v: &Vec<ProcessId>, w: ProcessId) -> (r: bool)
        ensures
            r <==> exists|q: int| 0 <= q < v@.len() && v@[q].0 == w.0,
    {
        let n = v.len();
        let mut j: usize = 0;
        while j < n
            invariant
                n == v@.len(),
                j <= n,
                forall|q: int| 0 <= q < j ==> v@[q].0 != w.0,
            decreases n - j,
        {
            if v[j].0 == w.0 {
                proof {
                    assert(v@[j as int].0 == w.0);
                }
                return true;
            }
            j += 1;
        }
        false
    }

    /// Registers `waiter` as waiting for `pid`'s exit, once.
    fn register_waiter(&mut self, pid: ProcessId, waiter: ProcessId)
        requires
            old(self).wf(),
            old(self).has_proc(pid.0),
            old(self).proc_of(pid.0).status != ProgramStatus::Dead,
        ensures
            final(self).wf(),
            *final(self) == (ProcessManager { wait_queue: final(self).wait_queue, ..*old(self) }),
            final(self).wait_queue_waiters(pid.0).contains(waiter),
            final(self).wait_queue_waiters(pid.0) == if old(self).wait_queue_waiters(
                pid.0,
            ).contains(waiter) {
                old(self).wait_queue_waiters(pid.0)
            } else {
                old(self).wait_queue_waiters(pid.0).push(waiter)
            },
    {
        let nw = self.wait_queue.len();
        let mut wi: usize = 0;
        let ghost orig = *self;
        while wi < nw
            invariant
                *self == orig,
                orig == *old(self),
                orig.wf(),
                nw == self.wait_queue@.len(),
                wi <= nw,
                forall|j: int| 0 <= j < wi ==> self.wait_queue@[j].target.0 != pid.0,
            decreases nw - wi,
        {
            if self.wait_queue[wi].target.0 == pid.0 {
                let already = Self::waiters_contain(&self.wait_queue[wi].waiters, waiter);
                proof {
                    lemma_wq_first(orig.wait_queue@, pid.0, wi as int);
                }
                if !already {
                    proof {
                        assert(!orig.wait_queue_waiters(pid.0).contains(waiter)) by {
                            if orig.wait_queue_waiters(pid.0).contains(waiter) {
                                let q = choose|q: int|
                                    0 <= q < orig.wait_queue_waiters(pid.0).len()
                                        && orig.wait_queue_waiters(pid.0)[q] == waiter;
                                assert(orig.wait_queue@[wi as int].waiters@[q].0 == waiter.0);
                            }
                        }
                    }
                    self.wait_queue[wi].waiters.push(waiter);
                    proof {
                        assert(self.wait_queue@.len() == orig.wait_queue@.len());
                        assert(self.wait_queue@[wi as int].target.0 == pid.0);
                        assert forall|j: int| 0 <= j < wi implies self.wait_queue@[j].target.0
                            != pid.0 by {
                            assert(self.wait_queue@[j] == orig.wait_queue@[j]);
                        }
                        lemma_wq_first(self.wait_queue@, pid.0, wi as int);
                        assert(self.wait_queue@[wi as int].waiters@ == orig.wait_queue@[wi as int].waiters@.push(
                            waiter,
                        ));
                        assert(self.wait_queue_waiters(pid.0)[orig.wait_queue@[wi as int].waiters@.len() as int]
                            == waiter);
                        assert forall|k1: int, k2: int|
                            0 <= k1 < k2 < self.wait_queue@.len() implies self.wait_queue@[k1].target.0
                            != self.wait_queue@[k2].target.0 by {
                            assert(self.wait_queue@[k1].target.0 == orig.wait_queue@[k1].target.0);
                            assert(self.wait_queue@[k2].target.0 == orig.wait_queue@[k2].target.0);
                        }
                        assert forall|k2: int| 0 <= k2 < self.wait_queue@.len() implies
                            self.has_proc((#[trigger] self.wait_queue@[k2]).target.0)
                            && self.proc_of(self.wait_queue@[k2].target.0).status
                            != ProgramStatus::Dead by {
                            let tp = orig.wait_queue@[k2].target.0;
                            assert(self.wait_queue@[k2].target.0 == tp);
                            assert(orig.has_proc(tp));
                            let w = orig.idx_of(tp);
                            assert(self.processes@[w].pid.0 == tp);
                            lemma_proc_index_unique(*self, tp, w);
                        }
                        lemma_wf_same_but_waitq(orig, *self);
                    }
                } else {
                    proof {
                        let w2 = waiter;
                        let q = choose|q: int|
                            0 <= q < orig.wait_queue@[wi as int].waiters@.len()
                                && orig.wait_queue@[wi as int].waiters@[q].0 == w2.0;
                        assert(self.wait_queue_waiters(pid.0)[q].0 == waiter.0);
                        assert(self.wait_queue_waiters(pid.0)[q] == waiter);
                        assert(orig.wait_queue_waiters(pid.0).contains(waiter));
                    }
                }
                return ;
            }
            wi += 1;
        }
        self.wait_queue.push(WaitEntry { target: pid, waiters: vec![waiter] });
        proof {
            assert forall|j: int| 0 <= j < nw implies self.wait_queue@[j].target.0 != pid.0 by {
                assert(self.wait_queue@[j] == orig.wait_queue@[j]);
            }
            assert(self.wait_queue@[nw as int].target.0 == pid.0);
            lemma_wq_first(self.wait_queue@, pid.0, nw as int);
            assert(self.wait_queue_waiters(pid.0)[0] == waiter);
            lemma_wq_none(orig.wait_queue@, pid.0);
            assert(self.wait_queue_waiters(pid.0) =~= orig.wait_queue_waiters(pid.0).push(
                waiter,
            ));
            assert forall|k1: int, k2: int|
                0 <= k1 < k2 < self.wait_queue@.len() implies self.wait_queue@[k1].target.0
                != self.wait_queue@[k2].target.0 by {
                if k2 < nw {
                    assert(self.wait_queue@[k1] == orig.wait_queue@[k1]);
                    assert(self.wait_queue@[k2] == orig.wait_queue@[k2]);
                } else {
                    assert(self.wait_queue@[k1] == orig.wait_queue@[k1]);
                    assert(self.wait_queue@[k1].target.0 != pid.0);
                }
            }
            assert forall|k2: int| 0 <= k2 < self.wait_queue@.len() implies self.has_proc(
                (#[trigger] self.wait_queue@[k2]).target.0,
            ) && self.proc_of(self.wait_queue@[k2].target.0).status != ProgramStatus::Dead by {
                if k2 < nw {
                    let tp = orig.wait_queue@[k2].target.0;
                    assert(self.wait_queue@[k2].target.0 == tp);
                    assert(orig.has_proc(tp));
                    let w = orig.idx_of(tp);
                    assert(self.processes@[w].pid.0 == tp);
                    lemma_proc_index_unique(*self, tp, w);
                } else {
                    assert(self.wait_queue@[k2].target.0 == pid.0);
                    let w = orig.idx_of(pid.0);
                    assert(self.processes@[w].pid.0 == pid.0);
                    lemma_proc_index_unique(*self, pid.0, w);
                }
            }
            lemma_wf_same_but_waitq(orig, *self);
        }
    }
}

/// A change confined to the wait queue — which must itself stay sound —
/// keeps the manager sound.
pub proof fn lemma_wf_same_but_waitq(pre: ProcessManager, post: ProcessManager)
    requires
        pre.wf(),
        post.processes == pre.processes,
        post.memory == pre.memory,
        post.processors == pre.processors,
        post.cpu == pre.cpu,
        post.datas == pre.datas,
        post.next_pid == pre.next_pid,
        forall|k1: int, k2: int|
            0 <= k1 < k2 < post.wait_queue@.len() ==> post.wait_queue@[k1].target.0
                != post.wait_queue@[k2].target.0,
        forall|k: int|
            0 <= k < post.wait_queue@.len() ==> post.has_proc(
                (#[trigger] post.wait_queue@[k]).target.0,
            ) && post.proc_of(post.wait_queue@[k].target.0).status != ProgramStatus::Dead,
    ensures
        post.wf(),
{
    assert forall|c: int|
        0 <= c < MAX_CPU_COUNT && #[trigger] post.processors.pid_on(c) != 0 implies post.has_proc(
        post.processors.pid_on(c),
    ) by {
        assert(pre.has_proc(pre.processors.pid_on(c)));
    }
}

impl ProcessManager {
    /// Takes a permit on semaphore `key` for the current process. With a
    /// permit free the caller continues with 0 in its return slot; with the
    /// key absent it continues with an error; otherwise the caller is
    /// queued on the semaphore, blocked, and the next ready process is
    /// switched in.
    pub fn sem_wait(&mut self, key: u32, context: &mut ProcessContext)
        requires
            old(self).wf(),
            old(self).processes@[0].status == ProgramStatus::Ready,
            old(self).current_pid() != KERNEL_PID,
        ensures
            final(self).wf(),
            old(self).has_proc(old(self).current_pid()) ==> (old(self).proc_of(
                old(self).current_pid(),
            ).proc_data matches Some(d) ==> {
                let sems = old(self).datas@[d as int].semaphores;
                &&& (!sems.spec_contains(key) ==> *final(context) == (ProcessContext {
                    rax: usize::MAX as u64,
                    ..*old(context)
                }) && final(self).datas@ =~= old(self).datas@)
                &&& (sems.spec_contains(key) && sems.sem_of(key).count > 0 ==> *final(context)
                    == (ProcessContext { rax: 0, ..*old(context) }) && final(self).datas@[d as int].semaphores.sem_of(key).count == sems.sem_of(key).count - 1)
                &&& (sems.spec_contains(key) && sems.sem_of(key).count == 0 ==> final(self).datas@[d as int].semaphores.sem_of(key).waiters@ == sems.sem_of(
                    key,
                ).waiters@.push(ProcessId(old(self).current_pid())))
            }),
    {
        let cur = ProcessId(self.sys_get_pid());
        let d = match self.current_data_index() {
            Some(d) => d,
            None => {
                context.set_rax(usize::MAX);
                return ;
            },
        };
        let ghost pre = *self;
        let r = self.datas[d].sem_wait(key, cur);
        proof {
            lemma_wf_update_data(pre, *self, d as int);
        }
        match r {
            SemaphoreResult::Done => {
                context.set_rax(0);
            },
            SemaphoreResult::NotExist => {
                context.set_rax(usize::MAX);
                proof {
                    assert(self.datas@ =~= pre.datas@);
                }
            },
            SemaphoreResult::Block => {
                let ci = match self.find_proc(cur) {
                    Some(ci) => ci,
                    None => {
                        proof {
                            assert(false);
                        }
                        return ;
                    },
                };
                if self.processes[ci].is_dead() {
                    return ;
                }
                let ghost pre_block = *self;
                proof {
                    assert(ci as int != 0) by {
                        assert(self.processes@[0].pid.0 == KERNEL_PID);
                    }
                }
                self.processes[ci].save(context);
                self.processes[ci].block();
                proof {
                    lemma_wf_update_one(pre_block, *self, ci as int);
                }
                let ghost blocked = *self;
                self.switch_next(context);
                proof {
                    if old(self).has_proc(cur.0) && old(self).proc_of(cur.0).status
                        != ProgramStatus::Dead && cur.0 != KERNEL_PID {
                        assert(blocked.processes@[ci as int].status == ProgramStatus::Blocked);
                        assert(blocked.processes@[ci as int].pid.0 == cur.0);
                        assert(self.processes@[ci as int].status == ProgramStatus::Blocked) by {
                            if blocked.idx_of(self.current_pid()) == ci as int {
                                lemma_proc_index_unique(blocked, cur.0, ci as int);
                                assert(blocked.is_ready_pid(cur.0) || self.current_pid()
                                    == KERNEL_PID);
                            }
                        }
                        lemma_proc_index_unique(*self, cur.0, ci as int);
                    }
                }
            },
            SemaphoreResult::WakeUp(_) => {
                proof {
                    assert(false);
                }
            },
        }
    }

    /// Signals semaphore `key` for the current process's family: the oldest
    /// queued waiter is woken with 0 delivered, or the count rises; the key
    /// being absent is reported in the caller's return slot.
    #[verifier::rlimit(60)]
    pub fn sem_signal(&mut self, key: u32, context: &mut ProcessContext)
        requires
            old(self).wf(),
        ensures
            final(self).wf(),
            old(self).has_proc(old(self).current_pid()) ==> (old(self).proc_of(
                old(self).current_pid(),
            ).proc_data matches Some(d) ==> {
                let sems = old(self).datas@[d as int].semaphores;
                &&& (!sems.spec_contains(key) ==> *final(context) == (ProcessContext {
                    rax: usize::MAX as u64,
                    ..*old(context)
                }) && final(self).datas@ =~= old(self).datas@)
                &&& (sems.spec_contains(key) ==> *final(context) == (ProcessContext {
                    rax: 0,
                    ..*old(context)
                }) && final(self).datas@[d as int].semaphores.sem_of(key).count
                    == crate::semaphore::spec_signal_count(
                    sems.sem_of(key).count,
                    sems.sem_of(key).waiters@,
                ) && final(self).datas@[d as int].semaphores.sem_of(key).waiters@
                    == crate::semaphore::spec_signal_waiters(
                    sems.sem_of(key).count,
                    sems.sem_of(key).waiters@,
                ))
                &&& (sems.spec_contains(key) && sems.sem_of(key).count == 0 && sems.sem_of(
                    key,
                ).waiters@.len() > 0 ==> {
                    let woken = sems.sem_of(key).waiters@[0];
                    old(self).has_proc(woken.0) && old(self).proc_of(woken.0).status
                        != ProgramStatus::Dead ==> final(self).proc_of(woken.0).status
                        == ProgramStatus::Ready && final(self).proc_of(woken.0).context.rax == 0
                        && final(self).ready_queue@.contains(woken)
                })
            }),
    {
        let d = match self.current_data_index() {
            Some(d) => d,
            None => {
                context.set_rax(usize::MAX);
                return ;
            },
        };
        let ghost pre = *self;
        let r = self.datas[d].sem_signal(key);
        proof {
            lemma_wf_update_data(pre, *self, d as int);
        }
        match r {
            SemaphoreResult::Done => {
                context.set_rax(0);
            },
            SemaphoreResult::NotExist => {
                context.set_rax(usize::MAX);
                proof {
                    assert(self.datas@ =~= pre.datas@);
                }
            },
            SemaphoreResult::WakeUp(wpid) => {
                let ghost mid = *self;
                self.wake_up(wpid, Some(0));
                context.set_rax(0);
                proof {
                    let cpid = old(self).current_pid();
                    if old(self).has_proc(cpid) {
                        if old(self).proc_of(cpid).proc_data is Some {
                            let dd = old(self).proc_of(cpid).proc_data.unwrap() as int;
                            let sems = old(self).datas@[dd].semaphores;
                            if sems.spec_contains(key) && sems.sem_of(key).count == 0
                                && sems.sem_of(key).waiters@.len() > 0 {
                                let woken = sems.sem_of(key).waiters@[0];
                                if old(self).has_proc(woken.0) && old(self).proc_of(
                                    woken.0,
                                ).status != ProgramStatus::Dead {
                                    let wo = old(self).idx_of(woken.0);
                                    assert(old(self).processes@[wo].pid.0 == woken.0);
                                    assert(mid.processes@[wo].pid.0 == woken.0);
                                    lemma_proc_index_unique(mid, woken.0, wo);
                                    lemma_proc_index_unique(*self, woken.0, wo);
                                    assert(self.ready_queue@[mid.ready_queue@.len() as int]
                                        == woken);
                                }
                            }
                        }
                    }
                }
            },
            SemaphoreResult::Block => {
                proof {
                    assert(false);
                }
            },
        }
    }
}

/// The rendering of a process's lifecycle state.
pub open spec fn spec_status_word(s: ProgramStatus) -> Seq<char> {
    match s {
        ProgramStatus::Running => "Running"@,
        ProgramStatus::Ready => "Ready"@,
        ProgramStatus::Blocked => "Blocked"@,
        ProgramStatus::Dead => "Dead"@,
    }
}

/// The parent column: the parent's pid, 0 for the parentless.
pub open spec fn spec_parent_part(p: Option<ProcessId>) -> Seq<char> {
    match p {
        Some(pp) => crate::fmt::spec_decimal(pp.0 as u64),
        None => "0"@,
    }
}

/// The memory column: the stack bytes, a dash once the space is gone.
pub open spec fn spec_mem_part(vm: Option<ProcessVm>) -> Seq<char> {
    match vm {
        Some(v) => crate::fmt::spec_decimal((v.stack.usage * crate::memory::PAGE_SIZE) as u64),
        None => "-"@,
    }
}

/// One listing row: pid, parent, name, ticks, stack bytes, state.
pub open spec fn spec_proc_row(p: Process) -> Seq<char> {
    "  "@ + crate::fmt::spec_decimal(p.pid.0 as u64) + " | "@ + spec_parent_part(p.parent)
        + " | "@ + p.name@ + " | "@ + crate::fmt::spec_decimal(p.ticks_passed) + " | "@
        + spec_mem_part(p.proc_vm) + " | "@ + spec_status_word(p.status) + "\n"@
}

/// The rows of the first `n` processes, dead ones filtered out.
pub open spec fn spec_proc_rows(s: Seq<Process>, n: int) -> Seq<char>
    decreases n,
{
    if n <= 0 {
        Seq::empty()
    } else {
        spec_proc_rows(s, n - 1) + (if s[n - 1].status == ProgramStatus::Dead {
            Seq::empty()
        } else {
            spec_proc_row(s[n - 1])
        })
    }
}

/// The ready queue's first `n` pids, space-separated.
pub open spec fn spec_queue_part(q: Seq<ProcessId>, n: int) -> Seq<char>
    decreases n,
{
    if n <= 0 {
        Seq::empty()
    } else {
        spec_queue_part(q, n - 1) + crate::fmt::spec_decimal(q[n - 1].0 as u64) + " "@
    }
}

/// The whole diagnostic listing: the header, one row per non-dead process in
/// table order, the frame summary, the ready queue, and the core report.
pub open spec fn spec_process_report(m: ProcessManager) -> Seq<char> {
    "  PID | PPID | Process Name |  Ticks  |   Memory  | Status\n"@ + spec_proc_rows(
        m.processes@,
        m.processes@.len() as int,
    ) + "Memory : "@ + crate::fmt::spec_decimal(m.memory.spec_frames_live()) + " / "@
        + crate::fmt::spec_decimal(m.memory.frames_total) + " frames\n"@ + "Queue  : "@
        + spec_queue_part(m.ready_queue@, m.ready_queue@.len() as int) + "\n"@
        + crate::processor::spec_processors_report(m.processors.cpus@)
}

impl ProcessManager {
    /// The loadable user programs the boot stage handed over.
    pub fn list_app(&self) -> (r: &Vec<App>)
        ensures
            r == &self.apps,
    {
        &self.apps
    }

    /// One listing row for `p`; see [`spec_proc_row`].
    fn row_of(p: &Process) -> (r: String)
        requires
            p.proc_vm matches Some(v) ==> v.stack.wf(),
        ensures
            r@ == spec_proc_row(*p),
    {
        let mut out = String::new();
        out.append("  ");
        let pid_s = u64_to_string(p.pid.0 as u64);
        out.append(pid_s.as_str());
        out.append(" | ");
        match p.parent {
            Some(pp) => {
                let pp_s = u64_to_string(pp.0 as u64);
                out.append(pp_s.as_str());
            },
            None => {
                out.append("0");
            },
        }
        out.append(" | ");
        out.append(p.name.as_str());
        out.append(" | ");
        let ticks_s = u64_to_string(p.ticks_passed);
        out.append(ticks_s.as_str());
        out.append(" | ");
        match &p.proc_vm {
            Some(vm) => {
                let mem_s = u64_to_string(vm.memory_usage());
                out.append(mem_s.as_str());
            },
            None => {
                out.append("-");
            },
        }
        out.append(" | ");
        match p.status {
            ProgramStatus::Running => out.append("Running"),
            ProgramStatus::Ready => out.append("Ready"),
            ProgramStatus::Blocked => out.append("Blocked"),
            ProgramStatus::Dead => out.append("Dead"),
        }
        out.append("\n");
        proof {
            assert(out@ =~= spec_proc_row(*p));
        }
        out
    }

    /// The diagnostic process listing: one line per non-dead process with
    /// pid, parent, name, ticks, stack bytes and status, then the memory
    /// and core summaries; see [`spec_process_report`] for the exact shape.
    #[verifier::rlimit(100)]
    pub fn list_process(&self) -> (r: String)
        requires
            self.wf(),
        ensures
            r@ == spec_process_report(*self),
    {
        let ghost header = "  PID | PPID | Process Name |  Ticks  |   Memory  | Status\n"@;
        let mut out = String::new();
        out.append("  PID | PPID | Process Name |  Ticks  |   Memory  | Status\n");
        let n = self.processes.len();
        let mut i: usize = 0;
        while i < n
            invariant
                self.wf(),
                n == self.processes@.len(),
                i <= n,
                header == "  PID | PPID | Process Name |  Ticks  |   Memory  | Status\n"@,
                out@ == header + spec_proc_rows(self.processes@, i as int),
            decreases n - i,
        {
            let p = &self.processes[i];
            if !p.is_dead() {
                let row = Self::row_of(p);
                out.append(row.as_str());
                proof {
                    assert(out@ =~= header + (spec_proc_rows(self.processes@, i as int)
                        + spec_proc_row(self.processes@[i as int])));
                    assert(out@ =~= header + spec_proc_rows(self.processes@, i + 1 as int));
                }
            } else {
                proof {
                    assert(spec_proc_rows(self.processes@, i + 1 as int) =~= spec_proc_rows(
                        self.processes@,
                        i as int,
                    ));
                }
            }
            i += 1;
        }
        out.append("Memory : ");
        let used_s = u64_to_string(self.memory.frames_live());
        out.append(used_s.as_str());
        out.append(" / ");
        let total_s = u64_to_string(self.memory.frames_total);
        out.append(total_s.as_str());
        out.append(" frames\n");
        out.append("Queue  : ");
        let ghost mid = out@;
        let qn = self.ready_queue.len();
        let mut qi: usize = 0;
        while qi < qn
            invariant
                self.wf(),
                qn == self.ready_queue@.len(),
                qi <= qn,
                out@ == mid + spec_queue_part(self.ready_queue@, qi as int),
            decreases qn - qi,
        {
            let q_s = u64_to_string(self.ready_queue[qi].0 as u64);
            out.append(q_s.as_str());
            out.append(" ");
            proof {
                assert(out@ =~= mid + spec_queue_part(self.ready_queue@, qi + 1 as int));
            }
            qi += 1;
        }
        out.append("\n");
        let cpus = crate::processor::print_processors(&self.processors);
        out.append(cpus.as_str());
        proof {
            assert(out@ =~= spec_process_report(*self));
        }
        out
    }
}

impl ProcessManager {
    /// Spawns the loadable program named `name` from the boot-time list,
    /// with the current process as parent; `None` when no program carries
    /// that name or the spawn itself fails.
    pub fn spawn_by_name(&mut self, name: &String) -> (r: Option<ProcessId>)
        requires
            old(self).wf(),
        ensures
            final(self).wf(),
            app_lookup(old(self).apps@, name@) < old(self).apps@.len() && old(
                self,
            ).spec_spawn_ready(
                old(self).apps@[app_lookup(old(self).apps@, name@)].elf.segments@,
            ) ==> r is Some,
            app_lookup(old(self).apps@, name@) == old(self).apps@.len() ==> r is None,
            r matches Some(pid) ==> final(self).processes@.len() == old(self).processes@.len() + 1
                && pid.0 == old(self).next_pid && final(self).ready_queue@ == old(
                self,
            ).ready_queue@.push(pid) && final(self).processes@[old(self).processes@.len() as int].name
                == old(self).apps@[app_lookup(old(self).apps@, name@)].name,
            r is None ==> final(self).processes@ == old(self).processes@,
    {
        let n = self.apps.len();
        let mut i: usize = 0;
        let mut found: Option<usize> = None;
        while i < n
            invariant
                n == self.apps@.len(),
                i <= n,
                self.wf(),
                *self == *old(self),
                match found {
                    Some(k) => k < n && self.apps@[k as int].name@ == name@ && forall|j: int|
                        0 <= j < k ==> self.apps@[j].name@ != name@,
                    None => forall|j: int| 0 <= j < i ==> self.apps@[j].name@ != name@,
                },
            decreases n - i,
        {
            if found.is_none() && self.apps[i].name == *name {
                proof {
                    assert(self.apps@[i as int].name@ == name@);
                }
                found = Some(i);
            }
            i += 1;
        }
        let k = match found {
            Some(k) => k,
            None => {
                proof {
                    lemma_app_none(old(self).apps@, name@);
                }
                return None;
            },
        };
        proof {
            lemma_app_first(old(self).apps@, name@, k as int);
        }
        let parent = ProcessId(self.sys_get_pid());
        let seg_count = self.apps[k].elf.segments.len();
        let mut segments: Vec<PageRange> = Vec::new();
        let mut j: usize = 0;
        while j < seg_count
            invariant
                self.wf(),
                *self == *old(self),
                k < self.apps@.len(),
                seg_count == self.apps@[k as int].elf.segments@.len(),
                j <= seg_count,
                segments@ =~= self.apps@[k as int].elf.segments@.take(j as int),
            decreases seg_count - j,
        {
            segments.push(self.apps[k].elf.segments[j]);
            proof {
                assert(segments@ =~= self.apps@[k as int].elf.segments@.take(j + 1 as int));
            }
            j += 1;
        }
        proof {
            assert(segments@ =~= self.apps@[k as int].elf.segments@);
        }
        let elf = ElfImage { entry: self.apps[k].elf.entry, segments };
        let child_name = self.apps[k].name.clone();
        self.spawn(&elf, child_name, Some(parent), None)
    }
}

/// Wait-queue soundness (unique, live targets) carries over to a state with
/// the same wait queue whose processes kept their pids and — except possibly
/// one process no wait entry targets — their dead-ness.
pub proof fn lemma_waitq_clauses_preserved(pre: ProcessManager, post: ProcessManager, except: int)
    requires
        forall|k1: int, k2: int|
            0 <= k1 < k2 < pre.wait_queue@.len() ==> pre.wait_queue@[k1].target.0
                != pre.wait_queue@[k2].target.0,
        forall|k: int|
            0 <= k < pre.wait_queue@.len() ==> pre.has_proc(
                (#[trigger] pre.wait_queue@[k]).target.0,
            ) && pre.proc_of(pre.wait_queue@[k].target.0).status != ProgramStatus::Dead,
        forall|a: int, b: int|
            0 <= a < b < pre.processes@.len() ==> pre.processes@[a].pid.0
                != pre.processes@[b].pid.0,
        forall|a: int, b: int|
            0 <= a < b < post.processes@.len() ==> post.processes@[a].pid.0
                != post.processes@[b].pid.0,
        post.wait_queue == pre.wait_queue,
        post.processes@.len() >= pre.processes@.len(),
        forall|x: int|
            0 <= x < pre.processes@.len() ==> (#[trigger] post.processes@[x]).pid
                == pre.processes@[x].pid,
        forall|x: int|
            0 <= x < pre.processes@.len() && x != except ==> (((#[trigger] post.processes@[x]).status
                == ProgramStatus::Dead) == (pre.processes@[x].status == ProgramStatus::Dead)),
        0 <= except < pre.processes@.len() ==> forall|k: int|
            0 <= k < pre.wait_queue@.len() ==> (#[trigger] pre.wait_queue@[k]).target.0
                != pre.processes@[except].pid.0,
    ensures
        forall|k1: int, k2: int|
            0 <= k1 < k2 < post.wait_queue@.len() ==> post.wait_queue@[k1].target.0
                != post.wait_queue@[k2].target.0,
        forall|k: int|
            0 <= k < post.wait_queue@.len() ==> post.has_proc(
                (#[trigger] post.wait_queue@[k]).target.0,
            ) && post.proc_of(post.wait_queue@[k].target.0).status != ProgramStatus::Dead,
{
    assert forall|k: int| 0 <= k < post.wait_queue@.len() implies post.has_proc(
        (#[trigger] post.wait_queue@[k]).target.0,
    ) && post.proc_of(post.wait_queue@[k].target.0).status != ProgramStatus::Dead by {
        let tpid = pre.wait_queue@[k].target.0;
        assert(pre.has_proc(tpid));
        let w = pre.idx_of(tpid);
        assert(pre.processes@[w].pid.0 == tpid);
        assert(post.processes@[w].pid.0 == tpid);
        assert(w != except) by {
            if 0 <= except < pre.processes@.len() {
                assert(pre.wait_queue@[k].target.0 != pre.processes@[except].pid.0);
            }
        }
        lemma_proc_index_unique(post, tpid, w);
    }
}

/// In a table with unique pids, the slot carrying a pid is the one `idx_of`
/// picks.
pub proof fn lemma_proc_index_unique(m: ProcessManager, pid: u16, i: int)
    requires
        forall|a: int, b: int|
            0 <= a < b < m.processes@.len() ==> m.processes@[a].pid.0 != m.processes@[b].pid.0,
        0 <= i < m.processes@.len(),
        m.processes@[i].pid.0 == pid,
    ensures
        m.has_proc(pid),
        m.idx_of(pid) == i,
{
    assert(m.has_proc(pid));
    let w = m.idx_of(pid);
    assert(m.processes@[w].pid.0 == pid);
    if w != i {
        if w < i {
            assert(m.processes@[w].pid.0 != m.processes@[i].pid.0);
        } else {
            assert(m.processes@[i].pid.0 != m.processes@[w].pid.0);
        }
    }
}

} // verus!
