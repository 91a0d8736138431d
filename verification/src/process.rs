//! The process object: identity, lifecycle state, saved context, owned
//! address space, and the family links. The manager owns every process;
//! parent and children point at each other by id and re-validate liveness
//! through the process table on every use.

use crate::context::ProcessContext;
use crate::memory::Memory;
use crate::pid::ProcessId;
use crate::vm::ProcessVm;
use vstd::prelude::*;

verus! {

/// Lifecycle state of a process. `Dead` is terminal.
#[derive(Clone, Copy, PartialEq, Eq, Structural, Debug)]
pub enum ProgramStatus {
    /// Occupying a core.
    Running,
    /// Runnable, awaiting a core.
    Ready,
    /// Waiting on a semaphore or another process's exit.
    Blocked,
    /// Killed; only the exit code remains.
    Dead,
}

/// One process.
pub struct Process {
    /// Its identifier, unique for the kernel's lifetime.
    pub pid: ProcessId,
    /// Its name, for the diagnostic listing.
    pub name: String,
    /// The parent's id; re-validated through the table on use.
    pub parent: Option<ProcessId>,
    /// Ids of the children it forked.
    pub children: Vec<ProcessId>,
    /// Scheduler ticks it has consumed.
    pub ticks_passed: u64,
    /// Lifecycle state.
    pub status: ProgramStatus,
    /// Saved registers and trap frame.
    pub context: ProcessContext,
    /// The code it exited with, once dead.
    pub exit_code: Option<isize>,
    /// Its address space; taken when it is killed.
    pub proc_vm: Option<ProcessVm>,
    /// Index of its shared resources in the manager's pool; taken when it is
    /// killed.
    pub proc_data: Option<usize>,
}

impl Process {
    /// A fresh process in the `Ready` state with a blank context.
    pub fn new(
        pid: ProcessId,
        name: String,
        parent: Option<ProcessId>,
        proc_vm: Option<ProcessVm>,
        proc_data: Option<usize>,
    ) -> (p: Process)
        ensures
            p.pid == pid,
            p.name == name,
            p.parent == parent,
            p.children@.len() == 0,
            p.ticks_passed == 0,
            p.status == ProgramStatus::Ready,
            p.context == ProcessContext::blank(),
            p.exit_code is None,
            p.proc_vm == proc_vm,
            p.proc_data == proc_data,
    {
        let context = ProcessContext::blank();
        proof {
            assert(context == ProcessContext::blank());
        }
        Process {
            pid,
            name,
            parent,
            children: Vec::new(),
            ticks_passed: 0,
            status: ProgramStatus::Ready,
            context,
            exit_code: None,
            proc_vm,
            proc_data,
        }
    }

    /// This process's id.
    pub fn pid(&self) -> (r: ProcessId)
        ensures
            r == self.pid,
    {
        self.pid
    }

    /// Counts one consumed scheduler tick (the counter saturates rather
    /// than wrap).
    pub fn tick(&mut self)
        ensures
            *final(self) == (Process {
                ticks_passed: if old(self).ticks_passed < u64::MAX {
                    (old(self).ticks_passed + 1) as u64
                } else {
                    old(self).ticks_passed
                },
                ..*old(self)
            }),
    {
        if self.ticks_passed < u64::MAX {
            self.ticks_passed = self.ticks_passed + 1;
        }
    }

    /// Lifecycle state.
    pub fn status(&self) -> (r: ProgramStatus)
        ensures
            r == self.status,
    {
        self.status
    }

    /// Marks the process runnable.
    pub fn pause(&mut self)
        ensures
            *final(self) == (Process { status: ProgramStatus::Ready, ..*old(self) }),
    {
        self.status = ProgramStatus::Ready;
    }

    /// Marks the process as occupying a core.
    pub fn resume(&mut self)
        ensures
            *final(self) == (Process { status: ProgramStatus::Running, ..*old(self) }),
    {
        self.status = ProgramStatus::Running;
    }

    /// Marks the process blocked.
    pub fn block(&mut self)
        ensures
            *final(self) == (Process { status: ProgramStatus::Blocked, ..*old(self) }),
    {
        self.status = ProgramStatus::Blocked;
    }

    /// Whether the process is runnable.
    pub fn is_ready(&self) -> (r: bool)
        ensures
            r == (self.status == ProgramStatus::Ready),
    {
        self.status == ProgramStatus::Ready
    }

    /// Whether the process is dead.
    pub fn is_dead(&self) -> (r: bool)
        ensures
            r == (self.status == ProgramStatus::Dead),
    {
        self.status == ProgramStatus::Dead
    }

    /// The code the process exited with, once dead.
    pub fn exit_code(&self) -> (r: Option<isize>)
        ensures
            r == self.exit_code,
    {
        self.exit_code
    }

    /// Writes the saved syscall return slot.
    pub fn set_rax(&mut self, ret: usize)
        ensures
            *final(self) == (Process {
                context: ProcessContext { rax: ret as u64, ..old(self).context },
                ..*old(self)
            }),
    {
        self.context.set_rax(ret);
    }

    /// Saves `context` into the process and marks it ready; a no-op on a
    /// dead process, whose freed state must not be resurrected.
    pub fn save(&mut self, context: &ProcessContext)
        ensures
            old(self).status == ProgramStatus::Dead ==> *final(self) == *old(self),
            old(self).status != ProgramStatus::Dead ==> *final(self) == (Process {
                context: *context,
                status: ProgramStatus::Ready,
                ..*old(self)
            }),
    {
        if self.is_dead() {
            return ;
        }
        self.context.save(context);
        self.pause();
    }

    /// Restores the process's saved context into `context`, loads its
    /// address space on the CPU — the one place a page-table switch occurs —
    /// and marks it running.
    pub fn restore(&mut self, mem: &mut Memory, context: &mut ProcessContext)
        requires
            old(mem).wf(),
            old(self).proc_vm matches Some(vm) && vm.page_table < old(mem).table_count(),
        ensures
            *final(context) == old(self).context,
            *final(self) == (Process { status: ProgramStatus::Running, ..*old(self) }),
            final(mem).wf(),
            final(mem).tables == old(mem).tables,
            final(mem).frames_total == old(mem).frames_total,
            final(mem).frames_free == old(mem).frames_free,
            final(mem).active == old(self).proc_vm.unwrap().page_table,
    {
        self.context.restore(context);
        let t = match &self.proc_vm {
            Some(vm) => vm.page_table,
            None => {
                proof {
                    assert(false);
                }
                0
            },
        };
        mem.load_table(t);
        self.resume();
    }

    /// Points the saved context at a fresh program: entry point, stack top,
    /// interrupts enabled, fresh selectors.
    pub fn init_stack_frame(&mut self, entry: u64, stack_top: u64)
        ensures
            *final(self) == (Process {
                context: ProcessContext {
                    rax: old(self).context.rax,
                    rip: entry,
                    rsp: stack_top,
                    rflags: crate::context::RFLAGS_DEFAULT,
                    cs: crate::context::SELECTOR_CODE,
                    ss: crate::context::SELECTOR_DATA,
                },
                ..*old(self)
            }),
    {
        self.context.init_stack_frame(entry, stack_top);
    }

    /// Handles a page fault at `addr` against this process's stack.
    pub fn handle_page_fault(&mut self, mem: &mut Memory, addr: u64) -> (r: bool)
        requires
            old(mem).wf(),
            old(self).proc_vm matches Some(vm) && vm.wf(*old(mem)),
        ensures
            final(mem).wf(),
            final(mem).table_count() == old(mem).table_count(),
            final(mem).active == old(mem).active,
            final(self).proc_vm is Some,
            final(self).proc_vm.unwrap().wf(*final(mem)),
            final(self).proc_vm.unwrap().page_table == old(self).proc_vm.unwrap().page_table,
            final(self).proc_vm.unwrap().code == old(self).proc_vm.unwrap().code,
            final(self).proc_vm.unwrap().stack.usage >= old(self).proc_vm.unwrap().stack.usage,
            *final(self) == (Process { proc_vm: final(self).proc_vm, ..*old(self) }),
            !r ==> *final(self) == *old(self) && *final(mem) == *old(mem),
            forall|u: int|
                0 <= u < final(mem).table_count() && u != old(self).proc_vm.unwrap().page_table
                    ==> final(mem).tables@[u] == old(mem).tables@[u],
            final(mem).tables@[old(self).proc_vm.unwrap().page_table as int].refs == old(mem).tables@[old(self).proc_vm.unwrap().page_table as int].refs,
            final(mem).tables@[old(self).proc_vm.unwrap().page_table as int].heap_end == old(mem).tables@[old(self).proc_vm.unwrap().page_table as int].heap_end,
            r ==> forall|p: u64|
                !(crate::memory::page_of(addr) <= p < old(self).proc_vm.unwrap().stack.start) ==> (
                final(mem).is_mapped(old(self).proc_vm.unwrap().page_table as int, p) == old(mem).is_mapped(old(self).proc_vm.unwrap().page_table as int, p) && (old(mem).is_mapped(old(self).proc_vm.unwrap().page_table as int, p) ==> final(mem).page_at(old(self).proc_vm.unwrap().page_table as int, p) == old(mem).page_at(
                    old(self).proc_vm.unwrap().page_table as int,
                    p,
                ))),
            r ==> forall|p: u64|
                crate::memory::page_of(addr) <= p < old(self).proc_vm.unwrap().stack.start
                    ==> crate::memory::spec_region_of_page(p) == old(self).proc_vm.unwrap().stack.region(),
    {
        let vm_taken = self.proc_vm.take();
        match vm_taken {
            Some(mut vm) => {
                let r = vm.handle_page_fault(mem, addr);
                self.proc_vm = Some(vm);
                r
            },
            None => {
                proof {
                    assert(false);
                }
                false
            },
        }
    }

    /// Kills the process: records the exit code, marks it dead, tears its
    /// address space down, and drops its resource handle. The exit code
    /// alone remains readable.
    pub fn kill(&mut self, mem: &mut Memory, ret: isize)
        requires
            old(mem).wf(),
            old(self).proc_vm matches Some(vm) && vm.wf(*old(mem)),
        ensures
            final(mem).wf(),
            final(mem).table_count() == old(mem).table_count(),
            final(mem).active == old(mem).active,
            final(mem).frames_total == old(mem).frames_total,
            *final(self) == (Process {
                status: ProgramStatus::Dead,
                exit_code: Some(ret),
                proc_vm: None,
                proc_data: None,
                ..*old(self)
            }),
            forall|u: int|
                0 <= u < final(mem).table_count() && u != old(self).proc_vm.unwrap().page_table
                    ==> final(mem).tables@[u] == old(mem).tables@[u],
            final(mem).tables@[old(self).proc_vm.unwrap().page_table as int].refs == old(mem).tables@[old(self).proc_vm.unwrap().page_table as int].refs - 1,
            forall|p: u64|
                old(self).proc_vm.unwrap().stack.start <= p < old(self).proc_vm.unwrap().stack.end
                    ==> !final(mem).is_mapped(old(self).proc_vm.unwrap().page_table as int, p),
            old(mem).tables@[old(self).proc_vm.unwrap().page_table as int].refs > 1 ==> {
                &&& final(mem).tables@[old(self).proc_vm.unwrap().page_table as int].heap_end
                    == old(mem).tables@[old(self).proc_vm.unwrap().page_table as int].heap_end
                &&& forall|p: u64|
                    !(old(self).proc_vm.unwrap().stack.start <= p < old(self).proc_vm.unwrap().stack.end) ==> (final(mem).is_mapped(
                        old(self).proc_vm.unwrap().page_table as int,
                        p,
                    ) == old(mem).is_mapped(old(self).proc_vm.unwrap().page_table as int, p) && (
                    old(mem).is_mapped(old(self).proc_vm.unwrap().page_table as int, p) ==> final(mem).page_at(old(self).proc_vm.unwrap().page_table as int, p) == old(mem).page_at(
                        old(self).proc_vm.unwrap().page_table as int,
                        p,
                    )))
            },
            old(mem).tables@[old(self).proc_vm.unwrap().page_table as int].refs == 1 ==> {
                &&& final(mem).tables@[old(self).proc_vm.unwrap().page_table as int].heap_end
                    == crate::memory::HEAP_START
                &&& crate::heap::heap_wf(
                    *final(mem),
                    old(self).proc_vm.unwrap().page_table as int,
                )
            },
    {
        let vm_taken = self.proc_vm.take();
        match vm_taken {
            Some(vm) => {
                vm.clean_up(mem);
            },
            None => {
                proof {
                    assert(false);
                }
            },
        }
        self.exit_code = Some(ret);
        self.status = ProgramStatus::Dead;
        self.proc_data = None;
    }
}

} // verus!
