//! A process's address space: its page-table handle, its stack, its heap
//! bookkeeping, and — for a process that loaded code itself — the record of
//! the code pages it occupies.
//!
//! The page table is shared by a parent and its forked children through the
//! table's reference count; the stack is per-process; the heap end travels
//! with the shared table.

use crate::heap;
use crate::heap::heap_wf;
use crate::memory::{
    page_of, spec_page_of, spec_region_of_page, MapError, Memory, PageInfo, HEAP_START,
    KSTACK_DEF_PAGE, MAX_PAGE, PAGE_SIZE, STACK_DEF_PAGE, STACK_INIT_TOP, STACK_MAX_PAGES,
};
use crate::pid::ProcessId;
use crate::stack::{Stack, STACK_REGION_MIN};
use vstd::prelude::*;

verus! {

/// Highest pid whose stack area still lies above the heap; spawning beyond
/// it is refused rather than letting stack areas collide with the heap.
pub const MAX_STACK_PID: u16 = 0x1fff;

/// A run of pages holding loaded code.
#[derive(Clone, Copy, PartialEq, Eq, Structural, Debug)]
pub struct PageRange {
    /// First page of the run.
    pub start: u64,
    /// Pages in the run.
    pub count: u64,
}

/// A loadable program image, already parsed: its entry point and the page
/// runs its segments occupy. Parsing the container format is a collaborator's
/// concern; this core maps the segments and builds the process around them.
pub struct ElfImage {
    /// Address execution starts at.
    pub entry: u64,
    /// Page runs to map for the program, all below the heap area.
    pub segments: Vec<PageRange>,
}

/// Whether `p` lies in one of the first `n` segments.
pub open spec fn in_segments(segs: Seq<PageRange>, n: int, p: u64) -> bool {
    exists|j: int| 0 <= j < n && (#[trigger] segs[j]).start <= p < segs[j].start + segs[j].count
}

/// Pages the segments ask for, in total.
pub open spec fn segments_pages(segs: Seq<PageRange>) -> int
    decreases segs.len(),
{
    if segs.len() == 0 {
        0
    } else {
        segments_pages(segs.drop_last()) + segs.last().count
    }
}

/// The bottom page of the stack area reserved for `pid`.
pub open spec fn spec_stack_bot_page(pid: u16) -> u64 {
    (spec_page_of(crate::memory::STACK_INIT_TOP) - (pid - 1) * STACK_MAX_PAGES) as u64
}

/// A program image the loader is sure to place: segments sound, and the
/// frame allocator can back them all.
pub open spec fn spec_elf_loadable(segs: Seq<PageRange>, frames_free: u64) -> bool {
    &&& segments_wf(segs)
    &&& segments_pages(segs) <= frames_free as int
    &&& segments_pages(segs) <= u64::MAX as int / PAGE_SIZE as int
}

/// Every segment lies below the heap area and no two overlap.
pub open spec fn segments_wf(segs: Seq<PageRange>) -> bool {
    &&& forall|i: int|
        0 <= i < segs.len() ==> (#[trigger] segs[i]).start + segs[i].count <= spec_page_of(
            HEAP_START,
        )
    &&& forall|i: int, j: int|
        0 <= i < segs.len() && 0 <= j < segs.len() && i != j ==> ((#[trigger] segs[i]).start
            + segs[i].count <= (#[trigger] segs[j]).start || segs[j].start + segs[j].count
            <= segs[i].start)
}

/// A process's address space.
pub struct ProcessVm {
    /// Index of the top-level table this process runs on.
    pub page_table: usize,
    /// The process's stack.
    pub stack: Stack,
    /// Code page runs this process mapped for itself; empty for forked
    /// children, which run their parent's code.
    pub code: Vec<PageRange>,
    /// Bytes the recorded code runs span.
    pub code_usage: u64,
}

impl ProcessVm {
    /// The address space is sound against the machine: the table exists and
    /// is held, the stack's pages are mapped, the heap bookkeeping is exact,
    /// and the recorded code runs are mapped, disjoint, and below the heap.
    pub open spec fn wf(self, mem: Memory) -> bool {
        &&& self.page_table < mem.table_count()
        &&& mem.tables@[self.page_table as int].refs >= 1
        &&& self.stack.wf()
        &&& self.stack.usage > 0
        &&& self.stack.mapped_in(mem, self.page_table as int)
        &&& heap_wf(mem, self.page_table as int)
        &&& segments_wf(self.code@)
        &&& forall|i: int, p: u64|
            #![trigger self.code@[i], mem.is_mapped(self.page_table as int, p)]
            0 <= i < self.code@.len() && self.code@[i].start <= p < self.code@[i].start
                + self.code@[i].count ==> mem.is_mapped(self.page_table as int, p)
    }

    /// A fresh address space on table `page_table`, with an empty stack
    /// record and no code.
    pub fn new(page_table: usize) -> (vm: ProcessVm)
        ensures
            vm.page_table == page_table,
            vm.stack.usage == 0,
            vm.stack.wf(),
            vm.code@.len() == 0,
            vm.code_usage == 0,
    {
        ProcessVm { page_table, stack: Stack::empty(), code: Vec::new(), code_usage: 0 }
    }

    /// Builds the kernel's address space: maps the kernel stack into the
    /// kernel's table and records the kernel code runs for accounting.
    /// Fails only when the frame allocator cannot back the kernel stack.
    pub fn init_kernel_vm(self, mem: &mut Memory, kernel_pages: &Vec<PageRange>) -> (r: Option<
        ProcessVm,
    >)
        requires
            old(mem).wf(),
            self.page_table < old(mem).table_count(),
            old(mem).tables@[self.page_table as int].refs >= 1,
            old(mem).table_pages(self.page_table as int) =~= Map::<u64, PageInfo>::empty(),
            old(mem).tables@[self.page_table as int].heap_end == HEAP_START,
        ensures
            final(mem).wf(),
            final(mem).table_count() == old(mem).table_count(),
            final(mem).active == old(mem).active,
            KSTACK_DEF_PAGE <= old(mem).frames_free ==> r is Some,
            r is None ==> *final(mem) == *old(mem),
            r matches Some(vm) ==> {
                &&& vm.page_table == self.page_table
                &&& vm.wf(*final(mem))
                &&& vm.stack.usage == KSTACK_DEF_PAGE
                &&& vm.code@.len() == 0
                &&& final(mem).tables@[self.page_table as int].refs == old(mem).tables@[self.page_table as int].refs
                &&& final(mem).tables@[self.page_table as int].heap_end == old(mem).tables@[self.page_table as int].heap_end
                &&& final(mem).frames_total == old(mem).frames_total
                &&& forall|u: int|
                    0 <= u < final(mem).table_count() && u != self.page_table ==> final(mem).tables@[u] == old(mem).tables@[u]
            },
    {
        let kstack = Stack::kstack();
        proof {
            assert forall|p: u64|
                kstack.start <= p < kstack.start + KSTACK_DEF_PAGE implies !old(mem).is_mapped(
                self.page_table as int,
                p,
            ) by {
                assert(old(mem).table_pages(self.page_table as int) =~= Map::<
                    u64,
                    PageInfo,
                >::empty());
            }
        }
        match mem.map_range(self.page_table, kstack.start, KSTACK_DEF_PAGE, false) {
            Ok(()) => {
                let mut usage: u64 = 0;
                let n = kernel_pages.len();
                let mut i: usize = 0;
                while i < n
                    invariant
                        n == kernel_pages@.len(),
                        i <= n,
                    decreases n - i,
                {
                    let c = kernel_pages[i].count;
                    if c < MAX_PAGE && usage <= u64::MAX - c * PAGE_SIZE && c * PAGE_SIZE
                        <= u64::MAX - usage {
                        proof {
                            assert(c * PAGE_SIZE <= MAX_PAGE * PAGE_SIZE) by (nonlinear_arith)
                                requires
                                    c < MAX_PAGE,
                            ;
                        }
                        usage = usage + c * PAGE_SIZE;
                    }
                    i += 1;
                }
                let vm = ProcessVm {
                    page_table: self.page_table,
                    stack: kstack,
                    code: Vec::new(),
                    code_usage: usage,
                };
                proof {
                    let t = self.page_table as int;
                    assert forall|p: u64| vm.stack.start <= p < vm.stack.end implies mem.is_mapped(
                        t,
                        p,
                    ) by {
                        assert(kstack.start <= p < kstack.start + KSTACK_DEF_PAGE);
                    }
                    assert forall|p: u64|
                        spec_page_of(HEAP_START) <= p < spec_page_of(HEAP_START)
                            + crate::memory::HEAP_PAGES implies !mem.is_mapped(t, p) by {
                        assert(!old(mem).is_mapped(t, p));
                        assert(!(kstack.start <= p < kstack.start + KSTACK_DEF_PAGE));
                    }
                }
                Some(vm)
            },
            Err(e) => {
                proof {
                    assert(!(KSTACK_DEF_PAGE <= old(mem).frames_free)) by {
                        if KSTACK_DEF_PAGE <= old(mem).frames_free {
                            assert(e != MapError::FrameAllocationFailed);
                            assert(e != MapError::PageAlreadyMapped);
                        }
                    }
                }
                None
            },
        }
    }

    /// Maps the initial one-page stack for the process `pid`, in the stack
    /// area reserved for that pid, and records it. Returns the stack top
    /// address the fresh context starts with. Fails when the pid is beyond
    /// the last stack area above the heap, when no frame is free, or when
    /// the page is already taken.
    pub fn init_proc_stack(&mut self, mem: &mut Memory, pid: ProcessId) -> (r: Option<u64>)
        requires
            old(mem).wf(),
            old(self).page_table < old(mem).table_count(),
        ensures
            final(mem).wf(),
            final(mem).table_count() == old(mem).table_count(),
            final(mem).active == old(mem).active,
            final(self).page_table == old(self).page_table,
            final(self).code == old(self).code,
            final(self).code_usage == old(self).code_usage,
            1 <= pid.0 <= MAX_STACK_PID && STACK_DEF_PAGE <= old(mem).frames_free && !old(
                mem,
            ).is_mapped(old(self).page_table as int, spec_stack_bot_page(pid.0)) ==> r is Some,
            r is None ==> *final(self) == *old(self) && *final(mem) == *old(mem),
            r matches Some(top) ==> {
                &&& final(self).stack.wf()
                &&& final(self).stack.usage == STACK_DEF_PAGE
                &&& final(self).stack.mapped_in(*final(mem), old(self).page_table as int)
                &&& top == STACK_INIT_TOP - crate::memory::STACK_MAX_SIZE * ((pid.0 - 1) as u64)
                &&& page_of(top) == final(self).stack.start
                &&& 1 <= pid.0 <= MAX_STACK_PID
                &&& !old(mem).is_mapped(old(self).page_table as int, final(self).stack.start)
                &&& forall|p: u64|
                    p != final(self).stack.start ==> (final(mem).is_mapped(
                        old(self).page_table as int,
                        p,
                    ) == old(mem).is_mapped(old(self).page_table as int, p) && (old(mem).is_mapped(
                        old(self).page_table as int,
                        p,
                    ) ==> final(mem).page_at(old(self).page_table as int, p) == old(mem).page_at(
                        old(self).page_table as int,
                        p,
                    )))
                &&& forall|u: int|
                    0 <= u < final(mem).table_count() && u != old(self).page_table ==> final(mem).tables@[u] == old(mem).tables@[u]
                &&& final(mem).tables@[old(self).page_table as int].refs == old(mem).tables@[old(self).page_table as int].refs
                &&& final(mem).tables@[old(self).page_table as int].heap_end == old(mem).tables@[old(self).page_table as int].heap_end
                &&& spec_region_of_page(final(self).stack.start) >= STACK_REGION_MIN
            },
    {
        if pid.0 < 1 || pid.0 > MAX_STACK_PID {
            return None;
        }
        let idx = (pid.0 - 1) as u64;
        let top_page_first = page_of(STACK_INIT_TOP);
        let bot_page = top_page_first - idx * STACK_MAX_PAGES;
        proof {
            assert(idx * STACK_MAX_PAGES <= 0x1ffe * STACK_MAX_PAGES) by (nonlinear_arith)
                requires
                    idx <= 0x1ffe,
            ;
            assert(spec_region_of_page((top_page_first - idx * STACK_MAX_PAGES) as u64) == 0x3fff
                - idx) by (nonlinear_arith)
                requires
                    idx <= 0x1ffe,
                    top_page_first == 0x3ffffffff,
                    STACK_MAX_PAGES == 0x100000,
            ;
        }
        match mem.map_range(self.page_table, bot_page, STACK_DEF_PAGE, true) {
            Ok(()) => {
                self.stack = Stack {
                    start: bot_page,
                    end: bot_page + STACK_DEF_PAGE,
                    usage: STACK_DEF_PAGE,
                };
                let top_addr = STACK_INIT_TOP - idx * crate::memory::STACK_MAX_SIZE;
                proof {
                    assert(idx * crate::memory::STACK_MAX_SIZE == idx * STACK_MAX_PAGES * PAGE_SIZE
                        && spec_page_of(
                        (STACK_INIT_TOP - idx * STACK_MAX_PAGES * PAGE_SIZE) as u64,
                    ) == spec_page_of(STACK_INIT_TOP) - idx * STACK_MAX_PAGES)
                        by (nonlinear_arith)
                        requires
                            idx <= 0x1ffe,
                            STACK_MAX_PAGES == 0x100000,
                            PAGE_SIZE == 4096,
                            STACK_INIT_TOP == 0x3fff_ffff_fff8,
                            crate::memory::STACK_MAX_SIZE == 0x1_0000_0000,
                    ;
                }
                Some(top_addr)
            },
            Err(e) => {
                proof {
                    assert(bot_page == spec_stack_bot_page(pid.0));
                    if STACK_DEF_PAGE <= old(mem).frames_free && !old(mem).is_mapped(
                        self.page_table as int,
                        spec_stack_bot_page(pid.0),
                    ) {
                        assert(e != MapError::FrameAllocationFailed);
                        assert(e != MapError::PageAlreadyMapped) by {
                            if e == MapError::PageAlreadyMapped {
                                let w = choose|p: u64|
                                    bot_page <= p < bot_page + STACK_DEF_PAGE && old(
                                        mem,
                                    ).is_mapped(self.page_table as int, p);
                                assert(w == bot_page);
                            }
                        }
                    }
                }
                None
            },
        }
    }

    /// Handles a page fault at `addr` against this process's stack: grows
    /// the stack when the address is in its region, and otherwise reports
    /// the fault unhandled. Never touches the heap area or another region.
    pub fn handle_page_fault(&mut self, mem: &mut Memory, addr: u64) -> (r: bool)
        requires
            old(self).wf(*old(mem)),
            old(mem).wf(),
        ensures
            final(mem).wf(),
            final(self).wf(*final(mem)),
            final(mem).table_count() == old(mem).table_count(),
            final(mem).active == old(mem).active,
            final(self).page_table == old(self).page_table,
            final(self).code == old(self).code,
            final(self).code_usage == old(self).code_usage,
            final(self).stack.usage >= old(self).stack.usage,
            final(self).stack.end == old(self).stack.end,
            final(self).stack.start <= old(self).stack.start,
            r && crate::memory::page_of(addr) < old(self).stack.start ==> final(self).stack.start
                == crate::memory::page_of(addr),
            r && crate::memory::page_of(addr) >= old(self).stack.start ==> *final(self) == *old(
                self,
            ) && *final(mem) == *old(mem),
            r ==> forall|p: u64|
                final(self).stack.start <= p < old(self).stack.start ==> !old(mem).is_mapped(
                    old(self).page_table as int,
                    p,
                ),
            !r ==> *final(self) == *old(self) && *final(mem) == *old(mem),
            !old(self).stack.spec_is_on_stack(addr) ==> !r,
            r ==> final(mem).is_mapped(old(self).page_table as int, page_of(addr)),
            old(self).stack.spec_is_on_stack(addr) && (page_of(addr) >= old(self).stack.start || (
            old(self).stack.start - page_of(addr) <= old(mem).frames_free && forall|p: u64|
                page_of(addr) <= p < old(self).stack.start ==> !old(mem).is_mapped(
                    old(self).page_table as int,
                    p,
                ))) ==> r,
            forall|u: int|
                0 <= u < final(mem).table_count() && u != old(self).page_table ==> final(mem).tables@[u] == old(mem).tables@[u],
            final(mem).tables@[old(self).page_table as int].refs == old(mem).tables@[old(self).page_table as int].refs,
            final(mem).tables@[old(self).page_table as int].heap_end == old(mem).tables@[old(self).page_table as int].heap_end,
            r ==> forall|p: u64|
                !(page_of(addr) <= p < old(self).stack.start) ==> (final(mem).is_mapped(
                    old(self).page_table as int,
                    p,
                ) == old(mem).is_mapped(old(self).page_table as int, p) && (old(mem).is_mapped(
                    old(self).page_table as int,
                    p,
                ) ==> final(mem).page_at(old(self).page_table as int, p) == old(mem).page_at(
                    old(self).page_table as int,
                    p,
                ))),
            r ==> forall|p: u64|
                page_of(addr) <= p < old(self).stack.start ==> spec_region_of_page(p) == old(self).stack.region(),
    {
        let t = self.page_table;
        let ghost pre_stack = self.stack;
        let r = self.stack.handle_page_fault(mem, t, addr);
        proof {
            if r && page_of(addr) < pre_stack.start {
                crate::stack::lemma_same_region_range(
                    page_of(addr),
                    pre_stack.start,
                    (pre_stack.end - 1) as u64,
                );
                assert forall|p: u64| page_of(addr) <= p < pre_stack.start implies
                    spec_region_of_page(p) == pre_stack.region() by {
                    assert(page_of(addr) <= p <= (pre_stack.end - 1) as u64);
                }
                assert forall|p: u64|
                    spec_page_of(HEAP_START) <= p < spec_page_of(HEAP_START)
                        + crate::memory::HEAP_PAGES implies mem.is_mapped(t as int, p) == old(mem).is_mapped(t as int, p) && (old(mem).is_mapped(t as int, p) ==> mem.page_at(
                    t as int,
                    p,
                ) == old(mem).page_at(t as int, p)) by {
                    lemma_heap_area_region(p);
                    assert(spec_region_of_page(p) == 0x2000);
                    assert(pre_stack.region() >= STACK_REGION_MIN);
                    assert(!(page_of(addr) <= p < pre_stack.start));
                }
            }
        }
        r
    }

    /// Bytes the stack occupies.
    pub fn memory_usage(&self) -> (r: u64)
        requires
            self.stack.wf(),
        ensures
            r == self.stack.usage * PAGE_SIZE,
    {
        self.stack.memory_usage()
    }

    /// Address of the stack area's bottom page; its masked high bits name
    /// this process's stack region.
    pub fn stack_start(&self) -> (r: u64)
        requires
            self.stack.wf(),
            self.stack.usage > 0,
        ensures
            r == self.stack.start * PAGE_SIZE,
    {
        proof {
            assert(self.stack.start * PAGE_SIZE <= (MAX_PAGE - 1) * PAGE_SIZE)
                by (nonlinear_arith)
                requires
                    self.stack.start <= MAX_PAGE - 1,
            ;
        }
        self.stack.start * PAGE_SIZE
    }

    /// Moves the heap end of this address space; see [`heap::brk`].
    pub fn brk(&self, mem: &mut Memory, new_end: Option<u64>, user: bool) -> (r: Option<u64>)
        requires
            self.wf(*old(mem)),
            old(mem).wf(),
        ensures
            final(mem).wf(),
            heap_wf(*final(mem), self.page_table as int),
            final(mem).table_count() == old(mem).table_count(),
            final(mem).active == old(mem).active,
            final(mem).tables@[self.page_table as int].refs == old(mem).tables@[self.page_table as int].refs,
            forall|u: int|
                0 <= u < final(mem).table_count() && u != self.page_table ==> final(mem).tables@[u] == old(mem).tables@[u],
            match new_end {
                None => r == Some(old(mem).tables@[self.page_table as int].heap_end) && *final(mem)
                    == *old(mem),
                Some(x) => {
                    &&& !(HEAP_START <= x <= crate::memory::HEAP_END) ==> r is None
                    &&& r is None ==> *final(mem) == *old(mem)
                    &&& r is Some ==> r == Some(x) && final(mem).tables@[self.page_table as int].heap_end == x
                    &&& r is Some ==> forall|p: u64|
                        !(spec_page_of(HEAP_START) <= p < spec_page_of(HEAP_START)
                            + crate::memory::HEAP_PAGES) ==> (final(mem).is_mapped(
                            self.page_table as int,
                            p,
                        ) == old(mem).is_mapped(self.page_table as int, p) && (old(mem).is_mapped(
                            self.page_table as int,
                            p,
                        ) ==> final(mem).page_at(self.page_table as int, p) == old(mem).page_at(
                            self.page_table as int,
                            p,
                        )))
                },
            },
    {
        heap::brk(mem, self.page_table, new_end, user)
    }
}

/// Address-space soundness depends on the tables alone: a memory value with
/// the same tables (say, after an address-space switch) keeps it.
pub proof fn lemma_vm_wf_same_tables(vm: ProcessVm, m1: Memory, m2: Memory)
    requires
        vm.wf(m1),
        m2.tables == m1.tables,
    ensures
        vm.wf(m2),
{
    let t = vm.page_table as int;
    assert(m2.table_pages(t) == m1.table_pages(t));
    assert forall|p: u64| vm.stack.start <= p < vm.stack.end implies m2.is_mapped(t, p) by {
        assert(m1.is_mapped(t, p));
        assert(m2.table_pages(t).dom() == m1.table_pages(t).dom());
    }
    assert forall|p: u64|
        spec_page_of(HEAP_START) <= p < spec_page_of(HEAP_START) + crate::heap::spec_heap_page_count(
            m2.tables@[t].heap_end,
        ) implies m2.is_mapped(t, p) by {
        assert(m1.is_mapped(t, p));
        assert(m2.table_pages(t).dom() == m1.table_pages(t).dom());
    }
    assert forall|p: u64|
        spec_page_of(HEAP_START) + crate::heap::spec_heap_page_count(m2.tables@[t].heap_end) <= p
            < spec_page_of(HEAP_START) + crate::memory::HEAP_PAGES implies !m2.is_mapped(
        t,
        p,
    ) by {
        assert(!m1.is_mapped(t, p));
        assert(m2.table_pages(t).dom() == m1.table_pages(t).dom());
    }
    assert forall|i: int, p: u64|
        #![trigger vm.code@[i], m2.is_mapped(t, p)]
        0 <= i < vm.code@.len() && vm.code@[i].start <= p < vm.code@[i].start
            + vm.code@[i].count implies m2.is_mapped(t, p) by {
        assert(m1.is_mapped(t, p));
        assert(m2.table_pages(t).dom() == m1.table_pages(t).dom());
    }
}

/// Address-space soundness survives a memory change that keeps every page
/// this space relies on: its mapped pages stay mapped, and the heap area of
/// its table is untouched (or stays exact).
pub proof fn lemma_vm_wf_preserved(vm: ProcessVm, m1: Memory, m2: Memory)
    requires
        vm.wf(m1),
        vm.page_table < m2.table_count(),
        m2.tables@[vm.page_table as int].refs >= 1,
        m2.tables@[vm.page_table as int].heap_end == m1.tables@[vm.page_table as int].heap_end,
        forall|p: u64|
            m1.is_mapped(vm.page_table as int, p) ==> m2.is_mapped(vm.page_table as int, p),
        forall|p: u64|
            spec_page_of(HEAP_START) <= p < spec_page_of(HEAP_START) + crate::memory::HEAP_PAGES
                ==> m2.is_mapped(vm.page_table as int, p) == m1.is_mapped(
                vm.page_table as int,
                p,
            ),
    ensures
        vm.wf(m2),
{
    let t = vm.page_table as int;
    assert forall|p: u64| vm.stack.start <= p < vm.stack.end implies m2.is_mapped(t, p) by {
        assert(m1.is_mapped(t, p));
    }
    assert forall|p: u64|
        spec_page_of(HEAP_START) <= p < spec_page_of(HEAP_START) + crate::heap::spec_heap_page_count(
            m2.tables@[t].heap_end,
        ) implies m2.is_mapped(t, p) by {
        assert(spec_page_of(HEAP_START) <= p < spec_page_of(HEAP_START)
            + crate::memory::HEAP_PAGES);
        assert(m1.is_mapped(t, p));
    }
    assert forall|p: u64|
        spec_page_of(HEAP_START) + crate::heap::spec_heap_page_count(m2.tables@[t].heap_end) <= p
            < spec_page_of(HEAP_START) + crate::memory::HEAP_PAGES implies !m2.is_mapped(
        t,
        p,
    ) by {
        assert(!m1.is_mapped(t, p));
    }
    assert forall|i: int, p: u64|
        #![trigger vm.code@[i], m2.is_mapped(t, p)]
        0 <= i < vm.code@.len() && vm.code@[i].start <= p < vm.code@[i].start
            + vm.code@[i].count implies m2.is_mapped(t, p) by {
        assert(m1.is_mapped(t, p));
    }
}

/// Pages below the heap area lie in regions below the heap's.
pub proof fn lemma_low_page_region(p: u64)
    requires
        p < spec_page_of(HEAP_START),
    ensures
        spec_region_of_page(p) < 0x2000,
{
    assert(spec_page_of(HEAP_START) == 0x2000 * STACK_MAX_PAGES);
    assert(p / STACK_MAX_PAGES < 0x2000) by (nonlinear_arith)
        requires
            p < 0x2000 * STACK_MAX_PAGES,
            STACK_MAX_PAGES == 0x100000,
    ;
}

/// Address-space soundness survives unmapping a range of another stack's
/// region: nothing this space relies on lies in `[lo, hi)`, a range inside
/// stack regions and disjoint from this stack.
pub proof fn lemma_vm_wf_excluding(vm: ProcessVm, m1: Memory, m2: Memory, lo: u64, hi: u64)
    requires
        vm.wf(m1),
        vm.page_table < m2.table_count(),
        m2.tables@[vm.page_table as int].refs >= 1,
        m2.tables@[vm.page_table as int].heap_end == m1.tables@[vm.page_table as int].heap_end,
        forall|p: u64|
            lo <= p < hi ==> #[trigger] crate::memory::spec_region_of_page(p)
                >= crate::stack::STACK_REGION_MIN,
        hi <= vm.stack.start || vm.stack.end <= lo,
        forall|p: u64|
            !(lo <= p < hi) ==> m2.is_mapped(vm.page_table as int, p) == m1.is_mapped(
                vm.page_table as int,
                p,
            ),
    ensures
        vm.wf(m2),
{
    let t = vm.page_table as int;
    assert forall|p: u64| vm.stack.start <= p < vm.stack.end implies m2.is_mapped(t, p) by {
        assert(!(lo <= p < hi));
        assert(m1.is_mapped(t, p));
    }
    assert forall|p: u64|
        spec_page_of(HEAP_START) <= p < spec_page_of(HEAP_START) + crate::heap::spec_heap_page_count(
            m2.tables@[t].heap_end,
        ) implies m2.is_mapped(t, p) by {
        assert(spec_page_of(HEAP_START) <= p < spec_page_of(HEAP_START)
            + crate::memory::HEAP_PAGES);
        lemma_heap_area_region(p);
        assert(!(lo <= p < hi));
        assert(m1.is_mapped(t, p));
    }
    assert forall|p: u64|
        spec_page_of(HEAP_START) + crate::heap::spec_heap_page_count(m2.tables@[t].heap_end) <= p
            < spec_page_of(HEAP_START) + crate::memory::HEAP_PAGES implies !m2.is_mapped(
        t,
        p,
    ) by {
        lemma_heap_area_region(p);
        assert(!(lo <= p < hi));
        assert(!m1.is_mapped(t, p));
    }
    assert forall|i: int, p: u64|
        #![trigger vm.code@[i], m2.is_mapped(t, p)]
        0 <= i < vm.code@.len() && vm.code@[i].start <= p < vm.code@[i].start
            + vm.code@[i].count implies m2.is_mapped(t, p) by {
        assert(p < spec_page_of(HEAP_START));
        lemma_low_page_region(p);
        assert(!(lo <= p < hi));
        assert(m1.is_mapped(t, p));
    }
}

/// Pages of the heap area all lie in the heap's own region.
pub proof fn lemma_heap_area_region(p: u64)
    requires
        spec_page_of(HEAP_START) <= p < spec_page_of(HEAP_START) + crate::memory::HEAP_PAGES,
    ensures
        spec_region_of_page(p) == 0x2000,
{
    assert(spec_page_of(HEAP_START) == 0x2000 * STACK_MAX_PAGES);
    assert(p / STACK_MAX_PAGES == 0x2000) by (nonlinear_arith)
        requires
            0x2000 * STACK_MAX_PAGES <= p < 0x2000 * STACK_MAX_PAGES + STACK_MAX_PAGES,
            STACK_MAX_PAGES == 0x100000,
    ;
}

impl ProcessVm {
    /// Maps the program image's segments into this address space (all below
    /// the heap area) and records them as this process's code. Fails, with
    /// nothing changed, when a segment is out of place, two overlap, or the
    /// frame allocator cannot back them all.
    pub fn load_elf(&mut self, mem: &mut Memory, elf: &ElfImage) -> (r: bool)
        requires
            old(mem).wf(),
            old(self).page_table < old(mem).table_count(),
            forall|p: u64|
                p < spec_page_of(HEAP_START) ==> !old(mem).is_mapped(
                    old(self).page_table as int,
                    p,
                ),
        ensures
            final(mem).wf(),
            final(mem).table_count() == old(mem).table_count(),
            final(mem).active == old(mem).active,
            final(self).page_table == old(self).page_table,
            final(self).stack == old(self).stack,
            r == spec_elf_loadable(elf.segments@, old(mem).frames_free),
            !r ==> *final(self) == *old(self) && *final(mem) == *old(mem),
            r ==> {
                &&& final(mem).frames_free == old(mem).frames_free - segments_pages(
                    elf.segments@,
                )
                &&& final(mem).frames_total == old(mem).frames_total
                &&& final(self).code@ == elf.segments@
                &&& segments_wf(elf.segments@)
                &&& forall|i: int, p: u64|
                    #![trigger elf.segments@[i], final(mem).is_mapped(old(self).page_table as int, p)]
                    0 <= i < elf.segments@.len() && elf.segments@[i].start <= p
                        < elf.segments@[i].start + elf.segments@[i].count ==> final(mem).is_mapped(
                        old(self).page_table as int,
                        p,
                    )
                &&& forall|p: u64|
                    !in_segments(elf.segments@, elf.segments@.len() as int, p) ==> (final(mem).is_mapped(old(self).page_table as int, p) == old(mem).is_mapped(
                        old(self).page_table as int,
                        p,
                    ) && (old(mem).is_mapped(old(self).page_table as int, p) ==> final(mem).page_at(old(self).page_table as int, p) == old(mem).page_at(
                        old(self).page_table as int,
                        p,
                    )))
                &&& forall|u: int|
                    0 <= u < final(mem).table_count() && u != old(self).page_table ==> final(mem).tables@[u] == old(mem).tables@[u]
                &&& final(mem).tables@[old(self).page_table as int].refs == old(mem).tables@[old(self).page_table as int].refs
                &&& final(mem).tables@[old(self).page_table as int].heap_end == old(mem).tables@[old(self).page_table as int].heap_end
            },
    {
        let t = self.page_table;
        let n = elf.segments.len();
        let hp0 = page_of(HEAP_START);
        let mut i: usize = 0;
        while i < n
            invariant
                *mem == *old(mem),
                *self == *old(self),
                old(mem).wf(),
                n == elf.segments@.len(),
                i <= n,
                hp0 == spec_page_of(HEAP_START),
                forall|k: int|
                    0 <= k < i ==> (#[trigger] elf.segments@[k]).start + elf.segments@[k].count
                        <= hp0,
            decreases n - i,
        {
            let seg = elf.segments[i];
            if seg.count > hp0 || seg.start > hp0 - seg.count {
                proof {
                    assert(elf.segments@[i as int].start + elf.segments@[i as int].count
                        > spec_page_of(HEAP_START));
                    assert(!segments_wf(elf.segments@));
                }
                return false;
            }
            i += 1;
        }
        let mut i: usize = 0;
        while i < n
            invariant
                *mem == *old(mem),
                *self == *old(self),
                old(mem).wf(),
                n == elf.segments@.len(),
                i <= n,
                forall|k: int|
                    0 <= k < n ==> (#[trigger] elf.segments@[k]).start + elf.segments@[k].count
                        <= spec_page_of(HEAP_START),
                forall|a: int, b: int|
                    0 <= a < i && 0 <= b < n && a != b ==> ((#[trigger] elf.segments@[a]).start
                        + elf.segments@[a].count <= (#[trigger] elf.segments@[b]).start
                        || elf.segments@[b].start + elf.segments@[b].count
                        <= elf.segments@[a].start),
            decreases n - i,
        {
            let mut j: usize = 0;
            while j < n
                invariant
                    *mem == *old(mem),
                    *self == *old(self),
                    old(mem).wf(),
                    n == elf.segments@.len(),
                    i < n,
                    j <= n,
                    forall|k: int|
                        0 <= k < n ==> (#[trigger] elf.segments@[k]).start
                            + elf.segments@[k].count <= spec_page_of(HEAP_START),
                    forall|b: int|
                        0 <= b < j && b != i ==> ((#[trigger] elf.segments@[i as int]).start
                            + elf.segments@[i as int].count <= (#[trigger] elf.segments@[b]).start
                            || elf.segments@[b].start + elf.segments@[b].count
                            <= elf.segments@[i as int].start),
                decreases n - j,
            {
                if j != i {
                    let a = elf.segments[i];
                    let b = elf.segments[j];
                    if !(a.start + a.count <= b.start || b.start + b.count <= a.start) {
                        proof {
                            assert(!((#[trigger] elf.segments@[i as int]).start
                                + elf.segments@[i as int].count <= elf.segments@[j as int].start
                                || elf.segments@[j as int].start + elf.segments@[j as int].count
                                <= elf.segments@[i as int].start));
                            assert(!segments_wf(elf.segments@));
                        }
                        return false;
                    }
                }
                j += 1;
            }
            i += 1;
        }
        let mut total: u64 = 0;
        let mut i: usize = 0;
        while i < n
            invariant
                *mem == *old(mem),
                *self == *old(self),
                old(mem).wf(),
                n == elf.segments@.len(),
                i <= n,
                total == segments_pages(elf.segments@.take(i as int)),
                total <= u64::MAX,
            decreases n - i,
        {
            let c = elf.segments[i].count;
            proof {
                assert(elf.segments@.take(i + 1 as int).drop_last() =~= elf.segments@.take(
                    i as int,
                ));
                assert(elf.segments@.take(i + 1 as int).last() == elf.segments@[i as int]);
            }
            if total > u64::MAX - c {
                proof {
                    lemma_segments_pages_prefix(elf.segments@, i + 1 as int);
                    assert(segments_pages(elf.segments@) > u64::MAX as int / PAGE_SIZE as int);
                }
                return false;
            }
            total = total + c;
            i += 1;
        }
        proof {
            assert(elf.segments@.take(n as int) =~= elf.segments@);
        }
        if total > mem.frames_free {
            return false;
        }
        if total > u64::MAX / PAGE_SIZE {
            return false;
        }
        let ghost orig = *mem;
        let mut i: usize = 0;
        while i < n
            invariant
                n == elf.segments@.len(),
                i <= n,
                mem.wf(),
                orig.wf(),
                t < mem.table_count(),
                t == self.page_table,
                segments_wf(elf.segments@),
                total == segments_pages(elf.segments@),
                total <= orig.frames_free,
                forall|p: u64| p < spec_page_of(HEAP_START) ==> !orig.is_mapped(t as int, p),
                mem.table_count() == orig.table_count(),
                mem.active == orig.active,
                mem.frames_total == orig.frames_total,
                mem.frames_free == orig.frames_free - segments_pages(elf.segments@.take(i as int)),
                mem.tables@[t as int].refs == orig.tables@[t as int].refs,
                mem.tables@[t as int].heap_end == orig.tables@[t as int].heap_end,
                forall|u: int|
                    0 <= u < mem.table_count() && u != t ==> mem.tables@[u] == orig.tables@[u],
                forall|k: int, p: u64|
                    #![trigger elf.segments@[k], mem.is_mapped(t as int, p)]
                    0 <= k < i && elf.segments@[k].start <= p < elf.segments@[k].start
                        + elf.segments@[k].count ==> mem.is_mapped(t as int, p) && mem.page_at(
                        t as int,
                        p,
                    ) == (PageInfo { user: true, word: 0 }),
                forall|p: u64|
                    !in_segments(elf.segments@, i as int, p) ==> (mem.is_mapped(t as int, p)
                        == orig.is_mapped(t as int, p) && (orig.is_mapped(t as int, p)
                        ==> mem.page_at(t as int, p) == orig.page_at(t as int, p))),
            decreases n - i,
        {
            let seg = elf.segments[i];
            let ghost before = *mem;
            proof {
                lemma_segments_pages_bounds(elf.segments@, i as int);
                assert forall|p: u64| seg.start <= p < seg.start + seg.count implies !before.is_mapped(
                    t as int,
                    p,
                ) by {
                    assert(!in_segments(elf.segments@, i as int, p));
                    assert(p < spec_page_of(HEAP_START));
                    assert(!orig.is_mapped(t as int, p));
                }
            }
            match mem.map_range(t, seg.start, seg.count, true) {
                Ok(()) => {},
                Err(e) => {
                    proof {
                        assert(seg.count <= before.frames_free);
                    }
                    unreached::<()>()
                },
            }
            proof {
                assert(elf.segments@.take(i + 1 as int).drop_last() =~= elf.segments@.take(
                    i as int,
                ));
                assert(elf.segments@.take(i + 1 as int).last() == elf.segments@[i as int]);
                assert forall|k: int, p: u64|
                    #![trigger elf.segments@[k], mem.is_mapped(t as int, p)]
                    0 <= k < i + 1 && elf.segments@[k].start <= p < elf.segments@[k].start
                        + elf.segments@[k].count implies mem.is_mapped(t as int, p) && mem.page_at(
                    t as int,
                    p,
                ) == (PageInfo { user: true, word: 0 }) by {
                    if k < i {
                        assert(!(seg.start <= p < seg.start + seg.count));
                        assert(before.is_mapped(t as int, p) && before.page_at(t as int, p)
                            == (PageInfo { user: true, word: 0 }));
                    } else {
                        assert(seg.start <= p < seg.start + seg.count);
                    }
                }
                assert forall|p: u64| !in_segments(elf.segments@, i + 1 as int, p) implies (
                mem.is_mapped(t as int, p) == orig.is_mapped(t as int, p) && (orig.is_mapped(
                    t as int,
                    p,
                ) ==> mem.page_at(t as int, p) == orig.page_at(t as int, p))) by {
                    assert(!(seg.start <= p < seg.start + seg.count));
                    assert(!in_segments(elf.segments@, i as int, p));
                    assert(before.is_mapped(t as int, p) == orig.is_mapped(t as int, p));
                }
            }
            i += 1;
        }
        proof {
            assert(elf.segments@.take(n as int) =~= elf.segments@);
        }
        let mut code: Vec<PageRange> = Vec::new();
        let mut i: usize = 0;
        while i < n
            invariant
                n == elf.segments@.len(),
                i <= n,
                code@ =~= elf.segments@.take(i as int),
            decreases n - i,
        {
            code.push(elf.segments[i]);
            proof {
                assert(code@ =~= elf.segments@.take(i + 1 as int));
            }
            i += 1;
        }
        proof {
            assert(code@ =~= elf.segments@);
            assert(total * PAGE_SIZE <= u64::MAX) by (nonlinear_arith)
                requires
                    total <= u64::MAX / PAGE_SIZE,
                    PAGE_SIZE == 4096,
            ;
        }
        self.code = code;
        self.code_usage = total * PAGE_SIZE;
        true
    }

    /// Duplicates this address space for a forked child: the page table is
    /// shared (its reference count rises), the stack is copied into a fresh
    /// disjoint range `stack_offset_count` pages below this one, and the
    /// code record is not shared. Fails, with nothing changed, when no room
    /// or no frames are left.
    pub fn fork(&self, mem: &mut Memory, stack_offset_count: u64) -> (r: Option<ProcessVm>)
        requires
            self.wf(*old(mem)),
            old(mem).wf(),
            stack_offset_count >= STACK_MAX_PAGES,
            stack_offset_count % STACK_MAX_PAGES == 0,
        ensures
            old(mem).tables@[self.page_table as int].refs < u64::MAX
                && self.stack.spec_fork_ready(
                *old(mem),
                self.page_table as int,
                stack_offset_count,
            ) ==> r is Some,
            final(mem).wf(),
            final(mem).table_count() == old(mem).table_count(),
            final(mem).active == old(mem).active,
            final(mem).frames_total == old(mem).frames_total,
            forall|u: int|
                0 <= u < final(mem).table_count() && u != self.page_table ==> final(mem).tables@[u] == old(mem).tables@[u],
            final(mem).tables@[self.page_table as int].heap_end == old(mem).tables@[self.page_table as int].heap_end,
            r is None ==> *final(mem) == *old(mem),
            r matches Some(child) ==> {
                &&& child.page_table == self.page_table
                &&& child.wf(*final(mem))
                &&& child.code@.len() == 0
                &&& child.code_usage == 0
                &&& child.stack.usage == self.stack.usage
                &&& child.stack.end == child.stack.start + child.stack.usage
                &&& child.stack.end <= self.stack.start
                &&& final(mem).tables@[self.page_table as int].refs == old(mem).tables@[self.page_table as int].refs + 1
                &&& forall|p: u64|
                    child.stack.start <= p < child.stack.end ==> !old(mem).is_mapped(
                        self.page_table as int,
                        p,
                    )
                &&& forall|p: u64|
                    child.stack.start <= p < child.stack.end ==> #[trigger] final(mem).is_mapped(
                        self.page_table as int,
                        p,
                    )
                &&& forall|p: u64|
                    child.stack.start <= p < child.stack.end ==> #[trigger] final(mem).page_at(
                        self.page_table as int,
                        p,
                    ).word == old(mem).page_at(
                        self.page_table as int,
                        (self.stack.start + (p - child.stack.start)) as u64,
                    ).word
                &&& forall|p: u64|
                    !(child.stack.start <= p < child.stack.end) ==> (final(mem).is_mapped(
                        self.page_table as int,
                        p,
                    ) == old(mem).is_mapped(self.page_table as int, p) && (old(mem).is_mapped(
                        self.page_table as int,
                        p,
                    ) ==> final(mem).page_at(self.page_table as int, p) == old(mem).page_at(
                        self.page_table as int,
                        p,
                    )))
            },
    {
        let t = self.page_table;
        if mem.using_count(t) == u64::MAX {
            return None;
        }
        let ghost orig = *mem;
        match self.stack.fork(mem, t, stack_offset_count) {
            Err(_) => None,
            Ok(child_stack) => {
                let ghost forked = *mem;
                mem.share_table(t);
                let child = ProcessVm {
                    page_table: t,
                    stack: child_stack,
                    code: Vec::new(),
                    code_usage: 0,
                };
                proof {
                    assert(mem.tables@[t as int].entries == forked.tables@[t as int].entries);
                    assert(mem.table_pages(t as int) == forked.table_pages(t as int));
                    assert forall|p: u64| child.stack.start <= p < child.stack.end implies
                        #[trigger] mem.is_mapped(t as int, p) by {
                        assert(forked.is_mapped(t as int, p));
                        assert(mem.table_pages(t as int).dom() == forked.table_pages(
                            t as int,
                        ).dom());
                    }
                    assert forall|p: u64| child.stack.start <= p < child.stack.end implies
                        #[trigger] mem.page_at(t as int, p).word == orig.page_at(
                        t as int,
                        (self.stack.start + (p - child.stack.start)) as u64,
                    ).word by {
                        assert(forked.page_at(t as int, p).word == orig.page_at(
                            t as int,
                            (self.stack.start + (p - child.stack.start)) as u64,
                        ).word);
                    }
                    assert forall|p: u64| !(child.stack.start <= p < child.stack.end) implies (
                    mem.is_mapped(t as int, p) == orig.is_mapped(t as int, p) && (orig.is_mapped(
                        t as int,
                        p,
                    ) ==> mem.page_at(t as int, p) == orig.page_at(t as int, p))) by {
                        assert(forked.is_mapped(t as int, p) == orig.is_mapped(t as int, p));
                        assert(mem.table_pages(t as int).dom() == forked.table_pages(
                            t as int,
                        ).dom());
                    }
                    assert forall|p: u64|
                        spec_page_of(HEAP_START) <= p < spec_page_of(HEAP_START)
                            + crate::memory::HEAP_PAGES implies (mem.is_mapped(t as int, p)
                        == orig.is_mapped(t as int, p)) by {
                        lemma_heap_area_region(p);
                        crate::stack::lemma_same_region_range(
                            child.stack.start,
                            child.stack.start,
                            (child.stack.end - 1) as u64,
                        );
                        assert(spec_region_of_page(child.stack.start) >= STACK_REGION_MIN);
                        if child.stack.start <= p < child.stack.end {
                            assert(spec_region_of_page(p) == spec_region_of_page(
                                child.stack.start,
                            ));
                        }
                    }
                    assert forall|p: u64| self.stack.start <= p < self.stack.end implies
                        mem.is_mapped(t as int, p) by {
                        assert(!(child.stack.start <= p < child.stack.end));
                        assert(orig.is_mapped(t as int, p));
                    }
                    assert(heap_wf(orig, t as int));
                    assert(mem.tables@[t as int].heap_end == orig.tables@[t as int].heap_end);
                    assert forall|p: u64|
                        spec_page_of(HEAP_START) <= p < spec_page_of(HEAP_START)
                            + crate::heap::spec_heap_page_count(
                            mem.tables@[t as int].heap_end,
                        ) implies mem.is_mapped(t as int, p) by {
                        assert(spec_page_of(HEAP_START) <= p < spec_page_of(HEAP_START)
                            + crate::memory::HEAP_PAGES);
                        assert(orig.is_mapped(t as int, p));
                    }
                    assert forall|p: u64|
                        spec_page_of(HEAP_START) + crate::heap::spec_heap_page_count(
                            mem.tables@[t as int].heap_end,
                        ) <= p < spec_page_of(HEAP_START) + crate::memory::HEAP_PAGES implies
                        !mem.is_mapped(t as int, p) by {
                        assert(!orig.is_mapped(t as int, p));
                    }
                    assert(heap_wf(*mem, t as int));
                    assert(child.page_table == t);
                    assert(child.wf(*mem));
                }
                Some(child)
            },
        }
    }

    /// Tears this address space down: unmaps the stack, and — when this was
    /// the table's last holder — the heap and the recorded code runs too;
    /// then drops the table handle.
    pub fn clean_up(&self, mem: &mut Memory)
        requires
            self.wf(*old(mem)),
            old(mem).wf(),
        ensures
            final(mem).wf(),
            final(mem).table_count() == old(mem).table_count(),
            final(mem).active == old(mem).active,
            final(mem).frames_total == old(mem).frames_total,
            forall|u: int|
                0 <= u < final(mem).table_count() && u != self.page_table ==> final(mem).tables@[u] == old(mem).tables@[u],
            final(mem).tables@[self.page_table as int].refs == old(mem).tables@[self.page_table as int].refs - 1,
            forall|p: u64|
                self.stack.start <= p < self.stack.end ==> !final(mem).is_mapped(
                    self.page_table as int,
                    p,
                ),
            old(mem).tables@[self.page_table as int].refs > 1 ==> {
                &&& final(mem).tables@[self.page_table as int].heap_end == old(mem).tables@[self.page_table as int].heap_end
                &&& forall|p: u64|
                    !(self.stack.start <= p < self.stack.end) ==> (final(mem).is_mapped(
                        self.page_table as int,
                        p,
                    ) == old(mem).is_mapped(self.page_table as int, p) && (old(mem).is_mapped(
                        self.page_table as int,
                        p,
                    ) ==> final(mem).page_at(self.page_table as int, p) == old(mem).page_at(
                        self.page_table as int,
                        p,
                    )))
            },
            old(mem).tables@[self.page_table as int].refs == 1 ==> {
                &&& final(mem).tables@[self.page_table as int].heap_end == HEAP_START
                &&& heap_wf(*final(mem), self.page_table as int)
                &&& forall|i: int, p: u64|
                    #![trigger self.code@[i], final(mem).is_mapped(self.page_table as int, p)]
                    0 <= i < self.code@.len() && self.code@[i].start <= p < self.code@[i].start
                        + self.code@[i].count ==> !final(mem).is_mapped(
                        self.page_table as int,
                        p,
                    )
                &&& forall|p: u64|
                    !(self.stack.start <= p < self.stack.end) && !(spec_page_of(HEAP_START) <= p
                        < spec_page_of(HEAP_START) + crate::memory::HEAP_PAGES) && !in_segments(
                        self.code@,
                        self.code@.len() as int,
                        p,
                    ) ==> (final(mem).is_mapped(self.page_table as int, p) == old(mem).is_mapped(
                        self.page_table as int,
                        p,
                    ) && (old(mem).is_mapped(self.page_table as int, p) ==> final(mem).page_at(
                        self.page_table as int,
                        p,
                    ) == old(mem).page_at(self.page_table as int, p)))
            },
    {
        let t = self.page_table;
        let refs = mem.using_count(t);
        match mem.unmap_range(t, self.stack.start, self.stack.usage) {
            Ok(()) => {},
            Err(_) => {
                proof {
                    assert forall|p: u64|
                        self.stack.start <= p < self.stack.start + self.stack.usage implies old(mem).is_mapped(t as int, p) by {
                        assert(self.stack.start <= p < self.stack.end);
                    }
                }
                unreached::<()>()
            },
        }
        let ghost stack_gone = *mem;
        if refs == 1 {
            proof {
                assert forall|p: u64|
                    spec_page_of(HEAP_START) <= p < spec_page_of(HEAP_START)
                        + crate::memory::HEAP_PAGES implies (mem.is_mapped(t as int, p) == old(mem).is_mapped(t as int, p) && (old(mem).is_mapped(t as int, p) ==> mem.page_at(
                    t as int,
                    p,
                ) == old(mem).page_at(t as int, p))) by {
                    lemma_heap_area_region(p);
                    if self.stack.usage > 0 {
                        crate::stack::lemma_same_region_range(
                            self.stack.start,
                            self.stack.start,
                            (self.stack.end - 1) as u64,
                        );
                        if self.stack.start <= p < self.stack.start + self.stack.usage {
                            assert(spec_region_of_page(p) == spec_region_of_page(
                                self.stack.start,
                            ));
                        }
                    }
                }
            }
            heap::clean_up(mem, t);
            let ghost heap_gone = *mem;
            let n = self.code.len();
            let mut i: usize = 0;
            while i < n
                invariant
                    n == self.code@.len(),
                    i <= n,
                    mem.wf(),
                    t < mem.table_count(),
                    t == self.page_table,
                    segments_wf(self.code@),
                    mem.table_count() == heap_gone.table_count(),
                    mem.active == heap_gone.active,
                    mem.frames_total == heap_gone.frames_total,
                    mem.tables@[t as int].refs == heap_gone.tables@[t as int].refs,
                    mem.tables@[t as int].heap_end == heap_gone.tables@[t as int].heap_end,
                    forall|u: int|
                        0 <= u < mem.table_count() && u != t ==> mem.tables@[u]
                            == heap_gone.tables@[u],
                    forall|k: int, p: u64|
                        #![trigger self.code@[k], mem.is_mapped(t as int, p)]
                        i <= k < n && self.code@[k].start <= p < self.code@[k].start
                            + self.code@[k].count ==> mem.is_mapped(t as int, p),
                    forall|k: int, p: u64|
                        #![trigger self.code@[k], mem.is_mapped(t as int, p)]
                        0 <= k < i && self.code@[k].start <= p < self.code@[k].start
                            + self.code@[k].count ==> !mem.is_mapped(t as int, p),
                    forall|p: u64|
                        !in_segments(self.code@, i as int, p) ==> (mem.is_mapped(t as int, p)
                            == heap_gone.is_mapped(t as int, p) && (heap_gone.is_mapped(
                            t as int,
                            p,
                        ) ==> mem.page_at(t as int, p) == heap_gone.page_at(t as int, p))),
                decreases n - i,
            {
                let seg = self.code[i];
                let ghost before = *mem;
                match mem.unmap_range(t, seg.start, seg.count) {
                    Ok(()) => {},
                    Err(_) => {
                        proof {
                            assert forall|p: u64|
                                seg.start <= p < seg.start + seg.count implies before.is_mapped(
                                t as int,
                                p,
                            ) by {
                                assert(self.code@[i as int].start <= p < self.code@[i as int].start
                                    + self.code@[i as int].count);
                            }
                        }
                        unreached::<()>()
                    },
                }
                proof {
                    assert forall|k: int, p: u64|
                        #![trigger self.code@[k], mem.is_mapped(t as int, p)]
                        i + 1 <= k < n && self.code@[k].start <= p < self.code@[k].start
                            + self.code@[k].count implies mem.is_mapped(t as int, p) by {
                        assert(!(seg.start <= p < seg.start + seg.count));
                        assert(before.is_mapped(t as int, p));
                    }
                    assert forall|k: int, p: u64|
                        #![trigger self.code@[k], mem.is_mapped(t as int, p)]
                        0 <= k < i + 1 && self.code@[k].start <= p < self.code@[k].start
                            + self.code@[k].count implies !mem.is_mapped(t as int, p) by {
                        if k == i as int {
                            assert(seg.start <= p < seg.start + seg.count);
                        } else {
                            assert(!(seg.start <= p < seg.start + seg.count));
                            assert(!before.is_mapped(t as int, p));
                        }
                    }
                    assert forall|p: u64| !in_segments(self.code@, i + 1 as int, p) implies (
                    mem.is_mapped(t as int, p) == heap_gone.is_mapped(t as int, p) && (
                    heap_gone.is_mapped(t as int, p) ==> mem.page_at(t as int, p)
                        == heap_gone.page_at(t as int, p))) by {
                        assert(!(seg.start <= p < seg.start + seg.count));
                        assert(!in_segments(self.code@, i as int, p));
                        assert(before.is_mapped(t as int, p) == heap_gone.is_mapped(t as int, p));
                    }
                }
                i += 1;
            }
            proof {
                assert forall|p: u64|
                    spec_page_of(HEAP_START) <= p < spec_page_of(HEAP_START)
                        + crate::memory::HEAP_PAGES implies !mem.is_mapped(t as int, p) by {
                    assert(!heap_gone.is_mapped(t as int, p));
                    if in_segments(self.code@, n as int, p) {
                        let j = choose|j: int|
                            0 <= j < n && (#[trigger] self.code@[j]).start <= p < self.code@[j].start
                                + self.code@[j].count;
                        assert(self.code@[j].start + self.code@[j].count <= spec_page_of(
                            HEAP_START,
                        ));
                    }
                }
            }
            let ghost code_gone = *mem;
            mem.release_table(t);
            proof {
                assert(mem.table_pages(t as int) == code_gone.table_pages(t as int));
                assert forall|p: u64|
                    self.stack.start <= p < self.stack.end implies !mem.is_mapped(
                    t as int,
                    p,
                ) by {
                    assert(!stack_gone.is_mapped(t as int, p));
                    if in_segments(self.code@, n as int, p) {
                        let j = choose|j: int|
                            0 <= j < n && (#[trigger] self.code@[j]).start <= p < self.code@[j].start
                                + self.code@[j].count;
                        assert(old(mem).is_mapped(t as int, p));
                    }
                    assert(!in_segments(self.code@, n as int, p) ==> !code_gone.is_mapped(
                        t as int,
                        p,
                    ));
                    assert(!code_gone.is_mapped(t as int, p));
                }
                assert forall|p: u64|
                    spec_page_of(HEAP_START) <= p < spec_page_of(HEAP_START)
                        + crate::memory::HEAP_PAGES implies !mem.is_mapped(t as int, p) by {
                    assert(!code_gone.is_mapped(t as int, p));
                }
                assert forall|i2: int, p: u64|
                    #![trigger self.code@[i2], mem.is_mapped(t as int, p)]
                    0 <= i2 < self.code@.len() && self.code@[i2].start <= p
                        < self.code@[i2].start + self.code@[i2].count implies !mem.is_mapped(
                    t as int,
                    p,
                ) by {
                    assert(!code_gone.is_mapped(t as int, p));
                }
                assert forall|p: u64|
                    !(self.stack.start <= p < self.stack.end) && !(spec_page_of(HEAP_START) <= p
                        < spec_page_of(HEAP_START) + crate::memory::HEAP_PAGES) && !in_segments(
                        self.code@,
                        self.code@.len() as int,
                        p,
                    ) implies (mem.is_mapped(t as int, p) == old(mem).is_mapped(t as int, p) && (
                old(mem).is_mapped(t as int, p) ==> mem.page_at(t as int, p) == old(mem).page_at(
                    t as int,
                    p,
                ))) by {
                    assert(!(self.stack.start <= p < self.stack.start + self.stack.usage));
                    assert(stack_gone.is_mapped(t as int, p) == old(mem).is_mapped(t as int, p));
                    assert(heap_gone.is_mapped(t as int, p) == stack_gone.is_mapped(t as int, p));
                    assert(code_gone.is_mapped(t as int, p) == heap_gone.is_mapped(t as int, p));
                }
            }
        } else {
            let ghost before_rel = *mem;
            mem.release_table(t);
            proof {
                assert(mem.table_pages(t as int) == before_rel.table_pages(t as int));
                assert forall|p: u64|
                    self.stack.start <= p < self.stack.end implies !mem.is_mapped(
                    t as int,
                    p,
                ) by {
                    assert(!stack_gone.is_mapped(t as int, p));
                }
                assert forall|p: u64| !(self.stack.start <= p < self.stack.end) implies (
                mem.is_mapped(t as int, p) == old(mem).is_mapped(t as int, p) && (old(mem).is_mapped(t as int, p) ==> mem.page_at(t as int, p) == old(mem).page_at(
                    t as int,
                    p,
                ))) by {
                    assert(!(self.stack.start <= p < self.stack.start + self.stack.usage));
                    assert(stack_gone.is_mapped(t as int, p) == old(mem).is_mapped(t as int, p));
                }
            }
        }
    }
}

/// Partial segment sums are bounded by the whole.
pub proof fn lemma_segments_pages_bounds(segs: Seq<PageRange>, i: int)
    requires
        0 <= i < segs.len(),
    ensures
        segments_pages(segs.take(i)) + segs[i].count <= segments_pages(segs),
        segments_pages(segs.take(i)) >= 0,
        segments_pages(segs.take(i + 1)) == segments_pages(segs.take(i)) + segs[i].count,
    decreases segs.len(),
{
    lemma_segments_pages_nonneg(segs.take(i));
    assert(segs.take(i + 1).drop_last() =~= segs.take(i));
    assert(segs.take(i + 1).last() == segs[i]);
    lemma_segments_pages_prefix(segs, i + 1);
}

/// Segment sums are never negative.
pub proof fn lemma_segments_pages_nonneg(segs: Seq<PageRange>)
    ensures
        segments_pages(segs) >= 0,
    decreases segs.len(),
{
    if segs.len() > 0 {
        lemma_segments_pages_nonneg(segs.drop_last());
    }
}

/// A prefix never asks for more pages than the whole.
pub proof fn lemma_segments_pages_prefix(segs: Seq<PageRange>, i: int)
    requires
        0 <= i <= segs.len(),
    ensures
        segments_pages(segs.take(i)) <= segments_pages(segs),
    decreases segs.len() - i,
{
    if i < segs.len() {
        lemma_segments_pages_prefix(segs, i + 1);
        assert(segs.take(i + 1).drop_last() =~= segs.take(i));
        assert(segs.take(i + 1).last() == segs[i]);
    } else {
        assert(segs.take(i) =~= segs);
    }
}


} // verus!
