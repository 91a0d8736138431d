//! A process's stack: a contiguous, downward-growing range of mapped pages.
//!
//! The range's start, taken to its stack region (a `STACK_MAX_SIZE`-aligned
//! span), identifies the process's stack area; a page fault is matched to the
//! stack by comparing regions, and growth maps exactly the pages between the
//! fault and the current start.

use crate::memory::{
    page_of, region_of_page, spec_page_of, spec_region_of_page, MapError, Memory, PageInfo,
    KSTACK_DEF_PAGE, KSTACK_INIT_BOT, MAX_PAGE, PAGE_SIZE, STACK_DEF_PAGE, STACK_INIT_BOT,
    STACK_INIT_TOP, STACK_MAX_PAGES,
};
use vstd::prelude::*;

verus! {

/// Lowest region a user or kernel stack may occupy; regions at and below it
/// belong to the heap and to code.
pub const STACK_REGION_MIN: u64 = 0x2001;

/// A stack record: pages `[start, end)` are mapped for this stack.
#[derive(Clone, Copy, PartialEq, Eq, Structural, Debug)]
pub struct Stack {
    /// First (lowest) mapped page.
    pub start: u64,
    /// One past the last (highest) mapped page.
    pub end: u64,
    /// How many pages the stack holds.
    pub usage: u64,
}

impl Stack {
    /// The record is consistent: the range is bounded, fits one stack
    /// region, lies above the heap's region, and `usage` counts it.
    pub open spec fn wf(self) -> bool {
        &&& self.start <= self.end
        &&& self.end <= MAX_PAGE
        &&& self.usage == self.end - self.start
        &&& self.usage <= STACK_MAX_PAGES
        &&& self.usage > 0 ==> spec_region_of_page(self.start) == spec_region_of_page(
            (self.end - 1) as u64,
        ) && spec_region_of_page(self.start) >= STACK_REGION_MIN && self.end % STACK_MAX_PAGES
            == 0
    }

    /// Every page of the stack is mapped in table `t`.
    pub open spec fn mapped_in(self, mem: Memory, t: int) -> bool {
        forall|p: u64| self.start <= p < self.end ==> mem.is_mapped(t, p)
    }

    /// The stack region this stack lives in.
    pub open spec fn region(self) -> u64 {
        spec_region_of_page(self.start)
    }

    /// A stack of `size` pages whose highest page is `top`.
    pub fn new(top: u64, size: u64) -> (s: Stack)
        requires
            1 <= size <= STACK_MAX_PAGES,
            size <= top + 1,
            top < MAX_PAGE,
            (top + 1) % (STACK_MAX_PAGES as int) == 0,
            spec_region_of_page((top + 1 - size) as u64) == spec_region_of_page(top),
            spec_region_of_page(top) >= STACK_REGION_MIN,
        ensures
            s.wf(),
            s.start == top + 1 - size,
            s.end == top + 1,
            s.usage == size,
    {
        Stack { start: top + 1 - size, end: top + 1, usage: size }
    }

    /// A record with no pages, placed at the first user stack's top.
    pub fn empty() -> (s: Stack)
        ensures
            s.wf(),
            s.usage == 0,
    {
        let top_page = page_of(STACK_INIT_TOP);
        Stack { start: top_page, end: top_page, usage: 0 }
    }

    /// The kernel stack's record; its pages are mapped by the manager when
    /// the kernel's address space is set up.
    pub fn kstack() -> (s: Stack)
        ensures
            s.wf(),
            s.start == page_of(KSTACK_INIT_BOT),
            s.end == page_of(KSTACK_INIT_BOT) + KSTACK_DEF_PAGE,
            s.usage == KSTACK_DEF_PAGE,
    {
        let bot_page = page_of(KSTACK_INIT_BOT);
        Stack { start: bot_page, end: bot_page + KSTACK_DEF_PAGE, usage: KSTACK_DEF_PAGE }
    }

    /// Maps the default one-page stack at the first user stack's bottom.
    /// Succeeds exactly when a frame is free and that page is not taken.
    pub fn init(&mut self, mem: &mut Memory, t: usize) -> (r: Result<(), MapError>)
        requires
            old(self).usage == 0,
            old(mem).wf(),
            t < old(mem).table_count(),
        ensures
            final(mem).wf(),
            final(mem).table_count() == old(mem).table_count(),
            final(mem).active == old(mem).active,
            r is Ok <==> STACK_DEF_PAGE <= old(mem).frames_free && !old(mem).is_mapped(
                t as int,
                page_of(STACK_INIT_BOT),
            ),
            r is Ok ==> final(self).wf() && final(self).usage == STACK_DEF_PAGE && final(self).start == page_of(STACK_INIT_BOT) && final(self).mapped_in(*final(mem), t as int),
            r is Err ==> *final(self) == *old(self) && *final(mem) == *old(mem),
    {
        let bot_page = page_of(STACK_INIT_BOT);
        match mem.map_range(t, bot_page, STACK_DEF_PAGE, true) {
            Ok(()) => {
                *self = Stack {
                    start: bot_page,
                    end: bot_page + STACK_DEF_PAGE,
                    usage: STACK_DEF_PAGE,
                };
                Ok(())
            },
            Err(e) => Err(e),
        }
    }

    /// Whether `addr` falls in this stack's region: the masked high bits of
    /// the address and of the stack's bottom agree.
    pub open spec fn spec_is_on_stack(&self, addr: u64) -> bool {
        spec_region_of_page(spec_page_of(addr)) == self.region()
    }

    /// Whether `addr` falls in this stack's region.
    #[verifier::when_used_as_spec(spec_is_on_stack)]
    pub fn is_on_stack(&self, addr: u64) -> (r: bool)
        ensures
            r == self.spec_is_on_stack(addr),
    {
        region_of_page(page_of(addr)) == region_of_page(self.start)
    }

    /// Grows the stack down to the page holding `addr`: maps exactly the
    /// pages between that page and the current start. An address at or above
    /// the current start needs no work. Usage never shrinks, and no page
    /// that was mapped is touched.
    pub fn grow_stack(&mut self, mem: &mut Memory, t: usize, addr: u64) -> (r: Result<
        (),
        MapError,
    >)
        requires
            old(self).wf(),
            old(self).usage > 0,
            old(self).spec_is_on_stack(addr),
            old(self).mapped_in(*old(mem), t as int),
            old(mem).wf(),
            t < old(mem).table_count(),
        ensures
            final(mem).wf(),
            final(self).wf(),
            final(mem).table_count() == old(mem).table_count(),
            final(mem).active == old(mem).active,
            final(mem).frames_total == old(mem).frames_total,
            final(self).usage >= old(self).usage,
            final(self).end == old(self).end,
            final(self).region() == old(self).region(),
            forall|u: int|
                0 <= u < final(mem).table_count() && u != t ==> final(mem).tables@[u] == old(
                    mem,
                ).tables@[u],
            final(mem).tables@[t as int].refs == old(mem).tables@[t as int].refs,
            final(mem).tables@[t as int].heap_end == old(mem).tables@[t as int].heap_end,
            r is Ok ==> final(mem).is_mapped(t as int, page_of(addr)),
            page_of(addr) >= old(self).start ==> r is Ok && *final(self) == *old(self) && *final(mem) == *old(mem),
            r is Err ==> *final(self) == *old(self) && *final(mem) == *old(mem),
            page_of(addr) < old(self).start ==> (r is Ok <==> (old(self).start - page_of(addr)
                <= old(mem).frames_free && forall|p: u64|
                page_of(addr) <= p < old(self).start ==> !old(mem).is_mapped(t as int, p))),
            r is Ok && page_of(addr) < old(self).start ==> {
                &&& final(self).start == page_of(addr)
                &&& final(self).usage == old(self).usage + (old(self).start - page_of(addr))
                &&& forall|p: u64|
                    page_of(addr) <= p < old(self).start ==> final(mem).is_mapped(t as int, p)
                        && final(mem).page_at(t as int, p) == (PageInfo { user: true, word: 0 })
                &&& forall|p: u64|
                    !(page_of(addr) <= p < old(self).start) ==> (final(mem).is_mapped(t as int, p)
                        == old(mem).is_mapped(t as int, p) && (old(mem).is_mapped(t as int, p)
                        ==> final(mem).page_at(t as int, p) == old(mem).page_at(t as int, p)))
            },
    {
        let aim_page = page_of(addr);
        if aim_page >= self.start {
            proof {
                lemma_on_stack_page_in_range(*self, aim_page);
            }
            return Ok(());
        }
        let count = self.start - aim_page;
        proof {
            lemma_same_region_range(aim_page, self.start, (self.end - 1) as u64);
        }
        match mem.map_range(t, aim_page, count, true) {
            Ok(()) => {
                let new_usage = self.usage + count;
                *self = Stack { start: aim_page, end: self.end, usage: new_usage };
                Ok(())
            },
            Err(e) => Err(e),
        }
    }

    /// Handles a page fault at `addr`: false when the address is outside the
    /// stack's region or growth failed, true when the fault is resolved.
    pub fn handle_page_fault(&mut self, mem: &mut Memory, t: usize, addr: u64) -> (r: bool)
        requires
            old(self).wf(),
            old(self).usage > 0,
            old(self).mapped_in(*old(mem), t as int),
            old(mem).wf(),
            t < old(mem).table_count(),
        ensures
            final(mem).wf(),
            final(self).wf(),
            final(mem).table_count() == old(mem).table_count(),
            final(mem).active == old(mem).active,
            final(mem).frames_total == old(mem).frames_total,
            final(self).usage >= old(self).usage,
            final(self).end == old(self).end,
            final(self).region() == old(self).region(),
            r ==> final(mem).is_mapped(t as int, page_of(addr)),
            forall|u: int|
                0 <= u < final(mem).table_count() && u != t ==> final(mem).tables@[u] == old(
                    mem,
                ).tables@[u],
            final(mem).tables@[t as int].refs == old(mem).tables@[t as int].refs,
            final(mem).tables@[t as int].heap_end == old(mem).tables@[t as int].heap_end,
            !old(self).spec_is_on_stack(addr) ==> !r && *final(self) == *old(self) && *final(mem)
                == *old(mem),
            old(self).spec_is_on_stack(addr) && page_of(addr) >= old(self).start ==> r && *final(self) == *old(self) && *final(mem) == *old(mem),
            !r ==> *final(self) == *old(self) && *final(mem) == *old(mem),
            old(self).spec_is_on_stack(addr) && page_of(addr) < old(self).start ==> (r <==> (old(
                self,
            ).start - page_of(addr) <= old(mem).frames_free && forall|p: u64|
                page_of(addr) <= p < old(self).start ==> !old(mem).is_mapped(t as int, p))),
            r && page_of(addr) < old(self).start ==> {
                &&& final(self).start == page_of(addr)
                &&& final(self).usage == old(self).usage + (old(self).start - page_of(addr))
                &&& forall|p: u64|
                    page_of(addr) <= p < old(self).start ==> final(mem).is_mapped(t as int, p)
                        && final(mem).page_at(t as int, p) == (PageInfo { user: true, word: 0 })
                &&& forall|p: u64|
                    !(page_of(addr) <= p < old(self).start) ==> (final(mem).is_mapped(t as int, p)
                        == old(mem).is_mapped(t as int, p) && (old(mem).is_mapped(t as int, p)
                        ==> final(mem).page_at(t as int, p) == old(mem).page_at(t as int, p)))
            },
    {
        if !self.is_on_stack(addr) {
            return false;
        }
        match self.grow_stack(mem, t, addr) {
            Ok(()) => true,
            Err(_) => false,
        }
    }

    /// The first probe of a fork is sure to land: the range
    /// `stack_offset_count` pages below this stack starts in a legal region,
    /// is wholly unmapped in table `t`, and the frames to back it are free.
    pub open spec fn spec_fork_ready(self, mem: Memory, t: int, stack_offset_count: u64) -> bool {
        &&& self.start >= stack_offset_count
        &&& spec_region_of_page((self.start - stack_offset_count) as u64) >= STACK_REGION_MIN
        &&& self.usage <= mem.frames_free
        &&& forall|p: u64|
            self.start - stack_offset_count <= p < self.start - stack_offset_count + self.usage
                ==> !mem.is_mapped(t, p)
    }

    /// Maps a fresh copy of this stack for a forked child, `stack_offset_count`
    /// pages below it, moving down one whole stack region at a time while the
    /// probed range collides with mapped pages. The child's pages were
    /// unmapped before the call, so its range overlaps no live stack; its
    /// words are copied from this stack. With the first probe sure to land
    /// ([`Stack::spec_fork_ready`]) the fork is owed success, and the child
    /// starts exactly `stack_offset_count` pages below this stack.
    pub fn fork(&self, mem: &mut Memory, t: usize, stack_offset_count: u64) -> (r: Result<
        Stack,
        MapError,
    >)
        requires
            self.wf(),
            self.usage > 0,
            self.mapped_in(*old(mem), t as int),
            old(mem).wf(),
            t < old(mem).table_count(),
            stack_offset_count >= STACK_MAX_PAGES,
            stack_offset_count % STACK_MAX_PAGES == 0,
        ensures
            final(mem).wf(),
            final(mem).table_count() == old(mem).table_count(),
            final(mem).active == old(mem).active,
            final(mem).frames_total == old(mem).frames_total,
            final(mem).tables@[t as int].refs == old(mem).tables@[t as int].refs,
            final(mem).tables@[t as int].heap_end == old(mem).tables@[t as int].heap_end,
            forall|u: int|
                0 <= u < final(mem).table_count() && u != t ==> final(mem).tables@[u] == old(
                    mem,
                ).tables@[u],
            self.spec_fork_ready(*old(mem), t as int, stack_offset_count) ==> r is Ok,
            r is Err ==> *final(mem) == *old(mem),
            r matches Ok(child) ==> {
                &&& child.wf()
                &&& child.usage == self.usage
                &&& child.end == child.start + child.usage
                &&& child.end <= self.start
                &&& child.region() < self.region()
                &&& (self.spec_fork_ready(*old(mem), t as int, stack_offset_count) ==> child.start
                    == self.start - stack_offset_count)
                &&& forall|p: u64|
                    child.start <= p < child.end ==> !old(mem).is_mapped(t as int, p)
                &&& forall|p: u64|
                    child.start <= p < child.end ==> #[trigger] final(mem).is_mapped(t as int, p)
                &&& forall|p: u64|
                    child.start <= p < child.end ==> #[trigger] final(mem).page_at(
                        t as int,
                        p,
                    ).word == old(mem).page_at(
                        t as int,
                        (self.start + (p - child.start)) as u64,
                    ).word
                &&& forall|p: u64|
                    !(child.start <= p < child.end) ==> (final(mem).is_mapped(t as int, p) == old(
                        mem,
                    ).is_mapped(t as int, p) && (old(mem).is_mapped(t as int, p) ==> final(mem).page_at(t as int, p) == old(mem).page_at(t as int, p)))
                &&& final(mem).frames_free == old(mem).frames_free - self.usage
            },
    {
        let mut offset = stack_offset_count;
        loop
            invariant
                *mem == *old(mem),
                old(mem).wf(),
                self.wf(),
                self.usage > 0,
                self.mapped_in(*old(mem), t as int),
                t < old(mem).table_count(),
                offset >= STACK_MAX_PAGES,
                offset % STACK_MAX_PAGES == 0,
                offset == stack_offset_count || !self.spec_fork_ready(
                    *old(mem),
                    t as int,
                    stack_offset_count,
                ),
            ensures
                *mem == *old(mem),
            decreases self.start as int - offset as int + STACK_MAX_PAGES as int,
        {
            if self.start < offset {
                proof {
                    assert(!self.spec_fork_ready(*old(mem), t as int, stack_offset_count));
                }
                return Err(MapError::FrameAllocationFailed);
            }
            let candidate = self.start - offset;
            proof {
                if offset == stack_offset_count && self.spec_fork_ready(
                    *old(mem),
                    t as int,
                    stack_offset_count,
                ) {
                    lemma_aligned_probe_in_one_region(self.end, offset, self.usage, candidate);
                }
            }
            if region_of_page(candidate) < STACK_REGION_MIN || region_of_page(candidate)
                != region_of_page(candidate + (self.usage - 1)) {
                proof {
                    assert(!(offset == stack_offset_count && self.spec_fork_ready(
                        *old(mem),
                        t as int,
                        stack_offset_count,
                    )));
                }
                return Err(MapError::FrameAllocationFailed);
            }
            let ghost before = *mem;
            match mem.map_range(t, candidate, self.usage, true) {
                Ok(()) => {
                    proof {
                        assert(candidate + self.usage <= self.start);
                        assert forall|p: u64| self.start <= p < self.start + self.usage implies
                            mem.is_mapped(t as int, p) by {
                            assert(before.is_mapped(t as int, p));
                            assert(!(candidate <= p < candidate + self.usage));
                        }
                    }
                    let ghost mapped = *mem;
                    mem.clone_range(t, self.start, candidate, self.usage);
                    let child = Stack {
                        start: candidate,
                        end: candidate + self.usage,
                        usage: self.usage,
                    };
                    proof {
                        assert(spec_region_of_page(child.start) < spec_region_of_page(self.start))
                            by (nonlinear_arith)
                            requires
                                child.start + STACK_MAX_PAGES <= self.start,
                                child.start == self.start - offset,
                                offset >= STACK_MAX_PAGES,
                        ;
                        assert(child.end == self.end - offset);
                        assert(child.end % STACK_MAX_PAGES == 0) by (nonlinear_arith)
                            requires
                                child.end == self.end - offset,
                                self.end % STACK_MAX_PAGES == 0,
                                offset % STACK_MAX_PAGES == 0,
                                offset <= self.end,
                        ;
                        assert forall|p: u64| child.start <= p < child.end implies #[trigger] mem.page_at(
                            t as int,
                            p,
                        ).word == before.page_at(
                            t as int,
                            (self.start + (p - child.start)) as u64,
                        ).word by {
                            assert(mem.page_at(t as int, p) == (PageInfo {
                                user: mapped.page_at(t as int, p).user,
                                word: mapped.page_at(
                                    t as int,
                                    (self.start + (p - child.start)) as u64,
                                ).word,
                            }));
                            let q = (self.start + (p - child.start)) as u64;
                            assert(self.start <= q < self.start + self.usage);
                            assert(!(child.start <= q < child.start + self.usage));
                            assert(mapped.page_at(t as int, q) == before.page_at(t as int, q));
                        }
                        assert forall|p: u64| !(child.start <= p < child.end) implies (mem.is_mapped(
                            t as int,
                            p,
                        ) == before.is_mapped(t as int, p) && (before.is_mapped(t as int, p)
                            ==> mem.page_at(t as int, p) == before.page_at(t as int, p))) by {
                            assert(mapped.is_mapped(t as int, p) == before.is_mapped(t as int, p));
                        }
                    }
                    return Ok(child);
                },
                Err(MapError::FrameAllocationFailed) => {
                    proof {
                        assert(!self.spec_fork_ready(*old(mem), t as int, stack_offset_count))
                            by {
                            if self.spec_fork_ready(*old(mem), t as int, stack_offset_count) {
                                assert(offset == stack_offset_count);
                                assert(self.usage <= old(mem).frames_free);
                            }
                        }
                    }
                    return Err(MapError::FrameAllocationFailed);
                },
                Err(MapError::PageAlreadyMapped) => {
                    proof {
                        assert(!self.spec_fork_ready(*old(mem), t as int, stack_offset_count))
                            by {
                            if self.spec_fork_ready(*old(mem), t as int, stack_offset_count) {
                                assert(offset == stack_offset_count);
                                let w = choose|p: u64|
                                    candidate <= p < candidate + self.usage && old(mem).is_mapped(
                                        t as int,
                                        p,
                                    );
                                assert(!old(mem).is_mapped(t as int, w));
                            }
                        }
                    }
                    if offset > u64::MAX - STACK_MAX_PAGES {
                        return Err(MapError::FrameAllocationFailed);
                    }
                    offset = offset + STACK_MAX_PAGES;
                    proof {
                        assert(offset % STACK_MAX_PAGES == 0) by (nonlinear_arith)
                            requires
                                (offset - STACK_MAX_PAGES) % (STACK_MAX_PAGES as int) == 0,
                                offset >= STACK_MAX_PAGES,
                                STACK_MAX_PAGES == 0x100000,
                        ;
                    }
                },
            }
        }
    }

    /// Bytes the stack occupies.
    pub fn memory_usage(&self) -> (r: u64)
        requires
            self.wf(),
        ensures
            r == self.usage * PAGE_SIZE,
    {
        proof {
            assert(self.usage * PAGE_SIZE <= STACK_MAX_PAGES * PAGE_SIZE) by (nonlinear_arith)
                requires
                    self.usage <= STACK_MAX_PAGES,
            ;
        }
        self.usage * PAGE_SIZE
    }
}

/// A page in a stack's region sits below the stack's (region-aligned) end,
/// so a page at or above the start lies inside the mapped range.
pub proof fn lemma_on_stack_page_in_range(s: Stack, page: u64)
    requires
        s.wf(),
        s.usage > 0,
        spec_region_of_page(page) == s.region(),
        page >= s.start,
    ensures
        s.start <= page < s.end,
{
    let sp = STACK_MAX_PAGES as int;
    assert(page < s.end) by (nonlinear_arith)
        requires
            (page as int) / sp == (s.start as int) / sp,
            (s.start as int) / sp == ((s.end - 1) as int) / sp,
            (s.end as int) % sp == 0,
            s.start < s.end,
            sp == 0x100000,
            page >= s.start,
    ;
}

/// A probe shifted down from an aligned stack end by an aligned offset
/// stays within one legal region.
pub proof fn lemma_aligned_probe_in_one_region(end: u64, offset: u64, usage: u64, candidate: u64)
    requires
        end % STACK_MAX_PAGES == 0,
        offset % STACK_MAX_PAGES == 0,
        1 <= usage <= STACK_MAX_PAGES,
        offset < end,
        candidate == end - offset - usage,
    ensures
        spec_region_of_page(candidate) == spec_region_of_page((candidate + usage - 1) as u64),
{
    let s = STACK_MAX_PAGES as int;
    let e: int = end - offset;
    assert(e % s == 0) by (nonlinear_arith)
        requires
            (end as int) % s == 0,
            (offset as int) % s == 0,
            offset < end,
            s == 0x100000,
            e == end - offset,
    ;
    assert(e >= s) by (nonlinear_arith)
        requires
            e % s == 0,
            e >= usage,
            usage >= 1,
            s == 0x100000,
    ;
    assert((e - usage) / s == (e - 1) / s) by (nonlinear_arith)
        requires
            e % s == 0,
            e >= s,
            1 <= usage <= s,
            s == 0x100000,
    ;
    assert(spec_region_of_page(candidate) == ((e - usage) / s) as u64 && spec_region_of_page(
        (candidate + usage - 1) as u64,
    ) == ((e - 1) / s) as u64) by (nonlinear_arith)
        requires
            candidate == e - usage,
            1 <= usage <= s,
            e >= s,
            s == 0x100000,
            STACK_MAX_PAGES == 0x100000,
            e <= u64::MAX,
    ;
}

/// Pages between two pages of one region are in that region.
pub proof fn lemma_same_region_range(lo: u64, mid: u64, hi: u64)
    requires
        lo <= mid <= hi,
        spec_region_of_page(lo) == spec_region_of_page(hi),
    ensures
        forall|p: u64| lo <= p <= hi ==> spec_region_of_page(p) == spec_region_of_page(lo),
{
    assert forall|p: u64| lo <= p <= hi implies spec_region_of_page(p) == spec_region_of_page(
        lo,
    ) by {
        assert(lo / STACK_MAX_PAGES <= p / STACK_MAX_PAGES) by (nonlinear_arith)
            requires
                lo <= p,
        ;
        assert(p / STACK_MAX_PAGES <= hi / STACK_MAX_PAGES) by (nonlinear_arith)
            requires
                p <= hi,
        ;
    }
}

} // verus!
