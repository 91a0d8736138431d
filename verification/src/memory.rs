//! Model of the machine's memory: physical frames and per-address-space
//! page tables.
//!
//! The frame allocator and the page-table hardware are collaborators of the
//! process core, not part of it; this module holds them as explicit data so
//! that the scheduler, the stack-growth path and the heap can be verified
//! against an exact account of what is mapped where. A mapped page carries a
//! `user` flag and one representative `word` standing for its contents; a
//! fork's stack copy and a process's own stores are visible through it.

use vstd::prelude::*;

verus! {

/// Bytes per page.
pub const PAGE_SIZE: u64 = 4096;

/// Pages cannot reach beyond the 64-bit address space.
pub const MAX_PAGE: u64 = 0x10_0000_0000_0000;

/// Upper bound of the user-stack area.
pub const STACK_MAX: u64 = 0x4000_0000_0000;
/// Pages spanned by one stack region.
pub const STACK_MAX_PAGES: u64 = 0x100000;
/// Bytes spanned by one stack region.
pub const STACK_MAX_SIZE: u64 = STACK_MAX_PAGES * PAGE_SIZE;
/// Pages mapped for a fresh user stack.
pub const STACK_DEF_PAGE: u64 = 1;
/// Bytes mapped for a fresh user stack.
pub const STACK_DEF_SIZE: u64 = STACK_DEF_PAGE * PAGE_SIZE;
/// Bottom address of the first user stack.
pub const STACK_INIT_BOT: u64 = STACK_MAX - STACK_DEF_SIZE;
/// Top address of the first user stack.
pub const STACK_INIT_TOP: u64 = STACK_MAX - 8;

/// Upper bound of the kernel-stack area.
pub const KSTACK_MAX: u64 = 0xffff_ff02_0000_0000;
/// Pages mapped for the kernel stack.
pub const KSTACK_DEF_PAGE: u64 = 512;
/// Bytes mapped for the kernel stack.
pub const KSTACK_DEF_SIZE: u64 = KSTACK_DEF_PAGE * PAGE_SIZE;
/// Bottom address of the kernel stack.
pub const KSTACK_INIT_BOT: u64 = KSTACK_MAX - KSTACK_DEF_SIZE;
/// Top address of the kernel stack.
pub const KSTACK_INIT_TOP: u64 = KSTACK_MAX - 8;

/// Base address of every user heap; fixed forever.
pub const HEAP_START: u64 = 0x2000_0000_0000;
/// Greatest number of pages a heap may span.
pub const HEAP_PAGES: u64 = 0x100000;
/// Greatest number of bytes a heap may span.
pub const HEAP_SIZE: u64 = HEAP_PAGES * PAGE_SIZE;
/// Greatest address a heap end may take.
pub const HEAP_END: u64 = HEAP_START + HEAP_SIZE - 8;

/// The page holding `addr`.
pub open spec fn spec_page_of(addr: u64) -> u64 {
    addr / PAGE_SIZE
}

/// The page holding `addr`.
#[verifier::when_used_as_spec(spec_page_of)]
pub fn page_of(addr: u64) -> (p: u64)
    ensures
        p == spec_page_of(addr),
{
    addr / PAGE_SIZE
}

/// The stack region an address falls in: addresses agree here exactly when
/// they agree after masking with the stack-region mask.
pub open spec fn spec_region_of(addr: u64) -> u64 {
    addr / STACK_MAX_SIZE
}

/// The stack region an address falls in.
#[verifier::when_used_as_spec(spec_region_of)]
pub fn region_of(addr: u64) -> (r: u64)
    ensures
        r == spec_region_of(addr),
{
    addr / STACK_MAX_SIZE
}

/// The stack region a page falls in.
pub open spec fn spec_region_of_page(page: u64) -> u64 {
    page / STACK_MAX_PAGES
}

/// The stack region a page falls in.
#[verifier::when_used_as_spec(spec_region_of_page)]
pub fn region_of_page(page: u64) -> (r: u64)
    ensures
        r == spec_region_of_page(page),
{
    page / STACK_MAX_PAGES
}

/// What one mapped page holds: its access class and a representative word
/// standing for its contents.
#[derive(Clone, Copy, PartialEq, Eq, Structural, Debug)]
pub struct PageInfo {
    /// Whether user-mode code may touch the page.
    pub user: bool,
    /// Representative contents of the page; freshly mapped pages hold 0.
    pub word: u64,
}

/// One mapping of an address space: a page and what it holds.
#[derive(Clone, Copy, PartialEq, Eq, Structural, Debug)]
pub struct PageEntry {
    /// The mapped page.
    pub page: u64,
    /// What the page holds.
    pub info: PageInfo,
}

/// One top-level page table: the mappings of one address space, shared by a
/// parent and its forked children through a reference count, together with
/// the heap end of that address space (forked processes deliberately share
/// their heap bookkeeping with the parent).
pub struct PageTable {
    /// How many processes hold this table.
    pub refs: u64,
    /// The pages mapped in this address space.
    pub entries: Vec<PageEntry>,
    /// Current heap end of this address space, in `[HEAP_START, HEAP_END]`.
    pub heap_end: u64,
}

/// The mathematical content of a run of entries: page, then what it holds.
pub open spec fn entries_pages(s: Seq<PageEntry>) -> Map<u64, PageInfo>
    decreases s.len(),
{
    if s.len() == 0 {
        Map::empty()
    } else {
        entries_pages(s.drop_last()).insert(s.last().page, s.last().info)
    }
}

/// No page appears twice in a run of entries.
pub open spec fn entries_wf(s: Seq<PageEntry>) -> bool {
    forall|i: int, j: int| 0 <= i < j < s.len() ==> s[i].page != s[j].page
}

/// A page is in the content map exactly when some entry carries it.
pub proof fn lemma_pages_dom(s: Seq<PageEntry>, p: u64)
    ensures
        entries_pages(s).dom().contains(p) <==> exists|i: int| 0 <= i < s.len() && s[i].page == p,
    decreases s.len(),
{
    if s.len() > 0 {
        lemma_pages_dom(s.drop_last(), p);
        if entries_pages(s).dom().contains(p) {
            if p == s.last().page {
                assert(s[s.len() - 1].page == p);
            } else {
                let i = choose|i: int| 0 <= i < s.drop_last().len() && s.drop_last()[i].page == p;
                assert(s[i].page == p);
            }
        }
        if exists|i: int| 0 <= i < s.len() && s[i].page == p {
            let i = choose|i: int| 0 <= i < s.len() && s[i].page == p;
            if i < s.len() - 1 {
                assert(s.drop_last()[i].page == p);
            }
        }
    }
}

/// With no duplicate pages, the entry carrying a page decides its content.
pub proof fn lemma_pages_at(s: Seq<PageEntry>, i: int)
    requires
        entries_wf(s),
        0 <= i < s.len(),
    ensures
        entries_pages(s).dom().contains(s[i].page),
        entries_pages(s)[s[i].page] == s[i].info,
    decreases s.len(),
{
    if i == s.len() - 1 {
    } else {
        assert(entries_wf(s.drop_last()));
        assert(s.drop_last()[i] == s[i]);
        lemma_pages_at(s.drop_last(), i);
        assert(s[i].page != s.last().page);
    }
}

/// Removing the entry that carries a page removes exactly that page from the
/// content map.
pub proof fn lemma_pages_remove(s: Seq<PageEntry>, i: int)
    requires
        entries_wf(s),
        0 <= i < s.len(),
    ensures
        entries_pages(s.remove(i)) =~= entries_pages(s).remove(s[i].page),
        entries_wf(s.remove(i)),
    decreases s.len(),
{
    let p = s[i].page;
    assert forall|a: int, b: int| 0 <= a < b < s.remove(i).len() implies s.remove(i)[a].page
        != s.remove(i)[b].page by {
        if b < i {
            assert(s.remove(i)[a] == s[a] && s.remove(i)[b] == s[b]);
        } else if a < i {
            assert(s.remove(i)[a] == s[a] && s.remove(i)[b] == s[b + 1]);
        } else {
            assert(s.remove(i)[a] == s[a + 1] && s.remove(i)[b] == s[b + 1]);
        }
    }
    if i == s.len() - 1 {
        assert(s.remove(i) =~= s.drop_last());
        lemma_pages_dom(s.drop_last(), p);
        assert(!entries_pages(s.drop_last()).dom().contains(p));
        assert(entries_pages(s.drop_last()) =~= entries_pages(s).remove(p));
    } else {
        assert(s.remove(i).drop_last() =~= s.drop_last().remove(i));
        assert(s.remove(i).last() == s.last());
        assert(entries_wf(s.drop_last()));
        lemma_pages_remove(s.drop_last(), i);
        assert(s.drop_last()[i] == s[i]);
        assert(entries_pages(s.remove(i)) =~= entries_pages(s.drop_last().remove(i)).insert(
            s.last().page,
            s.last().info,
        ));
        assert(s.last().page != p);
    }
}

/// Mapping failures: the frame allocator ran dry, or a page in the requested
/// range is already mapped.
#[derive(Clone, Copy, PartialEq, Eq, Structural, Debug)]
pub enum MapError {
    /// No free physical frame was left for some page of the range.
    FrameAllocationFailed,
    /// Some page of the range is already mapped.
    PageAlreadyMapped,
}

/// Unmapping failure: a page of the range is not mapped.
#[derive(Clone, Copy, PartialEq, Eq, Structural, Debug)]
pub enum UnmapError {
    /// Some page of the range is not mapped.
    PageNotMapped,
}

/// Pages mapped over a whole sequence of tables; ties the frame counter to
/// the tables' contents.
pub open spec fn total_mapped(tables: Seq<PageTable>) -> int
    decreases tables.len(),
{
    if tables.len() == 0 {
        0
    } else {
        total_mapped(tables.drop_last()) + tables.last().entries@.len()
    }
}

/// A sequence of tables holds at least as many mappings as any one of them.
pub proof fn lemma_total_mapped_ge(tables: Seq<PageTable>, t: int)
    requires
        0 <= t < tables.len(),
    ensures
        total_mapped(tables) >= tables[t].entries@.len(),
        total_mapped(tables) >= 0,
    decreases tables.len(),
{
    lemma_total_mapped_nonneg(tables.drop_last());
    if t < tables.len() - 1 {
        lemma_total_mapped_ge(tables.drop_last(), t);
    }
}

/// No sequence of tables holds a negative number of mappings.
pub proof fn lemma_total_mapped_nonneg(tables: Seq<PageTable>)
    ensures
        total_mapped(tables) >= 0,
    decreases tables.len(),
{
    if tables.len() > 0 {
        lemma_total_mapped_nonneg(tables.drop_last());
    }
}

/// Replacing one table changes the total by the change in that table alone.
pub proof fn lemma_total_mapped_update(tables: Seq<PageTable>, updated: Seq<PageTable>, t: int)
    requires
        0 <= t < tables.len(),
        updated.len() == tables.len(),
        forall|u: int| 0 <= u < tables.len() && u != t ==> updated[u] == tables[u],
    ensures
        total_mapped(updated) == total_mapped(tables) + updated[t].entries@.len()
            - tables[t].entries@.len(),
    decreases tables.len(),
{
    if t == tables.len() - 1 {
        assert(updated.drop_last() =~= tables.drop_last());
    } else {
        assert(updated.last() == tables.last());
        lemma_total_mapped_update(tables.drop_last(), updated.drop_last(), t);
        assert(updated.drop_last()[t] == updated[t]);
        assert(tables.drop_last()[t] == tables[t]);
    }
}

/// The machine's memory: every address space's page table, and the state of
/// the physical frame allocator, with the table the CPU currently runs on.
pub struct Memory {
    /// All top-level tables ever created; index 0 is the kernel's.
    pub tables: Vec<PageTable>,
    /// Physical frames the machine owns.
    pub frames_total: u64,
    /// Physical frames not backing any mapping.
    pub frames_free: u64,
    /// Index of the table loaded on the CPU.
    pub active: usize,
}

impl Memory {
    /// Content map of one table.
    pub open spec fn table_pages(self, t: int) -> Map<u64, PageInfo> {
        entries_pages(self.tables@[t].entries@)
    }

    /// Whether `page` is mapped in table `t`.
    pub open spec fn is_mapped(self, t: int, page: u64) -> bool {
        self.table_pages(t).dom().contains(page)
    }

    /// The info of a mapped page of table `t`.
    pub open spec fn page_at(self, t: int, page: u64) -> PageInfo {
        self.table_pages(t)[page]
    }

    /// Number of tables.
    pub open spec fn table_count(self) -> int {
        self.tables@.len() as int
    }

    /// Every table is free of duplicate pages and the active table exists.
    pub open spec fn tables_wf(self) -> bool {
        &&& self.tables@.len() >= 1
        &&& forall|t: int|
            0 <= t < self.tables@.len() ==> entries_wf(#[trigger] self.tables@[t].entries@)
        &&& self.active < self.tables@.len()
    }

    /// The tables are well formed and the frame counters agree with the
    /// mappings.
    pub open spec fn wf(self) -> bool {
        &&& self.tables_wf()
        &&& total_mapped(self.tables@) + self.frames_free == self.frames_total
    }

    /// Physical frames currently backing mappings.
    pub open spec fn spec_frames_live(self) -> u64 {
        (self.frames_total - self.frames_free) as u64
    }

    /// Physical frames currently backing mappings.
    pub fn frames_live(&self) -> (n: u64)
        requires
            self.wf(),
        ensures
            n == self.spec_frames_live(),
    {
        proof {
            lemma_total_mapped_nonneg(self.tables@);
        }
        self.frames_total - self.frames_free
    }

    /// A machine with `frames_total` free frames and the kernel's (empty)
    /// address space loaded.
    pub fn new(frames_total: u64) -> (m: Memory)
        ensures
            m.wf(),
            m.table_count() == 1,
            m.tables@[0].refs == 1,
            m.table_pages(0) =~= Map::empty(),
            m.tables@[0].heap_end == HEAP_START,
            m.frames_total == frames_total,
            m.frames_free == frames_total,
            m.active == 0,
    {
        let mut tables: Vec<PageTable> = Vec::new();
        tables.push(PageTable { refs: 1, entries: Vec::new(), heap_end: HEAP_START });
        proof {
            assert(tables@.drop_last() =~= Seq::<PageTable>::empty());
            assert(total_mapped(tables@.drop_last()) == 0);
            assert(entries_pages(tables@[0].entries@) =~= Map::<u64, PageInfo>::empty());
        }
        Memory { tables, frames_total, frames_free: frames_total, active: 0 }
    }

    /// A fresh address space with nothing mapped and an empty heap; models
    /// cloning the kernel's top-level table for a spawned process (the
    /// kernel-space half that the hardware copies is not user data and is
    /// not tracked).
    pub fn new_table(&mut self) -> (t: usize)
        requires
            old(self).wf(),
        ensures
            final(self).wf(),
            t == old(self).table_count(),
            final(self).table_count() == old(self).table_count() + 1,
            final(self).tables@[t as int].refs == 1,
            final(self).tables@[t as int].heap_end == HEAP_START,
            final(self).table_pages(t as int) =~= Map::empty(),
            forall|u: int| 0 <= u < old(self).table_count() ==> final(self).tables@[u] == old(self).tables@[u],
            final(self).frames_total == old(self).frames_total,
            final(self).frames_free == old(self).frames_free,
            final(self).active == old(self).active,
    {
        let t = self.tables.len();
        self.tables.push(PageTable { refs: 1, entries: Vec::new(), heap_end: HEAP_START });
        proof {
            assert(self.tables@.drop_last() =~= old(self).tables@);
        }
        t
    }

    /// One more holder of table `t`; models handing the table to a forked
    /// child.
    pub fn share_table(&mut self, t: usize)
        requires
            old(self).wf(),
            t < old(self).table_count(),
            old(self).tables@[t as int].refs < u64::MAX,
        ensures
            final(self).wf(),
            final(self).tables@[t as int].refs == old(self).tables@[t as int].refs + 1,
            final(self).tables@[t as int].entries == old(self).tables@[t as int].entries,
            final(self).tables@[t as int].heap_end == old(self).tables@[t as int].heap_end,
            final(self).table_count() == old(self).table_count(),
            forall|u: int| 0 <= u < final(self).table_count() && u != t ==> final(self).tables@[u] == old(self).tables@[u],
            final(self).frames_total == old(self).frames_total,
            final(self).frames_free == old(self).frames_free,
            final(self).active == old(self).active,
    {
        let refs = self.tables[t].refs;
        self.tables[t].refs = refs + 1;
        proof {
            lemma_total_mapped_update(old(self).tables@, self.tables@, t as int);
        }
    }

    /// One less holder of table `t`; models a process dropping its handle.
    pub fn release_table(&mut self, t: usize)
        requires
            old(self).wf(),
            t < old(self).table_count(),
            old(self).tables@[t as int].refs >= 1,
        ensures
            final(self).wf(),
            final(self).tables@[t as int].refs == old(self).tables@[t as int].refs - 1,
            final(self).tables@[t as int].entries == old(self).tables@[t as int].entries,
            final(self).tables@[t as int].heap_end == old(self).tables@[t as int].heap_end,
            final(self).table_count() == old(self).table_count(),
            forall|u: int| 0 <= u < final(self).table_count() && u != t ==> final(self).tables@[u] == old(self).tables@[u],
            final(self).frames_total == old(self).frames_total,
            final(self).frames_free == old(self).frames_free,
            final(self).active == old(self).active,
    {
        let refs = self.tables[t].refs;
        self.tables[t].refs = refs - 1;
        proof {
            lemma_total_mapped_update(old(self).tables@, self.tables@, t as int);
        }
    }

    /// How many processes hold table `t`.
    pub fn using_count(&self, t: usize) -> (n: u64)
        requires
            t < self.table_count(),
        ensures
            n == self.tables@[t as int].refs,
    {
        self.tables[t].refs
    }

    /// Loads table `t` on the CPU; the one place an address-space switch
    /// happens.
    pub fn load_table(&mut self, t: usize)
        requires
            old(self).wf(),
            t < old(self).table_count(),
        ensures
            final(self).wf(),
            final(self).active == t,
            final(self).tables == old(self).tables,
            final(self).frames_total == old(self).frames_total,
            final(self).frames_free == old(self).frames_free,
    {
        self.active = t;
    }

    /// Heap end of table `t`.
    pub fn heap_end_of(&self, t: usize) -> (e: u64)
        requires
            t < self.table_count(),
        ensures
            e == self.tables@[t as int].heap_end,
    {
        self.tables[t].heap_end
    }

    /// Records a new heap end for table `t`; the mappings it stands for are
    /// the heap's own concern.
    pub fn set_heap_end(&mut self, t: usize, end: u64)
        requires
            old(self).wf(),
            t < old(self).table_count(),
        ensures
            final(self).wf(),
            final(self).tables@[t as int].heap_end == end,
            final(self).tables@[t as int].refs == old(self).tables@[t as int].refs,
            final(self).tables@[t as int].entries == old(self).tables@[t as int].entries,
            final(self).table_pages(t as int) == old(self).table_pages(t as int),
            final(self).table_count() == old(self).table_count(),
            forall|u: int| 0 <= u < final(self).table_count() && u != t ==> final(self).tables@[u] == old(self).tables@[u],
            final(self).frames_total == old(self).frames_total,
            final(self).frames_free == old(self).frames_free,
            final(self).active == old(self).active,
    {
        self.tables[t].heap_end = end;
        proof {
            lemma_total_mapped_update(old(self).tables@, self.tables@, t as int);
        }
    }

    /// The index of the entry of table `t` carrying `page`, if any.
    fn find_entry(&self, t: usize, page: u64) -> (r: Option<usize>)
        requires
            self.tables_wf(),
            t < self.table_count(),
        ensures
            match r {
                Some(i) => i < self.tables@[t as int].entries@.len() && self.tables@[t as int].entries@[i as int].page
                    == page && self.is_mapped(t as int, page) && self.page_at(t as int, page)
                    == self.tables@[t as int].entries@[i as int].info,
                None => !self.is_mapped(t as int, page),
            },
    {
        let entries = &self.tables[t].entries;
        let n = entries.len();
        let mut i: usize = 0;
        while i < n
            invariant
                n == entries@.len(),
                i <= n,
                forall|j: int| 0 <= j < i ==> entries@[j].page != page,
                entries == self.tables@[t as int].entries,
                self.tables_wf(),
                t < self.table_count(),
            decreases n - i,
        {
            if entries[i].page == page {
                proof {
                    lemma_pages_at(entries@, i as int);
                }
                return Some(i);
            }
            i += 1;
        }
        proof {
            lemma_pages_dom(entries@, page);
        }
        None
    }

    /// Whether `page` is mapped in table `t`.
    pub fn query(&self, t: usize, page: u64) -> (r: bool)
        requires
            self.tables_wf(),
            t < self.table_count(),
        ensures
            r == self.is_mapped(t as int, page),
    {
        self.find_entry(t, page).is_some()
    }

    /// Maps `count` fresh zero-filled pages `[start, start + count)` into
    /// table `t`. Succeeds exactly when a frame is free for every page and no
    /// page of the range is already mapped; on failure nothing changes.
    pub fn map_range(&mut self, t: usize, start: u64, count: u64, user: bool) -> (r: Result<
        (),
        MapError,
    >)
        requires
            old(self).wf(),
            t < old(self).table_count(),
            start + count <= MAX_PAGE,
        ensures
            final(self).wf(),
            final(self).table_count() == old(self).table_count(),
            final(self).active == old(self).active,
            final(self).frames_total == old(self).frames_total,
            final(self).tables@[t as int].refs == old(self).tables@[t as int].refs,
            final(self).tables@[t as int].heap_end == old(self).tables@[t as int].heap_end,
            forall|u: int|
                0 <= u < final(self).table_count() && u != t ==> final(self).tables@[u] == old(self).tables@[u],
            r == Err::<(), MapError>(MapError::FrameAllocationFailed) <==> count > old(
                self,
            ).frames_free,
            r == Err::<(), MapError>(MapError::PageAlreadyMapped) <==> (count <= old(
                self,
            ).frames_free && exists|p: u64|
                start <= p < start + count && old(self).is_mapped(t as int, p)),
            r is Err ==> *final(self) == *old(self),
            r is Ok ==> {
                &&& final(self).frames_free == old(self).frames_free - count
                &&& forall|p: u64|
                    start <= p < start + count ==> final(self).is_mapped(t as int, p) && final(self).page_at(
                        t as int,
                        p,
                    ) == (PageInfo { user, word: 0 })
                &&& forall|p: u64|
                    !(start <= p < start + count) ==> (final(self).is_mapped(t as int, p) == old(
                        self,
                    ).is_mapped(t as int, p) && (old(self).is_mapped(t as int, p)
                        ==> final(self).page_at(t as int, p) == old(self).page_at(t as int, p)))
                &&& forall|p: u64|
                    start <= p < start + count ==> !old(self).is_mapped(t as int, p)
            },
    {
        let ghost orig = *old(self);
        if count > self.frames_free {
            return Err(MapError::FrameAllocationFailed);
        }
        let mut i: u64 = 0;
        while i < count
            invariant
                *self == orig,
                orig.wf(),
                t < orig.table_count(),
                i <= count,
                count <= orig.frames_free,
                start + count <= MAX_PAGE,
                forall|p: u64| start <= p < start + i ==> !orig.is_mapped(t as int, p),
            decreases count - i,
        {
            if self.find_entry(t, start + i).is_some() {
                proof {
                    assert(orig.is_mapped(t as int, (start + i) as u64));
                }
                return Err(MapError::PageAlreadyMapped);
            }
            i += 1;
        }
        let ghost pre = *self;
        let mut i: u64 = 0;
        while i < count
            invariant
                self.tables_wf(),
                pre == orig,
                orig.wf(),
                t < self.table_count(),
                i <= count,
                count <= orig.frames_free,
                start + count <= MAX_PAGE,
                self.table_count() == pre.table_count(),
                self.active == pre.active,
                self.frames_total == pre.frames_total,
                self.frames_free == pre.frames_free - i,
                self.tables@[t as int].refs == pre.tables@[t as int].refs,
                self.tables@[t as int].heap_end == pre.tables@[t as int].heap_end,
                total_mapped(self.tables@) == total_mapped(pre.tables@) + i,
                forall|u: int|
                    0 <= u < self.table_count() && u != t ==> self.tables@[u] == pre.tables@[u],
                forall|p: u64| start <= p < start + count ==> !pre.is_mapped(t as int, p),
                forall|p: u64|
                    start <= p < start + i ==> self.is_mapped(t as int, p) && self.page_at(
                        t as int,
                        p,
                    ) == (PageInfo { user, word: 0 }),
                forall|p: u64|
                    !(start <= p < start + i) ==> (self.is_mapped(t as int, p) == pre.is_mapped(
                        t as int,
                        p,
                    ) && (pre.is_mapped(t as int, p) ==> self.page_at(t as int, p) == pre.page_at(
                        t as int,
                        p,
                    ))),
            decreases count - i,
        {
            let ghost before = *self;
            let entry = PageEntry { page: start + i, info: PageInfo { user, word: 0 } };
            self.tables[t].entries.push(entry);
            self.frames_free = self.frames_free - 1;
            proof {
                lemma_total_mapped_update(before.tables@, self.tables@, t as int);
                let s = self.tables@[t as int].entries@;
                assert(s.drop_last() =~= before.tables@[t as int].entries@);
                assert(entries_pages(s) =~= entries_pages(s.drop_last()).insert(
                    entry.page,
                    entry.info,
                ));
                assert(!pre.is_mapped(t as int, (start + i) as u64));
                assert(!before.is_mapped(t as int, (start + i) as u64));
                lemma_pages_dom(before.tables@[t as int].entries@, (start + i) as u64);
                assert forall|a: int, b: int| 0 <= a < b < s.len() implies s[a].page
                    != s[b].page by {
                    if b == s.len() - 1 {
                        assert(s[a] == before.tables@[t as int].entries@[a]);
                        assert(s[a].page != (start + i) as u64);
                    }
                }
                assert(self.table_pages(t as int) =~= before.table_pages(t as int).insert(
                    (start + i) as u64,
                    PageInfo { user, word: 0 },
                ));
                assert forall|p: u64| start <= p < start + i + 1 implies self.is_mapped(
                    t as int,
                    p,
                ) && self.page_at(t as int, p) == (PageInfo { user, word: 0 }) by {
                    if p == (start + i) as u64 {
                    } else {
                        assert(before.is_mapped(t as int, p));
                    }
                }
                assert forall|p: u64| !(start <= p < start + i + 1) implies (self.is_mapped(
                    t as int,
                    p,
                ) == pre.is_mapped(t as int, p) && (pre.is_mapped(t as int, p) ==> self.page_at(
                    t as int,
                    p,
                ) == pre.page_at(t as int, p))) by {
                    assert(p != (start + i) as u64);
                    assert(before.is_mapped(t as int, p) == pre.is_mapped(t as int, p));
                }
            }
            i += 1;
        }
        proof {
            assert(i == count);
            assert forall|p: u64| start <= p < start + count implies self.is_mapped(t as int, p)
                && self.page_at(t as int, p) == (PageInfo { user, word: 0 }) by {
                assert(start <= p < start + i);
            }
            assert forall|p: u64| !(start <= p < start + count) implies (self.is_mapped(t as int, p)
                == orig.is_mapped(t as int, p) && (orig.is_mapped(t as int, p) ==> self.page_at(
                t as int,
                p,
            ) == orig.page_at(t as int, p))) by {
                assert(!(start <= p < start + i));
            }
        }
        Ok(())
    }

    /// Unmaps the pages `[start, start + count)` from table `t`, returning
    /// their frames. Succeeds exactly when every page of the range is mapped;
    /// on failure nothing changes.
    pub fn unmap_range(&mut self, t: usize, start: u64, count: u64) -> (r: Result<(), UnmapError>)
        requires
            old(self).wf(),
            t < old(self).table_count(),
            start + count <= MAX_PAGE,
        ensures
            final(self).wf(),
            final(self).table_count() == old(self).table_count(),
            final(self).active == old(self).active,
            final(self).frames_total == old(self).frames_total,
            final(self).tables@[t as int].refs == old(self).tables@[t as int].refs,
            final(self).tables@[t as int].heap_end == old(self).tables@[t as int].heap_end,
            forall|u: int|
                0 <= u < final(self).table_count() && u != t ==> final(self).tables@[u] == old(self).tables@[u],
            r is Ok <==> forall|p: u64|
                start <= p < start + count ==> old(self).is_mapped(t as int, p),
            r is Err ==> *final(self) == *old(self),
            r is Ok ==> {
                &&& final(self).frames_free == old(self).frames_free + count
                &&& forall|p: u64|
                    start <= p < start + count ==> !final(self).is_mapped(t as int, p)
                &&& forall|p: u64|
                    !(start <= p < start + count) ==> (final(self).is_mapped(t as int, p) == old(
                        self,
                    ).is_mapped(t as int, p) && (old(self).is_mapped(t as int, p)
                        ==> final(self).page_at(t as int, p) == old(self).page_at(t as int, p)))
            },
    {
        let ghost orig = *old(self);
        let mut i: u64 = 0;
        while i < count
            invariant
                *self == orig,
                orig.wf(),
                t < orig.table_count(),
                i <= count,
                start + count <= MAX_PAGE,
                forall|p: u64| start <= p < start + i ==> orig.is_mapped(t as int, p),
            decreases count - i,
        {
            if self.find_entry(t, start + i).is_none() {
                proof {
                    assert(!orig.is_mapped(t as int, (start + i) as u64));
                }
                return Err(UnmapError::PageNotMapped);
            }
            i += 1;
        }
        let ghost pre = *self;
        let mut i: u64 = 0;
        while i < count
            invariant
                self.tables_wf(),
                pre == orig,
                orig.wf(),
                t < self.table_count(),
                i <= count,
                start + count <= MAX_PAGE,
                self.table_count() == pre.table_count(),
                self.active == pre.active,
                self.frames_total == pre.frames_total,
                self.frames_free == pre.frames_free + i,
                self.tables@[t as int].refs == pre.tables@[t as int].refs,
                self.tables@[t as int].heap_end == pre.tables@[t as int].heap_end,
                total_mapped(self.tables@) == total_mapped(pre.tables@) - i,
                forall|u: int|
                    0 <= u < self.table_count() && u != t ==> self.tables@[u] == pre.tables@[u],
                forall|p: u64| start <= p < start + count ==> pre.is_mapped(t as int, p),
                forall|p: u64| start <= p < start + i ==> !self.is_mapped(t as int, p),
                forall|p: u64|
                    !(start <= p < start + i) ==> (self.is_mapped(t as int, p) == pre.is_mapped(
                        t as int,
                        p,
                    ) && (pre.is_mapped(t as int, p) ==> self.page_at(t as int, p) == pre.page_at(
                        t as int,
                        p,
                    ))),
            decreases count - i,
        {
            let ghost before = *self;
            proof {
                assert(pre.is_mapped(t as int, (start + i) as u64));
                assert(before.is_mapped(t as int, (start + i) as u64));
            }
            match self.find_entry(t, start + i) {
                Some(k) => {
                    self.tables[t].entries.remove(k);
                    proof {
                        lemma_total_mapped_nonneg(self.tables@);
                        lemma_total_mapped_update(before.tables@, self.tables@, t as int);
                    }
                    self.frames_free = self.frames_free + 1;
                    proof {
                        lemma_pages_remove(before.tables@[t as int].entries@, k as int);
                        assert(self.table_pages(t as int) =~= before.table_pages(t as int).remove(
                            (start + i) as u64,
                        ));
                        assert forall|p: u64| start <= p < start + i + 1 implies !self.is_mapped(
                            t as int,
                            p,
                        ) by {
                            if p != (start + i) as u64 {
                                assert(!before.is_mapped(t as int, p));
                            }
                        }
                        assert forall|p: u64| !(start <= p < start + i + 1) implies (
                        self.is_mapped(t as int, p) == pre.is_mapped(t as int, p) && (
                        pre.is_mapped(t as int, p) ==> self.page_at(t as int, p) == pre.page_at(
                            t as int,
                            p,
                        ))) by {
                            assert(p != (start + i) as u64);
                            assert(before.is_mapped(t as int, p) == pre.is_mapped(t as int, p));
                        }
                    }
                },
                None => {
                    unreached()
                },
            }
            i += 1;
        }
        proof {
            assert(i == count);
            assert forall|p: u64| start <= p < start + count implies !self.is_mapped(
                t as int,
                p,
            ) by {
                assert(start <= p < start + i);
            }
            assert forall|p: u64| !(start <= p < start + count) implies (self.is_mapped(t as int, p)
                == orig.is_mapped(t as int, p) && (orig.is_mapped(t as int, p) ==> self.page_at(
                t as int,
                p,
            ) == orig.page_at(t as int, p))) by {
                assert(!(start <= p < start + i));
            }
        }
        Ok(())
    }

    /// Stores `value` in `page` of table `t`. Succeeds exactly when the page
    /// is mapped.
    pub fn set_word(&mut self, t: usize, page: u64, value: u64) -> (r: bool)
        requires
            old(self).wf(),
            t < old(self).table_count(),
        ensures
            final(self).wf(),
            final(self).table_count() == old(self).table_count(),
            final(self).active == old(self).active,
            final(self).frames_total == old(self).frames_total,
            final(self).frames_free == old(self).frames_free,
            final(self).tables@[t as int].refs == old(self).tables@[t as int].refs,
            final(self).tables@[t as int].heap_end == old(self).tables@[t as int].heap_end,
            forall|u: int|
                0 <= u < final(self).table_count() && u != t ==> final(self).tables@[u] == old(
                    self,
                ).tables@[u],
            r == old(self).is_mapped(t as int, page),
            !r ==> final(self).tables@[t as int].entries == old(self).tables@[t as int].entries,
            r ==> final(self).table_pages(t as int) =~= old(self).table_pages(t as int).insert(
                page,
                PageInfo { user: old(self).page_at(t as int, page).user, word: value },
            ),
    {
        match self.find_entry(t, page) {
            Some(k) => {
                let user = self.tables[t].entries[k].info.user;
                let ghost before = *self;
                self.tables[t].entries[k] = PageEntry { page, info: PageInfo { user, word: value } };
                proof {
                    lemma_total_mapped_update(before.tables@, self.tables@, t as int);
                    let s0 = before.tables@[t as int].entries@;
                    let s1 = self.tables@[t as int].entries@;
                    assert forall|a: int, b: int| 0 <= a < b < s1.len() implies s1[a].page
                        != s1[b].page by {
                        assert(s1[a].page == s0[a].page && s1[b].page == s0[b].page);
                    }
                    lemma_pages_update(s0, k as int, PageInfo { user, word: value });
                }
                true
            },
            None => false,
        }
    }

    /// The word held by `page` of table `t`, if mapped.
    pub fn get_word(&self, t: usize, page: u64) -> (r: Option<u64>)
        requires
            self.tables_wf(),
            t < self.table_count(),
        ensures
            match r {
                Some(w) => self.is_mapped(t as int, page) && w == self.page_at(t as int, page).word,
                None => !self.is_mapped(t as int, page),
            },
    {
        match self.find_entry(t, page) {
            Some(k) => Some(self.tables[t].entries[k].info.word),
            None => None,
        }
    }

    /// Stores `value` in the page of table `t` holding `addr`. Succeeds
    /// exactly when that page is mapped.
    pub fn write_word(&mut self, t: usize, addr: u64, value: u64) -> (r: bool)
        requires
            old(self).wf(),
            t < old(self).table_count(),
        ensures
            final(self).wf(),
            final(self).table_count() == old(self).table_count(),
            final(self).active == old(self).active,
            final(self).frames_total == old(self).frames_total,
            final(self).frames_free == old(self).frames_free,
            final(self).tables@[t as int].refs == old(self).tables@[t as int].refs,
            final(self).tables@[t as int].heap_end == old(self).tables@[t as int].heap_end,
            forall|u: int|
                0 <= u < final(self).table_count() && u != t ==> final(self).tables@[u] == old(
                    self,
                ).tables@[u],
            r == old(self).is_mapped(t as int, page_of(addr)),
            !r ==> final(self).tables@[t as int].entries == old(self).tables@[t as int].entries,
            r ==> final(self).table_pages(t as int) =~= old(self).table_pages(t as int).insert(
                page_of(addr),
                PageInfo { user: old(self).page_at(t as int, page_of(addr)).user, word: value },
            ),
    {
        let page = page_of(addr);
        self.set_word(t, page, value)
    }

    /// The word held by the page of table `t` holding `addr`, if mapped.
    pub fn read_word(&self, t: usize, addr: u64) -> (r: Option<u64>)
        requires
            self.tables_wf(),
            t < self.table_count(),
        ensures
            match r {
                Some(w) => self.is_mapped(t as int, page_of(addr)) && w == self.page_at(
                    t as int,
                    page_of(addr),
                ).word,
                None => !self.is_mapped(t as int, page_of(addr)),
            },
    {
        self.get_word(t, page_of(addr))
    }

    /// Copies the words of the `count` pages at `src` onto the pages at
    /// `dst` in table `t`; the ranges must be mapped and must not overlap.
    pub fn clone_range(&mut self, t: usize, src: u64, dst: u64, count: u64)
        requires
            old(self).wf(),
            t < old(self).table_count(),
            src + count <= MAX_PAGE,
            dst + count <= MAX_PAGE,
            forall|p: u64| src <= p < src + count ==> old(self).is_mapped(t as int, p),
            forall|p: u64| dst <= p < dst + count ==> old(self).is_mapped(t as int, p),
            dst + count <= src || src + count <= dst,
        ensures
            final(self).wf(),
            final(self).table_count() == old(self).table_count(),
            final(self).active == old(self).active,
            final(self).frames_total == old(self).frames_total,
            final(self).frames_free == old(self).frames_free,
            final(self).tables@[t as int].refs == old(self).tables@[t as int].refs,
            final(self).tables@[t as int].heap_end == old(self).tables@[t as int].heap_end,
            forall|u: int|
                0 <= u < final(self).table_count() && u != t ==> final(self).tables@[u] == old(
                    self,
                ).tables@[u],
            forall|p: u64| dst <= p < dst + count ==> #[trigger] final(self).is_mapped(t as int, p),
            forall|p: u64|
                dst <= p < dst + count ==> #[trigger] final(self).page_at(t as int, p)
                    == (PageInfo {
                    user: old(self).page_at(t as int, p).user,
                    word: old(self).page_at(t as int, (src + (p - dst)) as u64).word,
                }),
            forall|p: u64|
                !(dst <= p < dst + count) ==> (final(self).is_mapped(t as int, p) == old(
                    self,
                ).is_mapped(t as int, p) && (old(self).is_mapped(t as int, p) ==> final(self).page_at(t as int, p) == old(self).page_at(t as int, p))),
    {
        let ghost orig = *old(self);
        let mut i: u64 = 0;
        while i < count
            invariant
                self.wf(),
                orig.wf(),
                t < self.table_count(),
                i <= count,
                src + count <= MAX_PAGE,
                dst + count <= MAX_PAGE,
                dst + count <= src || src + count <= dst,
                self.table_count() == orig.table_count(),
                self.active == orig.active,
                self.frames_total == orig.frames_total,
                self.frames_free == orig.frames_free,
                self.tables@[t as int].refs == orig.tables@[t as int].refs,
                self.tables@[t as int].heap_end == orig.tables@[t as int].heap_end,
                forall|u: int|
                    0 <= u < self.table_count() && u != t ==> self.tables@[u] == orig.tables@[u],
                forall|p: u64| src <= p < src + count ==> orig.is_mapped(t as int, p),
                forall|p: u64| dst <= p < dst + count ==> orig.is_mapped(t as int, p),
                forall|p: u64| dst <= p < dst + i ==> #[trigger] self.is_mapped(t as int, p),
                forall|p: u64|
                    dst <= p < dst + i ==> #[trigger] self.page_at(t as int, p) == (PageInfo {
                        user: orig.page_at(t as int, p).user,
                        word: orig.page_at(t as int, (src + (p - dst)) as u64).word,
                    }),
                forall|p: u64|
                    !(dst <= p < dst + i) ==> (self.is_mapped(t as int, p) == orig.is_mapped(
                        t as int,
                        p,
                    ) && (orig.is_mapped(t as int, p) ==> self.page_at(t as int, p) == orig.page_at(
                        t as int,
                        p,
                    ))),
            decreases count - i,
        {
            let ghost before = *self;
            let ghost sp = (src + i) as u64;
            let ghost dp = (dst + i) as u64;
            proof {
                assert(!(dst <= sp && sp < dst + i));
                assert(orig.is_mapped(t as int, sp));
                assert(before.is_mapped(t as int, sp));
                assert(!(dst <= dp && dp < dst + i));
                assert(orig.is_mapped(t as int, dp));
                assert(before.is_mapped(t as int, dp));
            }
            let w = match self.get_word(t, src + i) {
                Some(w) => w,
                None => { unreached() },
            };
            let ok = self.set_word(t, dst + i, w);
            proof {
                assert(ok);
                assert(w == orig.page_at(t as int, (src + i) as u64).word);
                assert(before.page_at(t as int, (dst + i) as u64) == orig.page_at(
                    t as int,
                    (dst + i) as u64,
                ));
                assert(self.table_pages(t as int) =~= before.table_pages(t as int).insert(
                    (dst + i) as u64,
                    PageInfo {
                        user: before.page_at(t as int, (dst + i) as u64).user,
                        word: w,
                    },
                ));
                assert forall|p: u64| dst <= p < dst + i + 1 implies #[trigger] self.is_mapped(
                    t as int,
                    p,
                ) by {
                    if p != (dst + i) as u64 {
                        assert(before.is_mapped(t as int, p));
                    }
                }
                assert forall|p: u64| dst <= p < dst + i + 1 implies #[trigger] self.page_at(
                    t as int,
                    p,
                ) == (PageInfo {
                    user: orig.page_at(t as int, p).user,
                    word: orig.page_at(t as int, (src + (p - dst)) as u64).word,
                }) by {
                    if p == (dst + i) as u64 {
                        assert(self.page_at(t as int, p).word == w);
                        assert((src + (p - dst)) as u64 == (src + i) as u64);
                    } else {
                        assert(before.is_mapped(t as int, p));
                        assert(before.page_at(t as int, p) == (PageInfo {
                            user: orig.page_at(t as int, p).user,
                            word: orig.page_at(t as int, (src + (p - dst)) as u64).word,
                        }));
                    }
                }
                assert forall|p: u64| !(dst <= p < dst + i + 1) implies (self.is_mapped(t as int, p)
                    == orig.is_mapped(t as int, p) && (orig.is_mapped(t as int, p)
                    ==> self.page_at(t as int, p) == orig.page_at(t as int, p))) by {
                    assert(p != (dst + i) as u64);
                    assert(before.is_mapped(t as int, p) == orig.is_mapped(t as int, p));
                }
            }
            i += 1;
        }
        proof {
            assert(i == count);
        }
    }

}

/// Updating the entry at `i` to carry the same page with new info updates
/// exactly that page's content.
pub proof fn lemma_pages_update(s: Seq<PageEntry>, i: int, info: PageInfo)
    requires
        entries_wf(s),
        0 <= i < s.len(),
    ensures
        entries_pages(s.update(i, PageEntry { page: s[i].page, info })) =~= entries_pages(
            s,
        ).insert(s[i].page, info),
    decreases s.len(),
{
    let e = PageEntry { page: s[i].page, info };
    if i == s.len() - 1 {
        assert(s.update(i, e).drop_last() =~= s.drop_last());
        assert(s.update(i, e).last() == e);
    } else {
        assert(s.update(i, e).drop_last() =~= s.drop_last().update(i, e));
        assert(s.update(i, e).last() == s.last());
        assert(entries_wf(s.drop_last()));
        assert(s.drop_last()[i] == s[i]);
        lemma_pages_update(s.drop_last(), i, info);
        assert(s.last().page != s[i].page);
    }
}

} // verus!
