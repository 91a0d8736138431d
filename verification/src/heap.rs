//! A process's runtime heap: the pages covering `[HEAP_START, end]`.
//!
//! The base is fixed forever; the end moves only through [`brk`]. The end
//! lives in the address space's page table entry, so a forked child, which
//! shares the table, deliberately shares the heap bookkeeping with its
//! parent. Growing maps exactly the newly covered whole pages and shrinking
//! unmaps the newly excluded ones; the end is updated only after the mapping
//! work succeeded.

use crate::memory::{
    page_of, spec_page_of, MapError, Memory, HEAP_END, HEAP_PAGES, HEAP_START,
};
use vstd::prelude::*;

verus! {

/// Pages covering the heap `[HEAP_START, end]`; none while the heap is empty.
pub open spec fn spec_heap_page_count(end: u64) -> u64 {
    if end == HEAP_START {
        0
    } else {
        (spec_page_of(end) + 1 - spec_page_of(HEAP_START)) as u64
    }
}

/// Pages covering the heap `[HEAP_START, end]`.
#[verifier::when_used_as_spec(spec_heap_page_count)]
pub fn heap_page_count(end: u64) -> (n: u64)
    requires
        HEAP_START <= end <= HEAP_END,
    ensures
        n == spec_heap_page_count(end),
        n <= HEAP_PAGES,
{
    if end == HEAP_START {
        0
    } else {
        page_of(end) + 1 - page_of(HEAP_START)
    }
}

/// The heap bookkeeping of table `t` is sound: the end is in range, the
/// covering pages are mapped, and the rest of the heap area is free.
pub open spec fn heap_wf(mem: Memory, t: int) -> bool {
    &&& HEAP_START <= mem.tables@[t].heap_end <= HEAP_END
    &&& forall|p: u64|
        spec_page_of(HEAP_START) <= p < spec_page_of(HEAP_START) + spec_heap_page_count(
            mem.tables@[t].heap_end,
        ) ==> mem.is_mapped(t, p)
    &&& forall|p: u64|
        spec_page_of(HEAP_START) + spec_heap_page_count(mem.tables@[t].heap_end) <= p
            < spec_page_of(HEAP_START) + HEAP_PAGES ==> !mem.is_mapped(t, p)
}

/// Sets the heap end of table `t`. `None` asks for the current end. An
/// explicit end outside `[HEAP_START, HEAP_END]` is rejected and nothing
/// changes. Growing succeeds exactly when a frame is free for every newly
/// covered page; shrinking always succeeds; on failure nothing changes.
pub fn brk(mem: &mut Memory, t: usize, new_end: Option<u64>, user: bool) -> (r: Option<u64>)
    requires
        old(mem).wf(),
        t < old(mem).table_count(),
        heap_wf(*old(mem), t as int),
    ensures
        final(mem).wf(),
        heap_wf(*final(mem), t as int),
        final(mem).table_count() == old(mem).table_count(),
        final(mem).active == old(mem).active,
        final(mem).frames_total == old(mem).frames_total,
        final(mem).tables@[t as int].refs == old(mem).tables@[t as int].refs,
        forall|u: int|
            0 <= u < final(mem).table_count() && u != t ==> final(mem).tables@[u] == old(mem).tables@[u],
        match new_end {
            None => r == Some(old(mem).tables@[t as int].heap_end) && *final(mem) == *old(mem),
            Some(x) => {
                &&& !(HEAP_START <= x <= HEAP_END) ==> r is None && *final(mem) == *old(mem)
                &&& r is None ==> *final(mem) == *old(mem)
                &&& HEAP_START <= x <= HEAP_END ==> (r is Some <==> spec_heap_page_count(x)
                    <= spec_heap_page_count(old(mem).tables@[t as int].heap_end) || (
                spec_heap_page_count(x) - spec_heap_page_count(
                    old(mem).tables@[t as int].heap_end,
                )) <= old(mem).frames_free)
                &&& r is Some ==> r == Some(x) && final(mem).tables@[t as int].heap_end == x
                &&& r is Some ==> forall|p: u64|
                    !(spec_page_of(HEAP_START) <= p < spec_page_of(HEAP_START) + HEAP_PAGES) ==> (
                    final(mem).is_mapped(t as int, p) == old(mem).is_mapped(t as int, p) && (old(mem).is_mapped(t as int, p) ==> final(mem).page_at(t as int, p) == old(mem).page_at(t as int, p)))
            },
        },
{
    let cur = mem.heap_end_of(t);
    let x = match new_end {
        None => {
            return Some(cur);
        },
        Some(x) => x,
    };
    if x < HEAP_START || x > HEAP_END {
        return None;
    }
    let hp0 = page_of(HEAP_START);
    let hpc = heap_page_count(cur);
    let hpn = heap_page_count(x);
    if hpn > hpc {
        match mem.map_range(t, hp0 + hpc, hpn - hpc, user) {
            Ok(()) => {
                let ghost mapped = *mem;
                mem.set_heap_end(t, x);
                proof {
                    assert(mem.table_pages(t as int) == mapped.table_pages(t as int));
                    assert forall|p: u64| hp0 <= p < hp0 + hpn implies mem.is_mapped(
                        t as int,
                        p,
                    ) by {
                        if p < hp0 + hpc {
                            assert(old(mem).is_mapped(t as int, p));
                            assert(!(hp0 + hpc <= p < hp0 + hpc + (hpn - hpc)));
                            assert(mapped.is_mapped(t as int, p));
                        } else {
                            assert(hp0 + hpc <= p < hp0 + hpc + (hpn - hpc));
                            assert(mapped.is_mapped(t as int, p));
                        }
                        assert(mem.table_pages(t as int).dom() == mapped.table_pages(
                            t as int,
                        ).dom());
                    }
                    assert forall|p: u64| hp0 + hpn <= p < hp0 + HEAP_PAGES implies !mem.is_mapped(
                        t as int,
                        p,
                    ) by {
                        assert(!old(mem).is_mapped(t as int, p));
                        assert(!(hp0 + hpc <= p < hp0 + hpc + (hpn - hpc)));
                        assert(!mapped.is_mapped(t as int, p));
                        assert(mem.table_pages(t as int).dom() == mapped.table_pages(
                            t as int,
                        ).dom());
                    }
                }
                Some(x)
            },
            Err(e) => {
                proof {
                    assert forall|p: u64| hp0 + hpc <= p < hp0 + hpc + (hpn - hpc) implies !old(
                        mem,
                    ).is_mapped(t as int, p) by {
                        assert(hp0 + spec_heap_page_count(cur) <= p < hp0 + HEAP_PAGES);
                    }
                    assert(e == MapError::FrameAllocationFailed);
                }
                None
            },
        }
    } else if hpn < hpc {
        match mem.unmap_range(t, hp0 + hpn, hpc - hpn) {
            Ok(()) => {
                let ghost unmapped = *mem;
                mem.set_heap_end(t, x);
                proof {
                    assert(mem.table_pages(t as int) == unmapped.table_pages(t as int));
                    assert forall|p: u64| hp0 <= p < hp0 + hpn implies mem.is_mapped(
                        t as int,
                        p,
                    ) by {
                        assert(old(mem).is_mapped(t as int, p));
                        assert(!(hp0 + hpn <= p < hp0 + hpn + (hpc - hpn)));
                        assert(unmapped.is_mapped(t as int, p));
                        assert(mem.table_pages(t as int).dom() == unmapped.table_pages(
                            t as int,
                        ).dom());
                    }
                    assert forall|p: u64| hp0 + hpn <= p < hp0 + HEAP_PAGES implies !mem.is_mapped(
                        t as int,
                        p,
                    ) by {
                        if p < hp0 + hpc {
                            assert(hp0 + hpn <= p < hp0 + hpn + (hpc - hpn));
                            assert(!unmapped.is_mapped(t as int, p));
                        } else {
                            assert(!old(mem).is_mapped(t as int, p));
                            assert(!(hp0 + hpn <= p < hp0 + hpn + (hpc - hpn)));
                            assert(!unmapped.is_mapped(t as int, p));
                        }
                        assert(mem.table_pages(t as int).dom() == unmapped.table_pages(
                            t as int,
                        ).dom());
                    }
                }
                Some(x)
            },
            Err(_) => {
                proof {
                    assert(forall|p: u64|
                        hp0 + hpn <= p < hp0 + hpn + (hpc - hpn) ==> old(mem).is_mapped(
                            t as int,
                            p,
                        ));
                }
                unreached()
            },
        }
    } else {
        let ghost pre = *mem;
        mem.set_heap_end(t, x);
        proof {
            assert(mem.table_pages(t as int) == pre.table_pages(t as int));
            assert(spec_heap_page_count(x) == spec_heap_page_count(cur));
            assert forall|p: u64| hp0 <= p < hp0 + hpn implies mem.is_mapped(t as int, p) by {
                assert(old(mem).is_mapped(t as int, p));
                assert(mem.table_pages(t as int).dom() == pre.table_pages(t as int).dom());
            }
            assert forall|p: u64| hp0 + hpn <= p < hp0 + HEAP_PAGES implies !mem.is_mapped(
                t as int,
                p,
            ) by {
                assert(!old(mem).is_mapped(t as int, p));
                assert(mem.table_pages(t as int).dom() == pre.table_pages(t as int).dom());
            }
        }
        Some(x)
    }
}

/// Resets the heap of table `t` to empty, unmapping everything it covered.
pub fn clean_up(mem: &mut Memory, t: usize)
    requires
        old(mem).wf(),
        t < old(mem).table_count(),
        heap_wf(*old(mem), t as int),
    ensures
        final(mem).wf(),
        heap_wf(*final(mem), t as int),
        final(mem).tables@[t as int].heap_end == HEAP_START,
        final(mem).table_count() == old(mem).table_count(),
        final(mem).active == old(mem).active,
        final(mem).frames_total == old(mem).frames_total,
        final(mem).tables@[t as int].refs == old(mem).tables@[t as int].refs,
        forall|u: int|
            0 <= u < final(mem).table_count() && u != t ==> final(mem).tables@[u] == old(mem).tables@[u],
        forall|p: u64|
            !(spec_page_of(HEAP_START) <= p < spec_page_of(HEAP_START) + HEAP_PAGES) ==> (final(mem).is_mapped(t as int, p) == old(mem).is_mapped(t as int, p) && (old(mem).is_mapped(
                t as int,
                p,
            ) ==> final(mem).page_at(t as int, p) == old(mem).page_at(t as int, p))),
{
    let cur = mem.heap_end_of(t);
    let hp0 = page_of(HEAP_START);
    let hpc = heap_page_count(cur);
    if hpc > 0 {
        match mem.unmap_range(t, hp0, hpc) {
            Ok(()) => {},
            Err(_) => {
                proof {
                    assert(forall|p: u64|
                        hp0 <= p < hp0 + hpc ==> old(mem).is_mapped(t as int, p));
                }
                unreached::<()>()
            },
        }
    }
    let ghost pre = *mem;
    mem.set_heap_end(t, HEAP_START);
    proof {
        assert(mem.table_pages(t as int) == pre.table_pages(t as int));
        assert forall|p: u64| hp0 <= p < hp0 + HEAP_PAGES implies !mem.is_mapped(t as int, p) by {
            if hpc > 0 {
                if !(hp0 <= p < hp0 + hpc) {
                    assert(!old(mem).is_mapped(t as int, p));
                }
            } else {
                assert(!old(mem).is_mapped(t as int, p));
            }
            assert(!pre.is_mapped(t as int, p));
            assert(mem.table_pages(t as int).dom() == pre.table_pages(t as int).dom());
        }
        assert forall|p: u64|
            !(hp0 <= p < hp0 + HEAP_PAGES) implies (mem.is_mapped(t as int, p) == old(
            mem,
        ).is_mapped(t as int, p) && (old(mem).is_mapped(t as int, p) ==> mem.page_at(t as int, p)
            == old(mem).page_at(t as int, p))) by {
            if hpc > 0 {
                assert(!(hp0 <= p < hp0 + hpc));
            }
            assert(pre.is_mapped(t as int, p) == old(mem).is_mapped(t as int, p));
            assert(mem.table_pages(t as int) == pre.table_pages(t as int));
        }
    }
}

/// Bytes between the heap's base and its current end.
pub fn memory_usage(mem: &Memory, t: usize) -> (r: u64)
    requires
        t < mem.table_count(),
        heap_wf(*mem, t as int),
    ensures
        r == mem.tables@[t as int].heap_end - HEAP_START,
{
    mem.heap_end_of(t) - HEAP_START
}

} // verus!
