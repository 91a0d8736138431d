use ysos_proc::context::ProcessContext;
use ysos_proc::io::{read_line_step, LineEvent};
use ysos_proc::data::{ProcessData, Resource};
use ysos_proc::fmt::{get_ascii_header, u64_to_string};
use ysos_proc::heap;
use ysos_proc::memory::{
    page_of, MapError, Memory, UnmapError, HEAP_END, HEAP_START, PAGE_SIZE,
};
use ysos_proc::pid::ProcessId;
use ysos_proc::processor::{get_pid, print_processors, set_pid, Processor, ProcessorSet};
use ysos_proc::semaphore::{Semaphore, SemaphoreResult, SemaphoreSet};

#[test]
fn map_unmap_round_trip() {
    let mut mem = Memory::new(16);
    let t = mem.new_table();
    assert_eq!(mem.map_range(t, 0x100, 4, true), Ok(()));
    assert_eq!(mem.frames_live(), 4);
    assert!(mem.query(t, 0x100));
    assert!(mem.query(t, 0x103));
    assert!(!mem.query(t, 0x104));
    assert_eq!(mem.unmap_range(t, 0x100, 4), Ok(()));
    assert_eq!(mem.frames_live(), 0);
    assert!(!mem.query(t, 0x100));
}

#[test]
fn map_rejects_collision_and_exhaustion() {
    let mut mem = Memory::new(4);
    let t = mem.new_table();
    assert_eq!(mem.map_range(t, 0x100, 2, true), Ok(()));
    assert_eq!(mem.map_range(t, 0x101, 1, true), Err(MapError::PageAlreadyMapped));
    assert_eq!(mem.map_range(t, 0x200, 3, true), Err(MapError::FrameAllocationFailed));
    assert_eq!(mem.unmap_range(t, 0x300, 1), Err(UnmapError::PageNotMapped));
}

#[test]
fn words_survive_in_mapped_pages() {
    let mut mem = Memory::new(8);
    let t = mem.new_table();
    assert_eq!(mem.map_range(t, page_of(0x5000), 1, true), Ok(()));
    assert_eq!(mem.read_word(t, 0x5000), Some(0));
    assert!(mem.write_word(t, 0x5008, 42));
    assert_eq!(mem.read_word(t, 0x5000), Some(42));
    assert!(!mem.write_word(t, 0x9000, 1));
    assert_eq!(mem.read_word(t, 0x9000), None);
}

#[test]
fn brk_round_trip_and_rejection() {
    // brk(Some(x)) then brk(None) answers x for an in-range x; an x outside
    // the heap bounds is rejected and the end does not move.
    let mut mem = Memory::new(64);
    let t = mem.new_table();
    assert_eq!(heap::brk(&mut mem, t, None, true), Some(HEAP_START));
    let x = HEAP_START + 3 * PAGE_SIZE;
    assert_eq!(heap::brk(&mut mem, t, Some(x), true), Some(x));
    assert_eq!(heap::brk(&mut mem, t, None, true), Some(x));
    assert_eq!(heap::brk(&mut mem, t, Some(0x1000), true), None);
    assert_eq!(heap::brk(&mut mem, t, Some(HEAP_END + 1), true), None);
    assert_eq!(heap::brk(&mut mem, t, None, true), Some(x));
    // Shrinking unmaps the excluded pages and moves the end back.
    let y = HEAP_START + PAGE_SIZE;
    assert_eq!(heap::brk(&mut mem, t, Some(y), true), Some(y));
    assert_eq!(heap::brk(&mut mem, t, None, true), Some(y));
    heap::clean_up(&mut mem, t);
    assert_eq!(heap::brk(&mut mem, t, None, true), Some(HEAP_START));
    assert_eq!(mem.frames_live(), 0);
}

#[test]
fn brk_fails_when_frames_run_dry() {
    let mut mem = Memory::new(2);
    let t = mem.new_table();
    let x = HEAP_START + 5 * PAGE_SIZE;
    assert_eq!(heap::brk(&mut mem, t, Some(x), true), None);
    assert_eq!(heap::brk(&mut mem, t, None, true), Some(HEAP_START));
}

#[test]
fn semaphore_signals_wake_in_wait_order() {
    // Semaphore FIFO: three blocked processes are woken in call order.
    let mut s = Semaphore::new(0);
    let p1 = ProcessId(11);
    let p2 = ProcessId(12);
    let p3 = ProcessId(13);
    assert_eq!(s.wait(p1), SemaphoreResult::Block);
    assert_eq!(s.wait(p2), SemaphoreResult::Block);
    assert_eq!(s.wait(p3), SemaphoreResult::Block);
    assert_eq!(s.signal(), SemaphoreResult::WakeUp(p1));
    assert_eq!(s.signal(), SemaphoreResult::WakeUp(p2));
    assert_eq!(s.signal(), SemaphoreResult::WakeUp(p3));
    assert_eq!(s.signal(), SemaphoreResult::Done);
    assert_eq!(s.count, 1);
    assert_eq!(s.wait(p1), SemaphoreResult::Done);
    assert_eq!(s.count, 0);
}

#[test]
fn semaphore_set_keys_and_errors() {
    let mut set = SemaphoreSet::new();
    assert_eq!(set.wait(7, ProcessId(2)), SemaphoreResult::NotExist);
    assert_eq!(set.signal(7), SemaphoreResult::NotExist);
    assert!(!set.remove(7));
    assert!(set.init(7, 1));
    assert!(!set.init(7, 5));
    assert_eq!(set.wait(7, ProcessId(2)), SemaphoreResult::Done);
    assert_eq!(set.wait(7, ProcessId(2)), SemaphoreResult::Block);
    assert_eq!(set.signal(7), SemaphoreResult::WakeUp(ProcessId(2)));
    assert!(set.remove(7));
    assert_eq!(set.signal(7), SemaphoreResult::NotExist);
}

#[test]
fn process_data_env_and_semaphores() {
    let mut d = ProcessData::new();
    d.set_env(String::from("path"), String::from("/bin"));
    assert_eq!(d.env(&String::from("path")), Some(String::from("/bin")));
    assert_eq!(d.env(&String::from("home")), None);
    assert!(d.sem_init(1, 0));
    assert_eq!(d.sem_wait(1, ProcessId(9)), SemaphoreResult::Block);
    assert_eq!(d.sem_signal(1), SemaphoreResult::WakeUp(ProcessId(9)));
    assert!(d.sem_remove(1));
    assert!(!d.sem_remove(1));
}

#[test]
fn processors_track_core_occupancy() {
    let mut ps = ProcessorSet::new();
    assert_eq!(get_pid(&ps, 0), None);
    set_pid(&mut ps, 0, ProcessId(5));
    set_pid(&mut ps, 2, ProcessId(9));
    assert_eq!(get_pid(&ps, 0), Some(ProcessId(5)));
    assert_eq!(get_pid(&ps, 1), None);
    assert_eq!(get_pid(&ps, 2), Some(ProcessId(9)));
    let line = print_processors(&ps);
    assert!(line.contains("CPUs"));
    assert!(line.contains("[0: 5]"));
    assert!(line.contains("[2: 9]"));
    let p = Processor::new();
    assert!(p.is_free());
    let mut p2 = Processor::new();
    p2.set_pid(ProcessId(3));
    assert!(!p2.is_free());
    assert_eq!(p2.get_pid(), Some(ProcessId(3)));
}

#[test]
fn contexts_save_restore_and_init() {
    let mut a = ProcessContext::blank();
    a.set_rax(77);
    a.update_rsp(0x9000);
    assert_eq!(a.get_stack_top(), 0x9000);
    let mut slot = ProcessContext::blank();
    slot.save(&a);
    assert_eq!(slot, a);
    let mut out = ProcessContext::blank();
    slot.restore(&mut out);
    assert_eq!(out, a);
    let mut f = ProcessContext::blank();
    f.init_stack_frame(0x40_0000, 0x3fff_ffff_fff8);
    assert_eq!(f.rip, 0x40_0000);
    assert_eq!(f.rsp, 0x3fff_ffff_fff8);
    assert_eq!(f.rflags, ysos_proc::context::RFLAGS_DEFAULT);
}

#[test]
fn pids_wrap_raw_values() {
    let p = ProcessId::new(5);
    assert_eq!(p.0, 5);
    assert_eq!(ysos_proc::pid::KERNEL_PID, 1);
}

#[test]
fn decimal_rendering_is_exact() {
    assert_eq!(u64_to_string(0), "0");
    assert_eq!(u64_to_string(7), "7");
    assert_eq!(u64_to_string(10), "10");
    assert_eq!(u64_to_string(1234), "1234");
    assert_eq!(u64_to_string(u64::MAX), "18446744073709551615");
    assert!(get_ascii_header().len() > 0);
}

#[test]
fn line_discipline_edits_and_finishes() {
    let mut line: Vec<u8> = Vec::new();
    assert_eq!(read_line_step(&mut line, b'h'), LineEvent::Added);
    assert_eq!(read_line_step(&mut line, b'i'), LineEvent::Added);
    assert_eq!(line, b"hi");
    assert_eq!(read_line_step(&mut line, 8), LineEvent::Erased);
    assert_eq!(line, b"h");
    assert_eq!(read_line_step(&mut line, 127), LineEvent::Erased);
    assert_eq!(read_line_step(&mut line, 127), LineEvent::Erased);
    assert!(line.is_empty());
    assert_eq!(read_line_step(&mut line, b'o'), LineEvent::Added);
    assert_eq!(read_line_step(&mut line, 13), LineEvent::Done);
    assert_eq!(line, b"o");
}

#[test]
fn standard_handles_are_open() {
    let d = ProcessData::new();
    assert_eq!(d.resource_of(0), Some(Resource::Stdin));
    assert_eq!(d.resource_of(1), Some(Resource::Stdout));
    assert_eq!(d.resource_of(2), Some(Resource::Stderr));
    assert_eq!(d.resource_of(9), None);
}
