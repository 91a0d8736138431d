use ysos_proc::context::ProcessContext;
use ysos_proc::manager::{App, PageFaultErrorCode, ProcessManager};
use ysos_proc::memory::{PAGE_SIZE, STACK_INIT_TOP, STACK_MAX_SIZE};
use ysos_proc::pid::ProcessId;
use ysos_proc::process::ProgramStatus;
use ysos_proc::vm::{ElfImage, PageRange};

fn write_fault() -> PageFaultErrorCode {
    PageFaultErrorCode {
        protection_violation: false,
        caused_by_write: true,
        user_mode: true,
        malformed_table: false,
        instruction_fetch: false,
    }
}

fn tiny_elf() -> ElfImage {
    ElfImage { entry: 0x40_0000, segments: vec![PageRange { start: 0x400, count: 2 }] }
}

fn boot() -> ProcessManager {
    ProcessManager::init(4096, Vec::new(), Vec::new()).expect("boot")
}

#[test]
fn init_builds_running_kernel() {
    let m = boot();
    assert_eq!(m.sys_get_pid(), 1);
    assert_eq!(m.processes.len(), 1);
    assert!(matches!(m.processes[0].status, ProgramStatus::Running));
    assert_eq!(m.ready_queue.len(), 0);
}

#[test]
fn init_fails_without_frames_for_kernel_stack() {
    assert!(ProcessManager::init(1, Vec::new(), Vec::new()).is_none());
}

#[test]
fn spawn_registers_and_enqueues() {
    let mut m = boot();
    let elf = tiny_elf();
    let pid = m.spawn(&elf, String::from("init"), None, None).expect("spawn");
    assert_eq!(pid.0, 2);
    assert_eq!(m.processes.len(), 2);
    assert_eq!(m.processes[1].name, "init");
    assert!(matches!(m.processes[1].status, ProgramStatus::Ready));
    assert_eq!(m.processes[1].context.rip, 0x40_0000);
    assert_eq!(m.processes[1].context.rsp, STACK_INIT_TOP - STACK_MAX_SIZE * (pid.0 as u64 - 1));
    assert_eq!(m.ready_queue.len(), 1);
    assert_eq!(m.ready_queue[0].0, 2);
}

#[test]
fn spawn_rejects_segment_in_heap_area() {
    let mut m = boot();
    let bad = ElfImage {
        entry: 0x40_0000,
        segments: vec![PageRange { start: 0x2000_0000_0000 / PAGE_SIZE, count: 1 }],
    };
    assert!(m.spawn(&bad, String::from("bad"), None, None).is_none());
    assert_eq!(m.processes.len(), 1);
}

#[test]
fn switch_selects_pushed_order() {
    // Scheduling fairness: ids come back in exactly the order pushed.
    let mut m = boot();
    let elf = tiny_elf();
    let a = m.spawn(&elf, String::from("a"), None, None).unwrap();
    let b = m.spawn(&elf, String::from("b"), None, None).unwrap();
    let mut ctx = ProcessContext::blank();
    let first = m.switch(&mut ctx);
    assert_eq!(first, a);
    assert_eq!(m.sys_get_pid(), a.0);
    let second = m.switch(&mut ctx);
    assert_eq!(second, b);
    // Queue now holds [kernel, a]; the kernel was pushed before a.
    let third = m.switch(&mut ctx);
    assert_eq!(third.0, 1);
}

#[test]
fn switch_skips_dead_entries() {
    let mut m = boot();
    let elf = tiny_elf();
    let a = m.spawn(&elf, String::from("a"), None, None).unwrap();
    let b = m.spawn(&elf, String::from("b"), None, None).unwrap();
    m.kill(a, -1);
    let mut ctx = ProcessContext::blank();
    let next = m.switch(&mut ctx);
    assert_eq!(next, b);
}

#[test]
fn switch_restores_saved_context() {
    let mut m = boot();
    let elf = tiny_elf();
    let a = m.spawn(&elf, String::from("a"), None, None).unwrap();
    let mut ctx = ProcessContext::blank();
    let picked = m.switch(&mut ctx);
    assert_eq!(picked, a);
    assert_eq!(ctx.rip, 0x40_0000);
    assert_eq!(ctx.rax, 0);
}

#[test]
fn fork_copies_stack_into_fresh_range() {
    // Fork isolation: the child's stack is byte-identical at fork time and
    // lives in a range that overlaps nobody.
    let mut m = boot();
    let elf = tiny_elf();
    let parent = m.spawn(&elf, String::from("init"), None, None).unwrap();
    let mut ctx = ProcessContext::blank();
    m.switch(&mut ctx);
    assert_eq!(m.sys_get_pid(), parent.0);
    // Plant a recognizable word in the parent's stack page.
    let t = m.processes[1].proc_vm.as_ref().unwrap().page_table;
    let parent_stack_addr = m.processes[1].proc_vm.as_ref().unwrap().stack.start * PAGE_SIZE;
    assert!(m.memory.write_word(t, parent_stack_addr, 0xdead_beef));
    let child = m.fork().expect("fork");
    assert_eq!(child.0, 3);
    let pvm = m.processes[1].proc_vm.as_ref().unwrap();
    let cvm = m.processes[2].proc_vm.as_ref().unwrap();
    assert_eq!(cvm.page_table, pvm.page_table);
    assert_eq!(cvm.stack.usage, pvm.stack.usage);
    // Non-overlapping ranges: the child sits strictly below the parent.
    assert!(cvm.stack.end <= pvm.stack.start);
    // Byte-identical copy, observed through the page words.
    let child_stack_addr = cvm.stack.start * PAGE_SIZE;
    assert_eq!(m.memory.read_word(t, child_stack_addr), Some(0xdead_beef));
    // The child resumes with 0; the parent reads the child's pid.
    assert_eq!(m.processes[2].context.rax, 0);
    assert_eq!(m.processes[1].context.rax, child.0 as u64);
    // The child's stack pointer was rebased onto its own stack region.
    let prsp = m.processes[1].context.rsp;
    let crsp = m.processes[2].context.rsp;
    assert_eq!(crsp % 0x1_0000_0000, prsp % 0x1_0000_0000);
    assert_eq!((crsp / 0x1_0000_0000) * 0x1_0000_0000, (child_stack_addr / 0x1_0000_0000) * 0x1_0000_0000);
    // Sibling stacks never alias either.
    let c_range = (cvm.stack.start, cvm.stack.end);
    let d = m.fork().expect("second fork");
    assert_eq!(d.0, 4);
    let c2vm = m.processes[3].proc_vm.as_ref().unwrap();
    assert!(c2vm.stack.end <= c_range.0 || c_range.1 <= c2vm.stack.start);
}

#[test]
fn stack_growth_is_monotone_and_never_remaps() {
    // Repeated faults in the stack region only ever grow the stack.
    let mut m = boot();
    let elf = tiny_elf();
    let pid = m.spawn(&elf, String::from("init"), None, None).unwrap();
    let mut ctx = ProcessContext::blank();
    m.switch(&mut ctx);
    assert_eq!(m.sys_get_pid(), pid.0);
    let vm = m.processes[1].proc_vm.as_ref().unwrap();
    let usage0 = vm.stack.usage;
    let below = (vm.stack.start - 3) * PAGE_SIZE;
    assert!(m.handle_page_fault(below, write_fault()));
    let usage1 = m.processes[1].proc_vm.as_ref().unwrap().stack.usage;
    assert_eq!(usage1, usage0 + 3);
    // The same address again: already mapped, nothing regrows.
    assert!(m.handle_page_fault(below, write_fault()));
    let usage2 = m.processes[1].proc_vm.as_ref().unwrap().stack.usage;
    assert_eq!(usage2, usage1);
    // An address outside the stack region is not handled.
    assert!(!m.handle_page_fault(0x1000, write_fault()));
    // A fault that is not a write is never handled.
    let mut read_fault = write_fault();
    read_fault.caused_by_write = false;
    assert!(!m.handle_page_fault(below, read_fault));
}

#[test]
fn kill_wakes_all_waiters_with_exit_code() {
    // Kill wakes all waiters: A and B both resume with the killer's code.
    let mut m = boot();
    let elf = tiny_elf();
    let a = m.spawn(&elf, String::from("a"), None, None).unwrap();
    let b = m.spawn(&elf, String::from("b"), None, None).unwrap();
    let x = m.spawn(&elf, String::from("x"), None, None).unwrap();
    let mut ctx = ProcessContext::blank();
    m.switch(&mut ctx);
    assert_eq!(m.sys_get_pid(), a.0);
    m.wait_pid(x, &mut ctx);
    assert!(matches!(m.processes[1].status, ProgramStatus::Blocked));
    assert_eq!(m.sys_get_pid(), b.0);
    m.wait_pid(x, &mut ctx);
    assert!(matches!(m.processes[2].status, ProgramStatus::Blocked));
    assert_eq!(m.sys_get_pid(), x.0);
    m.kill(x, 99);
    assert!(matches!(m.processes[1].status, ProgramStatus::Ready));
    assert!(matches!(m.processes[2].status, ProgramStatus::Ready));
    assert_eq!(m.processes[1].context.rax, 99);
    assert_eq!(m.processes[2].context.rax, 99);
    assert!(m.ready_queue.iter().any(|p| p.0 == a.0));
    assert!(m.ready_queue.iter().any(|p| p.0 == b.0));
    assert!(matches!(m.processes[3].status, ProgramStatus::Dead));
    assert_eq!(m.processes[3].exit_code, Some(99));
}

#[test]
fn wait_pid_on_dead_returns_exit_code_immediately() {
    let mut m = boot();
    let elf = tiny_elf();
    let a = m.spawn(&elf, String::from("a"), None, None).unwrap();
    let x = m.spawn(&elf, String::from("x"), None, None).unwrap();
    m.kill(x, 7);
    let mut ctx = ProcessContext::blank();
    m.switch(&mut ctx);
    assert_eq!(m.sys_get_pid(), a.0);
    m.wait_pid(x, &mut ctx);
    assert_eq!(ctx.rax, 7);
    // An unknown pid resumes with 0.
    m.wait_pid(ProcessId(42), &mut ctx);
    assert_eq!(ctx.rax, 0);
}

#[test]
fn kill_is_idempotent_and_spares_the_kernel() {
    let mut m = boot();
    let elf = tiny_elf();
    let a = m.spawn(&elf, String::from("a"), None, None).unwrap();
    m.kill(a, 1);
    assert_eq!(m.processes[1].exit_code, Some(1));
    m.kill(a, 2);
    assert_eq!(m.processes[1].exit_code, Some(1));
    m.kill(ProcessId(1), 3);
    assert!(!matches!(m.processes[0].status, ProgramStatus::Dead));
    m.kill(ProcessId(77), 4);
    assert_eq!(m.processes.len(), 2);
}

#[test]
fn process_exit_switches_away_for_good() {
    let mut m = boot();
    let elf = tiny_elf();
    let a = m.spawn(&elf, String::from("a"), None, None).unwrap();
    let mut ctx = ProcessContext::blank();
    m.switch(&mut ctx);
    assert_eq!(m.sys_get_pid(), a.0);
    let next = m.process_exit(5, &mut ctx);
    assert_eq!(next.0, 1);
    assert!(matches!(m.processes[1].status, ProgramStatus::Dead));
    assert_eq!(m.get_exit_code(a), Some(5));
    assert!(!m.still_alive(a));
}

#[test]
fn end_to_end_fork_and_semaphores() {
    // Spawn "init"; it forks; the child's wait on an uninitialized key is an
    // error, not a block; after the parent creates key 7 the child blocks on
    // it; the parent's signal readies the child again; the child's stack is
    // uncorrupted across the block.
    let mut m = ProcessManager::init(
        4096,
        Vec::new(),
        vec![App { name: String::from("init"), elf: tiny_elf() }],
    )
    .unwrap();
    let elf = tiny_elf();
    let parent = m.spawn(&elf, String::from("init"), None, None).unwrap();
    assert_eq!(m.ready_queue.len(), 1);
    let mut ctx = ProcessContext::blank();
    m.switch(&mut ctx);
    assert_eq!(m.sys_get_pid(), parent.0);
    let child = m.fork().expect("fork");
    assert!(m.ready_queue.iter().any(|p| p.0 == child.0));
    // Plant a word in the child's stack to watch for corruption.
    let t = m.processes[1].proc_vm.as_ref().unwrap().page_table;
    let child_stack_addr = m.processes[2].proc_vm.as_ref().unwrap().stack.start * PAGE_SIZE;
    assert!(m.memory.write_word(t, child_stack_addr, 0x1234_5678));
    // Run the child: wait on an uninitialized key is an error, not a block.
    while m.switch(&mut ctx).0 != child.0 {}
    m.sem_wait(7, &mut ctx);
    assert_eq!(ctx.rax, usize::MAX as u64);
    assert!(matches!(m.processes[2].status, ProgramStatus::Running));
    // Back to the parent, which creates the semaphore with no permits.
    while m.switch(&mut ctx).0 != parent.0 {}
    assert!(m.sem_init(7, 0));
    assert!(!m.sem_init(7, 0));
    // The child now blocks on it.
    while m.switch(&mut ctx).0 != child.0 {}
    m.sem_wait(7, &mut ctx);
    assert!(matches!(m.processes[2].status, ProgramStatus::Blocked));
    // The scheduler moved on to someone ready; run until the parent signals.
    while m.sys_get_pid() != parent.0 {
        m.switch(&mut ctx);
    }
    m.sem_signal(7, &mut ctx);
    assert_eq!(ctx.rax, 0);
    assert!(matches!(m.processes[2].status, ProgramStatus::Ready));
    assert!(m.ready_queue.iter().any(|p| p.0 == child.0));
    // Run until the child is restored; its stack word is intact.
    let restored = loop {
        let r = m.switch(&mut ctx);
        if r.0 == child.0 {
            break r;
        }
    };
    assert_eq!(restored, child);
    assert_eq!(m.memory.read_word(t, child_stack_addr), Some(0x1234_5678));
    assert_eq!(m.list_app().len(), 1);
}

#[test]
fn list_process_reports_live_processes() {
    let mut m = boot();
    let elf = tiny_elf();
    m.spawn(&elf, String::from("worker"), None, None).unwrap();
    let report = m.list_process();
    assert!(report.contains("PID"));
    assert!(report.contains("worker"));
    assert!(report.contains("CPUs"));
}

#[test]
fn env_round_trip_on_current_process() {
    let mut m = boot();
    m.set_env(String::from("id"), String::from("7"));
    assert_eq!(m.env(&String::from("id")), Some(String::from("7")));
    assert_eq!(m.env(&String::from("absent")), None);
    m.set_env(String::from("id"), String::from("8"));
    assert_eq!(m.env(&String::from("id")), Some(String::from("8")));
}

#[test]
fn counters_tick() {
    let mut m = boot();
    assert_eq!(m.read_counter(), 0);
    assert_eq!(m.inc_counter(), 0);
    assert_eq!(m.inc_counter(), 1);
    assert_eq!(m.read_counter(), 2);
}

#[test]
fn spawn_by_name_uses_the_app_list() {
    let mut m = ProcessManager::init(
        4096,
        Vec::new(),
        vec![App { name: String::from("shell"), elf: tiny_elf() }],
    )
    .unwrap();
    assert!(m.spawn_by_name(&String::from("absent")).is_none());
    let pid = m.spawn_by_name(&String::from("shell")).expect("spawn by name");
    assert_eq!(pid.0, 2);
    assert_eq!(m.processes[1].name, "shell");
    assert_eq!(m.processes[1].parent, Some(ProcessId(1)));
}
