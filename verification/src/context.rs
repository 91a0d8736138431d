//! Saved CPU state of one process: the registers the scheduler reads and
//! writes, and the trap-return frame that resumes the process exactly where
//! an interrupt, syscall or fault stopped it.

use vstd::prelude::*;

verus! {

/// Flags loaded for a fresh process: interrupts enabled, both I/O privilege
/// bits set.
pub const RFLAGS_DEFAULT: u64 = 0x3200;

/// Code-segment selector loaded for a fresh process.
pub const SELECTOR_CODE: u64 = 8;

/// Stack/data-segment selector loaded for a fresh process.
pub const SELECTOR_DATA: u64 = 16;

/// A register snapshot plus the trap-return frame. Copyable; only meaningful
/// while the owning process is not dead.
#[derive(Clone, Copy, PartialEq, Eq, Structural, Debug)]
pub struct ProcessContext {
    /// Return-value register; the syscall return slot.
    pub rax: u64,
    /// Instruction pointer to resume at.
    pub rip: u64,
    /// Stack pointer to resume with.
    pub rsp: u64,
    /// CPU flags to restore.
    pub rflags: u64,
    /// Code-segment selector.
    pub cs: u64,
    /// Stack-segment selector.
    pub ss: u64,
}

impl ProcessContext {
    /// The blank context a process starts with before its stack frame is
    /// initialized.
    pub open spec fn spec_blank() -> ProcessContext {
        ProcessContext { rax: 0, rip: 0x1000, rsp: 0x2000, rflags: 0, cs: 0, ss: 0 }
    }

    /// The blank context a process starts with before its stack frame is
    /// initialized.
    #[verifier::when_used_as_spec(spec_blank)]
    pub fn blank() -> (c: ProcessContext)
        ensures
            c == (ProcessContext { rax: 0, rip: 0x1000, rsp: 0x2000, rflags: 0, cs: 0, ss: 0 }),
    {
        ProcessContext { rax: 0, rip: 0x1000, rsp: 0x2000, rflags: 0, cs: 0, ss: 0 }
    }

    /// Writes the syscall return slot.
    pub fn set_rax(&mut self, value: usize)
        ensures
            *final(self) == (ProcessContext { rax: value as u64, ..*old(self) }),
    {
        self.rax = value as usize as u64;
    }

    /// The saved stack pointer.
    pub fn get_stack_top(&self) -> (r: u64)
        ensures
            r == self.rsp,
    {
        self.rsp
    }

    /// Replaces the saved stack pointer.
    pub fn update_rsp(&mut self, rsp: u64)
        ensures
            *final(self) == (ProcessContext { rsp, ..*old(self) }),
    {
        self.rsp = rsp;
    }

    /// Copies `context` into this slot.
    pub fn save(&mut self, context: &ProcessContext)
        ensures
            *final(self) == *context,
    {
        *self = *context;
    }

    /// Copies this slot into `context`.
    pub fn restore(&self, context: &mut ProcessContext)
        ensures
            *final(context) == *self,
    {
        *context = *self;
    }

    /// Points the context at a fresh process's entry: instruction pointer at
    /// `entry`, stack pointer at `stack_top`, interrupts enabled, the fresh
    /// segment selectors loaded.
    pub fn init_stack_frame(&mut self, entry: u64, stack_top: u64)
        ensures
            *final(self) == (ProcessContext {
                rax: old(self).rax,
                rip: entry,
                rsp: stack_top,
                rflags: RFLAGS_DEFAULT,
                cs: SELECTOR_CODE,
                ss: SELECTOR_DATA,
            }),
    {
        self.rip = entry;
        self.rsp = stack_top;
        self.rflags = RFLAGS_DEFAULT;
        self.cs = SELECTOR_CODE;
        self.ss = SELECTOR_DATA;
    }
}

} // verus!
