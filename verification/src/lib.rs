//! Process-management core of a teaching operating-system kernel.
//!
//! The crate covers process creation, preemptive FIFO scheduling, fork with
//! copied stacks, demand-paged stack growth, heap growth via `brk`, and
//! kernel-mediated counting semaphores with FIFO wake-up.
//!
//! The physical machine (frame allocator, page tables, CPU cores) is held as
//! explicit data in [`memory::Memory`], so every path through the scheduler
//! and the address-space bookkeeping is verified against that model; the
//! interrupt wiring and device I/O that deliver events to this core live
//! outside the crate and hand in plain values.

pub mod context;
pub mod data;
pub mod fmt;
pub mod heap;
pub mod io;
pub mod manager;
pub mod memory;
pub mod pid;
pub mod process;
pub mod processor;
pub mod semaphore;
pub mod stack;
pub mod vm;
