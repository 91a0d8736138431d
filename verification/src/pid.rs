//! Process identifiers.

use vstd::prelude::*;

verus! {

/// Identifier of one process, unique for the lifetime of the kernel.
///
/// The value 0 is never a valid identifier (a processor slot holding 0 is
/// free); the value 1 is reserved for the kernel process itself. Fresh
/// identifiers are handed out by the process manager from a monotonically
/// increasing counter starting at 2.
#[derive(Clone, Copy, PartialEq, Eq, Structural, Debug, PartialOrd, Ord, Hash)]
pub struct ProcessId(pub u16);

/// The kernel process always carries identifier 1.
pub const KERNEL_PID: u16 = 1;

impl ProcessId {
    /// Wraps a raw 16-bit value; uniqueness is the manager's concern.
    pub fn new(value: u16) -> (r: ProcessId)
        ensures
            r.0 == value,
    {
        ProcessId(value)
    }
}

} // verus!
