//! Per-core bookkeeping: which process id currently occupies each CPU.

use crate::fmt::u64_to_string;
use crate::pid::ProcessId;
use vstd::prelude::*;
use vstd::string::StringExecFns;

verus! {

/// Physical cores the design provides slots for.
pub const MAX_CPU_COUNT: usize = 4;

/// One core's slot: the id of the process running on it, 0 when free.
#[derive(Clone, Copy, PartialEq, Eq, Structural, Debug)]
pub struct Processor(pub u16);

impl Processor {
    /// A free slot.
    pub fn new() -> (p: Processor)
        ensures
            p.0 == 0,
    {
        Processor(0)
    }

    /// Whether no process occupies this core.
    pub fn is_free(&self) -> (r: bool)
        ensures
            r == (self.0 == 0),
    {
        self.0 == 0
    }

    /// Records `pid` as the process running on this core.
    pub fn set_pid(&mut self, pid: ProcessId)
        ensures
            final(self).0 == pid.0,
    {
        self.0 = pid.0;
    }

    /// The process running on this core, if any.
    pub fn get_pid(&self) -> (r: Option<ProcessId>)
        ensures
            match r {
                Some(pid) => self.0 != 0 && pid.0 == self.0,
                None => self.0 == 0,
            },
    {
        if self.0 == 0 {
            None
        } else {
            Some(ProcessId(self.0))
        }
    }
}

/// The fixed per-core slot table.
pub struct ProcessorSet {
    /// One slot per core; always `MAX_CPU_COUNT` long.
    pub cpus: Vec<Processor>,
}

impl ProcessorSet {
    /// The slot table has its fixed size.
    pub open spec fn wf(self) -> bool {
        self.cpus@.len() == MAX_CPU_COUNT
    }

    /// The pid slot of core `cpu`, 0 when free.
    pub open spec fn pid_on(self, cpu: int) -> u16 {
        self.cpus@[cpu].0
    }

    /// All cores free.
    pub fn new() -> (ps: ProcessorSet)
        ensures
            ps.wf(),
            forall|c: int| 0 <= c < MAX_CPU_COUNT ==> ps.pid_on(c) == 0,
    {
        let mut cpus: Vec<Processor> = Vec::new();
        let mut i: usize = 0;
        while i < MAX_CPU_COUNT
            invariant
                i <= MAX_CPU_COUNT,
                cpus@.len() == i,
                forall|c: int| 0 <= c < i ==> cpus@[c].0 == 0,
            decreases MAX_CPU_COUNT - i,
        {
            cpus.push(Processor(0));
            i += 1;
        }
        ProcessorSet { cpus }
    }
}

/// Records `pid` as the process running on core `cpu`.
pub fn set_pid(ps: &mut ProcessorSet, cpu: usize, pid: ProcessId)
    requires
        old(ps).wf(),
        cpu < MAX_CPU_COUNT,
    ensures
        final(ps).wf(),
        final(ps).pid_on(cpu as int) == pid.0,
        forall|c: int| 0 <= c < MAX_CPU_COUNT && c != cpu ==> final(ps).pid_on(c) == old(ps).pid_on(c),
{
    ps.cpus[cpu].set_pid(pid);
}

/// The process running on core `cpu`, if any.
pub fn get_pid(ps: &ProcessorSet, cpu: usize) -> (r: Option<ProcessId>)
    requires
        ps.wf(),
        cpu < MAX_CPU_COUNT,
    ensures
        match r {
            Some(pid) => ps.pid_on(cpu as int) != 0 && pid.0 == ps.pid_on(cpu as int),
            None => ps.pid_on(cpu as int) == 0,
        },
{
    ps.cpus[cpu].get_pid()
}

/// The rendering of one occupied core.
pub open spec fn spec_cpu_entry(c: int, pid: u16) -> Seq<char> {
    "["@ + crate::fmt::spec_decimal(c as u64) + ": "@ + crate::fmt::spec_decimal(pid as u64)
        + "]"@
}

/// Whether any of the first `n` cores is occupied.
pub open spec fn spec_any_busy(ps: Seq<Processor>, n: int) -> bool {
    exists|c: int| 0 <= c < n && (#[trigger] ps[c]).0 != 0
}

/// The comma-joined renderings of the occupied cores among the first `n`.
pub open spec fn spec_cpu_list(ps: Seq<Processor>, n: int) -> Seq<char>
    decreases n,
{
    if n <= 0 {
        Seq::empty()
    } else if ps[n - 1].0 == 0 {
        spec_cpu_list(ps, n - 1)
    } else if spec_any_busy(ps, n - 1) {
        spec_cpu_list(ps, n - 1) + ", "@ + spec_cpu_entry(n - 1, ps[n - 1].0)
    } else {
        spec_cpu_entry(n - 1, ps[n - 1].0)
    }
}

/// The whole per-core report: the label, then exactly the occupied cores as
/// `[index: pid]`, comma-joined in index order, free slots omitted.
pub open spec fn spec_processors_report(ps: Seq<Processor>) -> Seq<char> {
    "CPUs   : "@ + spec_cpu_list(ps, ps.len() as int) + "\n"@
}

/// A diagnostic line naming each occupied core and the pid on it.
pub fn print_processors(ps: &ProcessorSet) -> (r: String)
    requires
        ps.wf(),
    ensures
        r@ == spec_processors_report(ps.cpus@),
{
    let mut out = String::new();
    out.append("CPUs   : ");
    let mut first = true;
    let mut i: usize = 0;
    while i < MAX_CPU_COUNT
        invariant
            ps.wf(),
            i <= MAX_CPU_COUNT,
            first == !spec_any_busy(ps.cpus@, i as int),
            out@ == "CPUs   : "@ + spec_cpu_list(ps.cpus@, i as int),
        decreases MAX_CPU_COUNT - i,
    {
        match get_pid(ps, i) {
            Some(pid) => {
                let ghost pre = out@;
                if !first {
                    out.append(", ");
                }
                first = false;
                out.append("[");
                let cpu_s = u64_to_string(i as u64);
                out.append(cpu_s.as_str());
                out.append(": ");
                let pid_s = u64_to_string(pid.0 as u64);
                out.append(pid_s.as_str());
                out.append("]");
                proof {
                    assert(ps.cpus@[i as int].0 == pid.0);
                    if spec_any_busy(ps.cpus@, i as int) {
                        assert(out@ =~= "CPUs   : "@ + (spec_cpu_list(ps.cpus@, i as int) + ", "@
                            + spec_cpu_entry(i as int, pid.0)));
                    } else {
                        assert(pre == "CPUs   : "@ + spec_cpu_list(ps.cpus@, i as int));
                        assert(spec_cpu_list(ps.cpus@, i as int) =~= Seq::<char>::empty()) by {
                            lemma_cpu_list_empty(ps.cpus@, i as int);
                        }
                        assert(out@ =~= "CPUs   : "@ + spec_cpu_entry(i as int, pid.0));
                    }
                    assert(out@ =~= "CPUs   : "@ + spec_cpu_list(ps.cpus@, i + 1 as int));
                    assert(spec_any_busy(ps.cpus@, i + 1 as int)) by {
                        assert(ps.cpus@[i as int].0 != 0);
                    }
                }
            },
            None => {
                proof {
                    assert(spec_cpu_list(ps.cpus@, i + 1 as int) == spec_cpu_list(
                        ps.cpus@,
                        i as int,
                    ));
                    assert(spec_any_busy(ps.cpus@, i + 1 as int) == spec_any_busy(
                        ps.cpus@,
                        i as int,
                    )) by {
                        if spec_any_busy(ps.cpus@, i + 1 as int) {
                            let c = choose|c: int|
                                0 <= c < i + 1 && (#[trigger] ps.cpus@[c]).0 != 0;
                            assert(c < i);
                        }
                    }
                }
            },
        }
        i += 1;
    }
    out.append("\n");
    proof {
        assert(out@ =~= spec_processors_report(ps.cpus@));
    }
    out
}

/// With no core among the first `n` occupied, the list renders empty.
proof fn lemma_cpu_list_empty(ps: Seq<Processor>, n: int)
    requires
        !spec_any_busy(ps, n),
        n <= ps.len(),
    ensures
        spec_cpu_list(ps, n) == Seq::<char>::empty(),
    decreases n,
{
    if n > 0 {
        assert(ps[n - 1].0 == 0);
        assert(!spec_any_busy(ps, n - 1)) by {
            if spec_any_busy(ps, n - 1) {
                let c = choose|c: int| 0 <= c < n - 1 && (#[trigger] ps[c]).0 != 0;
                assert(0 <= c < n && ps[c].0 != 0);
            }
        }
        lemma_cpu_list_empty(ps, n - 1);
    }
}

} // verus!
