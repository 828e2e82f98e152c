//! The fixed-slot process table: records, states, priorities, creation and
//! teardown, and the synthetic interrupt frame a fresh task starts from.

use vstd::prelude::*;

verus! {

pub const KERNEL_STACK_SIZE: usize = 65536;

pub const MAX_PROCESSES: usize = 64;

/// Index value meaning "no process scheduled".
pub const NO_CURRENT: usize = usize::MAX;

#[derive(Clone, Copy, PartialEq, Eq, Structural, Debug)]
pub enum Priority {
    Idle,
    Normal,
    High,
    Realtime,
}

#[derive(Clone, Copy, PartialEq, Eq, Structural, Debug)]
pub enum ProcessState {
    Ready,
    Running,
    Blocked,
    Sleeping,
    Terminated,
}

/// One process record. Addresses (stack pointer, stack base, entry point,
/// table root) are carried as plain numbers; what they point at belongs to
/// the hardware side.
#[derive(Clone, Copy, PartialEq, Eq, Structural, Debug)]
pub struct Process {
    pub pid: u64,
    pub rsp: u64,
    pub stack_base: u64,
    pub entry: u64,
    pub pml4: u64,
    pub state: ProcessState,
    pub priority: Priority,
    pub ticks_ready: u64,
    pub wake_at_tick: u64,
}

/// The fixed-capacity table of optional process slots, the index of the
/// process on the CPU, and how many slots have ever been filled.
pub struct ProcessTable {
    pub processes: Vec<Option<Process>>,
    pub current: usize,
    pub count: u64,
}

/// Shape of a healthy table: 64 slots, a bounded fill count, a valid or
/// sentinel current index, and each record knowing its own slot.
pub open spec fn table_wf(t: ProcessTable) -> bool {
    &&& t.processes@.len() == MAX_PROCESSES
    &&& t.count <= MAX_PROCESSES
    &&& (t.current == NO_CURRENT || t.current < MAX_PROCESSES)
    &&& forall|i: int|
        0 <= i < MAX_PROCESSES ==> (#[trigger] t.processes@[i] matches Option::Some(p) ==> p.pid
            == i)
}

/// Slot `i` holds a running process.
pub open spec fn is_running(slots: Seq<Option<Process>>, i: int) -> bool {
    0 <= i < slots.len() && (slots[i] matches Option::Some(p) && p.state
        == ProcessState::Running)
}

/// The scheduler's central invariant: the current index points at the one
/// running process and nothing else runs.
pub open spec fn sched_inv(t: ProcessTable) -> bool {
    &&& t.current < MAX_PROCESSES
    &&& is_running(t.processes@, t.current as int)
    &&& forall|i: int| 0 <= i < MAX_PROCESSES && i != t.current ==> !is_running(t.processes@, i)
}

/// Once the invariant holds, exactly one slot is running: one exists, and
/// any two running slots are the same.
pub proof fn lemma_one_running(t: ProcessTable)
    requires
        table_wf(t),
        sched_inv(t),
    ensures
        exists|i: int| #[trigger] is_running(t.processes@, i),
        forall|i: int, j: int|
            is_running(t.processes@, i) && is_running(t.processes@, j) ==> i == j,
{
    assert(is_running(t.processes@, t.current as int));
    assert forall|i: int, j: int|
        is_running(t.processes@, i) && is_running(t.processes@, j) implies i == j by {
        if i != t.current {
            assert(!is_running(t.processes@, i));
        }
        if j != t.current {
            assert(!is_running(t.processes@, j));
        }
    }
}

impl ProcessTable {
    /// An empty table: no slot filled, nothing scheduled.
    pub fn new() -> (t: ProcessTable)
        ensures
            table_wf(t),
            t.count == 0,
            t.current == NO_CURRENT,
            forall|i: int| 0 <= i < MAX_PROCESSES ==> #[trigger] t.processes@[i] is None,
    {
        let mut processes: Vec<Option<Process>> = Vec::new();
        let mut i: usize = 0;
        while i < MAX_PROCESSES
            invariant
                i <= MAX_PROCESSES,
                processes@.len() == i,
                forall|j: int| 0 <= j < i ==> #[trigger] processes@[j] is None,
            decreases MAX_PROCESSES - i,
        {
            processes.push(Option::None);
            i += 1;
        }
        ProcessTable { processes, current: NO_CURRENT, count: 0 }
    }
}

/// Register the boot context as process 0: running, idle priority, no
/// stack of its own to tear down.
pub fn init_kernel_process(t: &mut ProcessTable, rsp: u64, pml4: u64)
    requires
        table_wf(*old(t)),
        forall|i: int| 0 <= i < MAX_PROCESSES ==> #[trigger] old(t).processes@[i] is None,
    ensures
        table_wf(*final(t)),
        sched_inv(*final(t)),
        final(t).current == 0,
        final(t).count == 1,
        final(t).processes@ == old(t).processes@.update(
            0,
            Option::Some(
                Process {
                    pid: 0,
                    rsp,
                    stack_base: 0,
                    entry: 0,
                    pml4,
                    state: ProcessState::Running,
                    priority: Priority::Idle,
                    ticks_ready: 0,
                    wake_at_tick: 0,
                },
            ),
        ),
{
    let process = Process {
        pid: 0,
        rsp,
        stack_base: 0,
        entry: 0,
        pml4,
        state: ProcessState::Running,
        priority: Priority::Idle,
        ticks_ready: 0,
        wake_at_tick: 0,
    };
    t.processes[0] = Option::Some(process);
    t.current = 0;
    t.count = 1;
}

/// Bytes of the synthetic interrupt frame below the stack top, as 64-bit
/// words from the new stack pointer upward: the saved general registers
/// (the entry pointer where the trampoline expects it), then the return
/// frame the interrupt-return instruction consumes.
pub open spec fn spec_initial_frame(stack_top: u64, entry: u64, wrapper: u64) -> Seq<u64> {
    Seq::new(
        20,
        |i: int|
            if i == 13 {
                entry
            } else if i == 15 {
                wrapper
            } else if i == 16 {
                0x08u64
            } else if i == 17 {
                0x202u64
            } else if i == 18 {
                stack_top
            } else if i == 19 {
                0x10u64
            } else {
                0u64
            },
    )
}

/// Lay out the synthetic interrupt frame for a fresh task and return the
/// stack pointer that resumes it: twenty words below the stack top.
pub fn setup_initial_stack(stack_top: u64, entry: u64, wrapper: u64) -> (r: (u64, Vec<u64>))
    requires
        stack_top >= 160,
    ensures
        r.0 == stack_top - 160,
        r.1@ == spec_initial_frame(stack_top, entry, wrapper),
{
    let mut frame: Vec<u64> = Vec::new();
    let mut i: usize = 0;
    while i < 15
        invariant
            i <= 15,
            frame@.len() == i,
            forall|j: int|
                0 <= j < i ==> #[trigger] frame@[j] == (if j == 13 {
                    entry
                } else {
                    0u64
                }),
        decreases 15 - i,
    {
        if i == 13 {
            frame.push(entry);
        } else {
            frame.push(0);
        }
        i += 1;
    }
    frame.push(wrapper);
    frame.push(0x08);
    frame.push(0x202);
    frame.push(stack_top);
    frame.push(0x10);
    proof {
        assert(frame@ =~= spec_initial_frame(stack_top, entry, wrapper));
    }
    (stack_top - 160, frame)
}

/// Fill the next free slot with a ready, normal-priority process whose
/// stack the caller has reserved. Fails exactly when the table is full.
pub fn create_process(t: &mut ProcessTable, entry: u64, stack_base: u64, pml4: u64) -> (r: Option<
    u64,
>)
    requires
        table_wf(*old(t)),
        stack_base + KERNEL_STACK_SIZE <= u64::MAX,
    ensures
        table_wf(*final(t)),
        match r {
            Option::Some(pid) => {
                &&& old(t).count < MAX_PROCESSES
                &&& pid == old(t).count
                &&& final(t).count == old(t).count + 1
                &&& final(t).current == old(t).current
                &&& final(t).processes@ == old(t).processes@.update(
                    pid as int,
                    Option::Some(
                        Process {
                            pid,
                            rsp: (stack_base + KERNEL_STACK_SIZE as u64 - 160) as u64,
                            stack_base,
                            entry,
                            pml4,
                            state: ProcessState::Ready,
                            priority: Priority::Normal,
                            ticks_ready: 0,
                            wake_at_tick: 0,
                        },
                    ),
                )
            },
            Option::None => {
                &&& old(t).count >= MAX_PROCESSES
                &&& *final(t) == *old(t)
            },
        },
        sched_inv(*old(t)) && old(t).current != old(t).count ==> sched_inv(*final(t)),
{
    let pid = t.count;
    if pid >= MAX_PROCESSES as u64 {
        return Option::None;
    }
    let stack_top = stack_base + KERNEL_STACK_SIZE as u64;
    let rsp = stack_top - 160;
    let process = Process {
        pid,
        rsp,
        stack_base,
        entry,
        pml4,
        state: ProcessState::Ready,
        priority: Priority::Normal,
        ticks_ready: 0,
        wake_at_tick: 0,
    };
    t.processes[pid as usize] = Option::Some(process);
    t.count = pid + 1;
    proof {
        if sched_inv(*old(t)) && old(t).current != old(t).count {
            assert(is_running(t.processes@, old(t).current as int));
            assert forall|i: int|
                0 <= i < MAX_PROCESSES && i != t.current implies !is_running(t.processes@, i) by {
                if i != pid {
                    assert(!is_running(old(t).processes@, i));
                    assert(t.processes@[i] == old(t).processes@[i]);
                } else {
                    assert(t.processes@[i] matches Option::Some(p) && p.state
                        == ProcessState::Ready);
                }
            }
        }
    }
    Option::Some(pid)
}

/// Empty a slot. The caller frees the stack; when the victim was current,
/// the current index falls back to slot 0.
pub fn destroy_process(t: &mut ProcessTable, pid: u64) -> (r: bool)
    requires
        table_wf(*old(t)),
    ensures
        table_wf(*final(t)),
        final(t).count == old(t).count,
        match r {
            true => {
                &&& pid < MAX_PROCESSES
                &&& old(t).processes@[pid as int] is Some
                &&& final(t).processes@ == old(t).processes@.update(pid as int, Option::None)
                &&& final(t).current == (if old(t).current == pid {
                    0usize
                } else {
                    old(t).current
                })
            },
            false => {
                &&& (pid >= MAX_PROCESSES || old(t).processes@[pid as int] is None)
                &&& *final(t) == *old(t)
            },
        },
{
    if pid >= MAX_PROCESSES as u64 {
        return false;
    }
    let occupied = t.processes[pid as usize].is_some();
    if occupied {
        t.processes[pid as usize] = Option::None;
        if t.current == pid as usize {
            t.current = 0;
        }
        true
    } else {
        false
    }
}

/// Reap every terminated process outside the current slot, emptying its
/// slot so it can be reused.
pub fn cleanup_terminated_processes(t: &mut ProcessTable)
    requires
        table_wf(*old(t)),
    ensures
        table_wf(*final(t)),
        final(t).count == old(t).count,
        final(t).current == old(t).current,
        final(t).processes@.len() == old(t).processes@.len(),
        forall|i: int|
            0 <= i < MAX_PROCESSES ==> #[trigger] final(t).processes@[i] == (if i < old(t).count
                && i != old(t).current && (old(t).processes@[i] matches Option::Some(p) && p.state
                == ProcessState::Terminated) {
                Option::<Process>::None
            } else {
                old(t).processes@[i]
            }),
{
    let count = t.count as usize;
    let mut i: usize = 0;
    while i < count
        invariant
            i <= count,
            count == old(t).count,
            table_wf(*t),
            t.count == old(t).count,
            t.current == old(t).current,
            forall|j: int|
                0 <= j < MAX_PROCESSES ==> #[trigger] t.processes@[j] == (if j < i && j != old(
                    t,
                ).current && (old(t).processes@[j] matches Option::Some(p) && p.state
                    == ProcessState::Terminated) {
                    Option::<Process>::None
                } else {
                    old(t).processes@[j]
                }),
        decreases count - i,
    {
        let mut reap = false;
        match &t.processes[i] {
            Option::Some(p) => {
                if p.state == ProcessState::Terminated && t.current != i {
                    reap = true;
                }
            },
            Option::None => {},
        }
        if reap {
            t.processes[i] = Option::None;
        }
        i += 1;
    }
}

/// Mark the current process terminated; the next reap collects it.
pub fn exit_current_process(t: &mut ProcessTable)
    requires
        table_wf(*old(t)),
    ensures
        table_wf(*final(t)),
        final(t).count == old(t).count,
        final(t).current == old(t).current,
        if old(t).current < MAX_PROCESSES && (old(t).processes@[old(t).current as int]
            matches Option::Some(p)) {
            final(t).processes@ == old(t).processes@.update(
                old(t).current as int,
                match old(t).processes@[old(t).current as int] {
                    Option::Some(p) => Option::Some(
                        Process { state: ProcessState::Terminated, ..p },
                    ),
                    Option::None => Option::None,
                },
            )
        } else {
            final(t).processes@ == old(t).processes@
        },
{
    if t.current >= MAX_PROCESSES {
        proof {
            assert(final(t).processes@ =~= old(t).processes@);
        }
        return ;
    }
    let cur = t.current;
    let slot = &mut t.processes[cur];
    match slot {
        Option::Some(p) => {
            p.state = ProcessState::Terminated;
        },
        Option::None => {},
    }
    proof {
        if old(t).processes@[old(t).current as int] is None {
            assert(t.processes@ =~= old(t).processes@);
        }
    }
}

/// The record in slot `pid`, when one is there.
pub fn get_process(t: &ProcessTable, pid: u64) -> (r: Option<&Process>)
    requires
        table_wf(*t),
    ensures
        match r {
            Option::Some(p) => pid < MAX_PROCESSES && t.processes@[pid as int] == Option::Some(*p),
            Option::None => pid >= MAX_PROCESSES || t.processes@[pid as int] is None,
        },
{
    if pid >= MAX_PROCESSES as u64 {
        return Option::None;
    }
    t.processes[pid as usize].as_ref()
}

/// The record of the process on the CPU, when one is scheduled.
pub fn get_current_process(t: &ProcessTable) -> (r: Option<&Process>)
    requires
        table_wf(*t),
    ensures
        match r {
            Option::Some(p) => t.current < MAX_PROCESSES && t.processes@[t.current as int]
                == Option::Some(*p),
            Option::None => t.current == NO_CURRENT || (t.current < MAX_PROCESSES
                && t.processes@[t.current as int] is None),
        },
{
    if t.current == NO_CURRENT {
        return Option::None;
    }
    t.processes[t.current].as_ref()
}

} // verus!
