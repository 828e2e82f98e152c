//! Round-robin preemptive scheduler: tick handling, wake-on-tick sleep,
//! quantum accounting, and the stack-swap decision the timer interrupt
//! performs. The halt that suspends a task until the next interrupt is the
//! hardware side; every state transition is decided here.

use vstd::prelude::*;

verus! {

use crate::process::{
    Process,
    ProcessState,
    ProcessTable,
    Priority,
    MAX_PROCESSES,
    table_wf,
    is_running,
    sched_inv,
};

pub const QUANTUM_TICKS: u64 = 5;

/// The scheduler's own state: the master switch, the tick count it wakes
/// sleepers against, the remaining quantum of the running task, the
/// calibrated tick rate, and the raw tick counter the interrupt stub keeps.
pub struct Scheduler {
    pub enabled: bool,
    pub current_ticks: u64,
    pub quantum_remaining: u64,
    pub apic_ticks_per_sec: u64,
    pub timer_ticks: u64,
}

impl Scheduler {
    /// A scheduler that has not been enabled yet.
    pub fn new(apic_ticks_per_sec: u64) -> (s: Scheduler)
        ensures
            !s.enabled,
            s.current_ticks == 0,
            s.quantum_remaining == QUANTUM_TICKS,
            s.apic_ticks_per_sec == apic_ticks_per_sec,
            s.timer_ticks == 0,
    {
        Scheduler {
            enabled: false,
            current_ticks: 0,
            quantum_remaining: QUANTUM_TICKS,
            apic_ticks_per_sec,
            timer_ticks: 0,
        }
    }

    /// Ticks delivered since boot.
    pub fn get_timer_ticks(&self) -> (r: u64)
        ensures
            r == self.timer_ticks,
    {
        self.timer_ticks
    }
}

pub fn enable_scheduler(s: &mut Scheduler)
    ensures
        *final(s) == (Scheduler { enabled: true, ..*old(s) }),
{
    s.enabled = true;
}

pub fn disable_scheduler(s: &mut Scheduler)
    ensures
        *final(s) == (Scheduler { enabled: false, ..*old(s) }),
{
    s.enabled = false;
}

/// Make the first registered process the running one and refill the
/// quantum; with an empty table nothing changes.
pub fn init_scheduler(s: &mut Scheduler, t: &mut ProcessTable)
    requires
        table_wf(*old(t)),
    ensures
        table_wf(*final(t)),
        if old(t).count == 0 {
            *final(t) == *old(t) && *final(s) == *old(s)
        } else {
            &&& *final(s) == (Scheduler { quantum_remaining: QUANTUM_TICKS, ..*old(s) })
            &&& final(t).current == 0
            &&& final(t).count == old(t).count
            &&& final(t).processes@ == (match old(t).processes@[0] {
                Option::Some(p) => old(t).processes@.update(
                    0,
                    Option::Some(Process { state: ProcessState::Running, ..p }),
                ),
                Option::None => old(t).processes@,
            })
        },
{
    if t.count == 0 {
        return ;
    }
    t.current = 0;
    s.quantum_remaining = QUANTUM_TICKS;
    let slot = &mut t.processes[0];
    match slot {
        Option::Some(p) => {
            p.state = ProcessState::Running;
        },
        Option::None => {},
    }
    proof {
        if old(t).processes@[0] is None {
            assert(t.processes@ =~= old(t).processes@);
        }
    }
}

/// A slot the selection can pick: filled and ready.
pub open spec fn slot_ready(slots: Seq<Option<Process>>, i: int) -> bool {
    0 <= i < slots.len() && (slots[i] matches Option::Some(p) && p.state == ProcessState::Ready)
}

/// A ready slot above idle priority.
pub open spec fn slot_ready_nonidle(slots: Seq<Option<Process>>, i: int) -> bool {
    slot_ready(slots, i) && (slots[i] matches Option::Some(p) && p.priority != Priority::Idle)
}

/// The round-robin search: walk offsets 1..=count from `current`, return
/// the first ready non-idle slot, and fall back to the first ready idle
/// slot seen when no other is ready.
pub open spec fn spec_find_next(
    slots: Seq<Option<Process>>,
    current: int,
    count: int,
    off: int,
    fallback: Option<int>,
) -> Option<int>
    decreases count - off + 1,
{
    if off > count || count <= 0 {
        fallback
    } else {
        let idx = (current + off) % count;
        if slot_ready_nonidle(slots, idx) {
            Option::Some(idx)
        } else if slot_ready(slots, idx) && fallback is None {
            spec_find_next(slots, current, count, off + 1, Option::Some(idx))
        } else {
            spec_find_next(slots, current, count, off + 1, fallback)
        }
    }
}

/// Whatever the search returns is a ready slot below `count`.
proof fn lemma_find_next_props(
    slots: Seq<Option<Process>>,
    current: int,
    count: int,
    off: int,
    fallback: Option<int>,
)
    requires
        count <= slots.len(),
        fallback matches Option::Some(f) ==> slot_ready(slots, f) && 0 <= f < count,
    ensures
        spec_find_next(slots, current, count, off, fallback) matches Option::Some(idx)
            ==> slot_ready(slots, idx) && 0 <= idx < count,
    decreases count - off + 1,
{
    if off > count || count <= 0 {
    } else {
        let idx = (current + off) % count;
        if slot_ready_nonidle(slots, idx) {
        } else if slot_ready(slots, idx) && fallback is None {
            lemma_find_next_props(slots, current, count, off + 1, Option::Some(idx));
        } else {
            lemma_find_next_props(slots, current, count, off + 1, fallback);
        }
    }
}

/// With every slot below `count` ready at equal non-idle priority, the
/// search picks the successor of `current`: round-robin order.
pub proof fn lemma_round_robin_successor(slots: Seq<Option<Process>>, current: int, count: int)
    requires
        0 < count <= slots.len(),
        0 <= current,
        forall|i: int| 0 <= i < count ==> slot_ready_nonidle(slots, i),
    ensures
        spec_find_next(slots, current, count, 1, Option::None) == Option::Some(
            (current + 1) % count,
        ),
{
    assert(0 <= (current + 1) % count < count) by (nonlinear_arith)
        requires
            count > 0,
            current >= 0,
    ;
}

/// Two different picks of one round-robin round land on different slots:
/// the i-th and j-th successors of `c` differ while i, j stay below the
/// slot count.
pub proof fn lemma_round_robin_distinct(count: int, c: int, i: int, j: int)
    requires
        0 < count,
        0 <= c < count,
        0 <= i < j < count,
    ensures
        (c + 1 + i) % count != (c + 1 + j) % count,
{
    let a = c + 1 + i;
    let b = c + 1 + j;
    vstd::arithmetic::div_mod::lemma_fundamental_div_mod(a, count);
    vstd::arithmetic::div_mod::lemma_fundamental_div_mod(b, count);
    assert(a % count != b % count) by (nonlinear_arith)
        requires
            a == count * (a / count) + a % count,
            b == count * (b / count) + b % count,
            0 <= a % count < count,
            0 <= b % count < count,
            0 < b - a < count,
    ;
}

/// One round of successor picks reaches every slot: each slot `s` is the
/// j-th pick after `c` for some j below the slot count. With
/// `lemma_round_robin_distinct` and `lemma_round_robin_successor`, a window
/// of K switches over K always-ready equal-priority slots runs each exactly
/// once.
pub proof fn lemma_round_robin_covers(count: int, c: int, s: int)
    requires
        0 < count,
        0 <= c < count,
        0 <= s < count,
    ensures
        exists|j: int| 0 <= j < count && #[trigger] ((c + 1 + j) % count) == s,
{
    let j = (s - c - 1) % count;
    vstd::arithmetic::div_mod::lemma_fundamental_div_mod(s - c - 1, count);
    assert(0 <= j < count) by (nonlinear_arith)
        requires
            j == (s - c - 1) % count,
            s - c - 1 == count * ((s - c - 1) / count) + (s - c - 1) % count,
            0 <= (s - c - 1) % count < count,
    ;
    let m = (s - c - 1) / count;
    assert(c + 1 + j == count * (-m) + s) by (nonlinear_arith)
        requires
            s - c - 1 == count * m + j,
    ;
    vstd::arithmetic::div_mod::lemma_mod_multiples_vanish(-m, s, count);
    vstd::arithmetic::div_mod::lemma_small_mod(s as nat, count as nat);
}

/// Find the next ready process after `current`, preferring any whose
/// priority is not idle.
pub fn find_next_ready(t: &ProcessTable, current: usize) -> (r: Option<usize>)
    requires
        table_wf(*t),
        current < MAX_PROCESSES,
    ensures
        match r {
            Option::Some(idx) => Option::Some(idx as int) == spec_find_next(
                t.processes@,
                current as int,
                t.count as int,
                1,
                Option::None,
            ) && slot_ready(t.processes@, idx as int) && idx < t.count,
            Option::None => Option::None::<int> == spec_find_next(
                t.processes@,
                current as int,
                t.count as int,
                1,
                Option::None,
            ),
        },
{
    let count = t.count as usize;
    let mut idle_fallback: Option<usize> = Option::None;
    let mut offset: usize = 1;
    proof {
        lemma_find_next_props(t.processes@, current as int, count as int, 1, Option::None);
    }
    while offset <= count
        invariant
            1 <= offset <= count + 1,
            count == t.count <= MAX_PROCESSES,
            table_wf(*t),
            current < MAX_PROCESSES,
            match idle_fallback {
                Option::Some(f) => slot_ready(t.processes@, f as int) && f < count,
                Option::None => true,
            },
            spec_find_next(t.processes@, current as int, count as int, 1, Option::None)
                == spec_find_next(
                t.processes@,
                current as int,
                count as int,
                offset as int,
                match idle_fallback {
                    Option::Some(f) => Option::Some(f as int),
                    Option::None => Option::None,
                },
            ),
        decreases count + 1 - offset,
    {
        let idx = (current + offset) % count;
        proof {
            assert(idx < count) by (nonlinear_arith)
                requires
                    count > 0,
                    idx == (current + offset) as int % count as int,
            ;
        }
        match &t.processes[idx] {
            Option::Some(proc) => {
                if proc.state == ProcessState::Ready {
                    if proc.priority == Priority::Idle {
                        if idle_fallback.is_none() {
                            idle_fallback = Option::Some(idx);
                        }
                    } else {
                        return Option::Some(idx);
                    }
                }
            },
            Option::None => {},
        }
        offset += 1;
    }
    match idle_fallback {
        Option::Some(f) => Option::Some(f),
        Option::None => Option::None,
    }
}

/// Effect of a stack swap: the outgoing slot records the interrupted stack
/// pointer and leaves the running state; the incoming slot starts running;
/// its saved stack pointer is what the interrupt returns on.
pub open spec fn spec_switch(
    slots: Seq<Option<Process>>,
    current: int,
    current_rsp: u64,
    next: int,
) -> (Seq<Option<Process>>, u64) {
    let slots1 = match slots[current] {
        Option::Some(p) => slots.update(
            current,
            Option::Some(
                Process {
                    rsp: current_rsp,
                    state: if p.state == ProcessState::Running {
                        ProcessState::Ready
                    } else {
                        p.state
                    },
                    ..p
                },
            ),
        ),
        Option::None => slots,
    };
    match slots1[next] {
        Option::Some(q) => (
            slots1.update(next, Option::Some(Process { state: ProcessState::Running, ..q })),
            q.rsp,
        ),
        Option::None => (slots1, current_rsp),
    }
}

/// Save the outgoing stack pointer, mark the incoming process running, and
/// hand back its stack pointer.
pub fn switch_to(t: &mut ProcessTable, current: usize, current_rsp: u64, next: usize) -> (r: u64)
    requires
        table_wf(*old(t)),
        current < MAX_PROCESSES,
        next < MAX_PROCESSES,
        old(t).processes@[next as int] is Some,
    ensures
        table_wf(*final(t)),
        final(t).count == old(t).count,
        final(t).current == next,
        (final(t).processes@, r) == spec_switch(
            old(t).processes@,
            current as int,
            current_rsp,
            next as int,
        ),
{
    let slot = &mut t.processes[current];
    match slot {
        Option::Some(p) => {
            p.rsp = current_rsp;
            if p.state == ProcessState::Running {
                p.state = ProcessState::Ready;
            }
        },
        Option::None => {},
    }
    proof {
        if old(t).processes@[current as int] is None {
            assert(t.processes@ =~= old(t).processes@);
        }
    }
    let mut rsp: u64 = current_rsp;
    let slot = &mut t.processes[next];
    match slot {
        Option::Some(q) => {
            rsp = q.rsp;
            q.state = ProcessState::Running;
        },
        Option::None => {},
    }
    t.current = next;
    rsp
}

/// Saturating decrement of the quantum.
pub open spec fn spec_quantum_dec(q: u64) -> u64 {
    if q == 0 {
        0u64
    } else {
        (q - 1) as u64
    }
}

/// One scheduling decision on an already-woken table: what the slots, the
/// current index, the quantum and the resumed stack pointer become.
pub open spec fn spec_schedule(
    slots: Seq<Option<Process>>,
    current: int,
    count: int,
    quantum: u64,
    rsp: u64,
) -> (Seq<Option<Process>>, int, u64, u64) {
    let st = match slots[current] {
        Option::Some(p) => Option::Some(p.state),
        Option::None => Option::None,
    };
    if st == Option::Some(ProcessState::Running) {
        let q1 = spec_quantum_dec(quantum);
        if q1 == 0 {
            match spec_find_next(slots, current, count, 1, Option::None) {
                Option::Some(next) => {
                    let (slots2, r2) = spec_switch(slots, current, rsp, next);
                    (slots2, next, QUANTUM_TICKS, r2)
                },
                Option::None => (slots, current, QUANTUM_TICKS, rsp),
            }
        } else {
            (slots, current, q1, rsp)
        }
    } else if st == Option::Some(ProcessState::Terminated) || st == Option::Some(
        ProcessState::Sleeping,
    ) || st == Option::Some(ProcessState::Blocked) {
        match spec_find_next(slots, current, count, 1, Option::None) {
            Option::Some(next) => {
                let (slots2, r2) = spec_switch(slots, current, rsp, next);
                (slots2, next, QUANTUM_TICKS, r2)
            },
            Option::None => (slots, current, quantum, rsp),
        }
    } else {
        (slots, current, quantum, rsp)
    }
}

/// Decrement the running task's quantum and swap stacks when it is spent
/// or the current task can no longer run.
pub fn schedule(s: &mut Scheduler, t: &mut ProcessTable, current_rsp: u64) -> (r: u64)
    requires
        table_wf(*old(t)),
        old(t).current < MAX_PROCESSES,
    ensures
        table_wf(*final(t)),
        final(t).count == old(t).count,
        *final(s) == (Scheduler { quantum_remaining: final(s).quantum_remaining, ..*old(s) }),
        (final(t).processes@, final(t).current as int, final(s).quantum_remaining, r)
            == spec_schedule(
            old(t).processes@,
            old(t).current as int,
            old(t).count as int,
            old(s).quantum_remaining,
            current_rsp,
        ),
        final(t).current < MAX_PROCESSES,
        (forall|i: int|
            0 <= i < MAX_PROCESSES && i != old(t).current ==> !is_running(old(t).processes@, i))
            ==> (forall|i: int|
            0 <= i < MAX_PROCESSES && i != final(t).current ==> !is_running(
                final(t).processes@,
                i,
            )),
        (sched_inv(*old(t)) && is_running(old(t).processes@, old(t).current as int)) ==> (
        is_running(final(t).processes@, final(t).current as int)),
{
    let current = t.current;
    let mut state: Option<ProcessState> = Option::None;
    match &t.processes[current] {
        Option::Some(p) => {
            state = Option::Some(p.state);
        },
        Option::None => {},
    }
    let ghost slots0 = t.processes@;
    let mut r: u64 = current_rsp;
    let mut switched = false;
    let ghost mut next_g: int = 0;
    match state {
        Option::Some(ProcessState::Running) => {
            let q1 = if s.quantum_remaining == 0 {
                0
            } else {
                s.quantum_remaining - 1
            };
            s.quantum_remaining = q1;
            if q1 == 0 {
                match find_next_ready(t, current) {
                    Option::Some(next) => {
                        s.quantum_remaining = QUANTUM_TICKS;
                        r = switch_to(t, current, current_rsp, next);
                        switched = true;
                        proof {
                            next_g = next as int;
                        }
                    },
                    Option::None => {
                        s.quantum_remaining = QUANTUM_TICKS;
                    },
                }
            }
        },
        Option::Some(ProcessState::Terminated) | Option::Some(ProcessState::Sleeping)
            | Option::Some(ProcessState::Blocked) => {
            match find_next_ready(t, current) {
                Option::Some(next) => {
                    s.quantum_remaining = QUANTUM_TICKS;
                    r = switch_to(t, current, current_rsp, next);
                    switched = true;
                    proof {
                        next_g = next as int;
                    }
                },
                Option::None => {},
            }
        },
        _ => {},
    }
    proof {
        if switched {
            lemma_switch_preserves(slots0, current as int, current_rsp, next_g);
            let (slots2, _r2) = spec_switch(slots0, current as int, current_rsp, next_g);
            assert(t.processes@ == slots2);
            if forall|i: int|
                0 <= i < MAX_PROCESSES && i != current ==> !is_running(slots0, i) {
                assert forall|i: int|
                    0 <= i < MAX_PROCESSES && i != t.current implies !is_running(
                    t.processes@,
                    i,
                ) by {
                    if i == current {
                        if slots0[i] is Some {
                            assert(i_current_not_running(slots2, current as int, next_g));
                        } else {
                            assert(slots2[i] == slots0[i]);
                        }
                    } else {
                        assert(slots2[i] == slots0[i]);
                        assert(!is_running(slots0, i));
                    }
                }
            }
        }
    }
    r
}

/// A switch leaves no running slot outside the incoming one, provided none
/// was running outside the outgoing one.
proof fn lemma_switch_preserves(
    slots: Seq<Option<Process>>,
    current: int,
    current_rsp: u64,
    next: int,
)
    requires
        0 <= current < slots.len(),
        0 <= next < slots.len(),
        slots[next] is Some,
    ensures
        ({
            let (slots2, r2) = spec_switch(slots, current, current_rsp, next);
            &&& slots2.len() == slots.len()
            &&& is_running(slots2, next)
            &&& forall|i: int|
                0 <= i < slots.len() && i != next && i != current ==> slots2[i] == slots[i]
            &&& (slots[current] matches Option::Some(p) ==> (i_current_not_running(
                slots2,
                current,
                next,
            )))
        }),
{
    let (slots2, r2) = spec_switch(slots, current, current_rsp, next);
    assert(is_running(slots2, next));
}

/// After a switch away from `current`, the outgoing slot is not running
/// (unless it is the incoming slot itself).
pub open spec fn i_current_not_running(
    slots2: Seq<Option<Process>>,
    current: int,
    next: int,
) -> bool {
    current != next ==> !is_running(slots2, current)
}

/// The wake-and-age rule for one slot: a sleeping process whose deadline
/// has come turns ready, and a process that is then ready has waited one
/// tick longer (the aging counter saturates rather than wrap).
pub open spec fn spec_wake_slot(slot: Option<Process>, ticks: u64) -> Option<Process> {
    match slot {
        Option::Some(p) => {
            let state1 = if p.state == ProcessState::Sleeping && ticks >= p.wake_at_tick {
                ProcessState::Ready
            } else {
                p.state
            };
            let aged = if state1 == ProcessState::Ready && p.ticks_ready < u64::MAX {
                (p.ticks_ready + 1) as u64
            } else {
                p.ticks_ready
            };
            Option::Some(Process { state: state1, ticks_ready: aged, ..p })
        },
        Option::None => Option::None,
    }
}

/// The table after the wake pass over the first `count` slots.
pub open spec fn spec_woken(slots: Seq<Option<Process>>, count: int, ticks: u64) -> Seq<
    Option<Process>,
> {
    Seq::new(
        slots.len(),
        |i: int|
            if i < count {
                spec_wake_slot(slots[i], ticks)
            } else {
                slots[i]
            },
    )
}

/// The timer tick: advance the clock, wake due sleepers, then decide who
/// runs next and on which stack the interrupt returns.
pub fn handle_timer_interrupt(s: &mut Scheduler, t: &mut ProcessTable, current_rsp: u64) -> (r:
    u64)
    requires
        table_wf(*old(t)),
        old(s).current_ticks < u64::MAX,
        old(s).enabled ==> old(t).current < MAX_PROCESSES,
    ensures
        table_wf(*final(t)),
        final(t).count == old(t).count,
        !old(s).enabled ==> r == current_rsp && *final(s) == *old(s) && *final(t) == *old(t),
        old(s).enabled ==> {
            let ticks1 = (old(s).current_ticks + 1) as u64;
            let woken = spec_woken(old(t).processes@, old(t).count as int, ticks1);
            &&& final(s).current_ticks == ticks1
            &&& final(s).enabled == old(s).enabled
            &&& final(s).apic_ticks_per_sec == old(s).apic_ticks_per_sec
            &&& final(s).timer_ticks == old(s).timer_ticks
            &&& (final(t).processes@, final(t).current as int, final(s).quantum_remaining, r)
                == spec_schedule(
                woken,
                old(t).current as int,
                old(t).count as int,
                old(s).quantum_remaining,
                current_rsp,
            )
            &&& final(t).current < MAX_PROCESSES
            &&& (forall|i: int|
                0 <= i < MAX_PROCESSES && i != old(t).current ==> !is_running(
                    old(t).processes@,
                    i,
                )) ==> (forall|i: int|
                0 <= i < MAX_PROCESSES && i != final(t).current ==> !is_running(
                    final(t).processes@,
                    i,
                ))
            &&& (sched_inv(*old(t)) && is_running(old(t).processes@, old(t).current as int)) ==> (
            sched_inv(*final(t)) && is_running(final(t).processes@, final(t).current as int))
        },
{
    if !s.enabled {
        return current_rsp;
    }
    s.current_ticks = s.current_ticks + 1;
    let ticks = s.current_ticks;
    let count = t.count as usize;
    let ghost slots0 = t.processes@;
    let mut i: usize = 0;
    while i < count
        invariant
            i <= count,
            count == t.count <= MAX_PROCESSES,
            table_wf(*t),
            t.count == old(t).count,
            t.current == old(t).current,
            t.processes@.len() == MAX_PROCESSES,
            slots0 == old(t).processes@,
            forall|j: int|
                0 <= j < MAX_PROCESSES ==> #[trigger] t.processes@[j] == (if j < i {
                    spec_wake_slot(slots0[j], ticks)
                } else {
                    slots0[j]
                }),
        decreases count - i,
    {
        let slot = &mut t.processes[i];
        match slot {
            Option::Some(p) => {
                if p.state == ProcessState::Sleeping && ticks >= p.wake_at_tick {
                    p.state = ProcessState::Ready;
                }
                if p.state == ProcessState::Ready && p.ticks_ready < u64::MAX {
                    p.ticks_ready = p.ticks_ready + 1;
                }
            },
            Option::None => {},
        }
        i += 1;
    }
    proof {
        assert(t.processes@ =~= spec_woken(slots0, count as int, ticks));
        assert forall|j: int|
            0 <= j < MAX_PROCESSES && j != t.current && !is_running(slots0, j) implies !is_running(
            t.processes@,
            j,
        ) by {
            assert(t.processes@[j] == (if j < count {
                spec_wake_slot(slots0[j], ticks)
            } else {
                slots0[j]
            }));
        }
        if is_running(slots0, t.current as int) {
            assert(is_running(t.processes@, t.current as int));
        }
    }
    let ghost woken = t.processes@;
    let ghost mid_current = t.current;
    let r = schedule(s, t, current_rsp);
    proof {
        if forall|i: int|
            0 <= i < MAX_PROCESSES && i != old(t).current ==> !is_running(
                old(t).processes@,
                i,
            ) {
            assert forall|i: int|
                0 <= i < MAX_PROCESSES && i != mid_current implies !is_running(woken, i) by {
                assert(!is_running(old(t).processes@, i));
            }
            assert(forall|i: int|
                0 <= i < MAX_PROCESSES && i != t.current ==> !is_running(t.processes@, i));
        }
        if sched_inv(*old(t)) && is_running(old(t).processes@, old(t).current as int) {
            assert(is_running(woken, mid_current as int));
            assert forall|i: int|
                0 <= i < MAX_PROCESSES && i != mid_current implies !is_running(woken, i) by {
                assert(!is_running(old(t).processes@, i));
            }
            assert(is_running(t.processes@, t.current as int));
            assert(sched_inv(*t));
        }
    }
    r
}

/// The interrupt-stub side of the tick: count it, then run the scheduler;
/// signalling end-of-interrupt is the hardware side.
pub fn apic_timer_interrupt_handler(s: &mut Scheduler, t: &mut ProcessTable, rsp: u64) -> (r: u64)
    requires
        table_wf(*old(t)),
        old(s).current_ticks < u64::MAX,
        old(s).timer_ticks < u64::MAX,
        old(s).enabled ==> old(t).current < MAX_PROCESSES,
    ensures
        table_wf(*final(t)),
        final(s).timer_ticks == old(s).timer_ticks + 1,
{
    s.timer_ticks = s.timer_ticks + 1;
    handle_timer_interrupt(s, t, rsp)
}

/// Give up the rest of the quantum: the current task turns ready and the
/// next tick performs the switch.
pub fn yield_process(s: &mut Scheduler, t: &mut ProcessTable)
    requires
        table_wf(*old(t)),
        old(t).current < MAX_PROCESSES,
    ensures
        table_wf(*final(t)),
        final(t).count == old(t).count,
        final(t).current == old(t).current,
        *final(s) == (Scheduler { quantum_remaining: 0, ..*old(s) }),
        final(t).processes@ == (match old(t).processes@[old(t).current as int] {
            Option::Some(p) => old(t).processes@.update(
                old(t).current as int,
                Option::Some(Process { state: ProcessState::Ready, ..p }),
            ),
            Option::None => old(t).processes@,
        }),
{
    let cur = t.current;
    let slot = &mut t.processes[cur];
    match slot {
        Option::Some(p) => {
            p.state = ProcessState::Ready;
        },
        Option::None => {},
    }
    proof {
        if old(t).processes@[old(t).current as int] is None {
            assert(t.processes@ =~= old(t).processes@);
        }
    }
    s.quantum_remaining = 0;
}

/// Block the current task; it runs again only after `unblock_process`.
pub fn block_current(t: &mut ProcessTable)
    requires
        table_wf(*old(t)),
        old(t).current < MAX_PROCESSES,
    ensures
        table_wf(*final(t)),
        final(t).count == old(t).count,
        final(t).current == old(t).current,
        final(t).processes@ == (match old(t).processes@[old(t).current as int] {
            Option::Some(p) => old(t).processes@.update(
                old(t).current as int,
                Option::Some(Process { state: ProcessState::Blocked, ..p }),
            ),
            Option::None => old(t).processes@,
        }),
{
    let cur = t.current;
    let slot = &mut t.processes[cur];
    match slot {
        Option::Some(p) => {
            p.state = ProcessState::Blocked;
        },
        Option::None => {},
    }
    proof {
        if old(t).processes@[old(t).current as int] is None {
            assert(t.processes@ =~= old(t).processes@);
        }
    }
}

/// Make a blocked process ready; a process in any other state is left
/// alone.
pub fn unblock_process(t: &mut ProcessTable, pid: u64)
    requires
        table_wf(*old(t)),
    ensures
        table_wf(*final(t)),
        final(t).count == old(t).count,
        final(t).current == old(t).current,
        final(t).processes@ == (if pid < MAX_PROCESSES && (old(t).processes@[pid as int]
            matches Option::Some(p) && p.state == ProcessState::Blocked) {
            match old(t).processes@[pid as int] {
                Option::Some(p) => old(t).processes@.update(
                    pid as int,
                    Option::Some(Process { state: ProcessState::Ready, ..p }),
                ),
                Option::None => old(t).processes@,
            }
        } else {
            old(t).processes@
        }),
{
    if pid >= MAX_PROCESSES as u64 {
        return ;
    }
    let slot = &mut t.processes[pid as usize];
    match slot {
        Option::Some(p) => {
            if p.state == ProcessState::Blocked {
                p.state = ProcessState::Ready;
            }
        },
        Option::None => {},
    }
    proof {
        if !(old(t).processes@[pid as int] matches Option::Some(p) && p.state
            == ProcessState::Blocked) {
            assert(t.processes@ =~= old(t).processes@);
        }
    }
}

/// Ticks a millisecond sleep lasts: the requested time at the calibrated
/// rate, rounded up, and never less than one tick.
pub open spec fn spec_ms_to_ticks(ms: u64, tps: u64) -> u64 {
    let t = ((ms * tps + 999) as u64 / 1000) as u64;
    if t == 0 {
        1u64
    } else {
        t
    }
}

pub fn ms_to_ticks(s: &Scheduler, ms: u64) -> (r: u64)
    requires
        ms * s.apic_ticks_per_sec + 999 <= u64::MAX,
    ensures
        r == spec_ms_to_ticks(ms, s.apic_ticks_per_sec),
{
    let t = (ms * s.apic_ticks_per_sec + 999) / 1000;
    if t == 0 {
        1
    } else {
        t
    }
}

/// Ticks a microsecond sleep lasts, by the same rounding rule.
pub open spec fn spec_us_to_ticks(us: u64, tps: u64) -> u64 {
    let t = ((us * tps + 999999) as u64 / 1000000) as u64;
    if t == 0 {
        1u64
    } else {
        t
    }
}

pub fn us_to_ticks(s: &Scheduler, us: u64) -> (r: u64)
    requires
        us * s.apic_ticks_per_sec + 999999 <= u64::MAX,
    ensures
        r == spec_us_to_ticks(us, s.apic_ticks_per_sec),
{
    let t = (us * s.apic_ticks_per_sec + 999999) / 1000000;
    if t == 0 {
        1
    } else {
        t
    }
}

/// Record the wake deadline and put the current task to sleep; the tick
/// handler makes it ready again once the deadline has passed.
pub fn sleep_ticks(s: &Scheduler, t: &mut ProcessTable, ticks: u64)
    requires
        table_wf(*old(t)),
        old(t).current < MAX_PROCESSES,
        s.current_ticks + ticks <= u64::MAX,
    ensures
        table_wf(*final(t)),
        final(t).count == old(t).count,
        final(t).current == old(t).current,
        final(t).processes@ == (match old(t).processes@[old(t).current as int] {
            Option::Some(p) => old(t).processes@.update(
                old(t).current as int,
                Option::Some(
                    Process {
                        state: ProcessState::Sleeping,
                        wake_at_tick: (s.current_ticks + ticks) as u64,
                        ..p
                    },
                ),
            ),
            Option::None => old(t).processes@,
        }),
{
    let cur = t.current;
    let deadline = s.current_ticks + ticks;
    let slot = &mut t.processes[cur];
    match slot {
        Option::Some(p) => {
            p.wake_at_tick = deadline;
            p.state = ProcessState::Sleeping;
        },
        Option::None => {},
    }
    proof {
        if old(t).processes@[old(t).current as int] is None {
            assert(t.processes@ =~= old(t).processes@);
        }
    }
}

/// Sleep for `ms` milliseconds of ticks.
pub fn sleep_proc_ms(s: &Scheduler, t: &mut ProcessTable, ms: u64)
    requires
        table_wf(*old(t)),
        old(t).current < MAX_PROCESSES,
        ms * s.apic_ticks_per_sec + 999 <= u64::MAX,
        s.current_ticks + spec_ms_to_ticks(ms, s.apic_ticks_per_sec) <= u64::MAX,
    ensures
        table_wf(*final(t)),
        final(t).count == old(t).count,
        final(t).current == old(t).current,
        final(t).processes@ == (match old(t).processes@[old(t).current as int] {
            Option::Some(p) => old(t).processes@.update(
                old(t).current as int,
                Option::Some(
                    Process {
                        state: ProcessState::Sleeping,
                        wake_at_tick: (s.current_ticks + spec_ms_to_ticks(
                            ms,
                            s.apic_ticks_per_sec,
                        )) as u64,
                        ..p
                    },
                ),
            ),
            Option::None => old(t).processes@,
        }),
{
    let ticks = ms_to_ticks(s, ms);
    sleep_ticks(s, t, ticks);
}

/// Sleep for `us` microseconds of ticks.
pub fn sleep_proc_us(s: &Scheduler, t: &mut ProcessTable, us: u64)
    requires
        table_wf(*old(t)),
        old(t).current < MAX_PROCESSES,
        us * s.apic_ticks_per_sec + 999999 <= u64::MAX,
        s.current_ticks + spec_us_to_ticks(us, s.apic_ticks_per_sec) <= u64::MAX,
    ensures
        table_wf(*final(t)),
        final(t).count == old(t).count,
        final(t).current == old(t).current,
        final(t).processes@ == (match old(t).processes@[old(t).current as int] {
            Option::Some(p) => old(t).processes@.update(
                old(t).current as int,
                Option::Some(
                    Process {
                        state: ProcessState::Sleeping,
                        wake_at_tick: (s.current_ticks + spec_us_to_ticks(
                            us,
                            s.apic_ticks_per_sec,
                        )) as u64,
                        ..p
                    },
                ),
            ),
            Option::None => old(t).processes@,
        }),
{
    let ticks = us_to_ticks(s, us);
    sleep_ticks(s, t, ticks);
}

/// Sleep conversion is never early and at most one tick late: the ticks
/// slept cover the requested time at the calibrated rate, and undershoot
/// it by strictly less than two tick periods.
pub proof fn lemma_sleep_monotonicity(ms: u64, tps: u64)
    requires
        ms * tps + 999 <= u64::MAX,
    ensures
        spec_ms_to_ticks(ms, tps) * 1000 >= ms * tps,
        spec_ms_to_ticks(ms, tps) * 1000 < ms * tps + 2000,
{
    let x = (ms * tps) as int;
    let q = (x + 999) / 1000;
    vstd::arithmetic::div_mod::lemma_fundamental_div_mod(x + 999, 1000);
    assert(q * 1000 >= x && q * 1000 < x + 1000) by (nonlinear_arith)
        requires
            x + 999 == 1000 * q + ((x + 999) % 1000),
            0 <= (x + 999) % 1000 < 1000,
    ;
    if q == 0 {
        assert(spec_ms_to_ticks(ms, tps) == 1);
    }
}

} // verus!
