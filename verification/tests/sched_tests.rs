use eucalypt_core::process::{
    create_process, init_kernel_process, ProcessState, ProcessTable,
};
use eucalypt_core::sched::{
    block_current, enable_scheduler, handle_timer_interrupt, ms_to_ticks, sleep_proc_ms,
    unblock_process, us_to_ticks, Scheduler,
};

/// Kernel process 0 at idle priority plus `k` normal-priority workers.
fn table_with_workers(k: u64) -> ProcessTable {
    let mut t = ProcessTable::new();
    init_kernel_process(&mut t, 0x1000, 0x2000);
    for i in 0..k {
        let pid = create_process(&mut t, 0x4000 + i, 0x10_0000 + i * 0x10_0000, 0x2000).unwrap();
        assert_eq!(pid, i + 1);
    }
    t
}

fn running_pid(t: &ProcessTable) -> Option<u64> {
    let mut found = None;
    for slot in t.processes.iter() {
        if let Some(p) = slot {
            if p.state == ProcessState::Running {
                assert!(found.is_none(), "two processes running at once");
                found = Some(p.pid);
            }
        }
    }
    found
}

#[test]
fn exactly_one_running_at_every_tick() {
    let mut t = table_with_workers(3);
    let mut s = Scheduler::new(1000);
    enable_scheduler(&mut s);
    for _ in 0..100 {
        handle_timer_interrupt(&mut s, &mut t, 0xAAAA);
        assert!(running_pid(&t).is_some());
    }
}

#[test]
fn round_robin_fairness_over_quanta() {
    let k = 4u64;
    let quantum = 5u64;
    let mut t = table_with_workers(k);
    let mut s = Scheduler::new(1000);
    enable_scheduler(&mut s);
    let mut run_ticks = vec![0u64; (k + 1) as usize];
    let window = 3 * quantum * k;
    for _ in 0..window {
        handle_timer_interrupt(&mut s, &mut t, 0xAAAA);
        if let Some(pid) = running_pid(&t) {
            run_ticks[pid as usize] += 1;
        }
    }
    // each equal-priority worker runs within one quantum of the others
    let worker_ticks = &run_ticks[1..];
    let max = *worker_ticks.iter().max().unwrap();
    let min = *worker_ticks.iter().min().unwrap();
    assert!(max > 0);
    assert!(max - min <= quantum, "ticks per worker: {:?}", worker_ticks);
}

#[test]
fn sleeper_wakes_after_deadline_while_others_run() {
    let mut t = table_with_workers(2);
    let mut s = Scheduler::new(1000); // 1000 ticks per second: 1 tick per ms
    enable_scheduler(&mut s);
    // run until worker 1 is on the CPU
    while running_pid(&t) != Some(1) {
        handle_timer_interrupt(&mut s, &mut t, 0);
    }
    let sleep_start = s.current_ticks;
    sleep_proc_ms(&s, &mut t, 100);
    let mut other_ran: u64 = 0;
    loop {
        handle_timer_interrupt(&mut s, &mut t, 0);
        let p1 = t.processes[1].unwrap();
        if p1.state != ProcessState::Sleeping {
            break;
        }
        if running_pid(&t) == Some(2) {
            other_ran += 1;
        }
        assert!(s.current_ticks < sleep_start + 200);
    }
    // the counter task made progress during the sleep
    assert!(other_ran > 0);
    // and the sleeper was not woken before its deadline
    assert!(s.current_ticks >= sleep_start + 100);
}

#[test]
fn block_then_unblock_resumes_promptly() {
    let mut t = table_with_workers(1);
    let mut s = Scheduler::new(1000);
    enable_scheduler(&mut s);
    while running_pid(&t) != Some(1) {
        handle_timer_interrupt(&mut s, &mut t, 0);
    }
    block_current(&mut t);
    assert_eq!(t.processes[1].unwrap().state, ProcessState::Blocked);
    // the next tick switches away from the blocked task
    handle_timer_interrupt(&mut s, &mut t, 0);
    assert_ne!(running_pid(&t), Some(1));
    unblock_process(&mut t, 1);
    assert_eq!(t.processes[1].unwrap().state, ProcessState::Ready);
    // once ready again it is back on the CPU within one quantum
    let mut ticks = 0;
    while running_pid(&t) != Some(1) {
        handle_timer_interrupt(&mut s, &mut t, 0);
        ticks += 1;
        assert!(ticks <= 5);
    }
}

#[test]
fn tick_conversions_round_up_with_a_floor_of_one() {
    let s = Scheduler::new(10_000);
    assert_eq!(ms_to_ticks(&s, 100), 1000);
    assert_eq!(ms_to_ticks(&s, 1), 10);
    assert_eq!(ms_to_ticks(&s, 0), 1);
    assert_eq!(us_to_ticks(&s, 1_000_000), 10_000);
    assert_eq!(us_to_ticks(&s, 1), 1);
    let slow = Scheduler::new(3);
    assert_eq!(ms_to_ticks(&slow, 500), 2); // ceil(1.5)
}

#[test]
fn disabled_scheduler_leaves_everything_alone() {
    let mut t = table_with_workers(2);
    let s0_ticks;
    let mut s = Scheduler::new(1000);
    s0_ticks = s.current_ticks;
    let rsp = handle_timer_interrupt(&mut s, &mut t, 0xBEEF);
    assert_eq!(rsp, 0xBEEF);
    assert_eq!(s.current_ticks, s0_ticks);
    assert_eq!(running_pid(&t), Some(0));
}

#[test]
fn ready_tasks_age_each_tick() {
    let mut t = table_with_workers(2);
    let mut s = Scheduler::new(1000);
    enable_scheduler(&mut s);
    let before_1 = t.processes[1].unwrap().ticks_ready;
    let before_2 = t.processes[2].unwrap().ticks_ready;
    for _ in 0..3 {
        handle_timer_interrupt(&mut s, &mut t, 0);
    }
    // both workers were ready for all three ticks (the idle kernel task
    // holds the CPU through its first quantum)
    assert_eq!(t.processes[1].unwrap().ticks_ready, before_1 + 3);
    assert_eq!(t.processes[2].unwrap().ticks_ready, before_2 + 3);
}
