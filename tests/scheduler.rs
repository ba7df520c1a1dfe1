use kernel::manager::{TaskError, TASKPOOL_SIZE};
use kernel::scheduler::{FpuAction, SchedConfig, Scheduler, Slot, SlotState, Switch};
use kernel::task::TaskFlags;

fn config() -> SchedConfig {
    SchedConfig { quanta: [5, 5, 5], greedy_threshold: 2 }
}

fn flags(priority: u8) -> TaskFlags {
    TaskFlags::new().thread().set_priority(priority)
}

fn band_of(s: &Scheduler, id: u64) -> u8 {
    s.pool().get(id).unwrap().band
}

#[test]
fn new_scheduler_runs_idle() {
    let s = Scheduler::new(config());
    assert_eq!(s.running_task(), 0);
    assert_eq!(s.idle_task(), 0);
    assert_eq!(s.pool().use_count(), 1);
    assert_eq!(s.pool().alloc_count(), 1);
    assert!(s.pool().get(0).unwrap().flags.idle);
    assert!(s.slots().is_empty());
}

#[test]
fn create_task_sets_up_record_and_queue() {
    let mut s = Scheduler::new(config());
    let id = s.create_task(flags(100), 0x1000, 7, 9).unwrap();
    assert_eq!(id, 1);
    assert_eq!(s.slots(), vec![Slot { id: 1, band: 1, state: SlotState::Ready }]);
    let t = s.pool().get(1).unwrap();
    assert_eq!(t.context.rip, 0x1000);
    assert_eq!(t.context.rdi, 7);
    assert_eq!(t.context.rsi, 9);
    assert_eq!(t.context.rax, 0);
    assert_eq!(t.remaining_quantum, 5);
    assert_eq!(t.parent, Some(0));
    assert_eq!(t.child, None);
    assert!(!t.fpu_used_once);
    assert_eq!(s.pool().get(0).unwrap().child, Some(1));
    let id2 = s.create_task(flags(0), 0x2000, 0, 0).unwrap();
    assert_eq!(s.pool().get(id2).unwrap().sibling, Some(1));
    assert_eq!(s.pool().get(0).unwrap().child, Some(id2));
}

#[test]
fn three_equal_priority_tasks_round_robin() {
    let mut s = Scheduler::new(config());
    let t1 = s.create_task(flags(100), 0, 0, 0).unwrap();
    let t2 = s.create_task(flags(100), 0, 0, 0).unwrap();
    let t3 = s.create_task(flags(100), 0, 0, 0).unwrap();
    assert_eq!(s.schedule(), Switch { from: 0, to: t1 });
    let mut seen = Vec::new();
    for _ in 0..9 {
        seen.push(s.running_task());
        s.schedule();
    }
    assert_eq!(seen, vec![t1, t2, t3, t1, t2, t3, t1, t2, t3]);
}

#[test]
fn fifo_fairness_each_ready_task_runs_once_per_round() {
    let mut s = Scheduler::new(config());
    let mut ids = Vec::new();
    for _ in 0..5 {
        ids.push(s.create_task(flags(200), 0, 0, 0).unwrap());
    }
    let mut seen = Vec::new();
    for _ in 0..5 {
        s.schedule();
        seen.push(s.running_task());
    }
    assert_eq!(seen, ids);
}

#[test]
fn yield_with_nothing_ready_keeps_running_task() {
    let mut s = Scheduler::new(config());
    let t = s.create_task(flags(100), 0x40, 1, 2).unwrap();
    s.schedule();
    assert_eq!(s.running_task(), t);
    s.tick();
    s.tick();
    assert_eq!(s.pool().get(t).unwrap().remaining_quantum, 3);
    let before = *s.pool().get(t).unwrap();
    assert_eq!(s.schedule(), Switch { from: t, to: t });
    let after = *s.pool().get(t).unwrap();
    assert_eq!(after.remaining_quantum, 5);
    assert_eq!(after.context, before.context);
    assert_eq!(after.flags, before.flags);
    assert_eq!(after.greedy_count, before.greedy_count);
    assert_eq!(after.band, before.band);
    assert!(s.slots().is_empty());
}

#[test]
fn greedy_task_is_demoted() {
    let mut s = Scheduler::new(config());
    let ta = s.create_task(flags(0), 0, 0, 0).unwrap();
    let tb = s.create_task(flags(100), 0, 0, 0).unwrap();
    s.schedule();
    assert_eq!(s.running_task(), ta);
    for _ in 0..5 {
        s.tick();
    }
    // First full quantum: still the most urgent band, so it runs again.
    assert_eq!(s.running_task(), ta);
    assert_eq!(band_of(&s, ta), 0);
    assert_eq!(s.pool().get(ta).unwrap().greedy_count, 1);
    for _ in 0..4 {
        assert_eq!(s.tick(), None);
    }
    assert_eq!(s.tick(), Some(Switch { from: ta, to: tb }));
    assert_eq!(band_of(&s, ta), 1);
    assert_eq!(s.pool().get(ta).unwrap().greedy_count, 0);
    for _ in 0..5 {
        s.tick();
    }
    assert_eq!(s.running_task(), ta);
    for _ in 0..5 {
        s.tick();
    }
    assert_eq!(s.running_task(), tb);
}

#[test]
fn sleep_wakes_on_deadline() {
    let mut s = Scheduler::new(config());
    let t = s.create_task(flags(100), 0, 0, 0).unwrap();
    s.schedule();
    while s.tick_count() < 100 {
        s.tick();
    }
    assert_eq!(s.running_task(), t);
    let start = s.tick_count();
    assert_eq!(s.sleep_until(150), Switch { from: t, to: 0 });
    while s.tick_count() < 149 {
        assert_eq!(s.tick(), None);
        assert_eq!(s.running_task(), 0);
    }
    assert_eq!(s.tick(), Some(Switch { from: 0, to: t }));
    assert_eq!(s.tick_count() - start, 50);
}

#[test]
fn sleep_with_past_deadline_wakes_next_tick() {
    let mut s = Scheduler::new(config());
    let t = s.create_task(flags(100), 0, 0, 0).unwrap();
    let other = s.create_task(flags(100), 0, 0, 0).unwrap();
    s.schedule();
    for _ in 0..3 {
        s.tick();
    }
    assert_eq!(s.running_task(), t);
    s.sleep_until(1);
    assert_eq!(s.running_task(), other);
    assert_eq!(s.slots(), vec![Slot { id: t, band: 1, state: SlotState::Sleep(1) }]);
    s.tick();
    assert_eq!(s.slots(), vec![Slot { id: t, band: 1, state: SlotState::Ready }]);
}

#[test]
fn blocked_task_resumes_after_waker_exits() {
    let mut s = Scheduler::new(config());
    let t1 = s.create_task(flags(100), 0, 0, 0).unwrap();
    let t2 = s.create_task(flags(100), 0, 0, 0).unwrap();
    s.schedule();
    assert_eq!(s.block(42), Switch { from: t1, to: t2 });
    let used = s.pool().use_count();
    let allocated = s.pool().alloc_count();
    assert_eq!(s.wake(42), 1);
    assert_eq!(s.exit(), Switch { from: t2, to: t1 });
    assert_eq!(s.reap(), Some(t2));
    assert_eq!(s.pool().use_count(), used - 1);
    assert_eq!(s.pool().alloc_count(), allocated);
    assert!(s.pool().get(t2).is_none());
    assert_eq!(s.running_task(), t1);
    assert_eq!(s.reap(), None);
}

#[test]
fn wake_moves_blocked_task_to_ready_once() {
    let mut s = Scheduler::new(config());
    let t1 = s.create_task(flags(100), 0, 0, 0).unwrap();
    let t2 = s.create_task(flags(100), 0, 0, 0).unwrap();
    s.schedule();
    s.block(3);
    assert_eq!(s.slots(), vec![Slot { id: t1, band: 1, state: SlotState::Wait(3) }]);
    assert_eq!(s.wake(4), 0);
    assert_eq!(s.wake(3), 1);
    assert_eq!(s.slots(), vec![Slot { id: t1, band: 1, state: SlotState::Ready }]);
    assert_eq!(s.wake(3), 0);
    assert_eq!(s.slots(), vec![Slot { id: t1, band: 1, state: SlotState::Ready }]);
    assert_eq!(s.running_task(), t2);
}

#[test]
fn blocking_clears_greedy_count() {
    let mut s = Scheduler::new(config());
    let t1 = s.create_task(flags(0), 0, 0, 0).unwrap();
    let _t2 = s.create_task(flags(100), 0, 0, 0).unwrap();
    s.schedule();
    for _ in 0..5 {
        s.tick();
    }
    assert_eq!(s.pool().get(t1).unwrap().greedy_count, 1);
    s.block(1);
    assert_eq!(s.pool().get(t1).unwrap().greedy_count, 0);
}

#[test]
fn exit_right_after_creation_is_reaped() {
    let mut s = Scheduler::new(config());
    let t = s.create_task(flags(100), 0x500, 0, 0).unwrap();
    s.schedule();
    assert_eq!(s.exit(), Switch { from: t, to: 0 });
    assert!(s.pool().get(t).unwrap().flags.ended);
    assert_eq!(s.slots(), vec![Slot { id: t, band: 1, state: SlotState::Dead }]);
    assert_eq!(s.reap(), Some(t));
    assert!(s.slots().is_empty());
    assert_eq!(s.pool().use_count(), 1);
    assert_eq!(s.pool().get(0).unwrap().child, None);
}

#[test]
fn fpu_lazy_save() {
    let mut s = Scheduler::new(config());
    let t_fpu = s.create_task(flags(100), 0, 0, 0).unwrap();
    let t_int = s.create_task(flags(100), 0, 0, 0).unwrap();
    s.schedule();
    assert_eq!(s.fpu_trap(), FpuAction { save_to: None, restore: false });
    assert_eq!(s.fpu_owner_task(), Some(t_fpu));
    s.schedule();
    assert_eq!(s.running_task(), t_int);
    s.schedule();
    assert_eq!(s.running_task(), t_fpu);
    // Nobody else used the FPU: nothing to save, the live state is its own.
    assert_eq!(s.fpu_trap(), FpuAction { save_to: None, restore: false });
    s.schedule();
    assert_eq!(s.fpu_trap(), FpuAction { save_to: Some(t_fpu), restore: false });
    assert_eq!(s.fpu_owner_task(), Some(t_int));
    s.schedule();
    assert_eq!(s.fpu_trap(), FpuAction { save_to: Some(t_int), restore: true });
}

#[test]
fn freeing_fpu_owner_clears_it() {
    let mut s = Scheduler::new(config());
    let t = s.create_task(flags(100), 0, 0, 0).unwrap();
    s.schedule();
    s.fpu_trap();
    s.exit();
    assert_eq!(s.fpu_owner_task(), Some(t));
    s.reap();
    assert_eq!(s.fpu_owner_task(), None);
}

#[test]
fn pool_exhaustion() {
    let mut s = Scheduler::new(config());
    for _ in 1..TASKPOOL_SIZE {
        s.create_task(flags(100), 0, 0, 0).unwrap();
    }
    assert_eq!(s.pool().use_count(), TASKPOOL_SIZE);
    let allocated = s.pool().alloc_count();
    assert_eq!(s.create_task(flags(100), 0, 0, 0), Err(TaskError::PoolExhausted));
    assert_eq!(s.pool().use_count(), TASKPOOL_SIZE);
    assert_eq!(s.pool().alloc_count(), allocated);
    assert_eq!(s.slots().len(), TASKPOOL_SIZE - 1);
}

#[test]
fn ids_are_not_reused_after_reap() {
    let mut s = Scheduler::new(config());
    let t = s.create_task(flags(100), 0, 0, 0).unwrap();
    s.schedule();
    s.exit();
    s.reap();
    let u = s.create_task(flags(100), 0, 0, 0).unwrap();
    assert_eq!(u, t + 1);
    assert_eq!(s.pool().alloc_count(), 3);
}

#[test]
fn band_selection_prefers_urgent_band() {
    let mut s = Scheduler::new(config());
    let low = s.create_task(flags(250), 0, 0, 0).unwrap();
    let mid = s.create_task(flags(120), 0, 0, 0).unwrap();
    let high = s.create_task(flags(10), 0, 0, 0).unwrap();
    s.schedule();
    assert_eq!(s.running_task(), high);
    s.block(1);
    assert_eq!(s.running_task(), mid);
    s.block(1);
    assert_eq!(s.running_task(), low);
    s.block(1);
    assert_eq!(s.running_task(), 0);
    assert_eq!(s.wake(1), 3);
    s.schedule();
    assert_eq!(s.running_task(), high);
}

#[test]
fn idle_task_yields_to_newly_ready_task_on_tick() {
    let mut s = Scheduler::new(config());
    for _ in 0..5 {
        assert_eq!(s.tick(), None);
    }
    let t = s.create_task(flags(100), 0, 0, 0).unwrap();
    assert_eq!(s.tick(), Some(Switch { from: 0, to: t }));
}

#[test]
fn wake_task_by_id() {
    let mut s = Scheduler::new(config());
    let t1 = s.create_task(flags(100), 0, 0, 0).unwrap();
    let t2 = s.create_task(flags(100), 0, 0, 0).unwrap();
    s.schedule();
    s.sleep_until(1000);
    assert_eq!(s.running_task(), t2);
    assert_eq!(s.wake_task(999), 0);
    assert_eq!(s.wake_task(t2), 0);
    assert_eq!(s.wake_task(t1), 1);
    assert_eq!(s.slots(), vec![Slot { id: t1, band: 1, state: SlotState::Ready }]);
}

#[test]
fn busy_task_moves_down_one_band_per_threshold() {
    let mut s = Scheduler::new(config());
    let busy = s.create_task(flags(0), 0, 0, 0).unwrap();
    let other = s.create_task(flags(250), 0, 0, 0).unwrap();
    s.schedule();
    let mut bands = Vec::new();
    for _ in 0..6 {
        while s.running_task() != busy {
            s.schedule();
        }
        for _ in 0..5 {
            s.tick();
        }
        bands.push(band_of(&s, busy));
    }
    assert_eq!(bands, vec![0, 1, 1, 2, 2, 2]);
    assert_eq!(band_of(&s, other), 2);
}
