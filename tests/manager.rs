use kernel::manager::{TaskError, TaskManager, TASKPOOL_SIZE};
use kernel::task::{priority_band, Context, FpuContext, TaskFlags};

#[test]
fn new_manager_is_empty() {
    let m = TaskManager::new();
    assert_eq!(m.use_count(), 0);
    assert_eq!(m.alloc_count(), 0);
    assert!(m.iter().is_empty());
    assert!(m.get(0).is_none());
}

#[test]
fn allocate_assigns_increasing_ids() {
    let mut m = TaskManager::new();
    assert_eq!(m.allocate(), Ok(0));
    assert_eq!(m.allocate(), Ok(1));
    assert_eq!(m.allocate(), Ok(2));
    assert_eq!(m.use_count(), 3);
    assert_eq!(m.alloc_count(), 3);
    assert_eq!(m.iter(), vec![0, 1, 2]);
    assert_eq!(m.get(1).unwrap().id, 1);
    assert_eq!(m.find(2), Some(2));
}

#[test]
fn free_removes_task_and_recycles_block() {
    let mut m = TaskManager::new();
    m.allocate().unwrap();
    m.allocate().unwrap();
    m.allocate().unwrap();
    m.free(1);
    assert_eq!(m.use_count(), 2);
    assert_eq!(m.alloc_count(), 3);
    assert_eq!(m.iter(), vec![0, 2]);
    assert!(m.get(1).is_none());
    assert_eq!(m.find(1), None);
    m.free(1);
    assert_eq!(m.use_count(), 2);
    assert_eq!(m.allocate(), Ok(3));
    let t = m.get(3).unwrap();
    assert_eq!(t.context, Context::empty());
    assert_eq!(t.parent, None);
    assert_eq!(m.use_count(), 3);
}

#[test]
fn free_drops_links_to_freed_task() {
    let mut m = TaskManager::new();
    m.allocate().unwrap();
    m.allocate().unwrap();
    let mut t0 = *m.get(0).unwrap();
    t0.child = Some(1);
    t0.sibling = Some(1);
    m.update(0, t0);
    let mut t1 = *m.get(1).unwrap();
    t1.parent = Some(0);
    t1.context.rip = 99;
    t1.fpu_context.words[3] = 5;
    m.update(1, t1);
    m.free(1);
    let t0 = m.get(0).unwrap();
    assert_eq!(t0.child, None);
    assert_eq!(t0.sibling, None);
    assert_eq!(m.allocate(), Ok(2));
    let recycled = m.get(2).unwrap();
    assert_eq!(recycled.context.rip, 0);
    assert_eq!(recycled.parent, None);
    assert_eq!(recycled.fpu_context.words[3], 0);
}

#[test]
fn allocate_fails_when_pool_is_full() {
    let mut m = TaskManager::new();
    for i in 0..TASKPOOL_SIZE {
        assert_eq!(m.allocate(), Ok(i as u64));
    }
    assert_eq!(m.allocate(), Err(TaskError::PoolExhausted));
    assert_eq!(m.use_count(), TASKPOOL_SIZE);
    assert_eq!(m.alloc_count(), TASKPOOL_SIZE as u64);
    m.free(5);
    assert_eq!(m.allocate(), Ok(TASKPOOL_SIZE as u64));
}

#[test]
fn priority_bands() {
    assert_eq!(priority_band(0), 0);
    assert_eq!(priority_band(85), 0);
    assert_eq!(priority_band(86), 1);
    assert_eq!(priority_band(170), 1);
    assert_eq!(priority_band(171), 2);
    assert_eq!(priority_band(255), 2);
    assert_eq!(TaskFlags::new().set_priority(130).band(), 1);
}

#[test]
fn flag_builders() {
    let f = TaskFlags::new().thread().set_priority(66).idle();
    assert_eq!(f, TaskFlags { priority: 66, is_thread: true, ended: false, idle: true });
    assert!(FpuContext::new().words.iter().all(|w| *w == 0));
}

#[test]
fn recycled_block_comes_back_blank() {
    let mut m = TaskManager::new();
    m.allocate().unwrap();
    let mut t = *m.get(0).unwrap();
    t.flags = TaskFlags::new().thread().set_priority(200);
    t.flags.ended = true;
    t.band = 2;
    t.remaining_quantum = -4;
    t.greedy_count = 3;
    t.fpu_used_once = true;
    m.update(0, t);
    m.free(0);
    assert_eq!(m.allocate(), Ok(1));
    let r = m.get(1).unwrap();
    assert_eq!(r.flags, TaskFlags::new());
    assert_eq!(r.band, 0);
    assert_eq!(r.remaining_quantum, 0);
    assert_eq!(r.greedy_count, 0);
    assert!(!r.fpu_used_once);
}

#[test]
fn iter_gives_ascending_ids() {
    let mut m = TaskManager::new();
    for _ in 0..6 {
        m.allocate().unwrap();
    }
    m.free(0);
    m.free(3);
    m.allocate().unwrap();
    assert_eq!(m.iter(), vec![1, 2, 4, 5, 6]);
}
