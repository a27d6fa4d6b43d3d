use oskernel::sync::deadlock_checker;
use oskernel::sync::state::{MutexKind, ProcessSyncState};
use oskernel::syscall::sync::{
    semaphore_down_acquired, sys_condvar_create, sys_condvar_signal, sys_condvar_wait,
    sys_enable_deadlock_detect, sys_mutex_create, sys_mutex_lock, sys_mutex_unlock,
    sys_semaphore_create, sys_semaphore_down, sys_semaphore_up, DEADLOCK,
};

fn state(
    tasks: Vec<Option<usize>>,
    mutexes: usize,
    semaphores: usize,
    available: Vec<Vec<usize>>,
    allocation: Vec<Vec<usize>>,
    need: Vec<Vec<usize>>,
) -> ProcessSyncState {
    let mut s = ProcessSyncState::new();
    s.tasks = tasks;
    s.mutex_list = vec![Some(MutexKind::Blocking); mutexes];
    s.semaphore_list = vec![Some(1); semaphores];
    s.available = available;
    s.allocation = allocation;
    s.need = need;
    s
}

#[test]
fn checker_empty_process_is_safe() {
    let s = ProcessSyncState::new();
    assert!(deadlock_checker(&s));
}

#[test]
fn checker_finds_safe_order() {
    // Thread 1 can finish first with the two available units, then thread 0.
    let s = state(
        vec![Some(0), Some(1)],
        0,
        1,
        vec![vec![0], vec![2]],
        vec![vec![1], vec![1]],
        vec![vec![3], vec![2]],
    );
    assert!(deadlock_checker(&s));
}

#[test]
fn checker_detects_unsafe_state() {
    // Each thread holds one mutex and needs the other's.
    let s = state(
        vec![Some(0), Some(1)],
        2,
        0,
        vec![vec![0, 0], vec![0, 0]],
        vec![vec![1, 0], vec![0, 1]],
        vec![vec![0, 1], vec![1, 0]],
    );
    assert!(!deadlock_checker(&s));
}

#[test]
fn checker_order_matters_only_through_work() {
    // Thread 0 must wait for thread 1's release; the check loops until it can.
    let s = state(
        vec![Some(0), Some(1)],
        1,
        0,
        vec![vec![0], vec![0]],
        vec![vec![0], vec![1]],
        vec![vec![1], vec![0]],
    );
    assert!(deadlock_checker(&s));
}

#[test]
fn checker_ignores_empty_slots() {
    let s = state(
        vec![None, Some(1)],
        1,
        0,
        vec![vec![0], vec![0]],
        vec![vec![5], vec![0]],
        vec![vec![9], vec![0]],
    );
    assert!(deadlock_checker(&s));
}

#[test]
fn checker_thread_without_rows_never_finishes() {
    let s = state(vec![Some(3)], 1, 0, vec![], vec![], vec![]);
    assert!(!deadlock_checker(&s));
}

#[test]
fn enable_detect_values() {
    let mut s = state(vec![Some(0), Some(1)], 1, 1, vec![], vec![], vec![]);
    assert_eq!(sys_enable_deadlock_detect(&mut s, 2), -1);
    assert!(!s.enable_deadlock_detect);
    assert!(s.available.is_empty());
    assert_eq!(sys_enable_deadlock_detect(&mut s, 1), 0);
    assert!(s.enable_deadlock_detect);
    assert_eq!(s.available, vec![vec![0, 0], vec![0, 0]]);
    assert_eq!(s.allocation, vec![vec![0, 0], vec![0, 0]]);
    assert_eq!(s.need, vec![vec![0, 0], vec![0, 0]]);
    assert_eq!(sys_enable_deadlock_detect(&mut s, 0), 0);
    assert!(!s.enable_deadlock_detect);
    assert_eq!(s.available, vec![vec![0, 0], vec![0, 0]]);
}

#[test]
fn enable_detect_twice_changes_nothing() {
    let mut s = state(vec![Some(0), Some(1), None], 2, 1, vec![vec![1]], vec![], vec![vec![0, 0, 0, 4]]);
    assert_eq!(sys_enable_deadlock_detect(&mut s, 1), 0);
    let available = s.available.clone();
    let allocation = s.allocation.clone();
    let need = s.need.clone();
    assert_eq!(available, vec![vec![1, 0, 0], vec![0, 0, 0], vec![0, 0, 0]]);
    assert_eq!(need, vec![vec![0, 0, 0, 4], vec![0, 0, 0], vec![0, 0, 0]]);
    assert_eq!(sys_enable_deadlock_detect(&mut s, 1), 0);
    assert!(s.enable_deadlock_detect);
    assert_eq!(s.available, available);
    assert_eq!(s.allocation, allocation);
    assert_eq!(s.need, need);
}

#[test]
fn mutex_create_fills_first_free_slot() {
    let mut s = ProcessSyncState::new();
    assert_eq!(sys_mutex_create(&mut s, 0, false), 0);
    assert_eq!(sys_mutex_create(&mut s, 0, true), 1);
    assert_eq!(s.mutex_list, vec![Some(MutexKind::Spin), Some(MutexKind::Blocking)]);
    s.mutex_list[0] = None;
    assert_eq!(sys_mutex_create(&mut s, 0, true), 0);
    assert_eq!(s.mutex_list, vec![Some(MutexKind::Blocking), Some(MutexKind::Blocking)]);
}

#[test]
fn mutex_create_gives_unit_to_creator() {
    let mut s = ProcessSyncState::new();
    s.tasks = vec![Some(0), Some(1)];
    assert_eq!(sys_enable_deadlock_detect(&mut s, 1), 0);
    assert_eq!(sys_mutex_create(&mut s, 1, true), 0);
    assert_eq!(s.available, vec![vec![0], vec![1]]);
    assert_eq!(s.allocation, vec![vec![0], vec![0]]);
    assert_eq!(s.need, vec![vec![0], vec![0]]);
}

#[test]
fn mutex_lock_without_detection() {
    let mut s = ProcessSyncState::new();
    s.tasks = vec![Some(0)];
    assert_eq!(sys_mutex_create(&mut s, 0, true), 0);
    assert_eq!(sys_mutex_lock(&mut s, 0, 0), 0);
    assert!(s.available.is_empty());
    assert_eq!(sys_mutex_unlock(&mut s, 0, 0), 0);
}

#[test]
fn mutex_lock_and_unlock_with_detection() {
    let mut s = ProcessSyncState::new();
    s.tasks = vec![Some(0), Some(1)];
    assert_eq!(sys_enable_deadlock_detect(&mut s, 1), 0);
    assert_eq!(sys_mutex_create(&mut s, 0, true), 0);
    assert_eq!(sys_mutex_lock(&mut s, 0, 0), 0);
    assert_eq!(s.available, vec![vec![0], vec![0]]);
    assert_eq!(s.allocation, vec![vec![1], vec![0]]);
    assert_eq!(s.need, vec![vec![0], vec![0]]);
    assert_eq!(sys_mutex_unlock(&mut s, 0, 0), 0);
    assert_eq!(s.available, vec![vec![1], vec![0]]);
    assert_eq!(s.allocation, vec![vec![0], vec![0]]);
    assert_eq!(s.need, vec![vec![1], vec![0]]);
}

#[test]
fn mutex_lock_refused_without_unit() {
    // The unit of a mutex sits in its creator's row; another thread is refused.
    let mut s = ProcessSyncState::new();
    s.tasks = vec![Some(0), Some(1)];
    assert_eq!(sys_enable_deadlock_detect(&mut s, 1), 0);
    assert_eq!(sys_mutex_create(&mut s, 0, true), 0);
    assert_eq!(sys_mutex_lock(&mut s, 1, 0), DEADLOCK);
    assert_eq!(s.available, vec![vec![1], vec![0]]);
    assert_eq!(s.allocation, vec![vec![0], vec![0]]);
    assert_eq!(s.need, vec![vec![0], vec![1]]);
}

#[test]
fn mutex_lock_refused_when_unsafe() {
    // Thread 1 already needs mutex 0 and holds nothing that thread 0 could use.
    let mut s = state(
        vec![Some(0), Some(1)],
        2,
        0,
        vec![vec![1, 0], vec![0, 0]],
        vec![vec![0, 0], vec![0, 1]],
        vec![vec![0, 1], vec![1, 0]],
    );
    s.enable_deadlock_detect = true;
    assert_eq!(sys_mutex_lock(&mut s, 0, 0), DEADLOCK);
    assert_eq!(s.available, vec![vec![1, 0], vec![0, 0]]);
    assert_eq!(s.allocation, vec![vec![0, 0], vec![0, 1]]);
    assert_eq!(s.need, vec![vec![1, 1], vec![1, 0]]);
}

#[test]
fn semaphore_create_and_up() {
    let mut s = ProcessSyncState::new();
    s.tasks = vec![Some(0), None, Some(2)];
    assert_eq!(sys_enable_deadlock_detect(&mut s, 1), 0);
    assert_eq!(sys_mutex_create(&mut s, 0, false), 0);
    assert_eq!(sys_semaphore_create(&mut s, 2, 3), 0);
    assert_eq!(s.semaphore_list, vec![Some(3)]);
    assert_eq!(s.available, vec![vec![1, 0], vec![0], vec![0, 3]]);
    assert_eq!(s.allocation, vec![vec![0, 0], vec![0], vec![0, 0]]);
    assert_eq!(s.need, vec![vec![0, 0], vec![0], vec![0, 0]]);
    s.allocation[2][1] = 1;
    assert_eq!(sys_semaphore_up(&mut s, 2, 0), 0);
    assert_eq!(s.available[2][1], 4);
    assert_eq!(s.allocation[2][1], 0);
}

#[test]
fn semaphore_create_without_detection() {
    let mut s = ProcessSyncState::new();
    assert_eq!(sys_semaphore_create(&mut s, 0, 1), 0);
    assert_eq!(sys_semaphore_create(&mut s, 0, 1), 1);
    s.semaphore_list[0] = None;
    assert_eq!(sys_semaphore_create(&mut s, 0, 5), 0);
    assert_eq!(s.semaphore_list, vec![Some(5), Some(1)]);
    assert!(s.available.is_empty());
}

#[test]
fn semaphore_down_takes_unit_in_advance() {
    let mut s = ProcessSyncState::new();
    s.tasks = vec![Some(0), Some(1)];
    assert_eq!(sys_enable_deadlock_detect(&mut s, 1), 0);
    assert_eq!(sys_semaphore_create(&mut s, 0, 2), 0);
    let step = sys_semaphore_down(&mut s, 1, 0);
    assert_eq!(step.code, 0);
    assert!(step.pre_allocated);
    assert_eq!(s.available, vec![vec![1], vec![0]]);
    assert_eq!(s.allocation, vec![vec![0], vec![1]]);
    assert_eq!(s.need, vec![vec![0], vec![0]]);
    assert_eq!(semaphore_down_acquired(&mut s, 1, 0, step.pre_allocated), 0);
    assert_eq!(s.allocation, vec![vec![0], vec![1]]);
}

#[test]
fn semaphore_down_without_units_waits() {
    let mut s = ProcessSyncState::new();
    s.tasks = vec![Some(0), Some(1)];
    assert_eq!(sys_enable_deadlock_detect(&mut s, 1), 0);
    assert_eq!(sys_semaphore_create(&mut s, 0, 0), 0);
    // Thread 0 holds the one unit and needs nothing more.
    s.allocation[0][0] = 1;
    let step = sys_semaphore_down(&mut s, 1, 0);
    assert_eq!(step.code, 0);
    assert!(!step.pre_allocated);
    assert_eq!(s.need, vec![vec![0], vec![1]]);
    // Thread 0 raises the semaphore, and thread 1 then holds it.
    assert_eq!(sys_semaphore_up(&mut s, 0, 0), 0);
    assert_eq!(s.available, vec![vec![1], vec![0]]);
    assert_eq!(semaphore_down_acquired(&mut s, 1, 0, false), 0);
    assert_eq!(s.available, vec![vec![0], vec![0]]);
    assert_eq!(s.allocation, vec![vec![0], vec![1]]);
    assert_eq!(s.need, vec![vec![0], vec![0]]);
}

#[test]
fn semaphore_down_refused_without_any_unit() {
    let mut s = ProcessSyncState::new();
    s.tasks = vec![Some(0), Some(1)];
    assert_eq!(sys_enable_deadlock_detect(&mut s, 1), 0);
    assert_eq!(sys_semaphore_create(&mut s, 0, 0), 0);
    let step = sys_semaphore_down(&mut s, 1, 0);
    assert_eq!(step.code, DEADLOCK);
    assert_eq!(s.need, vec![vec![0], vec![1]]);
}

#[test]
fn semaphore_down_refused_when_unsafe() {
    // Thread 0 holds the only unit of semaphore 0 and needs mutex 0, which
    // thread 1 holds while it needs the semaphore.
    let mut s = state(
        vec![Some(0), Some(1)],
        1,
        1,
        vec![vec![0, 0], vec![0, 0]],
        vec![vec![0, 1], vec![1, 0]],
        vec![vec![1, 0], vec![0, 0]],
    );
    s.enable_deadlock_detect = true;
    let step = sys_semaphore_down(&mut s, 1, 0);
    assert_eq!(step.code, DEADLOCK);
    assert!(!step.pre_allocated);
    assert_eq!(s.need, vec![vec![1, 0], vec![0, 1]]);
    assert_eq!(s.allocation, vec![vec![0, 1], vec![1, 0]]);
}

#[test]
fn semaphore_down_advance_taken_back_when_unsafe() {
    // A unit is available in row 0, but giving it to thread 1 leaves thread 0
    // stuck: it needs two units of the semaphore.
    let mut s = state(
        vec![Some(0), Some(1)],
        0,
        1,
        vec![vec![1], vec![0]],
        vec![vec![0], vec![0]],
        vec![vec![2], vec![1]],
    );
    s.enable_deadlock_detect = true;
    let step = sys_semaphore_down(&mut s, 1, 0);
    assert_eq!(step.code, DEADLOCK);
    assert_eq!(s.available, vec![vec![1], vec![0]]);
    assert_eq!(s.allocation, vec![vec![0], vec![0]]);
    assert_eq!(s.need, vec![vec![2], vec![1]]);
}

#[test]
fn condvar_calls() {
    let mut s = ProcessSyncState::new();
    assert_eq!(sys_condvar_create(&mut s), 0);
    assert_eq!(sys_condvar_create(&mut s), 1);
    s.condvar_list[0] = false;
    assert_eq!(sys_condvar_create(&mut s), 0);
    assert_eq!(sys_mutex_create(&mut s, 0, true), 0);
    assert_eq!(sys_condvar_signal(&s, 1), 0);
    assert_eq!(sys_condvar_wait(&s, 0, 0), 0);
}

#[test]
fn units_and_slot_checks() {
    let s = state(
        vec![Some(0), Some(1)],
        1,
        0,
        vec![vec![usize::MAX], vec![0]],
        vec![vec![0], vec![0]],
        vec![vec![0], vec![0]],
    );
    assert!(s.slots_match_tids_check());
    assert!(s.units_fit(0));
    assert!(!s.units_fit(1));
    assert!(!s.column_fits(0));
    let t = state(vec![Some(1)], 0, 0, vec![], vec![], vec![]);
    assert!(!t.slots_match_tids_check());
    assert!(t.column_fits(0));
}
