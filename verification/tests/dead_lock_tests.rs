use rcore_kernel_logic::dead_lock::{
    banker_safety_check, detect_mutex_deadlock, detect_semaphore_deadlock, DeadlockResult,
    MutexState, SemaphoreState,
};

fn sem(count: isize, allocated: Vec<usize>, waiting: Vec<usize>) -> Option<SemaphoreState> {
    Some(SemaphoreState { count, allocated, waiting })
}

#[test]
fn mutex_detection_disabled_is_safe() {
    let mutexes = vec![Some(MutexState::Locked)];
    assert_eq!(detect_mutex_deadlock(false, 0, 1, &mutexes, 0), DeadlockResult::Safe);
}

#[test]
fn mutex_unlocked_request_is_safe() {
    let mutexes = vec![Some(MutexState::Locked), Some(MutexState::Unlocked)];
    assert_eq!(detect_mutex_deadlock(true, 1, 3, &mutexes, 1), DeadlockResult::Safe);
}

#[test]
fn mutex_locked_request_is_deadlock() {
    let mutexes = vec![Some(MutexState::Locked), Some(MutexState::Unlocked)];
    assert_eq!(detect_mutex_deadlock(true, 0, 2, &mutexes, 0), DeadlockResult::Deadlock);
}

#[test]
fn mutex_missing_slot_is_deadlock() {
    let mutexes = vec![None, Some(MutexState::Unlocked)];
    assert_eq!(detect_mutex_deadlock(true, 0, 1, &mutexes, 0), DeadlockResult::Deadlock);
}

#[test]
fn semaphore_detection_disabled_is_safe() {
    let sems = vec![sem(0, vec![1], vec![])];
    assert_eq!(detect_semaphore_deadlock(false, 0, &vec![true, true], &sems, 0), DeadlockResult::Safe);
}

#[test]
fn semaphore_empty_table_is_safe() {
    let sems: Vec<Option<SemaphoreState>> = Vec::new();
    assert_eq!(detect_semaphore_deadlock(true, 7, &vec![true], &sems, 3), DeadlockResult::Safe);
}

#[test]
fn semaphore_free_unit_is_safe() {
    let sems = vec![sem(2, vec![0], vec![]), sem(0, vec![1], vec![])];
    assert_eq!(detect_semaphore_deadlock(true, 1, &vec![true, true], &sems, 0), DeadlockResult::Safe);
}

#[test]
fn semaphore_holder_can_finish_is_safe() {
    // Task 1 holds the only unit of semaphore 0 and waits for nothing, so it can
    // finish and give the unit back to task 0.
    let sems = vec![sem(0, vec![1], vec![])];
    assert_eq!(detect_semaphore_deadlock(true, 0, &vec![true, true], &sems, 0), DeadlockResult::Safe);
}

#[test]
fn semaphore_cycle_is_deadlock() {
    // Task 0 holds semaphore 0 and waits on semaphore 1; task 1 holds semaphore 1
    // and now asks for semaphore 0.
    let sems = vec![sem(0, vec![0], vec![]), sem(0, vec![1], vec![0])];
    assert_eq!(detect_semaphore_deadlock(true, 1, &vec![true, true], &sems, 0), DeadlockResult::Deadlock);
}

#[test]
fn semaphore_unheld_empty_is_deadlock() {
    let sems = vec![sem(0, vec![], vec![])];
    assert_eq!(detect_semaphore_deadlock(true, 0, &vec![true], &sems, 0), DeadlockResult::Deadlock);
}

#[test]
fn semaphore_exited_task_is_ignored() {
    // Task 1 has exited: its slot is empty, and it is the only task that could not go on.
    let sems = vec![sem(0, vec![], vec![1]), sem(1, vec![], vec![])];
    assert_eq!(detect_semaphore_deadlock(true, 0, &vec![true, false], &sems, 1), DeadlockResult::Safe);
    assert_eq!(detect_semaphore_deadlock(true, 0, &vec![true, true], &sems, 1), DeadlockResult::Deadlock);
}

#[test]
fn semaphore_missing_slot_has_no_units() {
    let sems = vec![None, sem(1, vec![], vec![])];
    assert_eq!(detect_semaphore_deadlock(true, 0, &vec![true], &sems, 0), DeadlockResult::Deadlock);
    assert_eq!(detect_semaphore_deadlock(true, 0, &vec![true], &sems, 1), DeadlockResult::Safe);
}

#[test]
fn banker_textbook_state_is_safe() {
    let available = vec![3, 3, 2];
    let allocation = vec![vec![0, 1, 0], vec![2, 0, 0], vec![3, 0, 2], vec![2, 1, 1], vec![0, 0, 2]];
    let need = vec![vec![7, 4, 3], vec![1, 2, 2], vec![6, 0, 0], vec![0, 1, 1], vec![4, 3, 1]];
    let live = vec![true; 5];
    assert!(banker_safety_check(&available, &allocation, &need, &live));
}

#[test]
fn banker_short_of_resources_is_unsafe() {
    let available = vec![0, 0, 0];
    let allocation = vec![vec![0, 1, 0], vec![2, 0, 0], vec![3, 0, 2], vec![2, 1, 1], vec![0, 0, 2]];
    let need = vec![vec![7, 4, 3], vec![1, 2, 2], vec![6, 0, 0], vec![0, 1, 1], vec![4, 3, 1]];
    let live = vec![true; 5];
    assert!(!banker_safety_check(&available, &allocation, &need, &live));
}

#[test]
fn banker_only_live_tasks_must_finish() {
    let available = vec![1];
    let allocation = vec![vec![0], vec![0]];
    let need = vec![vec![1], vec![5]];
    assert!(banker_safety_check(&available, &allocation, &need, &vec![true, false]));
    assert!(!banker_safety_check(&available, &allocation, &need, &vec![true, true]));
}

#[test]
fn semaphore_more_units_stay_safe() {
    let tasks = vec![true, true];
    let fewer = vec![sem(0, vec![1], vec![]), sem(0, vec![0], vec![])];
    assert_eq!(detect_semaphore_deadlock(true, 0, &tasks, &fewer, 0), DeadlockResult::Safe);
    let more = vec![sem(3, vec![1], vec![]), sem(2, vec![0], vec![])];
    assert_eq!(detect_semaphore_deadlock(true, 0, &tasks, &more, 0), DeadlockResult::Safe);
    let none_free = vec![sem(0, vec![1], vec![0]), sem(0, vec![0], vec![])];
    assert_eq!(detect_semaphore_deadlock(true, 1, &tasks, &none_free, 1), DeadlockResult::Deadlock);
    let one_free = vec![sem(0, vec![1], vec![0]), sem(1, vec![0], vec![])];
    assert_eq!(detect_semaphore_deadlock(true, 1, &tasks, &one_free, 1), DeadlockResult::Safe);
}
