use os_syscall::banker::check_sem_safe_state;
use os_syscall::sync::{
    sys_condvar_create, sys_condvar_signal, sys_condvar_wait, sys_enable_deadlock_detect,
    sys_mutex_create, sys_mutex_lock, sys_mutex_unlock, sys_semaphore_create, sys_semaphore_down,
    sys_semaphore_up, mutex_relock, semaphore_down_allowed, semaphore_up_allowed, MutexKind, ProcessSync, DEADLOCK,
};

#[test]
fn deadlock_answer_is_dead() {
    assert_eq!(DEADLOCK, -0xdead);
    assert_eq!(DEADLOCK, -57005);
}

#[test]
fn mutexes_get_increasing_ids() {
    let mut p = ProcessSync::new();
    assert_eq!(sys_mutex_create(&mut p, false), 0);
    assert_eq!(sys_mutex_create(&mut p, true), 1);
    assert_eq!(sys_mutex_create(&mut p, false), 2);
    assert_eq!(
        p.mutexes(),
        &vec![Some(MutexKind::Spin), Some(MutexKind::Blocking), Some(MutexKind::Spin)]
    );
}

#[test]
fn free_mutex_is_taken_at_once() {
    let mut p = ProcessSync::new();
    let id = sys_mutex_create(&mut p, true) as usize;
    assert_eq!(p.holders(), &vec![None]);
    assert_eq!(sys_mutex_lock(&mut p, 1, id), 0);
    assert_eq!(p.holders(), &vec![Some(1)]);
    assert!(p.waits().is_empty());
}

#[test]
fn held_mutex_makes_the_caller_wait() {
    let mut p = ProcessSync::new();
    let id = sys_mutex_create(&mut p, false) as usize;
    sys_enable_deadlock_detect(&mut p, 1);
    assert_eq!(sys_mutex_lock(&mut p, 1, id), 0);
    // held by a thread that waits for nothing: no deadlock
    assert_eq!(sys_mutex_lock(&mut p, 2, id), 0);
    assert_eq!(p.waits(), &vec![(2, id)]);
    // unlocking hands the mutex to the earliest waiter
    assert_eq!(sys_mutex_unlock(&mut p, id), 0);
    assert_eq!(p.holders(), &vec![Some(2)]);
    assert!(p.waits().is_empty());
    assert_eq!(sys_mutex_unlock(&mut p, id), 0);
    assert_eq!(p.holders(), &vec![None]);
}

#[test]
fn waiters_take_the_mutex_in_order() {
    let mut p = ProcessSync::new();
    let a = sys_mutex_create(&mut p, true) as usize;
    let b = sys_mutex_create(&mut p, true) as usize;
    sys_mutex_lock(&mut p, 1, a);
    sys_mutex_lock(&mut p, 2, a);
    sys_mutex_lock(&mut p, 9, b);
    sys_mutex_lock(&mut p, 3, b);
    sys_mutex_lock(&mut p, 4, a);
    assert_eq!(p.waits(), &vec![(2, a), (3, b), (4, a)]);
    sys_mutex_unlock(&mut p, a);
    assert_eq!(p.holders(), &vec![Some(2), Some(9)]);
    assert_eq!(p.waits(), &vec![(3, b), (4, a)]);
    // a newcomer waits behind the queue instead of taking the mutex
    sys_mutex_lock(&mut p, 5, a);
    assert_eq!(p.waits(), &vec![(3, b), (4, a), (5, a)]);
    sys_mutex_unlock(&mut p, a);
    assert_eq!(p.holders(), &vec![Some(4), Some(9)]);
}

#[test]
fn request_closing_a_cycle_is_refused_with_detection() {
    let mut p = ProcessSync::new();
    let a = sys_mutex_create(&mut p, true) as usize;
    let b = sys_mutex_create(&mut p, true) as usize;
    sys_enable_deadlock_detect(&mut p, 1);
    assert_eq!(sys_mutex_lock(&mut p, 1, a), 0);
    assert_eq!(sys_mutex_lock(&mut p, 2, b), 0);
    assert_eq!(sys_mutex_lock(&mut p, 1, b), 0);
    assert_eq!(p.waits(), &vec![(1, b)]);
    assert_eq!(sys_mutex_lock(&mut p, 2, a), DEADLOCK);
    assert_eq!(p.waits(), &vec![(1, b)]);
    assert_eq!(p.holders(), &vec![Some(1), Some(2)]);
}

#[test]
fn longer_cycle_is_found() {
    let mut p = ProcessSync::new();
    for _ in 0..3 {
        sys_mutex_create(&mut p, true);
    }
    sys_enable_deadlock_detect(&mut p, 1);
    for t in 0..3usize {
        assert_eq!(sys_mutex_lock(&mut p, t, t), 0);
    }
    assert_eq!(sys_mutex_lock(&mut p, 0, 1), 0);
    assert_eq!(sys_mutex_lock(&mut p, 1, 2), 0);
    assert_eq!(sys_mutex_lock(&mut p, 2, 0), DEADLOCK);
    // a thread outside the chain only waits
    assert_eq!(sys_mutex_lock(&mut p, 7, 0), 0);
}

#[test]
fn relocking_own_mutex_is_refused_with_detection() {
    let mut p = ProcessSync::new();
    let id = sys_mutex_create(&mut p, true) as usize;
    sys_mutex_lock(&mut p, 4, id);
    assert_eq!(sys_mutex_lock(&mut p, 4, id), 0);
    assert_eq!(p.waits(), &vec![(4, id)]);
    let mut q = ProcessSync::new();
    let id = sys_mutex_create(&mut q, true) as usize;
    sys_enable_deadlock_detect(&mut q, 1);
    sys_mutex_lock(&mut q, 4, id);
    assert_eq!(sys_mutex_lock(&mut q, 4, id), DEADLOCK);
}

#[test]
fn cycle_is_not_refused_without_detection() {
    let mut p = ProcessSync::new();
    let a = sys_mutex_create(&mut p, true) as usize;
    let b = sys_mutex_create(&mut p, true) as usize;
    sys_mutex_lock(&mut p, 1, a);
    sys_mutex_lock(&mut p, 2, b);
    sys_mutex_lock(&mut p, 1, b);
    assert_eq!(sys_mutex_lock(&mut p, 2, a), 0);
    assert_eq!(p.waits(), &vec![(1, b), (2, a)]);
}

#[test]
fn detection_request_zero_changes_nothing() {
    let mut p = ProcessSync::new();
    assert_eq!(sys_enable_deadlock_detect(&mut p, 0), 0);
    assert!(!p.deadlock_detect());
    sys_enable_deadlock_detect(&mut p, 1);
    sys_enable_deadlock_detect(&mut p, 0);
    assert!(p.deadlock_detect());
}

#[test]
fn condvars_get_increasing_ids() {
    let mut p = ProcessSync::new();
    assert_eq!(sys_condvar_create(&mut p), 0);
    assert_eq!(sys_condvar_create(&mut p), 1);
    let m = sys_mutex_create(&mut p, false) as usize;
    assert_eq!(sys_condvar_signal(&p, 1), 0);
    sys_mutex_lock(&mut p, 3, m);
    assert_eq!(p.holders(), &vec![Some(3)]);
    assert_eq!(sys_condvar_wait(&mut p, 0, m), 0);
    assert_eq!(p.holders(), &vec![None]);
    assert_eq!(p.condvars().len(), 2);
    sys_mutex_lock(&mut p, 8, m);
    mutex_relock(&mut p, 3, m);
    assert_eq!(p.holders(), &vec![Some(8)]);
    assert_eq!(p.waits(), &vec![(3, m)]);
}

#[test]
fn semaphore_create_records_counts() {
    let mut p = ProcessSync::new();
    assert_eq!(sys_semaphore_create(&mut p, 5), 0);
    assert_eq!(sys_semaphore_create(&mut p, 2), 1);
    assert_eq!(p.available(), &vec![5, 2]);
    assert_eq!(p.semaphores(), &vec![Some(5), Some(2)]);
}

#[test]
fn create_pads_every_thread_row() {
    let mut p = ProcessSync::new();
    sys_semaphore_create(&mut p, 1);
    assert_eq!(sys_semaphore_down(&mut p, 4, 0), 0);
    assert_eq!(p.allocation(), &vec![(4, vec![0])]);
    sys_semaphore_create(&mut p, 2);
    assert_eq!(p.allocation(), &vec![(4, vec![0, 0])]);
    assert_eq!(p.need(), &vec![(4, vec![0, 0])]);
}

#[test]
fn down_on_semaphore_zero_only_registers() {
    let mut p = ProcessSync::new();
    sys_semaphore_create(&mut p, 1);
    assert_eq!(sys_semaphore_down(&mut p, 7, 0), 0);
    assert_eq!(p.available(), &vec![1]);
    assert_eq!(p.allocation(), &vec![(7, vec![0])]);
    assert_eq!(p.need(), &vec![(7, vec![0])]);
}

#[test]
fn down_takes_a_free_unit_or_waits() {
    let mut p = ProcessSync::new();
    sys_semaphore_create(&mut p, 1);
    sys_semaphore_create(&mut p, 2);
    assert_eq!(sys_semaphore_down(&mut p, 7, 1), 0);
    assert_eq!(p.available(), &vec![1, 1]);
    assert_eq!(p.allocation(), &vec![(7, vec![0, 1])]);
    assert_eq!(p.need(), &vec![(7, vec![0, 0])]);
    assert_eq!(sys_semaphore_down(&mut p, 7, 1), 0);
    assert_eq!(p.available(), &vec![1, 0]);
    assert_eq!(p.allocation(), &vec![(7, vec![0, 2])]);
    // no unit free: the request waits
    assert_eq!(sys_semaphore_down(&mut p, 8, 1), 0);
    assert_eq!(p.available(), &vec![1, 0]);
    assert_eq!(p.allocation(), &vec![(7, vec![0, 2]), (8, vec![0, 0])]);
    assert_eq!(p.need(), &vec![(7, vec![0, 0]), (8, vec![0, 1])]);
}

#[test]
fn downs_are_never_refused_without_detection() {
    let mut p = ProcessSync::new();
    sys_semaphore_create(&mut p, 0);
    sys_semaphore_create(&mut p, 1);
    sys_semaphore_create(&mut p, 1);
    sys_semaphore_down(&mut p, 1, 1);
    sys_semaphore_down(&mut p, 2, 2);
    assert_eq!(sys_semaphore_down(&mut p, 1, 2), 0);
    // this one closes a deadlock, but detection is off
    assert_eq!(sys_semaphore_down(&mut p, 2, 1), 0);
    assert!(!check_sem_safe_state(p.available(), p.allocation(), p.need()));
}

#[test]
fn deadlocking_down_is_refused_with_detection() {
    let mut p = ProcessSync::new();
    sys_enable_deadlock_detect(&mut p, 1);
    sys_semaphore_create(&mut p, 0);
    sys_semaphore_create(&mut p, 1);
    sys_semaphore_create(&mut p, 1);
    assert_eq!(sys_semaphore_down(&mut p, 1, 1), 0);
    assert_eq!(sys_semaphore_down(&mut p, 2, 2), 0);
    // thread 1 waits for semaphore 2, which thread 2 will give back
    assert_eq!(sys_semaphore_down(&mut p, 1, 2), 0);
    let available = p.available().clone();
    let allocation = p.allocation().clone();
    let need = p.need().clone();
    // thread 2 waiting for semaphore 1 would wait on thread 1: refused
    assert_eq!(sys_semaphore_down(&mut p, 2, 1), DEADLOCK);
    assert_eq!(p.available(), &available);
    assert_eq!(p.allocation(), &allocation);
    assert_eq!(p.need(), &need);
    assert!(check_sem_safe_state(p.available(), p.allocation(), p.need()));
}

#[test]
fn down_precondition_can_be_tested() {
    let mut p = ProcessSync::new();
    assert!(!semaphore_down_allowed(&p, 1, 0));
    sys_semaphore_create(&mut p, 1);
    assert!(semaphore_down_allowed(&p, 1, 0));
    assert!(!semaphore_down_allowed(&p, 1, 1));
    sys_semaphore_create(&mut p, usize::MAX);
    assert!(semaphore_down_allowed(&p, 1, 1));
    sys_enable_deadlock_detect(&mut p, 1);
    assert!(semaphore_down_allowed(&p, 1, 1));
    sys_semaphore_down(&mut p, 1, 1);
    assert!(semaphore_down_allowed(&p, 1, 1));
}

#[test]
fn safe_downs_are_granted_with_detection() {
    let mut p = ProcessSync::new();
    sys_enable_deadlock_detect(&mut p, 1);
    sys_semaphore_create(&mut p, 3);
    sys_semaphore_create(&mut p, 1);
    assert_eq!(sys_semaphore_down(&mut p, 2, 1), 0);
    assert_eq!(p.available(), &vec![3, 0]);
    assert_eq!(p.allocation(), &vec![(2, vec![0, 1])]);
    assert!(check_sem_safe_state(p.available(), p.allocation(), p.need()));
}

#[test]
fn up_gives_a_unit_back() {
    let mut p = ProcessSync::new();
    sys_semaphore_create(&mut p, 1);
    sys_semaphore_create(&mut p, 1);
    sys_semaphore_down(&mut p, 3, 1);
    assert_eq!(p.available(), &vec![1, 0]);
    assert_eq!(sys_semaphore_up(&mut p, 3, 1), 0);
    assert_eq!(p.available(), &vec![1, 1]);
    assert_eq!(p.allocation(), &vec![(3, vec![0, 0])]);
    // a thread that held nothing still adds a free unit
    assert_eq!(sys_semaphore_up(&mut p, 3, 1), 0);
    assert_eq!(p.available(), &vec![1, 2]);
    assert_eq!(p.allocation(), &vec![(3, vec![0, 0])]);
}

#[test]
fn up_hands_the_unit_to_the_earliest_waiter() {
    let mut p = ProcessSync::new();
    sys_semaphore_create(&mut p, 0);
    sys_semaphore_create(&mut p, 1);
    sys_semaphore_down(&mut p, 1, 1);
    sys_semaphore_down(&mut p, 2, 1);
    sys_semaphore_down(&mut p, 3, 1);
    assert_eq!(p.need(), &vec![(1, vec![0, 0]), (2, vec![0, 1]), (3, vec![0, 1])]);
    assert_eq!(sys_semaphore_up(&mut p, 1, 1), 0);
    assert_eq!(p.available(), &vec![0, 0]);
    assert_eq!(p.allocation(), &vec![(1, vec![0, 0]), (2, vec![0, 1]), (3, vec![0, 0])]);
    assert_eq!(p.need(), &vec![(1, vec![0, 0]), (2, vec![0, 0]), (3, vec![0, 1])]);
    sys_semaphore_up(&mut p, 2, 1);
    assert_eq!(p.allocation(), &vec![(1, vec![0, 0]), (2, vec![0, 0]), (3, vec![0, 1])]);
    sys_semaphore_up(&mut p, 3, 1);
    assert_eq!(p.available(), &vec![0, 1]);
}

#[test]
fn up_on_semaphore_zero_changes_nothing() {
    let mut p = ProcessSync::new();
    sys_semaphore_create(&mut p, 1);
    assert_eq!(sys_semaphore_up(&mut p, 9, 0), 0);
    assert_eq!(p.available(), &vec![1]);
    assert!(p.allocation().is_empty());
}

#[test]
fn grant_then_release_restores_the_books() {
    let mut p = ProcessSync::new();
    sys_semaphore_create(&mut p, 2);
    sys_semaphore_create(&mut p, 2);
    sys_semaphore_down(&mut p, 5, 0);
    let available = p.available().clone();
    let allocation = p.allocation().clone();
    assert_eq!(sys_semaphore_down(&mut p, 5, 1), 0);
    assert_eq!(sys_semaphore_up(&mut p, 5, 1), 0);
    assert_eq!(p.available(), &available);
    assert_eq!(p.allocation(), &allocation);
}

#[test]
fn books_stay_safe_through_every_call() {
    let mut p = ProcessSync::new();
    sys_enable_deadlock_detect(&mut p, 1);
    sys_semaphore_create(&mut p, 1);
    sys_semaphore_create(&mut p, 2);
    for (tid, sem) in [(1usize, 1usize), (2, 1), (1, 0), (2, 1)] {
        sys_semaphore_down(&mut p, tid, sem);
        assert!(check_sem_safe_state(p.available(), p.allocation(), p.need()));
    }
    sys_semaphore_up(&mut p, 1, 1);
    assert!(check_sem_safe_state(p.available(), p.allocation(), p.need()));
    sys_semaphore_create(&mut p, 4);
    assert!(check_sem_safe_state(p.available(), p.allocation(), p.need()));
}

#[test]
fn up_precondition_can_be_tested() {
    let mut p = ProcessSync::new();
    assert!(!semaphore_up_allowed(&p, 1, 0));
    sys_semaphore_create(&mut p, 1);
    sys_semaphore_create(&mut p, 1);
    assert!(semaphore_up_allowed(&p, 1, 0));
    // a thread without rows cannot give a guarded unit back
    assert!(!semaphore_up_allowed(&p, 1, 1));
    sys_semaphore_down(&mut p, 1, 1);
    assert!(semaphore_up_allowed(&p, 1, 1));
    assert!(!semaphore_up_allowed(&p, 1, 2));
}
