use os_syscall::banker::check_sem_safe_state;

#[test]
fn empty_state_is_safe() {
    assert!(check_sem_safe_state(&vec![], &vec![], &vec![]));
}

#[test]
fn one_thread_that_fits_is_safe() {
    let available = vec![1usize];
    let allocation = vec![(1usize, vec![0usize]), (2, vec![1])];
    let need = vec![(1usize, vec![2usize]), (2, vec![1])];
    // thread 2 finishes first and gives back its unit, then thread 1 fits
    assert!(check_sem_safe_state(&available, &allocation, &need));
}

#[test]
fn threads_waiting_on_each_other_are_unsafe() {
    let available = vec![0usize];
    let allocation = vec![(1usize, vec![1usize]), (2, vec![1])];
    let need = vec![(1usize, vec![1usize]), (2, vec![1])];
    assert!(!check_sem_safe_state(&available, &allocation, &need));
}

#[test]
fn a_later_pass_finishes_an_earlier_thread() {
    let available = vec![1usize];
    let allocation = vec![(1usize, vec![0usize]), (2, vec![2])];
    let need = vec![(1usize, vec![3usize]), (2, vec![1])];
    assert!(check_sem_safe_state(&available, &allocation, &need));
}

#[test]
fn two_semaphores_are_checked_counter_by_counter() {
    let available = vec![1usize, 0];
    let allocation = vec![(1usize, vec![0usize, 1]), (2, vec![1, 0])];
    let need = vec![(1usize, vec![1usize, 1]), (2, vec![0, 1])];
    // neither fits: thread 1 needs a unit of the second semaphore, so does thread 2
    assert!(!check_sem_safe_state(&available, &allocation, &need));
    let need_ok = vec![(1usize, vec![1usize, 0]), (2, vec![0, 1])];
    // thread 1 fits, gives back the second semaphore's unit, then thread 2 fits
    assert!(check_sem_safe_state(&available, &allocation, &need_ok));
}

#[test]
fn thread_without_need_row_never_finishes() {
    let available = vec![5usize];
    let allocation = vec![(1usize, vec![0usize])];
    let need: Vec<(usize, Vec<usize>)> = vec![];
    assert!(!check_sem_safe_state(&available, &allocation, &need));
}

#[test]
fn need_rows_of_unknown_threads_are_ignored() {
    let available = vec![0usize];
    let allocation = vec![(1usize, vec![0usize])];
    let need = vec![(9usize, vec![5usize]), (1, vec![0])];
    assert!(check_sem_safe_state(&available, &allocation, &need));
}

#[test]
fn duplicate_allocation_rows_are_unsafe() {
    let available = vec![3usize];
    let allocation = vec![(1usize, vec![0usize]), (1, vec![0])];
    let need = vec![(1usize, vec![0usize])];
    assert!(!check_sem_safe_state(&available, &allocation, &need));
}

#[test]
fn short_need_row_is_compared_on_its_counters() {
    let available = vec![1usize, 0];
    let allocation = vec![(1usize, vec![0usize, 0])];
    let need = vec![(1usize, vec![1usize])];
    assert!(check_sem_safe_state(&available, &allocation, &need));
}

#[test]
fn any_need_row_of_a_thread_may_let_it_finish() {
    let available = vec![1usize];
    let allocation = vec![(1usize, vec![0usize])];
    let need = vec![(1usize, vec![4usize]), (1, vec![1])];
    assert!(check_sem_safe_state(&available, &allocation, &need));
}

#[test]
fn short_row_that_never_finishes_is_unsafe_without_fault() {
    let available = vec![1usize, 1];
    let allocation = vec![(1usize, vec![0usize])];
    let need = vec![(1usize, vec![5usize, 5])];
    assert!(!check_sem_safe_state(&available, &allocation, &need));
    let allocation2 = vec![(1usize, vec![0usize, 0]), (2, vec![])];
    let need2 = vec![(1usize, vec![0usize, 0])];
    assert!(!check_sem_safe_state(&available, &allocation2, &need2));
}

#[test]
fn verdict_ignores_row_order() {
    let available = vec![1usize];
    let allocation = vec![(1usize, vec![0usize]), (2, vec![2]), (3, vec![1])];
    let need = vec![(1usize, vec![3usize]), (2, vec![1]), (3, vec![3])];
    let verdict = check_sem_safe_state(&available, &allocation, &need);
    assert!(verdict);
    let allocation_r = vec![(3usize, vec![1usize]), (1, vec![0]), (2, vec![2])];
    let need_r = vec![(2usize, vec![1usize]), (3, vec![3]), (1, vec![3])];
    assert_eq!(check_sem_safe_state(&available, &allocation_r, &need_r), verdict);
    let need_bad = vec![(1usize, vec![9usize]), (2, vec![1]), (3, vec![9])];
    let need_bad_r = vec![(3usize, vec![9usize]), (1, vec![9]), (2, vec![1])];
    assert_eq!(
        check_sem_safe_state(&available, &allocation, &need_bad),
        check_sem_safe_state(&available, &allocation_r, &need_bad_r)
    );
}

#[test]
fn more_free_units_keep_a_safe_state_safe() {
    let allocation = vec![(1usize, vec![0usize]), (2, vec![2])];
    let need = vec![(1usize, vec![3usize]), (2, vec![1])];
    assert!(check_sem_safe_state(&vec![1], &allocation, &need));
    assert!(check_sem_safe_state(&vec![5], &allocation, &need));
    assert!(!check_sem_safe_state(&vec![0], &allocation, &need));
}
