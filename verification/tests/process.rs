use os_syscall::process::{
    sys_exec, sys_fork, sys_get_time, sys_getpid, sys_mmap, sys_munmap, sys_sbrk,
    sys_set_priority, sys_sleep, sys_spawn, sys_waitpid, sys_yield, spawned_task, ChildInfo, SpawnImage,
    ForkAnswers, MapRequest, TaskRecord, TaskStatus, TimeVal,
};

fn child(pid: usize, zombie: bool, exit_code: i32) -> ChildInfo {
    ChildInfo { pid, zombie, exit_code }
}

#[test]
fn simple_answers() {
    assert_eq!(sys_yield(), 0);
    assert_eq!(sys_getpid(42), 42);
    assert_eq!(sys_exec(true), 0);
    assert_eq!(sys_exec(false), -1);
    assert_eq!(sys_set_priority(16), -1);
    assert_eq!(sys_set_priority(-3), -1);
    assert_eq!(sys_sbrk(Some(0x1000)), 0x1000);
    assert_eq!(sys_sbrk(None), -1);
}

#[test]
fn waitpid_without_such_child_is_minus_one() {
    let mut children = vec![child(3, true, 0)];
    assert_eq!(sys_waitpid(&mut children, 4), Err(-1));
    let mut none: Vec<ChildInfo> = vec![];
    assert_eq!(sys_waitpid(&mut none, -1), Err(-1));
    assert_eq!(children.len(), 1);
}

#[test]
fn waitpid_on_running_child_is_minus_two() {
    let mut children = vec![child(3, false, 0), child(4, false, 0)];
    assert_eq!(sys_waitpid(&mut children, 4), Err(-2));
    assert_eq!(sys_waitpid(&mut children, -1), Err(-2));
    assert_eq!(children.len(), 2);
}

#[test]
fn waitpid_reaps_the_first_exited_child() {
    let mut children = vec![child(3, false, 0), child(4, true, 9), child(5, true, 1)];
    assert_eq!(sys_waitpid(&mut children, -1), Ok(child(4, true, 9)));
    assert_eq!(children, vec![child(3, false, 0), child(5, true, 1)]);
    assert_eq!(sys_waitpid(&mut children, 5), Ok(child(5, true, 1)));
    assert_eq!(children, vec![child(3, false, 0)]);
}

#[test]
fn reaped_child_is_gone() {
    let mut children = vec![child(8, true, 2)];
    assert_eq!(sys_waitpid(&mut children, 8), Ok(child(8, true, 2)));
    assert_eq!(sys_waitpid(&mut children, 8), Err(-1));
}

#[test]
fn mmap_checks_alignment_and_permissions() {
    assert_eq!(sys_mmap(4097, 10, 1), Err(-1));
    assert_eq!(sys_mmap(4096, 10, 0), Err(-1));
    assert_eq!(sys_mmap(4096, 10, 8), Err(-1));
    assert_eq!(sys_mmap(4096, 10, 9), Err(-1));
    assert_eq!(sys_mmap(0, 4096, 1), Ok(MapRequest { start: 0, end: 4096, perm: 18 }));
    assert_eq!(
        sys_mmap(0x10000000, 8192, 3),
        Ok(MapRequest { start: 0x10000000, end: 0x10002000, perm: 22 })
    );
    assert_eq!(sys_mmap(4096, 1, 7), Ok(MapRequest { start: 4096, end: 4097, perm: 30 }));
}

#[test]
fn mmap_permissions_are_user_reachable() {
    for port in 1..=7usize {
        let req = sys_mmap(0, 4096, port).unwrap();
        assert_eq!(req.perm & 16, 16);
        assert_ne!(req.perm & 14, 0);
        assert_eq!(req.perm as usize, (port << 1) | 16);
    }
}

#[test]
fn munmap_checks_alignment_and_clamps_the_end() {
    assert_eq!(sys_munmap(100, 10), Err(-1));
    assert_eq!(sys_munmap(4096, 4096), Ok((4096, 8192)));
    assert_eq!(sys_munmap(4096, usize::MAX), Ok((4096, usize::MAX)));
    assert_eq!(sys_munmap(usize::MAX - 4095, 8192), Ok((usize::MAX - 4095, usize::MAX)));
}

#[test]
fn sleep_ends_later() {
    assert_eq!(sys_sleep(1000, 250), 1250);
    assert_eq!(sys_sleep(0, 0), 0);
}

#[test]
fn get_time_splits_microseconds() {
    assert_eq!(sys_get_time(true, 5), Err(-1));
    assert_eq!(sys_get_time(false, 3_250_000), Ok(TimeVal { sec: 3, usec: 250_000 }));
    assert_eq!(sys_get_time(false, 999_999), Ok(TimeVal { sec: 0, usec: 999_999 }));
    assert_eq!(sys_get_time(false, 2_000_000), Ok(TimeVal { sec: 2, usec: 0 }));
}

#[test]
fn fork_answers_both_sides() {
    let mut children = vec![child(2, false, 0)];
    assert_eq!(sys_fork(&mut children, 7), ForkAnswers { parent: 7, child: 0 });
    assert_eq!(children, vec![child(2, false, 0), child(7, false, 0)]);
    assert_eq!(sys_waitpid(&mut children, 7), Err(-2));
}

#[test]
fn spawned_task_record() {
    let mut parent = TaskRecord {
        pid: 1,
        parent: None,
        children: vec![4],
        status: TaskStatus::Running,
        exit_code: 0,
        base_size: 0x3000,
        heap_bottom: 0x3000,
        program_brk: 0x5000,
        entry_point: 0x1000,
        user_sp: 0x8000,
    };
    let child = spawned_task(&mut parent, 9, 0x10000, 0x20000);
    assert_eq!(parent.children, vec![4, 9]);
    assert_eq!(
        child,
        TaskRecord {
            pid: 9,
            parent: Some(1),
            children: vec![],
            status: TaskStatus::Ready,
            exit_code: 0,
            base_size: 0x3000,
            heap_bottom: 0x3000,
            program_brk: 0x5000,
            entry_point: 0x10000,
            user_sp: 0x20000,
        }
    );
}

fn parent_record() -> TaskRecord {
    TaskRecord {
        pid: 1,
        parent: None,
        children: vec![2],
        status: TaskStatus::Running,
        exit_code: 0,
        base_size: 0x3000,
        heap_bottom: 0x3000,
        program_brk: 0x5000,
        entry_point: 0x1000,
        user_sp: 0x8000,
    }
}

#[test]
fn spawn_records_a_ready_child() {
    let mut parent = parent_record();
    let mut children = vec![child(2, true, 0)];
    assert_eq!(sys_spawn(&mut parent, &mut children, true, None), Err(-1));
    assert_eq!(sys_spawn(&mut parent, &mut children, false, None), Err(-1));
    assert_eq!(children.len(), 1);
    assert_eq!(parent, parent_record());
    let image = SpawnImage { pid: 9, entry_point: 0x10000, user_sp: 0x20000 };
    let c = sys_spawn(&mut parent, &mut children, false, Some(image)).unwrap();
    assert_eq!(c.pid, 9);
    assert_eq!(c.parent, Some(1));
    assert_eq!(c.status, TaskStatus::Ready);
    assert_eq!(c.exit_code, 0);
    assert_eq!((c.entry_point, c.user_sp), (0x10000, 0x20000));
    assert!(c.children.is_empty());
    assert_eq!(parent.children, vec![2, 9]);
    assert_eq!(children, vec![child(2, true, 0), child(9, false, 0)]);
    assert_eq!(sys_waitpid(&mut children, 9), Err(-2));
}
