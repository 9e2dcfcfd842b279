use os_syscall::fs::{
    same_path, stat_of, sys_close, sys_fstat, sys_linkat, sys_open, sys_read, sys_unlinkat, sys_write,
    FileHandle, Stat, StatMode,
};

fn file(id: u64, readable: bool, writable: bool) -> FileHandle {
    FileHandle { id, readable, writable, on_disk: true }
}

fn console() -> Vec<Option<FileHandle>> {
    vec![
        Some(FileHandle { id: 0, readable: true, writable: false, on_disk: false }),
        Some(FileHandle { id: 1, readable: false, writable: true, on_disk: false }),
        Some(FileHandle { id: 2, readable: false, writable: true, on_disk: false }),
    ]
}

#[test]
fn write_needs_an_open_writable_file() {
    let table = console();
    assert_eq!(sys_write(&table, 1), Ok(table[1].unwrap()));
    assert_eq!(sys_write(&table, 0), Err(-1));
    assert_eq!(sys_write(&table, 3), Err(-1));
    let mut t2 = table.clone();
    t2.push(None);
    assert_eq!(sys_write(&t2, 3), Err(-1));
}

#[test]
fn read_needs_an_open_readable_file() {
    let table = console();
    assert_eq!(sys_read(&table, 0), Ok(table[0].unwrap()));
    assert_eq!(sys_read(&table, 1), Err(-1));
    assert_eq!(sys_read(&table, 100), Err(-1));
}

#[test]
fn open_takes_the_lowest_free_descriptor() {
    let mut table = console();
    assert_eq!(sys_open(&mut table, Some(file(10, true, false))), 3);
    assert_eq!(sys_open(&mut table, Some(file(11, true, true))), 4);
    assert_eq!(table.len(), 5);
    assert_eq!(sys_open(&mut table, None), -1);
    assert_eq!(table.len(), 5);
}

#[test]
fn close_frees_the_descriptor() {
    let mut table = console();
    sys_open(&mut table, Some(file(10, true, true)));
    assert_eq!(sys_close(&mut table, 3), 0);
    assert_eq!(table[3], None);
    assert_eq!(sys_close(&mut table, 3), -1);
    assert_eq!(sys_close(&mut table, 42), -1);
}

#[test]
fn closed_descriptor_is_reused_first() {
    let mut table = console();
    sys_open(&mut table, Some(file(10, true, true)));
    sys_open(&mut table, Some(file(11, true, true)));
    sys_close(&mut table, 1);
    assert_eq!(sys_write(&table, 1), Err(-1));
    assert_eq!(sys_read(&table, 1), Err(-1));
    assert_eq!(sys_open(&mut table, Some(file(12, true, true))), 1);
    assert_eq!(sys_open(&mut table, Some(file(13, true, true))), 5);
}

#[test]
fn fstat_needs_an_open_file_and_a_buffer() {
    let mut table = console();
    sys_open(&mut table, Some(file(10, true, false)));
    assert_eq!(sys_fstat(&table, 3, false), Ok(file(10, true, false)));
    assert_eq!(sys_fstat(&table, 3, true), Err(-1));
    assert_eq!(sys_fstat(&table, 9, false), Err(-1));
    assert_eq!(sys_fstat(&table, 0, true), Err(-1));
}

#[test]
fn paths_compare_byte_by_byte() {
    assert!(same_path(&b"a/b".to_vec(), &b"a/b".to_vec()));
    assert!(!same_path(&b"a/b".to_vec(), &b"a/c".to_vec()));
    assert!(!same_path(&b"ab".to_vec(), &b"abc".to_vec()));
    assert!(same_path(&vec![], &vec![]));
}

#[test]
fn link_needs_distinct_paths_and_an_existing_file() {
    let a = b"fileA".to_vec();
    let b = b"fileB".to_vec();
    assert_eq!(sys_linkat(&a, &b, true), Ok(()));
    assert_eq!(sys_linkat(&a, &b, false), Err(-1));
    assert_eq!(sys_linkat(&a, &a, true), Err(-1));
}

#[test]
fn unlink_needs_an_existing_path() {
    assert_eq!(sys_unlinkat(true), Ok(()));
    assert_eq!(sys_unlinkat(false), Err(-1));
}

#[test]
fn stat_record_for_an_inode() {
    assert_eq!(
        stat_of(12, StatMode::File, 2),
        Stat { dev: 0, ino: 12, mode: StatMode::File, nlink: 2, pad: [0; 7] }
    );
    assert_eq!(stat_of(1, StatMode::Dir, 1).pad, [0u64; 7]);
}
