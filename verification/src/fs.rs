//! File system calls: the descriptor checks in front of the file system.
//!
//! A process's open files sit in its descriptor table; a descriptor is an index
//! into it. The calls here decide whether a request may go on and to which
//! file; reading, writing, opening and linking are the file system's work.
use vstd::prelude::*;
use crate::slots::{alloc_slot, is_first_free, with_slot};

verus! {

/// An open file as the descriptor table records it.
#[derive(Clone, Copy, Debug, PartialEq, Eq, Structural)]
pub struct FileHandle {
    /// Which open file this is.
    pub id: u64,
    /// Whether the file was opened for reading.
    pub readable: bool,
    /// Whether the file was opened for writing.
    pub writable: bool,
    /// Whether the file is an inode of the file system (the console is not).
    pub on_disk: bool,
}

/// The open file at descriptor `fd`, if there is one.
pub open spec fn file_at(table: Seq<Option<FileHandle>>, fd: usize) -> Option<FileHandle> {
    if fd < table.len() {
        table[fd as int]
    } else {
        None
    }
}

/// Decides a write to descriptor `fd`: it goes on to the open file when the
/// descriptor names one that was opened for writing, and the caller answers
/// what the file's write returns; otherwise the answer is -1.
pub fn sys_write(fd_table: &Vec<Option<FileHandle>>, fd: usize) -> (r: Result<FileHandle, isize>)
    ensures
        match file_at(fd_table@, fd) {
            Some(f) => if f.writable {
                r == Ok::<FileHandle, isize>(f)
            } else {
                r == Err::<FileHandle, isize>(-1isize)
            },
            None => r == Err::<FileHandle, isize>(-1isize),
        },
{
    if fd >= fd_table.len() {
        return Err(-1);
    }
    match fd_table[fd] {
        Some(file) => {
            if !file.writable {
                return Err(-1);
            }
            Ok(file)
        },
        None => Err(-1),
    }
}

/// Decides a read from descriptor `fd`: it goes on to the open file when the
/// descriptor names one that was opened for reading, and the caller answers
/// what the file's read returns; otherwise the answer is -1.
pub fn sys_read(fd_table: &Vec<Option<FileHandle>>, fd: usize) -> (r: Result<FileHandle, isize>)
    ensures
        match file_at(fd_table@, fd) {
            Some(f) => if f.readable {
                r == Ok::<FileHandle, isize>(f)
            } else {
                r == Err::<FileHandle, isize>(-1isize)
            },
            None => r == Err::<FileHandle, isize>(-1isize),
        },
{
    if fd >= fd_table.len() {
        return Err(-1);
    }
    match fd_table[fd] {
        Some(file) => {
            if !file.readable {
                return Err(-1);
            }
            Ok(file)
        },
        None => Err(-1),
    }
}

/// Installs the file that the file system opened in the lowest free descriptor
/// and answers that descriptor; when nothing was opened the answer is -1 and
/// the table is left as it was.
pub fn sys_open(fd_table: &mut Vec<Option<FileHandle>>, opened: Option<FileHandle>) -> (r: isize)
    requires
        old(fd_table)@.len() < isize::MAX,
    ensures
        opened is None ==> r == -1 && final(fd_table)@ == old(fd_table)@,
        opened is Some ==> is_first_free(old(fd_table)@, r as int) && final(fd_table)@ == with_slot(
            old(fd_table)@,
            r as int,
            opened.unwrap(),
        ),
{
    match opened {
        Some(file) => {
            let fd = alloc_slot(fd_table, file);
            fd as isize
        },
        None => -1,
    }
}

/// Closes descriptor `fd`: frees its slot and answers 0, or answers -1 when it
/// names no open file.
pub fn sys_close(fd_table: &mut Vec<Option<FileHandle>>, fd: usize) -> (r: isize)
    ensures
        file_at(old(fd_table)@, fd) is None ==> r == -1 && final(fd_table)@ == old(fd_table)@,
        file_at(old(fd_table)@, fd) is Some ==> r == 0 && final(fd_table)@ == old(
            fd_table,
        )@.update(fd as int, None),
{
    if fd >= fd_table.len() {
        return -1;
    }
    if fd_table[fd].is_none() {
        return -1;
    }
    fd_table.set(fd, None);
    0
}

/// Decides a status request on descriptor `fd` into a user buffer: it goes on
/// to the open file (the caller copies `stat_of` the file's inode number, kind
/// and link count to the buffer and answers 0) when the
/// descriptor names an open file and the buffer is not null; otherwise the
/// answer is -1.
pub fn sys_fstat(fd_table: &Vec<Option<FileHandle>>, fd: usize, st_is_null: bool) -> (r: Result<
    FileHandle,
    isize,
>)
    requires
        !st_is_null && file_at(fd_table@, fd) is Some ==> file_at(fd_table@, fd).unwrap().on_disk,
    ensures
        match file_at(fd_table@, fd) {
            Some(f) => if st_is_null {
                r == Err::<FileHandle, isize>(-1isize)
            } else {
                r == Ok::<FileHandle, isize>(f)
            },
            None => r == Err::<FileHandle, isize>(-1isize),
        },
{
    if fd >= fd_table.len() || fd_table[fd].is_none() || st_is_null {
        return Err(-1);
    }
    match fd_table[fd] {
        Some(file) => Ok(file),
        None => Err(-1),
    }
}

/// The kind of a file system entry.
#[derive(Clone, Copy, Debug, PartialEq, Eq, Structural)]
pub enum StatMode {
    /// Neither a directory nor a regular file.
    Null,
    /// A directory.
    Dir,
    /// A regular file.
    File,
}

/// The status of a file as `sys_fstat` hands it to the user.
#[derive(Clone, Copy, Debug, PartialEq, Eq)]
pub struct Stat {
    /// The device the file lives on.
    pub dev: u64,
    /// The inode number.
    pub ino: u64,
    /// The kind of entry.
    pub mode: StatMode,
    /// The number of hard links to the inode.
    pub nlink: u32,
    /// Padding, zero.
    pub pad: [u64; 7],
}

/// The status of an inode with number `ino`, kind `mode` and `nlink` links:
/// on device 0, with zero padding.
pub fn stat_of(ino: u64, mode: StatMode, nlink: u32) -> (r: Stat)
    ensures
        r.dev == 0,
        r.ino == ino,
        r.mode == mode,
        r.nlink == nlink,
        forall|i: int| 0 <= i < 7 ==> #[trigger] r.pad@[i] == 0,
{
    let pad: [u64; 7] = [0, 0, 0, 0, 0, 0, 0];
    proof {
        assert(pad@ =~= seq![0u64, 0, 0, 0, 0, 0, 0]);
    }
    Stat { dev: 0, ino, mode, nlink, pad }
}

/// Whether two user paths, read byte by byte, are the same.
pub fn same_path(a: &Vec<u8>, b: &Vec<u8>) -> (r: bool)
    ensures
        r == (a@ == b@),
{
    if a.len() != b.len() {
        return false;
    }
    let mut i: usize = 0;
    while i < a.len()
        invariant
            a.len() == b.len(),
            i <= a.len(),
            forall|j: int| 0 <= j < i ==> a@[j] == b@[j],
        decreases a.len() - i,
    {
        if a[i] != b[i] {
            return false;
        }
        i = i + 1;
    }
    proof {
        assert(a@ =~= b@);
    }
    true
}

/// Decides a request to link `new_path` to the file at `old_path`, given
/// whether the file system finds `old_path`. The link goes on (the caller
/// creates it and answers what that returns) when the paths differ and the old
/// one exists; otherwise the answer is -1.
pub fn sys_linkat(old_path: &Vec<u8>, new_path: &Vec<u8>, old_exists: bool) -> (r: Result<(), isize>)
    ensures
        r == (if old_path@ != new_path@ && old_exists {
            Ok::<(), isize>(())
        } else {
            Err::<(), isize>(-1isize)
        }),
{
    if same_path(old_path, new_path) {
        return Err(-1);
    }
    if old_exists {
        Ok(())
    } else {
        Err(-1)
    }
}

/// Decides a request to unlink a path, given whether the file system finds
/// it: the unlink goes on (the caller removes the link and answers what that
/// returns) when it exists; otherwise the answer is -1.
pub fn sys_unlinkat(path_exists: bool) -> (r: Result<(), isize>)
    ensures
        r == (if path_exists {
            Ok::<(), isize>(())
        } else {
            Err::<(), isize>(-1isize)
        }),
{
    if path_exists {
        Ok(())
    } else {
        Err(-1)
    }
}

} // verus!
