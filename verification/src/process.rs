//! Process system calls: argument checks, the arithmetic of time and address
//! ranges, and the bookkeeping of a process's children. Creating, replacing,
//! scheduling and mapping are the kernel's work; the calls here decide what
//! that work is asked to do and what the process is answered.
use vstd::prelude::*;

verus! {

/// Microseconds in a second.
pub const USEC_PER_SEC: usize = 1000000;

/// Size of a page in bytes.
pub const PAGE_SIZE: usize = 4096;

/// Page permission bit: the page can be read.
pub const PERM_R: u8 = 2;

/// Page permission bit: user mode can reach the page.
pub const PERM_U: u8 = 16;

/// A point in time as seconds and microseconds.
#[derive(Clone, Copy, Debug, PartialEq, Eq, Structural)]
pub struct TimeVal {
    /// Whole seconds.
    pub sec: usize,
    /// Microseconds past the second.
    pub usec: usize,
}

/// A child of the current process as `sys_waitpid` sees it.
#[derive(Clone, Copy, Debug, PartialEq, Eq, Structural)]
pub struct ChildInfo {
    /// The child's process id.
    pub pid: usize,
    /// Whether the child has exited and waits to be reaped.
    pub zombie: bool,
    /// The code the child exited with.
    pub exit_code: i32,
}

/// A mapping request that passed the checks of `sys_mmap`.
#[derive(Clone, Copy, Debug, PartialEq, Eq, Structural)]
pub struct MapRequest {
    /// First address of the range.
    pub start: usize,
    /// One past the last address of the range.
    pub end: usize,
    /// Page permission bits: readable, writable, executable, user.
    pub perm: u8,
}

/// The current task gives up the processor; the answer is `0`.
pub fn sys_yield() -> (r: isize)
    ensures
        r == 0,
{
    0
}

/// Answers the current process's id.
pub fn sys_getpid(pid: usize) -> (r: isize)
    ensures
        r == pid as isize,
{
    pid as isize
}

/// What the two sides of a fork are answered.
#[derive(Clone, Copy, Debug, PartialEq, Eq, Structural)]
pub struct ForkAnswers {
    /// The parent's answer: the child's pid.
    pub parent: isize,
    /// The child's answer, left in its return register.
    pub child: isize,
}

/// Records the child that `fork` created with pid `new_pid`, running, among
/// the children; the parent is answered the child's pid and the child 0.
pub fn sys_fork(children: &mut Vec<ChildInfo>, new_pid: usize) -> (r: ForkAnswers)
    ensures
        r == (ForkAnswers { parent: new_pid as isize, child: 0 }),
        final(children)@ == old(children)@.push(ChildInfo { pid: new_pid, zombie: false, exit_code: 0 }),
{
    children.push(ChildInfo { pid: new_pid, zombie: false, exit_code: 0 });
    ForkAnswers { parent: new_pid as isize, child: 0 }
}

/// Decides an exec request, given whether an application of that name exists:
/// then the caller replaces the process image and the answer is 0; otherwise
/// the answer is -1.
pub fn sys_exec(app_found: bool) -> (r: isize)
    ensures
        r == (if app_found {
            0isize
        } else {
            -1isize
        }),
{
    if app_found {
        0
    } else {
        -1
    }
}

/// A wait for `pid` concerns `child`: `-1` waits for any child.
pub open spec fn pid_matches(pid: isize, child: ChildInfo) -> bool {
    pid == -1 || pid as usize == child.pid
}

/// Some child is one that a wait for `pid` concerns.
pub open spec fn has_match(children: Seq<ChildInfo>, pid: isize) -> bool {
    exists|i: int| 0 <= i < children.len() && pid_matches(pid, #[trigger] children[i])
}

/// `i` is the first child that a wait for `pid` concerns and that has exited.
pub open spec fn is_first_exited(children: Seq<ChildInfo>, pid: isize, i: int) -> bool {
    &&& 0 <= i < children.len()
    &&& children[i].zombie && pid_matches(pid, children[i])
    &&& forall|a: int| 0 <= a < i ==> !(#[trigger] children[a].zombie && pid_matches(pid, children[a]))
}

/// Waits for child `pid` (`-1`: any child) of the current process.
///
/// With no such child the answer is -1; with such children but none exited
/// yet, -2. Otherwise the first exited one is removed from the children and
/// handed back: the caller stores its exit code at the user's pointer and
/// answers its pid.
pub fn sys_waitpid(children: &mut Vec<ChildInfo>, pid: isize) -> (r: Result<ChildInfo, isize>)
    ensures
        !has_match(old(children)@, pid) ==> r == Err::<ChildInfo, isize>(-1isize) && final(children)@ == old(children)@,
        has_match(old(children)@, pid) && !(exists|i: int| is_first_exited(old(children)@, pid, i))
            ==> r == Err::<ChildInfo, isize>(-2isize) && final(children)@ == old(children)@,
        forall|i: int|
            is_first_exited(old(children)@, pid, i) ==> r == Ok::<ChildInfo, isize>(
                old(children)@[i],
            ) && final(children)@ == old(children)@.remove(i),
{
    let mut any = false;
    let mut i: usize = 0;
    while i < children.len()
        invariant
            i <= children.len(),
            any <==> exists|a: int| 0 <= a < i && pid_matches(pid, #[trigger] children@[a]),
        decreases children.len() - i,
    {
        if pid == -1 || #[verifier::truncate] (pid as usize) == children[i].pid {
            proof {
                assert(pid_matches(pid, children@[i as int]));
            }
            any = true;
        }
        i = i + 1;
    }
    if !any {
        proof {
            assert(!has_match(old(children)@, pid));
        }
        return Err(-1);
    }
    let mut k: usize = 0;
    while k < children.len()
        invariant
            k <= children.len(),
            children@ == old(children)@,
            forall|a: int|
                0 <= a < k ==> !(#[trigger] children@[a].zombie && pid_matches(pid, children@[a])),
        decreases children.len() - k,
    {
        if children[k].zombie && (pid == -1 || #[verifier::truncate] (pid as usize) == children[k].pid) {
            let child = children.remove(k);
            proof {
                assert(is_first_exited(old(children)@, pid, k as int));
                assert forall|i: int| is_first_exited(old(children)@, pid, i) implies i == k by {
                    if i < k {
                    } else if i > k {
                        assert(!(old(children)@[k as int].zombie && pid_matches(pid, old(children)@[k as int])));
                    }
                }
            }
            return Ok(child);
        }
        k = k + 1;
    }
    proof {
        assert forall|i: int| !is_first_exited(old(children)@, pid, i) by {
            if 0 <= i < children.len() {
                assert(!(children@[i].zombie && pid_matches(pid, children@[i])));
            }
        }
    }
    Err(-2)
}

/// The value of `port` is one of the seven non-empty combinations of the
/// read, write and execute bits.
pub open spec fn port_valid(port: usize) -> bool {
    1 <= port <= 7
}

/// `sys_mmap` accepts the arguments.
pub open spec fn mmap_valid(start: usize, port: usize) -> bool {
    start % 4096 == 0 && start < usize::MAX && port_valid(port)
}

/// Decides a request to map `len` bytes at `start` with permissions `port`
/// (bit 0 read, bit 1 write, bit 2 execute). A start that is not page-aligned
/// or a permission outside the three bits, or none of them, is refused with
/// -1. Otherwise the caller maps the range `start..start + len` with the
/// permissions shifted into place and the user bit set, and answers what the
/// mapping returns.
pub fn sys_mmap(start: usize, len: usize, port: usize) -> (r: Result<MapRequest, isize>)
    requires
        mmap_valid(start, port) ==> start + len <= usize::MAX,
    ensures
        !mmap_valid(start, port) ==> r == Err::<MapRequest, isize>(-1isize),
        mmap_valid(start, port) ==> r == Ok::<MapRequest, isize>(
            MapRequest {
                start,
                end: (start + len) as usize,
                perm: (port * 2 + PERM_U) as u8,
            },
        ),
{
    proof {
        assert((port & 7usize) == 0usize || (port & !7usize) != 0usize <==> !(1usize <= port
            && port <= 7usize)) by (bit_vector);
    }
    if start % PAGE_SIZE != 0 || start >= usize::MAX || port & 0b111 == 0 || port & !0b111 != 0 {
        return Err(-1);
    }
    let shifted: u8 = (port << 1) as u8;
    proof {
        assert(1usize <= port && port <= 7usize ==> ((port << 1usize) as u8) == (port * 2) as u8)
            by (bit_vector);
    }
    let perm: u8 = shifted | PERM_U;
    proof {
        assert(forall|p: u8| 2 <= p <= 14 && p % 2 == 0 ==> (p | 16u8) == p + 16) by (bit_vector);
    }
    Ok(MapRequest { start, end: start + len, perm })
}

/// `sys_munmap` accepts the arguments.
pub open spec fn munmap_valid(start: usize) -> bool {
    start % 4096 == 0 && start < usize::MAX
}

/// The end of the range `sys_munmap` hands on: `start + len`, cut off at the
/// top of the address space.
pub open spec fn munmap_end(start: usize, len: usize) -> usize {
    if start + len < usize::MAX {
        (start + len) as usize
    } else {
        usize::MAX
    }
}

/// Decides a request to unmap `len` bytes at `start`. A start that is not
/// page-aligned is refused with -1. Otherwise the caller unmaps
/// `start..end` and answers what that returns, where `end` is `start + len`
/// cut off at the top of the address space.
pub fn sys_munmap(start: usize, len: usize) -> (r: Result<(usize, usize), isize>)
    ensures
        !munmap_valid(start) ==> r == Err::<(usize, usize), isize>(-1isize),
        munmap_valid(start) ==> r == Ok::<(usize, usize), isize>((start, munmap_end(start, len))),
{
    if start % PAGE_SIZE != 0 || start >= usize::MAX {
        return Err(-1);
    }
    let mut mlen = len;
    if start >= usize::MAX - len {
        mlen = usize::MAX - start;
    }
    Ok((start, start + mlen))
}

/// Answers a heap-size change: the old break when the kernel moved it, -1
/// when it refused.
pub fn sys_sbrk(old_brk: Option<usize>) -> (r: isize)
    ensures
        r == match old_brk {
            Some(b) => b as isize,
            None => -1isize,
        },
{
    if let Some(b) = old_brk {
        b as isize
    } else {
        -1
    }
}

/// Priorities are not supported: the answer is always -1.
pub fn sys_set_priority(prio: isize) -> (r: isize)
    ensures
        r == -1,
{
    -1
}

/// The time at which a sleep of `ms` milliseconds begun at `now_ms` ends; the
/// caller sets a timer for it, blocks, and answers 0.
pub fn sys_sleep(now_ms: usize, ms: usize) -> (expire_ms: usize)
    requires
        now_ms + ms <= usize::MAX,
    ensures
        expire_ms == now_ms + ms,
{
    now_ms + ms
}

/// The time to store for a user from a reading of the microsecond clock:
/// whole seconds and the microseconds past them. A null user pointer is
/// refused with -1.
pub fn sys_get_time(ts_is_null: bool, now_us: usize) -> (r: Result<TimeVal, isize>)
    ensures
        ts_is_null ==> r == Err::<TimeVal, isize>(-1isize),
        !ts_is_null ==> r == Ok::<TimeVal, isize>(
            TimeVal { sec: now_us / 1000000, usec: now_us % 1000000 },
        ),
{
    if ts_is_null {
        return Err(-1);
    }
    Ok(TimeVal { sec: now_us / USEC_PER_SEC, usec: now_us % USEC_PER_SEC })
}

/// Scheduling state of a task.
#[derive(Clone, Copy, Debug, PartialEq, Eq, Structural)]
pub enum TaskStatus {
    /// Waiting for the processor.
    Ready,
    /// On the processor.
    Running,
    /// Blocked.
    Blocked,
    /// Exited, not yet reaped.
    Zombie,
}

/// The bookkeeping of a task, without its address space and kernel stack.
#[derive(Debug, PartialEq, Eq)]
pub struct TaskRecord {
    /// The task's pid.
    pub pid: usize,
    /// The parent's pid.
    pub parent: Option<usize>,
    /// The children's pids.
    pub children: Vec<usize>,
    /// Scheduling state.
    pub status: TaskStatus,
    /// Exit code, 0 until the task exits.
    pub exit_code: i32,
    /// Size of the loaded image.
    pub base_size: usize,
    /// Bottom of the heap.
    pub heap_bottom: usize,
    /// Current program break.
    pub program_brk: usize,
    /// Where user mode starts: the program counter of the first return.
    pub entry_point: usize,
    /// The user stack pointer of the first return.
    pub user_sp: usize,
}

/// The record of a task spawned by `parent` from an image with entry point
/// `entry_point` and user stack `user_sp`, given pid `pid`: ready to run,
/// with no children and exit code 0, and the parent's image size, heap
/// bottom and break. The child joins the parent's children.
pub fn spawned_task(parent: &mut TaskRecord, pid: usize, entry_point: usize, user_sp: usize) -> (r: TaskRecord)
    ensures
        final(parent).children@ == old(parent).children@.push(pid),
        final(parent).pid == old(parent).pid,
        final(parent).parent == old(parent).parent,
        final(parent).status == old(parent).status,
        final(parent).exit_code == old(parent).exit_code,
        final(parent).base_size == old(parent).base_size,
        final(parent).heap_bottom == old(parent).heap_bottom,
        final(parent).program_brk == old(parent).program_brk,
        final(parent).entry_point == old(parent).entry_point,
        final(parent).user_sp == old(parent).user_sp,
        r.pid == pid,
        r.parent == Some(old(parent).pid),
        r.children@.len() == 0,
        r.status == TaskStatus::Ready,
        r.exit_code == 0,
        r.base_size == old(parent).base_size,
        r.heap_bottom == old(parent).heap_bottom,
        r.program_brk == old(parent).program_brk,
        r.entry_point == entry_point,
        r.user_sp == user_sp,
{
    parent.children.push(pid);
    TaskRecord {
        pid,
        parent: Some(parent.pid),
        children: Vec::new(),
        status: TaskStatus::Ready,
        exit_code: 0,
        base_size: parent.base_size,
        heap_bottom: parent.heap_bottom,
        program_brk: parent.program_brk,
        entry_point,
        user_sp,
    }
}

/// What the kernel made of the application that a spawn names: the pid it
/// gave the new task and where the loaded image starts.
#[derive(Clone, Copy, Debug, PartialEq, Eq, Structural)]
pub struct SpawnImage {
    /// The new task's pid.
    pub pid: usize,
    /// The image's entry point.
    pub entry_point: usize,
    /// The image's user stack pointer.
    pub user_sp: usize,
}

/// Spawns a child of `parent`. A null path is refused with -1, and so is a
/// name with no application (`image` is `None`). Otherwise the child gets its
/// record from `spawned_task` (parent link, ready, exit code 0, the image's
/// entry and stack), joins `parent`'s children and the running children that
/// `sys_waitpid` sees, and is handed back; the caller queues it and answers
/// its pid.
pub fn sys_spawn(
    parent: &mut TaskRecord,
    children: &mut Vec<ChildInfo>,
    path_is_null: bool,
    image: Option<SpawnImage>,
) -> (r: Result<TaskRecord, isize>)
    requires
        path_is_null ==> image is None,
    ensures
        image is None ==> r == Err::<TaskRecord, isize>(-1isize) && *final(parent) == *old(parent)
            && final(children)@ == old(children)@,
        image is Some ==> ({
            let im = image.unwrap();
            &&& r is Ok
            &&& r.unwrap().pid == im.pid
            &&& r.unwrap().parent == Some(old(parent).pid)
            &&& r.unwrap().children@.len() == 0
            &&& r.unwrap().status == TaskStatus::Ready
            &&& r.unwrap().exit_code == 0
            &&& r.unwrap().entry_point == im.entry_point
            &&& r.unwrap().user_sp == im.user_sp
            &&& r.unwrap().base_size == old(parent).base_size
            &&& r.unwrap().heap_bottom == old(parent).heap_bottom
            &&& r.unwrap().program_brk == old(parent).program_brk
            &&& final(parent).children@ == old(parent).children@.push(im.pid)
            &&& final(parent).pid == old(parent).pid
            &&& final(parent).status == old(parent).status
            &&& final(children)@ == old(children)@.push(ChildInfo { pid: im.pid, zombie: false, exit_code: 0 })
        }),
{
    if path_is_null {
        return Err(-1);
    }
    match image {
        Some(im) => {
            let child = spawned_task(parent, im.pid, im.entry_point, im.user_sp);
            children.push(ChildInfo { pid: im.pid, zombie: false, exit_code: 0 });
            Ok(child)
        },
        None => Err(-1),
    }
}

} // verus!
