//! Properties that span several system calls.
use vstd::prelude::*;
use crate::fs::{FileHandle, file_at};
use crate::process::{ChildInfo, pid_matches, has_match, mmap_valid, munmap_valid, munmap_end};
use crate::slots::{is_first_free, with_slot};
use crate::sync::{SyncView, has_row, row_index};
use crate::waits::{has_waiter, is_first_waiter, first_waiter};
use crate::banker::{all_rows, covers, can_finish, lemma_released_nonneg, in_rows, dominates, work_after, runs_in_order, lemma_runs_monotone, tids_distinct, is_schedule, is_safe_state, permuted, inverse, lemma_inverse, lemma_safe_permuted};

verus! {

/// Two ids handed out one after the other by the lowest-free rule differ: the
/// second creation never reuses the first one's id.
pub proof fn lemma_ids_not_reused<T>(s: Seq<Option<T>>, a: int, x: T, b: int)
    requires
        is_first_free(s, a),
        is_first_free(with_slot(s, a, x), b),
    ensures
        a < b,
{
    let t = with_slot(s, a, x);
    if b <= a {
        if b < a {
            assert(s[b] is Some);
            assert(t[b] == s[b]);
        } else {
            assert(t[a] is Some);
        }
    }
}

/// Closing a descriptor while every lower one is open makes it the one the
/// next open takes.
pub proof fn lemma_close_then_open_reuses(table: Seq<Option<FileHandle>>, fd: int)
    requires
        0 <= fd < table.len(),
        table[fd] is Some,
        forall|i: int| 0 <= i < fd ==> #[trigger] table[i] is Some,
    ensures
        is_first_free(table.update(fd, None), fd),
{
}

/// After a descriptor is closed, reads and writes on it find no file.
pub proof fn lemma_closed_fd_has_no_file(table: Seq<Option<FileHandle>>, fd: usize)
    requires
        fd < table.len(),
    ensures
        file_at(table.update(fd as int, None), fd) is None,
{
}

/// When the children's pids are distinct, the child that a wait for a given
/// pid reaped is gone: a second wait for that pid finds no child.
pub proof fn lemma_reaped_child_gone(children: Seq<ChildInfo>, pid: isize, i: int)
    requires
        pid != -1,
        0 <= i < children.len(),
        pid_matches(pid, children[i]),
        forall|a: int, b: int| 0 <= a < b < children.len() ==> children[a].pid != children[b].pid,
    ensures
        !has_match(children.remove(i), pid),
{
    let rest = children.remove(i);
    children.remove_ensures(i);
    if has_match(rest, pid) {
        let a = choose|a: int| 0 <= a < rest.len() && pid_matches(pid, #[trigger] rest[a]);
        if a < i {
            assert(rest[a] == children[a]);
        } else {
            assert(rest[a] == children[a + 1]);
        }
    }
}

/// Raising semaphore `s` right after a request by the same thread took one
/// of its free units, with no thread waiting for it, restores the free
/// counters and what every thread holds.
pub proof fn lemma_grant_then_release(v: SyncView, tid: usize, s: int)
    requires
        v.wf(),
        has_row(v.allocation, tid),
        0 <= s < v.available.len(),
        v.available[s] > 0,
        v.allocation[row_index(v.allocation, tid)].1[s] < usize::MAX,
        !has_waiter(v.sem_waits, s as usize),
    ensures
        v.down_step(tid, s).up_step(tid, s).available == v.available,
        v.down_step(tid, s).up_step(tid, s).allocation == v.allocation,
{
    let r = row_index(v.allocation, tid);
    let g = v.granted(tid, s);
    assert(v.allocation[r].0 == tid);
    assert(row_index(g.allocation, tid) == r) by {
        let c = row_index(g.allocation, tid);
        assert(g.allocation[r].0 == tid);
        assert(g.allocation[c].0 == tid);
        assert(g.allocation[c].0 == v.allocation[c].0);
        assert(tids_distinct(v.allocation));
    }
    let back = g.released_one(tid, s);
    assert(back.available =~= v.available);
    assert(back.allocation[r].1 =~= v.allocation[r].1);
    assert(back.allocation =~= v.allocation);
}

/// With deadlock detection on, a request by a thread with rows for a guarded
/// semaphore goes on exactly when the books after it pass the banker's test:
/// after taking a free unit (one fewer free, one more held by the thread) or,
/// with none free, after asking for one (one more needed). Nothing else, such
/// as what the thread already holds, can get a request refused.
pub proof fn lemma_down_refused_only_when_unsafe(v: SyncView, tid: usize, s: usize, r: int)
    requires
        v.wf(),
        v.deadlock_detect,
        0 < s < v.available.len(),
        0 <= r < v.allocation.len(),
        v.allocation[r].0 == tid,
    ensures
        v.down_proceeds(tid, s) <==> (if v.available[s as int] > 0 {
            is_safe_state(
                v.available.update(s as int, (v.available[s as int] - 1) as usize),
                v.allocation.update(
                    r,
                    (tid, v.allocation[r].1.update(s as int, (v.allocation[r].1[s as int] + 1) as usize)),
                ),
                v.need,
            )
        } else {
            is_safe_state(
                v.available,
                v.allocation,
                v.need.update(r, (tid, v.need[r].1.update(s as int, (v.need[r].1[s as int] + 1) as usize))),
            )
        }),
{
    assert(has_row(v.allocation, tid));
    assert(v.registered(tid) == v);
    let c = row_index(v.allocation, tid);
    assert(c == r) by {
        assert(v.allocation[c].0 == tid);
        if c < r {
            assert(v.allocation[c].0 != v.allocation[r].0);
        } else if c > r {
            assert(v.allocation[r].0 != v.allocation[c].0);
        }
    }
    assert(v.need[r].0 == tid);
    let t = v.down_step(tid, s as int);
    if v.available[s as int] > 0 {
        assert(t.available == v.available.update(s as int, (v.available[s as int] - 1) as usize));
    } else {
        assert(t.available == v.available);
        assert(t.allocation == v.allocation);
    }
}

/// Rows that need nothing can all finish, in the order they are listed.
proof fn lemma_nothing_needed_runs(
    avail: Seq<usize>,
    alloc: Seq<(usize, Seq<usize>)>,
    need: Seq<(usize, Seq<usize>)>,
    k: nat,
)
    requires
        k <= alloc.len(),
        alloc.len() == need.len(),
        forall|i: int| 0 <= i < need.len() ==> #[trigger] need[i].0 == alloc[i].0,
        forall|q: int, j: int| 0 <= q < need.len() && 0 <= j < need[q].1.len() ==> need[q].1[j] == 0,
    ensures
        runs_in_order(avail, alloc, need, all_rows(k)),
    decreases k,
{
    if k > 0 {
        let o = all_rows(k);
        assert(o.drop_last() == all_rows((k - 1) as nat));
        lemma_nothing_needed_runs(avail, alloc, need, (k - 1) as nat);
        let w = work_after(avail, alloc, o.drop_last());
        let q = k - 1;
        assert(o.last() == q);
        assert forall|j: int| 0 <= j < need[q].1.len() && j < w.len() implies need[q].1[j] <= w[j] by {
            lemma_released_nonneg(alloc, o.drop_last(), j);
        }
        assert(covers(need[q].1, w));
        assert(need[q].0 == alloc[o.last()].0);
        assert(can_finish(need, alloc[o.last()].0, w));
    }
}

/// With deadlock detection on or off, while no thread needs anything, a
/// request for a semaphore that has a free unit goes on, whatever the
/// requesting thread already holds of it.
pub proof fn lemma_down_granted_when_nothing_needed(v: SyncView, tid: usize, s: usize)
    requires
        v.wf(),
        0 < s < v.available.len(),
        v.available[s as int] > 0,
        forall|q: int, j: int| 0 <= q < v.need.len() && 0 <= j < v.need[q].1.len() ==> v.need[q].1[j] == 0,
    ensures
        v.down_proceeds(tid, s),
{
    let g = v.registered(tid);
    let t = g.down_step(tid, s as int);
    let r = row_index(g.allocation, tid);
    assert(has_row(g.allocation, tid)) by {
        if !has_row(v.allocation, tid) {
            assert(g.allocation[v.allocation.len() as int].0 == tid);
        }
    }
    assert(g.allocation[r].0 == tid);
    assert(t.need == g.need);
    assert forall|q: int, j: int| 0 <= q < g.need.len() && 0 <= j < g.need[q].1.len() implies g.need[q].1[j] == 0 by {
        if q < v.need.len() {
            assert(g.need[q] == v.need[q]);
        }
    }
    assert forall|i: int| 0 <= i < g.need.len() implies #[trigger] g.need[i].0 == g.allocation[i].0 by {
        if i < v.need.len() {
            assert(g.need[i] == v.need[i]);
            assert(g.allocation[i] == v.allocation[i]);
        }
    }
    assert forall|i: int| 0 <= i < t.allocation.len() implies #[trigger] t.allocation[i].0 == g.allocation[i].0 by {}
    assert forall|a: int, b: int| 0 <= a < b < g.allocation.len() implies g.allocation[a].0 != g.allocation[b].0 by {
        if b == v.allocation.len() {
            assert(!has_row(v.allocation, tid));
            assert(v.allocation[a].0 != tid);
        } else {
            assert(v.allocation[a].0 != v.allocation[b].0);
        }
    }
    assert(tids_distinct(t.allocation)) by {
        assert forall|a: int, b: int| 0 <= a < b < t.allocation.len() implies t.allocation[a].0 != t.allocation[b].0 by {
            assert(t.allocation[a].0 == g.allocation[a].0);
            assert(t.allocation[b].0 == g.allocation[b].0);
        }
    }
    let n = t.allocation.len();
    lemma_nothing_needed_runs(t.available, t.allocation, t.need, n);
    let o = all_rows(n);
    assert(is_schedule(o, n)) by {
        assert forall|i: int| 0 <= i < n implies #[trigger] o.contains(i) by {
            assert(o[i] == i);
        }
    }
    assert(t.is_safe());
}

/// A wait for `r` has an earliest one.
proof fn lemma_earliest_wait_exists(waits: Seq<(usize, usize)>, r: usize, k: int)
    requires
        0 <= k < waits.len(),
        waits[k].1 == r,
    ensures
        is_first_waiter(waits, r, first_waiter(waits, r)),
    decreases k,
{
    if forall|a: int| 0 <= a < k ==> #[trigger] waits[a].1 != r {
        assert(is_first_waiter(waits, r, k));
    } else {
        let a = choose|a: int| 0 <= a < k && #[trigger] waits[a].1 == r;
        lemma_earliest_wait_exists(waits, r, a);
    }
}

/// The row of a thread that has one is the only row of that thread.
proof fn lemma_row_unique(rs: Seq<(usize, Seq<usize>)>, t: usize, q: int)
    requires
        tids_distinct(rs),
        has_row(rs, t),
        0 <= q < rs.len(),
    ensures
        0 <= row_index(rs, t) < rs.len(),
        rs[row_index(rs, t)].0 == t,
        (rs[q].0 == t) == (q == row_index(rs, t)),
{
    let c = row_index(rs, t);
    if rs[q].0 == t && q != c {
        if q < c {
            assert(rs[q].0 != rs[c].0);
        } else {
            assert(rs[c].0 != rs[q].0);
        }
    }
}

/// Raising semaphore `s` while some thread waits for it leaves the free count
/// as it was and hands the unit to the earliest wait for `s`, whatever the
/// raising thread holds of `s`: that wait is taken off the waits, its thread
/// holds one more unit of `s` and needs one fewer (never below zero), the
/// raising thread holds one fewer (never below zero), and every other
/// counter, row, wait and table stays as it was.
pub proof fn lemma_up_hands_to_earliest_waiter(v: SyncView, tid: usize, s: usize)
    requires
        v.wf(),
        0 < s < v.available.len(),
        has_row(v.allocation, tid),
        exists|k: int| 0 <= k < v.sem_waits.len() && v.sem_waits[k].1 == s,
        forall|q: int| 0 <= q < v.allocation.len() ==> #[trigger] v.allocation[q].1[s as int] < usize::MAX,
    ensures
        ({
            let u = v.up_step(tid, s as int);
            &&& u.available == v.available
            &&& u.mutexes == v.mutexes && u.holders == v.holders && u.waits == v.waits
            &&& u.semaphores == v.semaphores && u.condvars == v.condvars
            &&& u.deadlock_detect == v.deadlock_detect
            &&& u.allocation.len() == v.allocation.len()
            &&& u.need.len() == v.need.len()
            &&& exists|i: int|
                #![trigger v.sem_waits.remove(i)]
                0 <= i < v.sem_waits.len() && v.sem_waits[i].1 == s && (forall|a: int|
                    0 <= a < i ==> #[trigger] v.sem_waits[a].1 != s) && u.sem_waits == v.sem_waits.remove(i)
                    && forall|q: int, j: int|
                    0 <= q < v.allocation.len() && 0 <= j < v.available.len() ==> {
                        &&& u.allocation[q].0 == v.allocation[q].0
                        &&& u.need[q].0 == v.need[q].0
                        &&& u.allocation[q].1.len() == v.available.len()
                        &&& u.need[q].1.len() == v.available.len()
                        &&& #[trigger] u.allocation[q].1[j] == v.allocation[q].1[j]
                            + (if j == s && v.allocation[q].0 == v.sem_waits[i].0 { 1int } else { 0int })
                            - (if j == s && v.allocation[q].0 == tid && v.allocation[q].1[j] > 0 { 1int } else { 0int })
                        &&& u.need[q].1[j] == v.need[q].1[j]
                            - (if j == s && v.need[q].0 == v.sem_waits[i].0 && v.need[q].1[j] > 0 { 1int } else { 0int })
                    }
        }),
{
    let k0 = choose|k: int| 0 <= k < v.sem_waits.len() && v.sem_waits[k].1 == s;
    lemma_earliest_wait_exists(v.sem_waits, s, k0);
    assert(has_waiter(v.sem_waits, s));
    let u = v.up_step(tid, s as int);
    let v1 = v.released_alloc(tid, s as int);
    assert(u == v1.handed_over(s as int));
    let i = first_waiter(v.sem_waits, s);
    assert(v1.sem_waits == v.sem_waits);
    let w = v.sem_waits[i].0;
    assert(has_row(v.allocation, w));
    let rt = row_index(v.allocation, tid);
    lemma_row_unique(v.allocation, tid, 0);
    assert forall|q: int| 0 <= q < v.allocation.len() implies #[trigger] v1.allocation[q].0 == v.allocation[q].0 by {}
    assert(tids_distinct(v1.allocation)) by {
        assert forall|a: int, b: int| 0 <= a < b < v1.allocation.len() implies v1.allocation[a].0 != v1.allocation[b].0 by {
            assert(v1.allocation[a].0 == v.allocation[a].0);
            assert(v1.allocation[b].0 == v.allocation[b].0);
        }
    }
    let q0 = row_index(v.allocation, w);
    lemma_row_unique(v.allocation, w, 0);
    assert(v1.allocation[q0].0 == w);
    assert(has_row(v1.allocation, w));
    let rw = row_index(v1.allocation, w);
    lemma_row_unique(v1.allocation, w, 0);
    assert forall|q: int, j: int| 0 <= q < v.allocation.len() && 0 <= j < v.available.len() implies {
        &&& u.allocation[q].0 == v.allocation[q].0
        &&& u.need[q].0 == v.need[q].0
        &&& u.allocation[q].1.len() == v.available.len()
        &&& u.need[q].1.len() == v.available.len()
        &&& #[trigger] u.allocation[q].1[j] == v.allocation[q].1[j]
            + (if j == s && v.allocation[q].0 == w { 1int } else { 0int })
            - (if j == s && v.allocation[q].0 == tid && v.allocation[q].1[j] > 0 { 1int } else { 0int })
        &&& u.need[q].1[j] == v.need[q].1[j]
            - (if j == s && v.need[q].0 == w && v.need[q].1[j] > 0 { 1int } else { 0int })
    } by {
        lemma_row_unique(v.allocation, tid, q);
        lemma_row_unique(v1.allocation, w, q);
        assert(v1.allocation[q].0 == v.allocation[q].0);
        assert(v.need[q].0 == v.allocation[q].0);
        assert(v.allocation[q].1.len() == v.available.len());
        assert(v.need[q].1.len() == v.available.len());
    }
    assert(u.sem_waits == v.sem_waits.remove(i));
}

/// A mapping request that `sys_mmap` lets through is reachable from user mode
/// and grants at least one of read, write and execute.
pub proof fn lemma_mmap_perm_user(port: usize)
    requires
        1 <= port <= 7,
    ensures
        ((port * 2 + 16) as u8) & 16u8 == 16u8,
        ((port * 2 + 16) as u8) & 14u8 != 0u8,
{
    let p = (port * 2 + 16) as u8;
    assert(18 <= p <= 30 && p % 2 == 0);
    assert(forall|q: u8| 18 <= q <= 30 && q % 2 == 0 ==> (q & 16u8) == 16u8 && (q & 14u8) != 0u8)
        by (bit_vector);
}

/// The banker's verdict does not depend on the order of the rows: listing
/// the allocation rows in the order `pa` and the need rows in the order `pn`
/// (each an ordering of all positions) gives the same verdict.
pub proof fn lemma_safety_ignores_row_order(
    avail: Seq<usize>,
    alloc: Seq<(usize, Seq<usize>)>,
    need: Seq<(usize, Seq<usize>)>,
    pa: Seq<int>,
    pn: Seq<int>,
)
    requires
        is_schedule(pa, alloc.len()),
        pa.len() == alloc.len(),
        is_schedule(pn, need.len()),
        pn.len() == need.len(),
    ensures
        is_safe_state(avail, permuted(alloc, pa), permuted(need, pn)) == is_safe_state(avail, alloc, need),
{
    if is_safe_state(avail, alloc, need) {
        lemma_safe_permuted(avail, alloc, need, pa, pn);
    }
    let alloc2 = permuted(alloc, pa);
    let need2 = permuted(need, pn);
    if is_safe_state(avail, alloc2, need2) {
        lemma_inverse(alloc, pa);
        lemma_inverse(need, pn);
        lemma_safe_permuted(avail, alloc2, need2, inverse(pa), inverse(pn));
        assert(permuted(alloc2, inverse(pa)) == alloc);
        assert(permuted(need2, inverse(pn)) == need);
    }
}

/// More free units never make a safe state unsafe.
pub proof fn lemma_more_free_keeps_safe(
    avail: Seq<usize>,
    avail2: Seq<usize>,
    alloc: Seq<(usize, Seq<usize>)>,
    need: Seq<(usize, Seq<usize>)>,
)
    requires
        avail2.len() == avail.len(),
        forall|j: int| 0 <= j < avail.len() ==> avail[j] <= #[trigger] avail2[j],
        is_safe_state(avail, alloc, need),
    ensures
        is_safe_state(avail2, alloc, need),
{
    let n = alloc.len();
    let o = choose|o: Seq<int>| is_schedule(o, n) && #[trigger] runs_in_order(avail, alloc, need, o);
    assert forall|q: Seq<int>| q.no_duplicates() && in_rows(q, n) implies dominates(
        #[trigger] work_after(avail2, alloc, q),
        work_after(avail, alloc, q),
    ) by {
        assert forall|j: int| 0 <= j < avail.len() implies work_after(avail, alloc, q)[j]
            <= #[trigger] work_after(avail2, alloc, q)[j] by {
            assert(avail[j] <= avail2[j]);
        }
    }
    lemma_runs_monotone(avail, alloc, avail2, alloc, need, o);
}

/// Opening a file and closing the descriptor it got leaves the descriptors
/// that were there as they were, and any slot the open added free.
pub proof fn lemma_open_then_close(table: Seq<Option<FileHandle>>, fd: int, f: FileHandle)
    requires
        is_first_free(table, fd),
    ensures
        ({
            let after = with_slot(table, fd, f).update(fd, None);
            &&& forall|i: int| 0 <= i < table.len() ==> #[trigger] after[i] == table[i]
            &&& forall|i: int| table.len() <= i < after.len() ==> #[trigger] after[i] is None
        }),
{
}

/// Unmapping with the arguments of a mapping that `sys_mmap` let through is
/// accepted and hands on exactly the range the mapping was given.
pub proof fn lemma_unmap_matches_map(start: usize, len: usize, port: usize)
    requires
        mmap_valid(start, port),
        start + len <= usize::MAX,
    ensures
        munmap_valid(start),
        munmap_end(start, len) == start + len,
{
}

} // verus!
