//! Synchronization system calls: the per-process tables of mutexes, semaphores
//! and condition variables, who holds and who waits for each mutex, and the
//! banker's bookkeeping; with deadlock detection on, lock requests that would
//! close a cycle of waits and semaphore requests that would leave the books
//! unsafe are refused.
//!
//! Each call here decides; blocking, waking and locking are the scheduler's.
//! Where a call answers `0`, the caller goes on to do that work on the object
//! with the given id: lock or unlock the mutex, raise or lower the semaphore,
//! signal or wait on the condition variable.
use vstd::prelude::*;
use crate::banker::{totals_fit, at, all_rows, released, lemma_released_same_rows, banker_totals_fit, short_rows_stuck, lemma_released_nonneg, padded, in_rows, is_schedule, runs_in_order, can_finish, covers, work_after, dominates, lemma_runs_extend, lemma_runs_pad, lemma_runs_monotone, lemma_released_change_row, rows, tids_distinct, is_safe_state, check_sem_safe_state, find_row, banker_fits};
use crate::slots::{alloc_slot, is_first_free, with_slot, lemma_first_free_unique};
use crate::waits::{has_waiter, first_waiter, find_first_waiter, lemma_remove_distinct, waiters_distinct, is_waiting, wait_index, closes_cycle, find_wait, would_deadlock};

verus! {

/// The answer to a request that would lead to deadlock.
pub const DEADLOCK: isize = -0xdead;

/// The two mutex implementations a process can ask for.
#[derive(Clone, Copy, Debug, PartialEq, Eq, Structural)]
pub enum MutexKind {
    /// Busy-waits, yielding, until the lock is free.
    Spin,
    /// Blocks the waiting thread until the lock is free.
    Blocking,
}

/// A condition variable in the process's table.
#[derive(Clone, Copy, Debug, PartialEq, Eq, Structural)]
pub struct Condvar {}

/// The tables and books of one process, without their invariant.
struct Books {
    mutex_list: Vec<Option<MutexKind>>,
    mutex_holder: Vec<Option<usize>>,
    mutex_waits: Vec<(usize, usize)>,
    semaphore_list: Vec<Option<usize>>,
    condvar_list: Vec<Option<Condvar>>,
    deadlock_detect: bool,
    sem_available: Vec<usize>,
    sem_allocation: Vec<(usize, Vec<usize>)>,
    sem_need: Vec<(usize, Vec<usize>)>,
    sem_waits: Vec<(usize, usize)>,
}

/// The synchronization state of one process. Its books are always consistent
/// (`SyncView::wf`).
pub struct ProcessSync {
    books: Books,
}

/// What the contracts see of a process's synchronization state.
#[verifier::ext_equal]
pub struct SyncView {
    /// The mutex table; `None` marks a free id.
    pub mutexes: Seq<Option<MutexKind>>,
    /// The semaphore table, each semaphore by the count it was created with.
    pub semaphores: Seq<Option<usize>>,
    /// The condition-variable table.
    pub condvars: Seq<Option<Condvar>>,
    /// The holder of each mutex, by thread id.
    pub holders: Seq<Option<usize>>,
    /// The blocked lock requests: a thread and the mutex it waits for.
    pub waits: Seq<(usize, usize)>,
    /// Whether deadlock detection is on.
    pub deadlock_detect: bool,
    /// Free units of each semaphore.
    pub available: Seq<usize>,
    /// Units of each semaphore that each thread holds.
    pub allocation: Seq<(usize, Seq<usize>)>,
    /// Units of each semaphore that each thread asked for and waits to get.
    pub need: Seq<(usize, Seq<usize>)>,
    /// The blocked semaphore requests in the order they came: a thread and
    /// the semaphore it waits for.
    pub sem_waits: Seq<(usize, usize)>,
}

impl View for Books {
    type V = SyncView;

    closed spec fn view(&self) -> SyncView {
        SyncView {
            mutexes: self.mutex_list@,
            holders: self.mutex_holder@,
            waits: self.mutex_waits@,
            semaphores: self.semaphore_list@,
            condvars: self.condvar_list@,
            deadlock_detect: self.deadlock_detect,
            available: self.sem_available@,
            allocation: rows(self.sem_allocation@),
            need: rows(self.sem_need@),
            sem_waits: self.sem_waits@,
        }
    }
}

impl View for ProcessSync {
    type V = SyncView;

    closed spec fn view(&self) -> SyncView {
        self.books@
    }
}

impl ProcessSync {
    #[verifier::type_invariant]
    spec fn books_consistent(self) -> bool {
        self.books@.wf()
    }
}

/// `n` counters at zero.
pub open spec fn zeros(n: nat) -> Seq<usize> {
    Seq::new(n, |j: int| 0usize)
}

/// Thread `tid` has an allocation row.
pub open spec fn has_row(rs: Seq<(usize, Seq<usize>)>, tid: usize) -> bool {
    exists|i: int| 0 <= i < rs.len() && rs[i].0 == tid
}

/// The position of thread `tid`'s row.
pub open spec fn row_index(rs: Seq<(usize, Seq<usize>)>, tid: usize) -> int {
    choose|i: int| 0 <= i < rs.len() && rs[i].0 == tid
}

/// `x` less one, stopping at zero.
pub open spec fn dec_sat(x: usize) -> usize {
    if x > 0 {
        (x - 1) as usize
    } else {
        0
    }
}

impl SyncView {
    /// The bookkeeping is consistent: the need rows name the threads of the
    /// allocation rows in the same order, each thread once; every row has a
    /// counter for each semaphore; every semaphore id is in use and has its
    /// counter; every mutex has a holder slot; no thread waits twice for a
    /// mutex or twice for a semaphore; a thread waiting for a semaphore has
    /// rows.
    pub open spec fn wf(self) -> bool {
        &&& self.allocation.len() == self.need.len()
        &&& forall|i: int| 0 <= i < self.need.len() ==> #[trigger] self.need[i].0 == self.allocation[i].0
        &&& tids_distinct(self.allocation)
        &&& forall|i: int| 0 <= i < self.allocation.len() ==> #[trigger] self.allocation[i].1.len() == self.available.len()
        &&& forall|i: int| 0 <= i < self.need.len() ==> #[trigger] self.need[i].1.len() == self.available.len()
        &&& self.semaphores.len() == self.available.len()
        &&& forall|i: int| 0 <= i < self.semaphores.len() ==> #[trigger] self.semaphores[i] is Some
        &&& self.holders.len() == self.mutexes.len()
        &&& waiters_distinct(self.waits)
        &&& waiters_distinct(self.sem_waits)
        &&& forall|i: int| 0 <= i < self.sem_waits.len() ==> has_row(self.allocation, #[trigger] self.sem_waits[i].0)
    }

    /// The state once thread `tid` has rows, fresh ones at zero if it had none.
    pub open spec fn registered(self, tid: usize) -> SyncView {
        if has_row(self.allocation, tid) {
            self
        } else {
            SyncView {
                allocation: self.allocation.push((tid, zeros(self.available.len()))),
                need: self.need.push((tid, zeros(self.available.len()))),
                ..self
            }
        }
    }

    /// The state with one free unit of semaphore `s` granted to thread `tid`:
    /// one fewer free, one more held.
    pub open spec fn granted(self, tid: usize, s: int) -> SyncView {
        let r = row_index(self.allocation, tid);
        let a = self.allocation[r].1;
        SyncView {
            available: self.available.update(s, dec_sat(self.available[s])),
            allocation: self.allocation.update(r, (tid, a.update(s, (a[s] + 1) as usize))),
            ..self
        }
    }

    /// The state with thread `tid` waiting for a unit of semaphore `s`, which
    /// has none free: one more needed, and `tid` joins the end of the waits.
    pub open spec fn requested(self, tid: usize, s: int) -> SyncView {
        let r = row_index(self.allocation, tid);
        let n = self.need[r].1;
        SyncView {
            need: self.need.update(r, (tid, n.update(s, (n[s] + 1) as usize))),
            sem_waits: without_wait(self.sem_waits, tid).push((tid, s as usize)),
            ..self
        }
    }

    /// What a request by `tid` for semaphore `s` does to the books: takes a
    /// free unit, or waits for one.
    pub open spec fn down_step(self, tid: usize, s: int) -> SyncView {
        if self.available[s] > 0 {
            self.granted(tid, s)
        } else {
            self.requested(tid, s)
        }
    }

    /// The counter that a request by `tid` for semaphore `s` raises: what it
    /// holds when a unit is free, what it needs otherwise.
    pub open spec fn down_counter(self, tid: usize, s: int) -> usize {
        let r = row_index(self.allocation, tid);
        if self.available[s] > 0 {
            self.allocation[r].1[s]
        } else {
            self.need[r].1[s]
        }
    }

    /// What `tid` holds of semaphore `s` stops counting one unit (never below
    /// zero).
    pub open spec fn released_alloc(self, tid: usize, s: int) -> SyncView {
        let r = row_index(self.allocation, tid);
        let a = self.allocation[r].1;
        SyncView { allocation: self.allocation.update(r, (tid, a.update(s, dec_sat(a[s])))), ..self }
    }

    /// The earliest thread waiting for semaphore `s` gets a unit: it holds one
    /// more, needs one fewer (never below zero), and stops waiting.
    pub open spec fn handed_over(self, s: int) -> SyncView {
        let i = first_waiter(self.sem_waits, s as usize);
        let w = self.sem_waits[i].0;
        let r = row_index(self.allocation, w);
        let a = self.allocation[r].1;
        let n = self.need[r].1;
        SyncView {
            allocation: self.allocation.update(r, (w, a.update(s, (a[s] + 1) as usize))),
            need: self.need.update(r, (w, n.update(s, dec_sat(n[s])))),
            sem_waits: self.sem_waits.remove(i),
            ..self
        }
    }

    /// The counter of the earliest waiter for `s` that a hand-over raises.
    pub open spec fn handover_counter(self, s: int) -> usize {
        let w = self.sem_waits[first_waiter(self.sem_waits, s as usize)].0;
        self.allocation[row_index(self.allocation, w)].1[s]
    }

    /// What raising semaphore `s` by `tid` does to the books: the unit comes
    /// off what `tid` holds, and goes to the earliest waiter if one waits, or
    /// back to the free units otherwise.
    pub open spec fn up_step(self, tid: usize, s: int) -> SyncView {
        if has_waiter(self.sem_waits, s as usize) {
            self.released_alloc(tid, s).handed_over(s)
        } else {
            self.released_one(tid, s)
        }
    }

    /// The state with one unit of semaphore `s` given back by thread `tid`:
    /// one more free, one fewer held unless it held none.
    pub open spec fn released_one(self, tid: usize, s: int) -> SyncView {
        let r = row_index(self.allocation, tid);
        let a = self.allocation[r].1;
        SyncView {
            available: self.available.update(s, (self.available[s] + 1) as usize),
            allocation: self.allocation.update(r, (tid, a.update(s, dec_sat(a[s])))),
            ..self
        }
    }

    /// The banker's safety condition on this state.
    pub open spec fn is_safe(self) -> bool {
        is_safe_state(self.available, self.allocation, self.need)
    }

    /// What `sys_semaphore_up` needs to run without a fault: the id names a
    /// semaphore; for a guarded id the thread has rows, and the counter that
    /// takes the unit is below `usize::MAX`.
    pub open spec fn up_allowed(self, tid: usize, sem_id: usize) -> bool {
        &&& sem_id < self.semaphores.len()
        &&& sem_id != 0 ==> has_row(self.allocation, tid)
        &&& sem_id != 0 && !has_waiter(self.sem_waits, sem_id) ==> self.available[sem_id as int] < usize::MAX
        &&& sem_id != 0 && has_waiter(self.sem_waits, sem_id) ==> self.released_alloc(tid, sem_id as int).handover_counter(sem_id as int) < usize::MAX
    }

    /// What `sys_semaphore_down` needs to run without a fault: a guarded id
    /// names a semaphore, the counter it raises is below `usize::MAX`, the
    /// banker's sums fit when detection is on, and a request that goes on
    /// names a semaphore.
    pub open spec fn down_allowed(self, tid: usize, sem_id: usize) -> bool {
        &&& sem_id != 0 ==> sem_id < self.available.len()
        &&& sem_id != 0 ==> self.registered(tid).down_counter(tid, sem_id as int) < usize::MAX
        &&& sem_id != 0 && self.deadlock_detect ==> ({
            let t = self.registered(tid).down_step(tid, sem_id as int);
            banker_totals_fit(t.available, t.allocation)
        })
        &&& self.down_proceeds(tid, sem_id) ==> sem_id < self.semaphores.len()
    }

    /// A request for semaphore `sem_id` by thread `tid` goes on to lower the
    /// semaphore: always with deadlock detection off; with it on, for id zero,
    /// which is not guarded, and for other ids when the books after the
    /// request are safe.
    pub open spec fn down_proceeds(self, tid: usize, sem_id: usize) -> bool {
        sem_id == 0 || !self.deadlock_detect || self.registered(tid).down_step(tid, sem_id as int).is_safe()
    }
}

/// Registering a thread keeps a safe state safe: the new thread holds and
/// needs nothing, so it can finish last.
pub proof fn lemma_register_keeps_safe(v: SyncView, tid: usize)
    requires
        v.wf(),
        v.is_safe(),
    ensures
        v.registered(tid).is_safe(),
{
    if !has_row(v.allocation, tid) {
        let reg = v.registered(tid);
        let n = v.allocation.len();
        let o = choose|o: Seq<int>|
            is_schedule(o, n) && #[trigger] runs_in_order(v.available, v.allocation, v.need, o);
        assert(in_rows(o, n));
        lemma_runs_extend(v.available, v.allocation, v.need, reg.allocation, reg.need, o);
        let o2 = o.push(n as int);
        assert(o2.drop_last() =~= o);
        assert(covers(reg.need[n as int].1, work_after(v.available, reg.allocation, o))) by {
            assert forall|j: int| 0 <= j < reg.need[n as int].1.len() implies reg.need[n as int].1[j] == 0 by {}
            assert forall|j: int| 0 <= j < v.available.len() implies #[trigger] work_after(v.available, reg.allocation, o)[j] >= 0 by {
                lemma_released_nonneg(reg.allocation, o, j);
            }
        }
        assert(can_finish(reg.need, reg.allocation[o2.last()].0, work_after(v.available, reg.allocation, o)));
        assert(runs_in_order(reg.available, reg.allocation, reg.need, o2));
        assert(is_schedule(o2, reg.allocation.len())) by {
            assert forall|a: int, b: int| 0 <= a < o2.len() && 0 <= b < o2.len() && a != b implies o2[a] != o2[b] by {
                if a < o.len() && b < o.len() {
                    assert(o2[a] == o[a] && o2[b] == o[b]);
                } else if a < o.len() {
                    assert(o2[a] == o[a]);
                } else if b < o.len() {
                    assert(o2[b] == o[b]);
                }
            }
            assert forall|i: int| 0 <= i < reg.allocation.len() implies #[trigger] o2.contains(i) by {
                if i < n {
                    assert(o.contains(i));
                    let q = choose|q: int| 0 <= q < o.len() && o[q] == i;
                    assert(o2[q] == i);
                } else {
                    assert(o2[o.len() as int] == i);
                }
            }
        }
        assert(tids_distinct(reg.allocation)) by {
            assert forall|a: int, b: int| 0 <= a < b < reg.allocation.len() implies reg.allocation[a].0 != reg.allocation[b].0 by {
                if b == n {
                    assert(reg.allocation[a] == v.allocation[a]);
                }
            }
        }
    }
}

/// Creating a semaphore keeps a safe state safe: its units are all free and
/// nobody holds or needs any.
pub proof fn lemma_create_keeps_safe(v: SyncView, c: usize)
    requires
        v.wf(),
        v.is_safe(),
    ensures
        is_safe_state(v.available.push(c), padded(v.allocation), padded(v.need)),
{
    let n = v.allocation.len();
    let o = choose|o: Seq<int>|
        is_schedule(o, n) && #[trigger] runs_in_order(v.available, v.allocation, v.need, o);
    assert(in_rows(o, n));
    lemma_runs_pad(v.available, v.allocation, v.need, c, o);
    assert(tids_distinct(padded(v.allocation))) by {
        assert forall|a: int, b: int| 0 <= a < b < n implies padded(v.allocation)[a].0 != padded(v.allocation)[b].0 by {
            assert(v.allocation[a].0 != v.allocation[b].0);
        }
    }
}

/// Giving back a unit keeps a safe state safe: after any set of finished
/// threads at least as much is free as before.
pub proof fn lemma_release_keeps_safe(v: SyncView, tid: usize, s: int)
    requires
        v.wf(),
        v.is_safe(),
        has_row(v.allocation, tid),
        0 <= s < v.available.len(),
        v.available[s] < usize::MAX,
    ensures
        v.released_one(tid, s).is_safe(),
{
    let r = row_index(v.allocation, tid);
    let a = v.allocation[r].1;
    let c = a.update(s, dec_sat(a[s]));
    let u = v.released_one(tid, s);
    let n = v.allocation.len();
    assert(v.allocation[r].0 == tid);
    assert(u.allocation == v.allocation.update(r, (v.allocation[r].0, c)));
    assert forall|q: Seq<int>| q.no_duplicates() && in_rows(q, n) implies dominates(
        #[trigger] work_after(u.available, u.allocation, q),
        work_after(v.available, v.allocation, q),
    ) by {
        assert forall|j: int| 0 <= j < v.available.len() implies work_after(v.available, v.allocation, q)[j]
            <= #[trigger] work_after(u.available, u.allocation, q)[j] by {
            lemma_released_change_row(v.allocation, r, c, q, j);
            assert(a.len() == v.available.len());
        }
    }
    let o = choose|o: Seq<int>|
        is_schedule(o, n) && #[trigger] runs_in_order(v.available, v.allocation, v.need, o);
    lemma_runs_monotone(v.available, v.allocation, u.available, u.allocation, v.need, o);
    assert(tids_distinct(u.allocation)) by {
        assert forall|x: int, y: int| 0 <= x < y < n implies u.allocation[x].0 != u.allocation[y].0 by {
            assert(u.allocation[x].0 == v.allocation[x].0);
            assert(u.allocation[y].0 == v.allocation[y].0);
        }
    }
    assert(runs_in_order(u.available, u.allocation, u.need, o));
}

/// A fresh row of `n` zero counters.
fn zero_counts(n: usize) -> (r: Vec<usize>)
    ensures
        r@ == zeros(n as nat),
{
    let mut v: Vec<usize> = Vec::new();
    let mut i: usize = 0;
    while i < n
        invariant
            i <= n,
            v@ =~= zeros(i as nat),
        decreases n - i,
    {
        v.push(0);
        i = i + 1;
    }
    v
}

/// Sets counter `s` of row `r` to `v`.
fn set_count(rs: &mut Vec<(usize, Vec<usize>)>, r: usize, s: usize, v: usize)
    requires
        r < old(rs).len(),
        s < old(rs)@[r as int].1.len(),
    ensures
        rows(final(rs)@) == rows(old(rs)@).update(
            r as int,
            (old(rs)@[r as int].0, old(rs)@[r as int].1@.update(s as int, v)),
        ),
{
    let mut row: (usize, Vec<usize>) = (0, Vec::new());
    rs.set_and_swap(r, &mut row);
    row.1.set(s, v);
    rs.set(r, row);
    proof {
        assert(rows(rs@) =~= rows(old(rs)@).update(
            r as int,
            (old(rs)@[r as int].0, old(rs)@[r as int].1@.update(s as int, v)),
        ));
    }
}

/// Appends a zero counter to every row.
fn pad_rows(rs: &mut Vec<(usize, Vec<usize>)>)
    ensures
        final(rs)@.len() == old(rs)@.len(),
        forall|i: int|
            0 <= i < old(rs)@.len() ==> #[trigger] rows(final(rs)@)[i] == (
                old(rs)@[i].0,
                old(rs)@[i].1@.push(0usize),
            ),
{
    let mut i: usize = 0;
    while i < rs.len()
        invariant
            i <= rs.len(),
            rs@.len() == old(rs)@.len(),
            forall|a: int|
                0 <= a < i ==> #[trigger] rows(rs@)[a] == (old(rs)@[a].0, old(rs)@[a].1@.push(0usize)),
            forall|a: int| i <= a < rs.len() ==> #[trigger] rs@[a] == old(rs)@[a],
        decreases rs.len() - i,
    {
        let ghost before = rs@;
        let mut row: (usize, Vec<usize>) = (0, Vec::new());
        rs.set_and_swap(i, &mut row);
        row.1.push(0);
        rs.set(i, row);
        proof {
            assert(rows(rs@)[i as int].1 =~= old(rs)@[i as int].1@.push(0usize));
            assert forall|a: int| 0 <= a < i implies #[trigger] rows(rs@)[a] == (old(rs)@[a].0, old(rs)@[a].1@.push(0usize)) by {
                assert(rs@[a] == before[a]);
                assert(rows(before)[a] == rows(rs@)[a]);
            }
        }
        i = i + 1;
    }
}

impl Books {
    /// Empty tables, detection off.
    fn empty() -> (r: Books)
        ensures
            r@.wf(),
            r@.mutexes.len() == 0,
            r@.holders.len() == 0,
            r@.waits.len() == 0,
            r@.semaphores.len() == 0,
            r@.condvars.len() == 0,
            !r@.deadlock_detect,
            r@.available.len() == 0,
            r@.allocation.len() == 0,
            r@.need.len() == 0,
            r@.sem_waits.len() == 0,
            r@.is_safe(),
    {
        let r = Books {
            mutex_list: Vec::new(),
            mutex_holder: Vec::new(),
            mutex_waits: Vec::new(),
            semaphore_list: Vec::new(),
            condvar_list: Vec::new(),
            deadlock_detect: false,
            sem_available: Vec::new(),
            sem_allocation: Vec::new(),
            sem_need: Vec::new(),
            sem_waits: Vec::new(),
        };
        proof {
            let o = Seq::<int>::empty();
            assert(is_schedule(o, 0));
            assert(runs_in_order(r@.available, r@.allocation, r@.need, o));
        }
        r
    }
}

impl ProcessSync {
    /// A process with no mutexes, semaphores or condition variables, and
    /// deadlock detection off.
    pub fn new() -> (r: ProcessSync)
        ensures
            r@.wf(),
            r@.mutexes.len() == 0,
            r@.holders.len() == 0,
            r@.waits.len() == 0,
            r@.semaphores.len() == 0,
            r@.condvars.len() == 0,
            !r@.deadlock_detect,
            r@.available.len() == 0,
            r@.allocation.len() == 0,
            r@.need.len() == 0,
            r@.is_safe(),
    {
        ProcessSync { books: Books::empty() }
    }

    /// The mutex table.
    pub fn mutexes(&self) -> (r: &Vec<Option<MutexKind>>)
        ensures
            r@ == self@.mutexes,
    {
        &self.books.mutex_list
    }

    /// The holder of each mutex.
    pub fn holders(&self) -> (r: &Vec<Option<usize>>)
        ensures
            r@ == self@.holders,
    {
        &self.books.mutex_holder
    }

    /// The blocked lock requests.
    pub fn waits(&self) -> (r: &Vec<(usize, usize)>)
        ensures
            r@ == self@.waits,
    {
        &self.books.mutex_waits
    }

    /// The semaphore table.
    pub fn semaphores(&self) -> (r: &Vec<Option<usize>>)
        ensures
            r@ == self@.semaphores,
    {
        &self.books.semaphore_list
    }

    /// The condition-variable table.
    pub fn condvars(&self) -> (r: &Vec<Option<Condvar>>)
        ensures
            r@ == self@.condvars,
    {
        &self.books.condvar_list
    }

    /// Whether deadlock detection is on.
    pub fn deadlock_detect(&self) -> (r: bool)
        ensures
            r == self@.deadlock_detect,
    {
        self.books.deadlock_detect
    }

    /// The free units of each semaphore.
    pub fn available(&self) -> (r: &Vec<usize>)
        ensures
            r@ == self@.available,
    {
        &self.books.sem_available
    }

    /// The units of each semaphore that each thread holds.
    pub fn allocation(&self) -> (r: &Vec<(usize, Vec<usize>)>)
        ensures
            rows(r@) == self@.allocation,
    {
        &self.books.sem_allocation
    }

    /// The units of each semaphore that each thread may still ask for.
    pub fn need(&self) -> (r: &Vec<(usize, Vec<usize>)>)
        ensures
            rows(r@) == self@.need,
    {
        &self.books.sem_need
    }
}

/// The mutex kind a create request asks for.
pub open spec fn mutex_kind(blocking: bool) -> MutexKind {
    if blocking {
        MutexKind::Blocking
    } else {
        MutexKind::Spin
    }
}

/// The holder slots once a mutex took id `id`: the slot is free.
pub open spec fn free_holder_slot(holders: Seq<Option<usize>>, id: int) -> Seq<Option<usize>> {
    if id < holders.len() {
        holders.update(id, None)
    } else {
        holders.push(None)
    }
}

/// The waits without thread `tid`'s.
pub open spec fn without_wait(waits: Seq<(usize, usize)>, tid: usize) -> Seq<(usize, usize)> {
    if is_waiting(waits, tid) {
        waits.remove(wait_index(waits, tid))
    } else {
        waits
    }
}

impl SyncView {
    /// The state after thread `tid` asks for mutex `m` and is not refused: it
    /// takes a free mutex, or waits for a held one.
    pub open spec fn lock_requested(self, tid: usize, m: int) -> SyncView {
        let ws = without_wait(self.waits, tid);
        if self.holders[m] is None {
            SyncView { holders: self.holders.update(m, Some(tid)), waits: ws, ..self }
        } else {
            SyncView { waits: ws.push((tid, m as usize)), ..self }
        }
    }

    /// The state once mutex `m` is let go: the earliest thread waiting for it
    /// takes it and stops waiting; with no thread waiting it is free.
    pub open spec fn lock_released(self, m: int) -> SyncView {
        if has_waiter(self.waits, m as usize) {
            let i = first_waiter(self.waits, m as usize);
            SyncView {
                holders: self.holders.update(m, Some(self.waits[i].0)),
                waits: self.waits.remove(i),
                ..self
            }
        } else {
            SyncView { holders: self.holders.update(m, None), ..self }
        }
    }
}

/// A thread waiting once `tid`'s wait is taken out was waiting before.
proof fn lemma_without_wait_sub(waits: Seq<(usize, usize)>, tid: usize, w: usize)
    requires
        waiters_distinct(waits),
        is_waiting(without_wait(waits, tid), w),
    ensures
        is_waiting(waits, w),
{
    if is_waiting(waits, tid) {
        let k = wait_index(waits, tid);
        lemma_remove_distinct(waits, k);
    }
}

/// Taking one wait out keeps the waiters distinct and drops that thread.
proof fn lemma_without_wait(waits: Seq<(usize, usize)>, tid: usize)
    requires
        waiters_distinct(waits),
    ensures
        waiters_distinct(without_wait(waits, tid)),
        !is_waiting(without_wait(waits, tid), tid),
{
    if is_waiting(waits, tid) {
        let k = wait_index(waits, tid);
        let r = waits.remove(k);
        waits.remove_ensures(k);
        assert forall|x: int, y: int| 0 <= x < y < r.len() implies r[x].0 != r[y].0 by {
            let x2 = if x < k { x } else { x + 1 };
            let y2 = if y < k { y } else { y + 1 };
            assert(r[x] == waits[x2]);
            assert(r[y] == waits[y2]);
        }
        if is_waiting(r, tid) {
            let i = choose|i: int| 0 <= i < r.len() && r[i].0 == tid;
            let i2 = if i < k { i } else { i + 1 };
            assert(r[i] == waits[i2]);
            assert(waits[k].0 == tid);
        }
    }
}

/// Takes thread `tid`'s wait, if any, out of the waits.
fn drop_wait(waits: &mut Vec<(usize, usize)>, tid: usize)
    requires
        waiters_distinct(old(waits)@),
    ensures
        final(waits)@ == without_wait(old(waits)@, tid),
        waiters_distinct(final(waits)@),
        !is_waiting(final(waits)@, tid),
{
    proof {
        lemma_without_wait(waits@, tid);
    }
    match find_wait(waits, tid) {
        Some(i) => {
            waits.remove(i);
        },
        None => {},
    }
}

fn mutex_create_in(b: &mut Books, blocking: bool) -> (r: usize)
    requires
        old(b)@.wf(),
    ensures
        final(b)@.wf(),
        is_first_free(old(b)@.mutexes, r as int),
        final(b)@ == (SyncView {
            mutexes: with_slot(old(b)@.mutexes, r as int, mutex_kind(blocking)),
            holders: free_holder_slot(old(b)@.holders, r as int),
            ..old(b)@
        }),
{
    let kind = if !blocking {
        MutexKind::Spin
    } else {
        MutexKind::Blocking
    };
    let id = alloc_slot(&mut b.mutex_list, kind);
    if id < b.mutex_holder.len() {
        b.mutex_holder.set(id, None);
    } else {
        b.mutex_holder.push(None);
    }
    proof {
        assert(b@ =~~= SyncView {
            mutexes: with_slot(old(b)@.mutexes, id as int, mutex_kind(blocking)),
            holders: free_holder_slot(old(b)@.holders, id as int),
            ..old(b)@
        });
    }
    id
}

/// Thread `tid` asks for mutex `m`: takes it when free, else waits for it.
fn mutex_request_in(b: &mut Books, tid: usize, mutex_id: usize)
    requires
        old(b)@.wf(),
        mutex_id < old(b)@.mutexes.len(),
    ensures
        final(b)@.wf(),
        final(b)@ == old(b)@.lock_requested(tid, mutex_id as int),
{
    drop_wait(&mut b.mutex_waits, tid);
    if b.mutex_holder[mutex_id].is_none() {
        b.mutex_holder.set(mutex_id, Some(tid));
    } else {
        let ghost ws = b.mutex_waits@;
        b.mutex_waits.push((tid, mutex_id));
        proof {
            assert forall|x: int, y: int| 0 <= x < y < b.mutex_waits@.len() implies b.mutex_waits@[x].0 != b.mutex_waits@[y].0 by {
                if y == ws.len() {
                    assert(b.mutex_waits@[x] == ws[x]);
                    assert(!is_waiting(ws, tid));
                }
            }
        }
    }
    proof {
        assert(b@ =~~= old(b)@.lock_requested(tid, mutex_id as int));
    }
}

fn mutex_lock_in(b: &mut Books, tid: usize, mutex_id: usize) -> (r: isize)
    requires
        old(b)@.wf(),
        mutex_id < old(b)@.mutexes.len(),
    ensures
        final(b)@.wf(),
        old(b)@.deadlock_detect && closes_cycle(old(b)@.holders, old(b)@.waits, tid, mutex_id as int)
            ==> r == DEADLOCK && final(b)@ == old(b)@,
        !(old(b)@.deadlock_detect && closes_cycle(old(b)@.holders, old(b)@.waits, tid, mutex_id as int))
            ==> r == 0 && final(b)@ == old(b)@.lock_requested(tid, mutex_id as int),
{
    if b.deadlock_detect && would_deadlock(&b.mutex_holder, &b.mutex_waits, tid, mutex_id) {
        return DEADLOCK;
    }
    mutex_request_in(b, tid, mutex_id);
    0
}

fn mutex_release_in(b: &mut Books, mutex_id: usize)
    requires
        old(b)@.wf(),
        mutex_id < old(b)@.mutexes.len(),
    ensures
        final(b)@.wf(),
        final(b)@ == old(b)@.lock_released(mutex_id as int),
{
    match find_first_waiter(&b.mutex_waits, mutex_id) {
        Some(i) => {
            let ghost ws = b.mutex_waits@;
            proof {
                lemma_remove_distinct(ws, i as int);
            }
            let (t, _) = b.mutex_waits.remove(i);
            b.mutex_holder.set(mutex_id, Some(t));
        },
        None => {
            b.mutex_holder.set(mutex_id, None);
        },
    }
    proof {
        assert(b@ =~~= old(b)@.lock_released(mutex_id as int));
    }
}

fn condvar_create_in(b: &mut Books) -> (r: usize)
    requires
        old(b)@.wf(),
    ensures
        final(b)@.wf(),
        is_first_free(old(b)@.condvars, r as int),
        final(b)@ == (SyncView {
            condvars: with_slot(old(b)@.condvars, r as int, Condvar {}),
            ..old(b)@
        }),
{
    let id = alloc_slot(&mut b.condvar_list, Condvar {});
    proof {
        assert(b@ =~~= SyncView {
            condvars: with_slot(old(b)@.condvars, id as int, Condvar {}),
            ..old(b)@
        });
    }
    id
}

fn enable_detect_in(b: &mut Books, enabled: usize)
    requires
        old(b)@.wf(),
    ensures
        final(b)@.wf(),
        final(b)@ == (SyncView {
            deadlock_detect: old(b)@.deadlock_detect || enabled == 1,
            ..old(b)@
        }),
{
    if enabled == 1 {
        b.deadlock_detect = true;
    }
    proof {
        assert(b@ =~~= SyncView {
            deadlock_detect: old(b)@.deadlock_detect || enabled == 1,
            ..old(b)@
        });
    }
}

/// Creates a semaphore with `res_count` units and answers its id. The
/// semaphore's units join the free counters, every thread gets a zero counter
/// for it.
fn semaphore_create_in(b: &mut Books, res_count: usize) -> (r: isize)
    requires
        old(b)@.wf(),
        old(b)@.semaphores.len() < isize::MAX,
    ensures
        final(b)@.wf(),
        r == old(b)@.semaphores.len(),
        final(b)@ == (SyncView {
            semaphores: old(b)@.semaphores.push(Some(res_count)),
            available: old(b)@.available.push(res_count),
            allocation: padded(old(b)@.allocation),
            need: padded(old(b)@.need),
            ..old(b)@
        }),
        old(b)@.is_safe() ==> final(b)@.is_safe(),
{
    b.sem_available.push(res_count);
    pad_rows(&mut b.sem_allocation);
    pad_rows(&mut b.sem_need);
    let ghost before = b.semaphore_list@;
    let id = alloc_slot(&mut b.semaphore_list, res_count);
    proof {
        assert(is_first_free(before, before.len() as int));
        lemma_first_free_unique(before, id as int, before.len() as int);
        let target = SyncView {
            semaphores: old(b)@.semaphores.push(Some(res_count)),
            available: old(b)@.available.push(res_count),
            allocation: padded(old(b)@.allocation),
            need: padded(old(b)@.need),
            ..old(b)@
        };
        assert(b@.allocation =~= target.allocation);
        assert(b@.need =~= target.need);
        assert(b@.semaphores =~= target.semaphores);
        assert(b@ =~~= target);
        if old(b)@.is_safe() {
            lemma_create_keeps_safe(old(b)@, res_count);
        }
        assert(b@.wf()) by {
            assert forall|i: int| 0 <= i < b@.semaphores.len() implies #[trigger] b@.semaphores[i] is Some by {
                if i < before.len() {
                    assert(b@.semaphores[i] == before[i]);
                }
            }
            assert forall|i: int| 0 <= i < b@.sem_waits.len() implies has_row(b@.allocation, #[trigger] b@.sem_waits[i].0) by {
                let t = b@.sem_waits[i].0;
                assert(has_row(old(b)@.allocation, t));
                let w = choose|w: int| 0 <= w < old(b)@.allocation.len() && old(b)@.allocation[w].0 == t;
                assert(b@.allocation[w].0 == t);
            }
        }
    }
    id as isize
}


/// The position of thread `tid`'s row, which it has.
fn row_of(rs: &Vec<(usize, Vec<usize>)>, tid: usize) -> (r: usize)
    requires
        has_row(rows(rs@), tid),
        tids_distinct(rows(rs@)),
    ensures
        r < rs.len(),
        rs@[r as int].0 == tid,
        row_index(rows(rs@), tid) == r,
{
    match find_row(rs, tid) {
        Some(i) => {
            proof {
                lemma_row_index(rows(rs@), tid, i as int);
            }
            i
        },
        None => {
            proof {
                let w = choose|i: int| 0 <= i < rows(rs@).len() && rows(rs@)[i].0 == tid;
                assert(rs@[w].0 == tid);
            }
            0
        },
    }
}

/// Thread `tid` holds one unit of semaphore `s` fewer (never below zero).
fn release_alloc(b: &mut Books, tid: usize, s: usize)
    requires
        old(b)@.wf(),
        s < old(b)@.available.len(),
        has_row(old(b)@.allocation, tid),
    ensures
        final(b)@.wf(),
        final(b)@ == old(b)@.released_alloc(tid, s as int),
{
    let row = row_of(&b.sem_allocation, tid);
    proof {
        assert(old(b)@.allocation[row as int].1.len() == old(b)@.available.len());
        assert(b.sem_allocation@[row as int].1@ == old(b)@.allocation[row as int].1);
    }
    let held = b.sem_allocation[row].1[s];
    if held > 0 {
        set_count(&mut b.sem_allocation, row, s, held - 1);
    }
    proof {
        let target = old(b)@.released_alloc(tid, s as int);
        assert(old(b)@.allocation[row as int].1.update(s as int, dec_sat(held)) =~= if held > 0 {
            old(b)@.allocation[row as int].1.update(s as int, (held - 1) as usize)
        } else {
            old(b)@.allocation[row as int].1
        });
        assert(b@.allocation =~= target.allocation);
        assert(b@ =~~= target);
        assert forall|i: int| 0 <= i < b@.sem_waits.len() implies has_row(b@.allocation, #[trigger] b@.sem_waits[i].0) by {
            let t = b@.sem_waits[i].0;
            assert(has_row(old(b)@.allocation, t));
            let w = choose|w: int| 0 <= w < old(b)@.allocation.len() && old(b)@.allocation[w].0 == t;
            assert(b@.allocation[w].0 == t);
        }
        assert forall|x: int, y: int| 0 <= x < y < b@.allocation.len() implies b@.allocation[x].0 != b@.allocation[y].0 by {
            assert(old(b)@.allocation[x].0 == b@.allocation[x].0);
            assert(old(b)@.allocation[y].0 == b@.allocation[y].0);
        }
    }
}

/// Decides a raise of semaphore `sem_id` by thread `tid`. For an id other than
/// zero the unit comes off what the thread holds (unless it held none), and
/// goes to the earliest thread waiting for the semaphore, or back to the free
/// units when none waits. The caller then raises the semaphore; the answer is
/// `0`.
fn semaphore_up_in(b: &mut Books, tid: usize, sem_id: usize) -> (r: isize)
    requires
        old(b)@.wf(),
        sem_id < old(b)@.semaphores.len(),
        sem_id != 0 ==> has_row(old(b)@.allocation, tid),
        sem_id != 0 && !has_waiter(old(b)@.sem_waits, sem_id) ==> old(b)@.available[sem_id as int] < usize::MAX,
        sem_id != 0 && has_waiter(old(b)@.sem_waits, sem_id) ==> old(b)@.released_alloc(tid, sem_id as int).handover_counter(sem_id as int) < usize::MAX,
    ensures
        final(b)@.wf(),
        r == 0,
        sem_id == 0 ==> final(b)@ == old(b)@,
        sem_id != 0 ==> final(b)@ == old(b)@.up_step(tid, sem_id as int),
        sem_id != 0 && !has_waiter(old(b)@.sem_waits, sem_id) && old(b)@.is_safe() ==> final(b)@.is_safe(),
{
    if sem_id != 0 {
        match find_first_waiter(&b.sem_waits, sem_id) {
            Some(i) => {
                release_alloc(b, tid, sem_id);
                let ghost v1 = b@;
                proof {
                    lemma_remove_distinct(v1.sem_waits, i as int);
                    assert(has_row(v1.allocation, v1.sem_waits[i as int].0));
                }
                let (w, _) = b.sem_waits.remove(i);
                let row = row_of(&b.sem_allocation, w);
                proof {
                    assert(v1.allocation[row as int].1.len() == v1.available.len());
                    assert(v1.need[row as int].1.len() == v1.available.len());
                    assert(b.sem_allocation@[row as int].1@ == v1.allocation[row as int].1);
                    assert(b.sem_need@[row as int].1@ == v1.need[row as int].1);
                    assert(v1.need[row as int].0 == w);
                }
                let held = b.sem_allocation[row].1[sem_id];
                let needed = b.sem_need[row].1[sem_id];
                set_count(&mut b.sem_allocation, row, sem_id, held + 1);
                if needed > 0 {
                    set_count(&mut b.sem_need, row, sem_id, needed - 1);
                }
                proof {
                    let target = v1.handed_over(sem_id as int);
                    assert(b@.allocation =~= target.allocation);
                    assert(v1.need[row as int].1.update(sem_id as int, dec_sat(needed)) =~= if needed > 0 {
                        v1.need[row as int].1.update(sem_id as int, (needed - 1) as usize)
                    } else {
                        v1.need[row as int].1
                    });
                    assert(b@.need =~= target.need);
                    assert(b@ =~~= target);
                    assert forall|x: int, y: int| 0 <= x < y < b@.allocation.len() implies b@.allocation[x].0 != b@.allocation[y].0 by {
                        assert(v1.allocation[x].0 == b@.allocation[x].0);
                        assert(v1.allocation[y].0 == b@.allocation[y].0);
                    }
                    assert forall|k: int| 0 <= k < b@.sem_waits.len() implies has_row(b@.allocation, #[trigger] b@.sem_waits[k].0) by {
                        let t = b@.sem_waits[k].0;
                        let k2 = if k < i { k } else { k + 1 };
                        assert(b@.sem_waits[k] == v1.sem_waits[k2]);
                        assert(has_row(v1.allocation, t));
                        let q = choose|q: int| 0 <= q < v1.allocation.len() && v1.allocation[q].0 == t;
                        assert(b@.allocation[q].0 == t);
                    }
                }
            },
            None => {
                let v = b.sem_available[sem_id] + 1;
                b.sem_available.set(sem_id, v);
                let ghost v0 = b@;
                release_alloc(b, tid, sem_id);
                proof {
                    assert(b@ =~~= old(b)@.released_one(tid, sem_id as int));
                    if old(b)@.is_safe() {
                        lemma_release_keeps_safe(old(b)@, tid, sem_id as int);
                    }
                }
            },
        }
    }
    proof {
        if sem_id == 0 {
            assert(b@ =~~= old(b)@);
        }
    }
    0
}

/// After registration, thread `tid`'s row is found where `row_index` says.
proof fn lemma_row_index(rs: Seq<(usize, Seq<usize>)>, tid: usize, row: int)
    requires
        tids_distinct(rs),
        0 <= row < rs.len(),
        rs[row].0 == tid,
    ensures
        row_index(rs, tid) == row,
{
    let c = row_index(rs, tid);
    assert(rs[c].0 == tid);
}

/// Decides a request by thread `tid` to lower semaphore `sem_id`.
///
/// A thread without rows first gets zero rows. Semaphore zero is not guarded:
/// the answer is `0`. For other ids one unit is granted on the books; with
/// deadlock detection on, if the banker's test then finds the state unsafe,
/// the grant is undone and the request refused with `DEADLOCK`. A granted
/// request answers `0`, and the caller lowers the semaphore.
fn semaphore_down_in(b: &mut Books, tid: usize, sem_id: usize) -> (r: isize)
    requires
        old(b)@.wf(),
        sem_id != 0 ==> sem_id < old(b)@.available.len(),
        sem_id != 0 ==> old(b)@.registered(tid).down_counter(tid, sem_id as int) < usize::MAX,
        sem_id != 0 && old(b)@.deadlock_detect ==> ({
            let t = old(b)@.registered(tid).down_step(tid, sem_id as int);
            banker_totals_fit(t.available, t.allocation)
        }),
        old(b)@.down_proceeds(tid, sem_id) ==> sem_id < old(b)@.semaphores.len(),
    ensures
        final(b)@.wf(),
        !old(b)@.down_proceeds(tid, sem_id) ==> r == DEADLOCK && final(b)@ == old(b)@.registered(tid),
        old(b)@.down_proceeds(tid, sem_id) && sem_id == 0 ==> r == 0 && final(b)@ == old(b)@.registered(tid),
        old(b)@.down_proceeds(tid, sem_id) && sem_id != 0 ==> r == 0 && final(b)@ == old(b)@.registered(tid).down_step(tid, sem_id as int),
        r == 0 && sem_id != 0 && old(b)@.deadlock_detect ==> final(b)@.is_safe(),
        old(b)@.deadlock_detect && old(b)@.is_safe() ==> final(b)@.is_safe(),
{
    let ghost reg = old(b)@.registered(tid);
    let len = b.sem_available.len();
    let found = find_row(&b.sem_allocation, tid);
    if found.is_none() {
        let z = zero_counts(len);
        b.sem_allocation.push((tid, z));
        let z2 = zero_counts(len);
        b.sem_need.push((tid, z2));
        proof {
            assert(!has_row(old(b)@.allocation, tid));
            assert(b@.allocation =~= reg.allocation);
            assert(b@.need =~= reg.need);
        }
    } else {
        proof {
            let i = found.unwrap();
            assert(old(b)@.allocation[i as int].0 == tid);
            assert(has_row(old(b)@.allocation, tid));
        }
    }
    proof {
        assert(b@ =~~= reg);
        if old(b)@.is_safe() {
            lemma_register_keeps_safe(old(b)@, tid);
        }
        assert(reg.wf()) by {
            assert forall|x: int, y: int| 0 <= x < y < reg.allocation.len() implies reg.allocation[x].0 != reg.allocation[y].0 by {
                if y == old(b)@.allocation.len() {
                    assert(old(b)@.allocation[x].0 == reg.allocation[x].0);
                }
            }
            assert forall|k: int| 0 <= k < reg.sem_waits.len() implies has_row(reg.allocation, #[trigger] reg.sem_waits[k].0) by {
                let w = reg.sem_waits[k].0;
                assert(has_row(old(b)@.allocation, w));
                let q = choose|q: int| 0 <= q < old(b)@.allocation.len() && old(b)@.allocation[q].0 == w;
                assert(reg.allocation[q].0 == w);
            }
        }
    }
    if sem_id != 0 {
        proof {
            if !has_row(old(b)@.allocation, tid) {
                assert(reg.allocation[reg.allocation.len() - 1].0 == tid);
            }
            assert(has_row(reg.allocation, tid));
        }
        let row = row_of(&b.sem_allocation, tid);
        proof {
            assert(reg.allocation[row as int].1.len() == reg.available.len());
            assert(reg.need[row as int].1.len() == reg.available.len());
            assert(b.sem_allocation@[row as int].1@ == reg.allocation[row as int].1);
            assert(b.sem_need@[row as int].1@ == reg.need[row as int].1);
            assert(reg.need[row as int].0 == tid);
        }
        let ghost t = reg.down_step(tid, sem_id as int);
        let origin = b.sem_available[sem_id];
        let held = b.sem_allocation[row].1[sem_id];
        let needed = b.sem_need[row].1[sem_id];
        if origin > 0 {
            b.sem_available.set(sem_id, origin - 1);
            set_count(&mut b.sem_allocation, row, sem_id, held + 1);
            proof {
                assert(b@.available =~= t.available);
                assert(b@.allocation =~= t.allocation);
                assert(b@.need =~= t.need);
            }
        } else {
            set_count(&mut b.sem_need, row, sem_id, needed + 1);
            proof {
                assert(b@.available =~= t.available);
                assert(b@.allocation =~= t.allocation);
                assert(b@.need =~= t.need);
            }
        }
        proof {
            assert forall|i: int| 0 <= i < t.allocation.len() implies #[trigger] t.allocation[i].1.len() == t.available.len() by {
                assert(reg.allocation[i].1.len() == reg.available.len());
            }
            assert(short_rows_stuck(t.available, t.allocation, t.need));
        }
        let safe = if b.deadlock_detect {
            check_sem_safe_state(&b.sem_available, &b.sem_allocation, &b.sem_need)
        } else {
            true
        };
        if !safe {
            proof {
                assert(b.sem_allocation@[row as int].1@ == t.allocation[row as int].1);
                assert(t.need.len() == reg.need.len());
                assert(row < b.sem_need@.len());
                assert(rows(b.sem_need@)[row as int].1 == b.sem_need@[row as int].1@);
                assert(b.sem_need@[row as int].1@ == t.need[row as int].1);
            }
            if origin > 0 {
                b.sem_available.set(sem_id, origin);
                set_count(&mut b.sem_allocation, row, sem_id, held);
            } else {
                set_count(&mut b.sem_need, row, sem_id, needed);
            }
            proof {
                assert(b@.available =~= reg.available);
                assert(b@.allocation[row as int].1 =~= reg.allocation[row as int].1);
                assert(b@.allocation =~= reg.allocation);
                assert(b@.need[row as int].1 =~= reg.need[row as int].1);
                assert(b@.need =~= reg.need);
                assert(b@ =~~= reg);
            }
            return DEADLOCK;
        }
        if origin == 0 {
            drop_wait(&mut b.sem_waits, tid);
            let ghost ws = b.sem_waits@;
            b.sem_waits.push((tid, sem_id));
            proof {
                assert forall|x: int, y: int| 0 <= x < y < b.sem_waits@.len() implies b.sem_waits@[x].0 != b.sem_waits@[y].0 by {
                    if y == ws.len() {
                        assert(b.sem_waits@[x] == ws[x]);
                        assert(!is_waiting(ws, tid));
                    }
                }
                assert(b@.sem_waits =~= t.sem_waits);
            }
        }
        proof {
            assert(b@ =~~= t);
            assert(t.wf()) by {
                assert forall|x: int, y: int| 0 <= x < y < t.allocation.len() implies t.allocation[x].0 != t.allocation[y].0 by {
                    assert(reg.allocation[x].0 == t.allocation[x].0);
                    assert(reg.allocation[y].0 == t.allocation[y].0);
                }
                assert forall|k: int| 0 <= k < t.sem_waits.len() implies has_row(t.allocation, #[trigger] t.sem_waits[k].0) by {
                    let w = t.sem_waits[k].0;
                    if w == tid {
                        assert(t.allocation[row as int].0 == tid);
                    } else {
                        assert(is_waiting(t.sem_waits, w));
                        if origin == 0 {
                            if k < t.sem_waits.len() - 1 {
                                let ws0 = without_wait(reg.sem_waits, tid);
                                lemma_without_wait(reg.sem_waits, tid);
                                assert(t.sem_waits[k] == ws0[k]);
                                assert(is_waiting(ws0, w));
                                lemma_without_wait_sub(reg.sem_waits, tid, w);
                            }
                        }
                        assert(is_waiting(reg.sem_waits, w));
                        let k0 = choose|k0: int| 0 <= k0 < reg.sem_waits.len() && reg.sem_waits[k0].0 == w;
                        assert(has_row(reg.allocation, reg.sem_waits[k0].0));
                        let q = choose|q: int| 0 <= q < reg.allocation.len() && reg.allocation[q].0 == w;
                        assert(t.allocation[q].0 == w);
                    }
                }
            }
        }
    }
    0
}


/// Takes the books out of `sync`, leaving empty ones in their place.
fn take_books(sync: &mut ProcessSync) -> (b: Books)
    ensures
        b@ == old(sync)@,
        b@.wf(),
{
    proof {
        use_type_invariant(&*sync);
    }
    let mut b = Books::empty();
    std::mem::swap(&mut b, &mut sync.books);
    b
}

/// Creates a mutex, spinning or blocking, in the lowest free id of the
/// process's mutex table, with no holder, and answers that id.
pub fn sys_mutex_create(sync: &mut ProcessSync, blocking: bool) -> (r: isize)
    requires
        old(sync)@.mutexes.len() < isize::MAX,
    ensures
        final(sync)@.wf(),
        is_first_free(old(sync)@.mutexes, r as int),
        final(sync)@ == (SyncView {
            mutexes: with_slot(old(sync)@.mutexes, r as int, mutex_kind(blocking)),
            holders: free_holder_slot(old(sync)@.holders, r as int),
            ..old(sync)@
        }),
{
    let mut b = take_books(sync);
    let id = mutex_create_in(&mut b, blocking);
    sync.books = b;
    id as isize
}

/// Decides a request by thread `tid` to lock mutex `mutex_id`.
///
/// With deadlock detection on, a request that would close a cycle of waits
/// (the chain from the mutex's holder through the mutexes they wait for
/// reaches `tid`) is refused with `DEADLOCK` and changes nothing. Otherwise
/// the answer is `0`: a free mutex is recorded as held by `tid`, which takes
/// it at once; for a held one `tid` is recorded as waiting and blocks until an
/// unlock hands the mutex over.
pub fn sys_mutex_lock(sync: &mut ProcessSync, tid: usize, mutex_id: usize) -> (r: isize)
    requires
        mutex_id < old(sync)@.mutexes.len(),
        old(sync)@.mutexes[mutex_id as int] is Some,
    ensures
        final(sync)@.wf(),
        old(sync)@.deadlock_detect && closes_cycle(old(sync)@.holders, old(sync)@.waits, tid, mutex_id as int)
            ==> r == DEADLOCK && final(sync)@ == old(sync)@,
        !(old(sync)@.deadlock_detect && closes_cycle(old(sync)@.holders, old(sync)@.waits, tid, mutex_id as int))
            ==> r == 0 && final(sync)@ == old(sync)@.lock_requested(tid, mutex_id as int),
{
    let mut b = take_books(sync);
    let r = mutex_lock_in(&mut b, tid, mutex_id);
    sync.books = b;
    r
}

/// Records that thread `tid`, woken from a condition variable, asks for
/// mutex `mutex_id` again: it takes the mutex when free and waits for it
/// otherwise. This request is not checked for deadlock.
pub fn mutex_relock(sync: &mut ProcessSync, tid: usize, mutex_id: usize)
    requires
        mutex_id < old(sync)@.mutexes.len(),
    ensures
        final(sync)@.wf(),
        final(sync)@ == old(sync)@.lock_requested(tid, mutex_id as int),
{
    let mut b = take_books(sync);
    mutex_request_in(&mut b, tid, mutex_id);
    sync.books = b;
}

/// Decides an unlock of mutex `mutex_id`: the earliest thread waiting for it
/// takes it, or it is free when none waits; the caller releases the lock,
/// and the answer is `0`.
pub fn sys_mutex_unlock(sync: &mut ProcessSync, mutex_id: usize) -> (r: isize)
    requires
        mutex_id < old(sync)@.mutexes.len(),
        old(sync)@.mutexes[mutex_id as int] is Some,
    ensures
        final(sync)@.wf(),
        r == 0,
        final(sync)@ == old(sync)@.lock_released(mutex_id as int),
{
    let mut b = take_books(sync);
    mutex_release_in(&mut b, mutex_id);
    sync.books = b;
    0
}

/// Creates a condition variable in the lowest free id of the process's table
/// and answers that id.
pub fn sys_condvar_create(sync: &mut ProcessSync) -> (r: isize)
    requires
        old(sync)@.condvars.len() < isize::MAX,
    ensures
        final(sync)@.wf(),
        is_first_free(old(sync)@.condvars, r as int),
        final(sync)@ == (SyncView {
            condvars: with_slot(old(sync)@.condvars, r as int, Condvar {}),
            ..old(sync)@
        }),
{
    let mut b = take_books(sync);
    let id = condvar_create_in(&mut b);
    sync.books = b;
    id as isize
}

/// Decides a signal on condition variable `condvar_id`: the caller wakes one
/// waiter, and the answer is `0`.
pub fn sys_condvar_signal(sync: &ProcessSync, condvar_id: usize) -> (r: isize)
    requires
        condvar_id < sync@.condvars.len(),
        sync@.condvars[condvar_id as int] is Some,
    ensures
        r == 0,
        sync@.wf(),
{
    proof {
        use_type_invariant(sync);
    }
    0
}

/// Decides a wait on condition variable `condvar_id` with mutex `mutex_id`:
/// the mutex is let go as by an unlock; the caller releases it, waits, and
/// once woken asks for it again through `mutex_relock`; the answer is `0`.
pub fn sys_condvar_wait(sync: &mut ProcessSync, condvar_id: usize, mutex_id: usize) -> (r: isize)
    requires
        condvar_id < old(sync)@.condvars.len(),
        old(sync)@.condvars[condvar_id as int] is Some,
        mutex_id < old(sync)@.mutexes.len(),
        old(sync)@.mutexes[mutex_id as int] is Some,
    ensures
        final(sync)@.wf(),
        r == 0,
        final(sync)@ == old(sync)@.lock_released(mutex_id as int),
{
    let mut b = take_books(sync);
    mutex_release_in(&mut b, mutex_id);
    sync.books = b;
    0
}

/// Turns deadlock detection on for `enabled == 1`; `enabled == 0` changes
/// nothing. Both answer `0`.
pub fn sys_enable_deadlock_detect(sync: &mut ProcessSync, enabled: usize) -> (r: isize)
    requires
        enabled <= 1,
    ensures
        final(sync)@.wf(),
        r == 0,
        final(sync)@ == (SyncView {
            deadlock_detect: old(sync)@.deadlock_detect || enabled == 1,
            ..old(sync)@
        }),
{
    let mut b = take_books(sync);
    enable_detect_in(&mut b, enabled);
    sync.books = b;
    0
}

/// Creates a semaphore with `res_count` units and answers its id. The
/// semaphore's units join the free counters, and every thread gets a zero
/// counter for it.
pub fn sys_semaphore_create(sync: &mut ProcessSync, res_count: usize) -> (r: isize)
    requires
        old(sync)@.semaphores.len() < isize::MAX,
    ensures
        final(sync)@.wf(),
        r == old(sync)@.semaphores.len(),
        final(sync)@ == (SyncView {
            semaphores: old(sync)@.semaphores.push(Some(res_count)),
            available: old(sync)@.available.push(res_count),
            allocation: padded(old(sync)@.allocation),
            need: padded(old(sync)@.need),
            ..old(sync)@
        }),
        old(sync)@.is_safe() ==> final(sync)@.is_safe(),
{
    let mut b = take_books(sync);
    let r = semaphore_create_in(&mut b, res_count);
    sync.books = b;
    r
}

/// Decides a raise of semaphore `sem_id` by thread `tid`. For an id other than
/// zero the unit comes off what the thread holds (unless it held none), and
/// goes to the earliest thread waiting for the semaphore, or back to the free
/// units when none waits. The caller then raises the semaphore; the answer is
/// `0`.
pub fn sys_semaphore_up(sync: &mut ProcessSync, tid: usize, sem_id: usize) -> (r: isize)
    requires
        old(sync)@.up_allowed(tid, sem_id),
    ensures
        final(sync)@.wf(),
        r == 0,
        sem_id == 0 ==> final(sync)@ == old(sync)@,
        sem_id != 0 ==> final(sync)@ == old(sync)@.up_step(tid, sem_id as int),
        sem_id != 0 && !has_waiter(old(sync)@.sem_waits, sem_id) && old(sync)@.is_safe() ==> final(sync)@.is_safe(),
{
    let mut b = take_books(sync);
    let r = semaphore_up_in(&mut b, tid, sem_id);
    sync.books = b;
    r
}

/// Decides a request by thread `tid` to lower semaphore `sem_id`.
///
/// A thread without rows first gets zero rows. Semaphore zero is not guarded
/// and has no books: the answer is `0`. For other ids the request takes a free
/// unit (one fewer free, one more held) or, with none free, waits for one (one
/// more needed, and the thread joins the end of the semaphore's waits). With
/// deadlock detection on, if the banker's test then finds the books unsafe,
/// the request is undone and refused with `DEADLOCK`. A request that is not
/// refused answers `0`, and the caller lowers the semaphore.
pub fn sys_semaphore_down(sync: &mut ProcessSync, tid: usize, sem_id: usize) -> (r: isize)
    requires
        old(sync)@.down_allowed(tid, sem_id),
    ensures
        final(sync)@.wf(),
        !old(sync)@.down_proceeds(tid, sem_id) ==> r == DEADLOCK && final(sync)@ == old(sync)@.registered(tid),
        old(sync)@.down_proceeds(tid, sem_id) && sem_id == 0 ==> r == 0 && final(sync)@ == old(sync)@.registered(tid),
        old(sync)@.down_proceeds(tid, sem_id) && sem_id != 0 ==> r == 0 && final(sync)@ == old(sync)@.registered(tid).down_step(tid, sem_id as int),
        !old(sync)@.deadlock_detect ==> r == 0,
        r == 0 && sem_id != 0 && old(sync)@.deadlock_detect ==> final(sync)@.is_safe(),
        old(sync)@.deadlock_detect && old(sync)@.is_safe() ==> final(sync)@.is_safe(),
{
    let mut b = take_books(sync);
    let r = semaphore_down_in(&mut b, tid, sem_id);
    sync.books = b;
    r
}

/// Registering a thread and taking or awaiting a unit leave the banker's
/// sums as they were: a new row holds nothing, and a granted unit moves from
/// the free counter to the thread's.
proof fn lemma_down_keeps_totals(v: SyncView, tid: usize, s: int)
    requires
        v.wf(),
        0 <= s < v.available.len(),
        v.registered(tid).down_counter(tid, s) < usize::MAX,
    ensures
        ({
            let t = v.registered(tid).down_step(tid, s);
            banker_totals_fit(t.available, t.allocation) == banker_totals_fit(v.available, v.allocation)
        }),
{
    let reg = v.registered(tid);
    let n = v.allocation.len();
    let m = v.available.len();
    assert forall|j: int| 0 <= j < m implies #[trigger] released(reg.allocation, all_rows(reg.allocation.len()), j)
        == released(v.allocation, all_rows(n), j) by {
        if !has_row(v.allocation, tid) {
            let big = all_rows(n + 1);
            assert(big.drop_last() =~= all_rows(n));
            assert(big.last() == n);
            assert forall|p: int| 0 <= p < all_rows(n).len() implies #[trigger] at(reg.allocation[all_rows(n)[p]].1, j) == at(v.allocation[all_rows(n)[p]].1, j) by {
                assert(reg.allocation[p] == v.allocation[p]);
            }
            lemma_released_same_rows(v.allocation, reg.allocation, all_rows(n), j);
            assert(at(reg.allocation[n as int].1, j) == 0);
        }
    }
    assert(reg.wf()) by {
        assert forall|x: int, y: int| 0 <= x < y < reg.allocation.len() implies reg.allocation[x].0 != reg.allocation[y].0 by {
            if y == n {
                assert(v.allocation[x].0 == reg.allocation[x].0);
            }
        }
        assert forall|k: int| 0 <= k < reg.sem_waits.len() implies has_row(reg.allocation, #[trigger] reg.sem_waits[k].0) by {
            let w = reg.sem_waits[k].0;
            let q = choose|q: int| 0 <= q < v.allocation.len() && v.allocation[q].0 == w;
            assert(reg.allocation[q].0 == w);
        }
    }
    let t = reg.down_step(tid, s);
    let nr = reg.allocation.len();
    if reg.available[s] > 0 {
        if !has_row(v.allocation, tid) {
            assert(reg.allocation[nr - 1].0 == tid);
        }
        assert(has_row(reg.allocation, tid));
        let r = row_index(reg.allocation, tid);
        let a = reg.allocation[r].1;
        let c = a.update(s, (a[s] + 1) as usize);
        assert(t.allocation == reg.allocation.update(r, (reg.allocation[r].0, c)));
        assert forall|j: int| 0 <= j < m implies #[trigger] released(t.allocation, all_rows(nr), j) + t.available[j]
            == released(reg.allocation, all_rows(nr), j) + reg.available[j] by {
            let o = all_rows(nr);
            assert(o[r] == r);
            assert forall|p: int| 0 <= p < o.len() implies 0 <= #[trigger] o[p] < reg.allocation.len() by {}
            lemma_released_change_row(reg.allocation, r, c, o, j);
            assert(a.len() == m);
        }
        assert(t.allocation.len() == nr);
    } else {
        assert(t.available == reg.available);
        assert(t.allocation == reg.allocation);
    }
    assert(t.available.len() == m);
    assert(t.allocation.len() == nr);
    assert forall|j: int| 0 <= j < m implies t.available[j] + #[trigger] released(t.allocation, all_rows(t.allocation.len()), j)
        == v.available[j] + released(v.allocation, all_rows(n), j) by {
        assert(released(reg.allocation, all_rows(reg.allocation.len()), j) == released(v.allocation, all_rows(n), j));
        assert(reg.available[j] == v.available[j]);
        if reg.available[s] > 0 {
            assert(released(t.allocation, all_rows(nr), j) + t.available[j]
                == released(reg.allocation, all_rows(nr), j) + reg.available[j]);
        }
    }
    if banker_totals_fit(v.available, v.allocation) {
        assert forall|j: int| 0 <= j < t.available.len() implies t.available[j] + #[trigger] released(t.allocation, all_rows(t.allocation.len()), j) <= usize::MAX by {
            assert(v.available[j] + released(v.allocation, all_rows(v.allocation.len()), j) <= usize::MAX);
        }
    }
    if banker_totals_fit(t.available, t.allocation) {
        assert forall|j: int| 0 <= j < v.available.len() implies v.available[j] + #[trigger] released(v.allocation, all_rows(v.allocation.len()), j) <= usize::MAX by {
            assert(t.available[j] + released(t.allocation, all_rows(t.allocation.len()), j) <= usize::MAX);
        }
    }
}

/// Whether `sys_semaphore_down` may be called with these arguments: exactly
/// its precondition.
pub fn semaphore_down_allowed(sync: &ProcessSync, tid: usize, sem_id: usize) -> (r: bool)
    ensures
        r == sync@.down_allowed(tid, sem_id),
{
    proof {
        use_type_invariant(sync);
    }
    let b = &sync.books;
    if sem_id == 0 {
        return b.semaphore_list.len() > 0;
    }
    if sem_id >= b.sem_available.len() {
        return false;
    }
    let ghost v = b@;
    let ghost reg = v.registered(tid);
    let counter: usize = match find_row(&b.sem_allocation, tid) {
        None => {
            proof {
                assert(!has_row(v.allocation, tid));
                lemma_row_index(reg.allocation, tid, v.allocation.len() as int);
            }
            0
        },
        Some(row) => {
            proof {
                assert(v.allocation[row as int].0 == tid);
                lemma_row_index(v.allocation, tid, row as int);
                assert(has_row(v.allocation, tid));
                assert(v.allocation[row as int].1.len() == v.available.len());
                assert(v.need[row as int].1.len() == v.available.len());
                assert(b.sem_allocation@[row as int].1@ == v.allocation[row as int].1);
                assert(b.sem_need@[row as int].1@ == v.need[row as int].1);
            }
            if b.sem_available[sem_id] > 0 {
                b.sem_allocation[row].1[sem_id]
            } else {
                b.sem_need[row].1[sem_id]
            }
        },
    };
    proof {
        assert(reg.down_counter(tid, sem_id as int) == counter);
    }
    if counter == usize::MAX {
        return false;
    }
    proof {
        lemma_down_keeps_totals(v, tid, sem_id as int);
    }
    if b.deadlock_detect && !totals_fit(&b.sem_available, &b.sem_allocation) {
        return false;
    }
    true
}

/// Whether `sys_semaphore_up` may be called with these arguments: exactly
/// its precondition.
pub fn semaphore_up_allowed(sync: &ProcessSync, tid: usize, sem_id: usize) -> (r: bool)
    ensures
        r == sync@.up_allowed(tid, sem_id),
{
    proof {
        use_type_invariant(sync);
    }
    let b = &sync.books;
    let ghost v = b@;
    if sem_id >= b.semaphore_list.len() {
        return false;
    }
    if sem_id == 0 {
        return true;
    }
    let row = match find_row(&b.sem_allocation, tid) {
        None => {
            return false;
        },
        Some(i) => i,
    };
    proof {
        assert(v.allocation[row as int].0 == tid);
        lemma_row_index(v.allocation, tid, row as int);
    }
    match find_first_waiter(&b.sem_waits, sem_id) {
        None => b.sem_available[sem_id] < usize::MAX,
        Some(i) => {
            let w = b.sem_waits[i].0;
            proof {
                assert(has_row(v.allocation, v.sem_waits[i as int].0));
            }
            let rw = row_of(&b.sem_allocation, w);
            proof {
                let v1 = v.released_alloc(tid, sem_id as int);
                assert(v1.sem_waits == v.sem_waits);
                assert(v1.allocation[rw as int].0 == w);
                assert forall|x: int, y: int| 0 <= x < y < v1.allocation.len() implies v1.allocation[x].0 != v1.allocation[y].0 by {
                    assert(v1.allocation[x].0 == v.allocation[x].0);
                    assert(v1.allocation[y].0 == v.allocation[y].0);
                }
                lemma_row_index(v1.allocation, w, rw as int);
                assert(v.allocation[rw as int].1.len() == v.available.len());
                assert(b.sem_allocation@[rw as int].1@ == v.allocation[rw as int].1);
            }
            let c = b.sem_allocation[rw].1[sem_id];
            let held = if rw == row {
                if c > 0 {
                    c - 1
                } else {
                    0
                }
            } else {
                c
            };
            proof {
                let v1 = v.released_alloc(tid, sem_id as int);
                assert(v1.handover_counter(sem_id as int) == held);
            }
            held < usize::MAX
        },
    }
}

} // verus!
