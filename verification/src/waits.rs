//! Who waits for whom among a process's mutexes.
//!
//! Each mutex has at most one holder, and each blocked thread waits for one
//! mutex. Following a mutex to its holder, the holder to the mutex it waits
//! for, and so on, gives the chain of threads that must move before the mutex
//! comes free. A lock request deadlocks exactly when that chain reaches the
//! requesting thread.
use vstd::prelude::*;

verus! {

/// Thread `t` waits for some mutex.
pub open spec fn is_waiting(waits: Seq<(usize, usize)>, t: usize) -> bool {
    exists|i: int| 0 <= i < waits.len() && waits[i].0 == t
}

/// The position of thread `t`'s wait.
pub open spec fn wait_index(waits: Seq<(usize, usize)>, t: usize) -> int {
    choose|i: int| 0 <= i < waits.len() && waits[i].0 == t
}

/// No thread waits for two mutexes.
pub open spec fn waiters_distinct(waits: Seq<(usize, usize)>) -> bool {
    forall|a: int, b: int| 0 <= a < b < waits.len() ==> waits[a].0 != waits[b].0
}

/// The holder of mutex `m`, if it has one.
pub open spec fn holder_of(holders: Seq<Option<usize>>, m: int) -> Option<usize> {
    if 0 <= m < holders.len() {
        holders[m]
    } else {
        None
    }
}

/// The thread that `o` waits on: the holder of the mutex `o` waits for.
pub open spec fn next_holder(
    holders: Seq<Option<usize>>,
    waits: Seq<(usize, usize)>,
    o: Option<usize>,
) -> Option<usize> {
    match o {
        Some(t) => if is_waiting(waits, t) {
            holder_of(holders, waits[wait_index(waits, t)].1 as int)
        } else {
            None
        },
        None => None,
    }
}

/// The `k`-th thread on the chain that starts at the holder of mutex `m`.
pub open spec fn chain(
    holders: Seq<Option<usize>>,
    waits: Seq<(usize, usize)>,
    m: int,
    k: nat,
) -> Option<usize>
    decreases k,
{
    if k == 0 {
        holder_of(holders, m)
    } else {
        next_holder(holders, waits, chain(holders, waits, m, (k - 1) as nat))
    }
}

/// Thread `tid` asking for mutex `m` would wait on itself: the chain from
/// `m`'s holder reaches `tid`.
pub open spec fn closes_cycle(
    holders: Seq<Option<usize>>,
    waits: Seq<(usize, usize)>,
    tid: usize,
    m: int,
) -> bool {
    exists|k: nat| #[trigger] chain(holders, waits, m, k) == Some(tid)
}

/// Once the chain ends it stays ended.
pub proof fn lemma_chain_ended(
    holders: Seq<Option<usize>>,
    waits: Seq<(usize, usize)>,
    m: int,
    k: nat,
    k2: nat,
)
    requires
        k <= k2,
        chain(holders, waits, m, k) is None,
    ensures
        chain(holders, waits, m, k2) is None,
    decreases k2,
{
    if k2 > k {
        lemma_chain_ended(holders, waits, m, k, (k2 - 1) as nat);
    }
}

/// The chain repeats once a thread repeats.
pub proof fn lemma_chain_shift(
    holders: Seq<Option<usize>>,
    waits: Seq<(usize, usize)>,
    m: int,
    i: nat,
    j: nat,
    c: nat,
)
    requires
        chain(holders, waits, m, i) == chain(holders, waits, m, j),
    ensures
        chain(holders, waits, m, i + c) == chain(holders, waits, m, j + c),
    decreases c,
{
    if c > 0 {
        lemma_chain_shift(holders, waits, m, i, j, (c - 1) as nat);
        assert(((i + c) - 1) as nat == i + (c - 1) as nat);
        assert(((j + c) - 1) as nat == j + (c - 1) as nat);
    }
}

/// The threads of the waits.
pub open spec fn waiting_tids(waits: Seq<(usize, usize)>) -> Seq<usize> {
    waits.map_values(|e: (usize, usize)| e.0)
}

/// More threads than there are waits cannot all be waiting and distinct.
pub proof fn lemma_pigeonhole(waits: Seq<(usize, usize)>, s: Seq<usize>)
    requires
        s.len() > waits.len(),
        forall|i: int| 0 <= i < s.len() ==> is_waiting(waits, #[trigger] s[i]),
    ensures
        !s.no_duplicates(),
{
    if s.no_duplicates() {
        broadcast use vstd::seq_lib::seq_to_set_is_finite;
        let tids = waiting_tids(waits);
        s.unique_seq_to_set();
        tids.lemma_cardinality_of_set();
        assert(s.to_set().subset_of(tids.to_set())) by {
            assert forall|x: usize| s.to_set().contains(x) implies tids.to_set().contains(x) by {
                let i = choose|i: int| 0 <= i < s.len() && s[i] == x;
                assert(is_waiting(waits, s[i]));
                let w = choose|w: int| 0 <= w < waits.len() && waits[w].0 == s[i];
                assert(tids[w] == x);
            }
        }
        vstd::set_lib::lemma_len_subset(s.to_set(), tids.to_set());
    }
}

/// When the first `waits.len() + 1` threads of the chain are there and none
/// is `tid`, the chain never reaches `tid`: a longer chain passes some waiting
/// thread twice and goes round.
pub proof fn lemma_chain_misses(
    holders: Seq<Option<usize>>,
    waits: Seq<(usize, usize)>,
    m: int,
    tid: usize,
    k: nat,
)
    requires
        forall|kk: nat|
            kk <= waits.len() ==> #[trigger] chain(holders, waits, m, kk) is Some && chain(
                holders,
                waits,
                m,
                kk,
            ) != Some(tid),
    ensures
        chain(holders, waits, m, k) != Some(tid),
    decreases k,
{
    let w = waits.len();
    if k > w && chain(holders, waits, m, k) == Some(tid) {
        if chain(holders, waits, m, w + 1) is None {
            lemma_chain_ended(holders, waits, m, w + 1, k);
        }
        let s = Seq::new(w + 1, |i: int| chain(holders, waits, m, i as nat).unwrap());
        assert forall|i: int| 0 <= i < s.len() implies is_waiting(waits, #[trigger] s[i]) by {
            let n = chain(holders, waits, m, (i + 1) as nat);
            assert(chain(holders, waits, m, i as nat) is Some);
            if i < w {
                assert(n is Some);
            } else {
                assert(i + 1 == w + 1);
            }
            assert(((i + 1) - 1) as nat == i as nat);
        }
        lemma_pigeonhole(waits, s);
        let (a, b) = choose|a: int, b: int| 0 <= a < s.len() && 0 <= b < s.len() && a != b && s[a] == s[b];
        let (i, j) = if a < b {
            (a, b)
        } else {
            (b, a)
        };
        assert(chain(holders, waits, m, i as nat) == chain(holders, waits, m, j as nat));
        let c = (k - j) as nat;
        lemma_chain_shift(holders, waits, m, i as nat, j as nat, c);
        assert(j as nat + c == k);
        lemma_chain_misses(holders, waits, m, tid, (i + c) as nat);
    }
}

/// Some thread waits for resource `r`.
pub open spec fn has_waiter(waits: Seq<(usize, usize)>, r: usize) -> bool {
    exists|i: int| 0 <= i < waits.len() && waits[i].1 == r
}

/// `i` is the earliest wait for resource `r`.
pub open spec fn is_first_waiter(waits: Seq<(usize, usize)>, r: usize, i: int) -> bool {
    &&& 0 <= i < waits.len()
    &&& waits[i].1 == r
    &&& forall|a: int| 0 <= a < i ==> #[trigger] waits[a].1 != r
}

/// The position of the earliest wait for resource `r`.
pub open spec fn first_waiter(waits: Seq<(usize, usize)>, r: usize) -> int {
    choose|i: int| is_first_waiter(waits, r, i)
}

/// Removing one wait keeps the waiters distinct.
pub proof fn lemma_remove_distinct(waits: Seq<(usize, usize)>, k: int)
    requires
        waiters_distinct(waits),
        0 <= k < waits.len(),
    ensures
        waiters_distinct(waits.remove(k)),
        forall|t: usize| #[trigger] is_waiting(waits.remove(k), t) ==> is_waiting(waits, t) && t != waits[k].0,
{
    let r = waits.remove(k);
    waits.remove_ensures(k);
    assert forall|x: int, y: int| 0 <= x < y < r.len() implies r[x].0 != r[y].0 by {
        let x2 = if x < k { x } else { x + 1 };
        let y2 = if y < k { y } else { y + 1 };
        assert(r[x] == waits[x2]);
        assert(r[y] == waits[y2]);
    }
    assert forall|t: usize| #[trigger] is_waiting(r, t) implies is_waiting(waits, t) && t != waits[k].0 by {
        let i = choose|i: int| 0 <= i < r.len() && r[i].0 == t;
        let i2 = if i < k { i } else { i + 1 };
        assert(r[i] == waits[i2]);
    }
}

/// The position of the earliest wait for resource `r`, if any.
pub fn find_first_waiter(waits: &Vec<(usize, usize)>, r: usize) -> (res: Option<usize>)
    ensures
        match res {
            Some(i) => is_first_waiter(waits@, r, i as int) && has_waiter(waits@, r) && first_waiter(
                waits@,
                r,
            ) == i,
            None => !has_waiter(waits@, r),
        },
{
    let mut i: usize = 0;
    while i < waits.len()
        invariant
            i <= waits.len(),
            forall|a: int| 0 <= a < i ==> #[trigger] waits@[a].1 != r,
        decreases waits.len() - i,
    {
        if waits[i].1 == r {
            proof {
                assert(is_first_waiter(waits@, r, i as int));
                let c = first_waiter(waits@, r);
                assert(is_first_waiter(waits@, r, c));
                if c < i {
                    assert(waits@[c].1 != r);
                } else if c > i {
                    assert(waits@[i as int].1 != r);
                }
            }
            return Some(i);
        }
        i = i + 1;
    }
    None
}

/// The position of thread `t`'s wait, if it waits.
pub fn find_wait(waits: &Vec<(usize, usize)>, t: usize) -> (r: Option<usize>)
    requires
        waiters_distinct(waits@),
    ensures
        match r {
            Some(i) => i < waits.len() && waits@[i as int].0 == t && is_waiting(waits@, t) && wait_index(
                waits@,
                t,
            ) == i,
            None => !is_waiting(waits@, t),
        },
{
    let mut i: usize = 0;
    while i < waits.len()
        invariant
            i <= waits.len(),
            waiters_distinct(waits@),
            forall|a: int| 0 <= a < i ==> waits@[a].0 != t,
        decreases waits.len() - i,
    {
        if waits[i].0 == t {
            proof {
                assert(is_waiting(waits@, t));
                let c = wait_index(waits@, t);
                assert(waits@[c].0 == t);
                if c < i {
                    assert(waits@[c].0 != waits@[i as int].0);
                } else if c > i {
                    assert(waits@[i as int].0 != waits@[c].0);
                }
            }
            return Some(i);
        }
        i = i + 1;
    }
    None
}

/// Whether thread `tid` asking for mutex `m` closes a cycle of waits: walks
/// the chain from `m`'s holder, at most one step more than there are waits.
pub fn would_deadlock(
    holders: &Vec<Option<usize>>,
    waits: &Vec<(usize, usize)>,
    tid: usize,
    m: usize,
) -> (r: bool)
    requires
        waiters_distinct(waits@),
    ensures
        r == closes_cycle(holders@, waits@, tid, m as int),
{
    let ghost hs = holders@;
    let ghost ws = waits@;
    let mut cur: Option<usize> = if m < holders.len() {
        holders[m]
    } else {
        None
    };
    let w = waits.len();
    let mut k: usize = 0;
    loop
        invariant
            k <= w,
            hs == holders@,
            ws == waits@,
            w == waits.len(),
            waiters_distinct(ws),
            cur == chain(hs, ws, m as int, k as nat),
            forall|kk: nat| kk < k ==> #[trigger] chain(hs, ws, m as int, kk) is Some && chain(hs, ws, m as int, kk) != Some(tid),
        decreases w - k,
    {
        match cur {
            None => {
                proof {
                    assert forall|kk: nat| #[trigger] chain(hs, ws, m as int, kk) != Some(tid) by {
                        if kk >= k {
                            lemma_chain_ended(hs, ws, m as int, k as nat, kk);
                        }
                    }
                }
                return false;
            },
            Some(t) => {
                if t == tid {
                    return true;
                }
                if k == w {
                    proof {
                        assert forall|kk: nat| #[trigger] chain(hs, ws, m as int, kk) != Some(tid) by {
                            lemma_chain_misses(hs, ws, m as int, tid, kk);
                        }
                    }
                    return false;
                }
                let next = match find_wait(waits, t) {
                    Some(i) => {
                        let mm = waits[i].1;
                        if mm < holders.len() {
                            holders[mm]
                        } else {
                            None
                        }
                    },
                    None => None,
                };
                proof {
                    assert(((k + 1) as nat - 1) as nat == k as nat);
                }
                cur = next;
                k = k + 1;
            },
        }
    }
}

/// Thread `t` waits for a mutex that thread `u` holds.
pub open spec fn waits_on(holders: Seq<Option<usize>>, waits: Seq<(usize, usize)>, t: usize, u: usize) -> bool {
    exists|e: int|
        0 <= e < waits.len() && waits[e].0 == t && (waits[e].1 as int) < holders.len()
            && #[trigger] holders[waits[e].1 as int] == Some(u)
}

/// `path` lists threads from the holder of mutex `m` onward, each waiting
/// for a mutex that the next one holds.
pub open spec fn is_wait_path(
    holders: Seq<Option<usize>>,
    waits: Seq<(usize, usize)>,
    m: int,
    path: Seq<usize>,
) -> bool {
    &&& path.len() > 0
    &&& 0 <= m < holders.len()
    &&& holders[m] == Some(path[0])
    &&& forall|i: int| 0 <= i < path.len() - 1 ==> #[trigger] waits_on(holders, waits, path[i], path[i + 1])
}

/// Along a wait path the chain from `m` names the path's threads in order.
proof fn lemma_path_is_chain(
    holders: Seq<Option<usize>>,
    waits: Seq<(usize, usize)>,
    m: int,
    path: Seq<usize>,
    k: int,
)
    requires
        waiters_distinct(waits),
        is_wait_path(holders, waits, m, path),
        0 <= k < path.len(),
    ensures
        chain(holders, waits, m, k as nat) == Some(path[k]),
    decreases k,
{
    if k > 0 {
        lemma_path_is_chain(holders, waits, m, path, k - 1);
        let t = path[k - 1];
        assert(waits_on(holders, waits, path[k - 1], path[(k - 1) + 1]));
        let e = choose|e: int|
            0 <= e < waits.len() && waits[e].0 == t && (waits[e].1 as int) < holders.len()
                && #[trigger] holders[waits[e].1 as int] == Some(path[k]);
        assert(is_waiting(waits, t));
        let c = wait_index(waits, t);
        if c < e {
            assert(waits[c].0 != waits[e].0);
        } else if c > e {
            assert(waits[e].0 != waits[c].0);
        }
        assert(((k as nat) - 1) as nat == (k - 1) as nat);
    }
}

/// A lock request closes a cycle of waits exactly when there is a wait path,
/// of any length, from the mutex's holder to the requesting thread: the
/// holder waits for a mutex whose holder waits for a mutex ... held by the
/// requester.
pub proof fn lemma_cycle_iff_wait_path(
    holders: Seq<Option<usize>>,
    waits: Seq<(usize, usize)>,
    tid: usize,
    m: int,
)
    requires
        waiters_distinct(waits),
    ensures
        closes_cycle(holders, waits, tid, m) <==> exists|path: Seq<usize>|
            is_wait_path(holders, waits, m, path) && #[trigger] path.last() == tid,
{
    if exists|path: Seq<usize>| is_wait_path(holders, waits, m, path) && #[trigger] path.last() == tid {
        let path = choose|path: Seq<usize>| is_wait_path(holders, waits, m, path) && #[trigger] path.last() == tid;
        lemma_path_is_chain(holders, waits, m, path, path.len() - 1);
        assert(chain(holders, waits, m, (path.len() - 1) as nat) == Some(tid));
    }
    if closes_cycle(holders, waits, tid, m) {
        let k = choose|k: nat| #[trigger] chain(holders, waits, m, k) == Some(tid);
        assert forall|i: nat| i <= k implies #[trigger] chain(holders, waits, m, i) is Some by {
            if chain(holders, waits, m, i) is None {
                lemma_chain_ended(holders, waits, m, i, k);
            }
        }
        let path = Seq::new(k + 1, |i: int| chain(holders, waits, m, i as nat).unwrap());
        assert(chain(holders, waits, m, 0) is Some);
        assert forall|i: int| 0 <= i < path.len() - 1 implies #[trigger] waits_on(holders, waits, path[i], path[i + 1]) by {
            let t = path[i];
            assert(chain(holders, waits, m, i as nat) is Some);
            assert(chain(holders, waits, m, (i + 1) as nat) is Some);
            assert((((i + 1) as nat) - 1) as nat == i as nat);
            assert(chain(holders, waits, m, (i + 1) as nat) == next_holder(holders, waits, Some(t)));
            assert(is_waiting(waits, t));
            let e = wait_index(waits, t);
            assert(waits[e].0 == t);
            assert(holders[waits[e].1 as int] == Some(path[i + 1]));
        }
        assert(path.last() == tid);
        assert(is_wait_path(holders, waits, m, path));
    }
}

/// Threads `0..n` each holding mutex `i` and waiting for mutex `i + 1`, the
/// last asking for mutex 0: the request closes a cycle, whatever `n`.
pub proof fn lemma_ring_closes_cycle(holders: Seq<Option<usize>>, waits: Seq<(usize, usize)>, n: usize)
    requires
        n >= 1,
        waiters_distinct(waits),
        holders.len() >= n,
        forall|i: int| 0 <= i < n ==> #[trigger] holders[i] == Some(i as usize),
        forall|i: int| 0 <= i < n - 1 ==> #[trigger] waits.contains((i as usize, (i + 1) as usize)),
    ensures
        closes_cycle(holders, waits, (n - 1) as usize, 0),
{
    let path = Seq::new(n as nat, |i: int| i as usize);
    assert forall|i: int| 0 <= i < path.len() - 1 implies #[trigger] waits_on(holders, waits, path[i], path[i + 1]) by {
        assert(waits.contains((i as usize, (i + 1) as usize)));
        let e = choose|e: int| 0 <= e < waits.len() && waits[e] == (i as usize, (i + 1) as usize);
        assert(holders[(i + 1)] == Some((i + 1) as usize));
        assert(waits[e].1 as int == i + 1);
    }
    assert(is_wait_path(holders, waits, 0, path));
    assert(path.last() == (n - 1) as usize);
    lemma_cycle_iff_wait_path(holders, waits, (n - 1) as usize, 0);
}

} // verus!
