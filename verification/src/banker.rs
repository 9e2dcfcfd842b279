//! The banker's safety test that guards semaphore requests.
//!
//! A thread's row is a pair of its thread id and one counter per semaphore.
//! `available[j]` is the free count of semaphore `j`, an allocation row says how
//! many units of each semaphore a thread holds, a need row how many it may still
//! ask for. The state is safe when the threads can be run to completion one
//! after the other, each one only when what it still needs is free, and each one
//! giving back what it holds when it finishes.
use vstd::prelude::*;

verus! {

/// Rows as the contracts see them: a thread id and its counters.
pub open spec fn rows(v: Seq<(usize, Vec<usize>)>) -> Seq<(usize, Seq<usize>)> {
    v.map_values(|e: (usize, Vec<usize>)| (e.0, e.1@))
}

/// Counter `j` of a row; a row without that counter holds none.
pub open spec fn at(row: Seq<usize>, j: int) -> usize {
    if 0 <= j < row.len() {
        row[j]
    } else {
        0
    }
}

/// Component `j` of what the allocation rows at the positions `order` hold together.
pub open spec fn released(alloc: Seq<(usize, Seq<usize>)>, order: Seq<int>, j: int) -> int
    decreases order.len(),
{
    if order.len() == 0 {
        0
    } else {
        released(alloc, order.drop_last(), j) + at(alloc[order.last()].1, j)
    }
}

/// The free counters once the threads at the positions `order` have given back
/// what they hold.
pub open spec fn work_after(
    avail: Seq<usize>,
    alloc: Seq<(usize, Seq<usize>)>,
    order: Seq<int>,
) -> Seq<int> {
    Seq::new(avail.len(), |j: int| avail[j] + released(alloc, order, j))
}

/// `n` asks for no more than `w` offers, counter by counter, over the counters
/// that both have.
pub open spec fn covers(n: Seq<usize>, w: Seq<int>) -> bool {
    forall|j: int| 0 <= j < n.len() && j < w.len() ==> n[j] <= w[j]
}

/// Some need row of thread `tid` asks for no more than `w` offers.
pub open spec fn can_finish(need: Seq<(usize, Seq<usize>)>, tid: usize, w: Seq<int>) -> bool {
    exists|k: int| 0 <= k < need.len() && need[k].0 == tid && #[trigger] covers(need[k].1, w)
}

/// The threads at the positions `order` can finish in that order.
pub open spec fn runs_in_order(
    avail: Seq<usize>,
    alloc: Seq<(usize, Seq<usize>)>,
    need: Seq<(usize, Seq<usize>)>,
    order: Seq<int>,
) -> bool
    decreases order.len(),
{
    if order.len() == 0 {
        true
    } else {
        &&& runs_in_order(avail, alloc, need, order.drop_last())
        &&& can_finish(need, alloc[order.last()].0, work_after(avail, alloc, order.drop_last()))
    }
}

/// `order` names each of the positions `0..n` exactly once.
pub open spec fn is_schedule(order: Seq<int>, n: nat) -> bool {
    &&& order.no_duplicates()
    &&& forall|p: int| 0 <= p < order.len() ==> 0 <= #[trigger] order[p] < n
    &&& forall|i: int| 0 <= i < n ==> #[trigger] order.contains(i)
}

/// No thread has two allocation rows.
pub open spec fn tids_distinct(alloc: Seq<(usize, Seq<usize>)>) -> bool {
    forall|a: int, b: int| 0 <= a < b < alloc.len() ==> alloc[a].0 != alloc[b].0
}

/// The row at position `i` is the first one of its thread.
pub open spec fn first_of_tid(alloc: Seq<(usize, Seq<usize>)>, i: int) -> bool {
    forall|a: int| 0 <= a < i ==> alloc[a].0 != alloc[i].0
}

/// The banker's safety condition: every thread has one allocation row, and all
/// of them can be run to completion in some order.
pub open spec fn is_safe_state(
    avail: Seq<usize>,
    alloc: Seq<(usize, Seq<usize>)>,
    need: Seq<(usize, Seq<usize>)>,
) -> bool {
    &&& tids_distinct(alloc)
    &&& exists|order: Seq<int>|
        is_schedule(order, alloc.len()) && #[trigger] runs_in_order(avail, alloc, need, order)
}

/// The positions `0..n` in increasing order.
pub open spec fn all_rows(n: nat) -> Seq<int> {
    Seq::new(n, |i: int| i)
}

/// The free counters plus everything held fit in a `usize`.
pub open spec fn banker_totals_fit(avail: Seq<usize>, alloc: Seq<(usize, Seq<usize>)>) -> bool {
    forall|j: int|
        0 <= j < avail.len() ==> avail[j] + #[trigger] released(alloc, all_rows(alloc.len()), j)
            <= usize::MAX
}

/// The threads of `o` are at their first rows.
pub open spec fn first_rows(alloc: Seq<(usize, Seq<usize>)>, o: Seq<int>) -> bool {
    forall|p: int| 0 <= p < o.len() ==> first_of_tid(alloc, #[trigger] o[p])
}

/// A thread whose allocation row lacks a counter for some semaphore never
/// gets to finish: after any runnable order, none of its need rows fits.
pub open spec fn short_rows_stuck(
    avail: Seq<usize>,
    alloc: Seq<(usize, Seq<usize>)>,
    need: Seq<(usize, Seq<usize>)>,
) -> bool {
    forall|o: Seq<int>, i: int|
        #![trigger runs_in_order(avail, alloc, need, o), alloc[i]]
        o.no_duplicates() && in_rows(o, alloc.len()) && first_rows(alloc, o) && runs_in_order(
            avail,
            alloc,
            need,
            o,
        ) && 0 <= i < alloc.len() && first_of_tid(alloc, i) && !o.contains(i) && alloc[i].1.len()
            < avail.len() ==> !can_finish(need, alloc[i].0, work_after(avail, alloc, o))
}

/// What the safety test needs to run without a fault: the sums it forms fit
/// in a `usize`, and it never gives back a row that lacks a counter.
pub open spec fn banker_fits(
    avail: Seq<usize>,
    alloc: Seq<(usize, Seq<usize>)>,
    need: Seq<(usize, Seq<usize>)>,
) -> bool {
    &&& banker_totals_fit(avail, alloc)
    &&& short_rows_stuck(avail, alloc, need)
}

/// `released` is a sum of non-negative terms.
pub proof fn lemma_released_nonneg(alloc: Seq<(usize, Seq<usize>)>, order: Seq<int>, j: int)
    ensures
        released(alloc, order, j) >= 0,
    decreases order.len(),
{
    if order.len() > 0 {
        lemma_released_nonneg(alloc, order.drop_last(), j);
    }
}

/// Taking one position out of `t` takes its row out of the sum.
pub proof fn lemma_released_remove(alloc: Seq<(usize, Seq<usize>)>, t: Seq<int>, k: int, j: int)
    requires
        0 <= k < t.len(),
    ensures
        released(alloc, t, j) == released(alloc, t.remove(k), j) + at(alloc[t[k]].1, j),
    decreases t.len(),
{
    if k == t.len() - 1 {
        assert(t.remove(k) =~= t.drop_last());
    } else {
        let d = t.drop_last();
        lemma_released_remove(alloc, d, k, j);
        assert(t.remove(k).drop_last() =~= d.remove(k));
        assert(t.remove(k).last() == t.last());
        assert(d[k] == t[k]);
    }
}

/// Every position of `s` is one of `t`, and neither repeats a position: then `s`
/// holds no more than `t` does.
pub proof fn lemma_released_subset(
    alloc: Seq<(usize, Seq<usize>)>,
    s: Seq<int>,
    t: Seq<int>,
    j: int,
)
    requires
        s.no_duplicates(),
        t.no_duplicates(),
        forall|p: int| 0 <= p < s.len() ==> t.contains(#[trigger] s[p]),
    ensures
        released(alloc, s, j) <= released(alloc, t, j),
    decreases s.len(),
{
    if s.len() == 0 {
        lemma_released_nonneg(alloc, t, j);
    } else {
        let x = s.last();
        let s2 = s.drop_last();
        assert(t.contains(s[s.len() - 1]));
        let k = choose|k: int| 0 <= k < t.len() && t[k] == x;
        let t2 = t.remove(k);
        t.remove_ensures(k);
        lemma_released_remove(alloc, t, k, j);
        assert forall|p: int| 0 <= p < s2.len() implies t2.contains(#[trigger] s2[p]) by {
            assert(s[p] == s2[p]);
            assert(t.contains(s[p]));
            let q = choose|q: int| 0 <= q < t.len() && t[q] == s[p];
            assert(s[p] != x);
            assert(q != k);
            if q < k {
                assert(t2[q] == t[q]);
            } else {
                assert(t2[q - 1] == t[q]);
            }
        }
        assert forall|a: int, b: int|
            0 <= a < t2.len() && 0 <= b < t2.len() && a != b implies t2[a] != t2[b] by {
            let a2 = if a < k {
                a
            } else {
                a + 1
            };
            let b2 = if b < k {
                b
            } else {
                b + 1
            };
            assert(t2[a] == t[a2]);
            assert(t2[b] == t[b2]);
        }
        lemma_released_subset(alloc, s2, t2, j);
    }
}

/// A request that fits one offer fits a larger one.
pub proof fn lemma_covers_monotone(n: Seq<usize>, w1: Seq<int>, w2: Seq<int>)
    requires
        covers(n, w1),
        w1.len() == w2.len(),
        forall|j: int| 0 <= j < w1.len() ==> w1[j] <= w2[j],
    ensures
        covers(n, w2),
{
}

/// A prefix of a runnable order is runnable.
pub proof fn lemma_runs_prefix(
    avail: Seq<usize>,
    alloc: Seq<(usize, Seq<usize>)>,
    need: Seq<(usize, Seq<usize>)>,
    order: Seq<int>,
    q: int,
)
    requires
        0 <= q <= order.len(),
        runs_in_order(avail, alloc, need, order),
    ensures
        runs_in_order(avail, alloc, need, order.take(q)),
    decreases order.len() - q,
{
    if q == order.len() {
        assert(order.take(q) =~= order);
    } else {
        lemma_runs_prefix(avail, alloc, need, order.drop_last(), q);
        assert(order.drop_last().take(q) =~= order.take(q));
    }
}

/// In a runnable order, the thread at position `p` can finish once those before
/// it have.
pub proof fn lemma_runs_step(
    avail: Seq<usize>,
    alloc: Seq<(usize, Seq<usize>)>,
    need: Seq<(usize, Seq<usize>)>,
    order: Seq<int>,
    p: int,
)
    requires
        0 <= p < order.len(),
        runs_in_order(avail, alloc, need, order),
    ensures
        can_finish(need, alloc[order[p]].0, work_after(avail, alloc, order.take(p))),
{
    lemma_runs_prefix(avail, alloc, need, order, p + 1);
    let pre = order.take(p + 1);
    assert(pre.drop_last() =~= order.take(p));
    assert(pre.last() == order[p]);
}

/// The first position of `o` that `s` does not hold.
pub proof fn lemma_first_outside(o: Seq<int>, s: Seq<int>, u: int) -> (p: int)
    requires
        o.contains(u),
        !s.contains(u),
    ensures
        0 <= p < o.len(),
        !s.contains(o[p]),
        forall|q: int| 0 <= q < p ==> s.contains(#[trigger] o[q]),
    decreases o.len(),
{
    if !s.contains(o[0]) {
        0
    } else {
        let i = choose|i: int| 0 <= i < o.len() && o[i] == u;
        assert(i != 0);
        let rest = o.skip(1);
        assert(rest[i - 1] == u);
        let p2 = lemma_first_outside(rest, s, u);
        assert forall|q: int| 0 <= q < p2 + 1 implies s.contains(#[trigger] o[q]) by {
            if q > 0 {
                assert(o[q] == rest[q - 1]);
            }
        }
        assert(o[p2 + 1] == rest[p2]);
        p2 + 1
    }
}

/// Every need row of a thread that has not finished asks for more than is free:
/// no such thread can take a step.
pub open spec fn stuck(
    alloc: Seq<(usize, Seq<usize>)>,
    need: Seq<(usize, Seq<usize>)>,
    done: Seq<int>,
    w: Seq<int>,
) -> bool {
    forall|k: int, i: int|
        #![trigger need[k], alloc[i]]
        0 <= k < need.len() && 0 <= i < alloc.len() && alloc[i].0 == need[k].0 && first_of_tid(
            alloc,
            i,
        ) && !done.contains(i) ==> !covers(need[k].1, w)
}

/// When the threads that could finish have done so and a thread is left that
/// cannot, no order runs them all: the state is not safe.
pub proof fn lemma_stuck_unsafe(
    avail: Seq<usize>,
    alloc: Seq<(usize, Seq<usize>)>,
    need: Seq<(usize, Seq<usize>)>,
    done: Seq<int>,
    u: int,
)
    requires
        done.no_duplicates(),
        0 <= u < alloc.len(),
        !done.contains(u),
        stuck(alloc, need, done, work_after(avail, alloc, done)),
    ensures
        !is_safe_state(avail, alloc, need),
{
    if is_safe_state(avail, alloc, need) {
        let o = choose|o: Seq<int>|
            is_schedule(o, alloc.len()) && #[trigger] runs_in_order(avail, alloc, need, o);
        assert(o.contains(u));
        let p = lemma_first_outside(o, done, u);
        let i = o[p];
        lemma_runs_step(avail, alloc, need, o, p);
        let pre = o.take(p);
        let wp = work_after(avail, alloc, pre);
        let wd = work_after(avail, alloc, done);
        let k = choose|k: int|
            0 <= k < need.len() && need[k].0 == alloc[i].0 && #[trigger] covers(need[k].1, wp);
        assert forall|a: int, b: int|
            0 <= a < pre.len() && 0 <= b < pre.len() && a != b implies pre[a] != pre[b] by {
            assert(pre[a] == o[a]);
            assert(pre[b] == o[b]);
        }
        assert forall|j: int| 0 <= j < wp.len() implies wp[j] <= wd[j] by {
            assert forall|q: int| 0 <= q < pre.len() implies done.contains(#[trigger] pre[q]) by {
                assert(pre[q] == o[q]);
            }
            lemma_released_subset(alloc, pre, done, j);
        }
        lemma_covers_monotone(need[k].1, wp, wd);
        assert(first_of_tid(alloc, i));
        assert(covers(need[k].1, wd));
    }
}

/// Changing one allocation row changes what a set of positions holds only when
/// the set holds that row.
pub proof fn lemma_released_change_row(
    alloc: Seq<(usize, Seq<usize>)>,
    r: int,
    c: Seq<usize>,
    o: Seq<int>,
    j: int,
)
    requires
        o.no_duplicates(),
        0 <= r < alloc.len(),
        forall|p: int| 0 <= p < o.len() ==> 0 <= #[trigger] o[p] < alloc.len(),
    ensures
        released(alloc.update(r, (alloc[r].0, c)), o, j) == released(alloc, o, j) + if o.contains(
            r,
        ) {
            at(c, j) - at(alloc[r].1, j)
        } else {
            0
        },
    decreases o.len(),
{
    if o.len() > 0 {
        let d = o.drop_last();
        assert forall|a: int, b: int| 0 <= a < d.len() && 0 <= b < d.len() && a != b implies d[a] != d[b] by {
            assert(d[a] == o[a]);
            assert(d[b] == o[b]);
        }
        assert forall|p: int| 0 <= p < d.len() implies 0 <= #[trigger] d[p] < alloc.len() by {
            assert(d[p] == o[p]);
        }
        lemma_released_change_row(alloc, r, c, d, j);
        let x = o.last();
        if x == r {
            if d.contains(r) {
                let q = choose|q: int| 0 <= q < d.len() && d[q] == r;
                assert(o[q] == o[o.len() - 1]);
            }
        } else {
            if o.contains(r) {
                let q = choose|q: int| 0 <= q < o.len() && o[q] == r;
                assert(d[q] == r);
            }
            if d.contains(r) {
                let q = choose|q: int| 0 <= q < d.len() && d[q] == r;
                assert(o[q] == r);
            }
        }
    }
}

/// Every position of `q` is a row of a table of `n` rows.
pub open spec fn in_rows(q: Seq<int>, n: nat) -> bool {
    forall|p: int| 0 <= p < q.len() ==> 0 <= #[trigger] q[p] < n
}

/// `w2` offers at least as much as `w`, counter by counter.
pub open spec fn dominates(w2: Seq<int>, w: Seq<int>) -> bool {
    &&& w2.len() == w.len()
    &&& forall|j: int| 0 <= j < w.len() ==> w[j] <= #[trigger] w2[j]
}

/// With the same threads and needs and at least as much free after any set of
/// finished threads, an order that ran still runs.
pub proof fn lemma_runs_monotone(
    avail: Seq<usize>,
    alloc: Seq<(usize, Seq<usize>)>,
    avail2: Seq<usize>,
    alloc2: Seq<(usize, Seq<usize>)>,
    need: Seq<(usize, Seq<usize>)>,
    o: Seq<int>,
)
    requires
        runs_in_order(avail, alloc, need, o),
        o.no_duplicates(),
        alloc2.len() == alloc.len(),
        forall|i: int| 0 <= i < alloc.len() ==> #[trigger] alloc2[i].0 == alloc[i].0,
        forall|p: int| 0 <= p < o.len() ==> 0 <= #[trigger] o[p] < alloc.len(),
        forall|q: Seq<int>|
            q.no_duplicates() && in_rows(q, alloc.len()) ==> dominates(
                #[trigger] work_after(avail2, alloc2, q),
                work_after(avail, alloc, q),
            ),
    ensures
        runs_in_order(avail2, alloc2, need, o),
    decreases o.len(),
{
    if o.len() > 0 {
        let d = o.drop_last();
        assert forall|a: int, b: int| 0 <= a < d.len() && 0 <= b < d.len() && a != b implies d[a] != d[b] by {
            assert(d[a] == o[a]);
            assert(d[b] == o[b]);
        }
        assert forall|p: int| 0 <= p < d.len() implies 0 <= #[trigger] d[p] < alloc.len() by {
            assert(d[p] == o[p]);
        }
        lemma_runs_monotone(avail, alloc, avail2, alloc2, need, d);
        assert(in_rows(d, alloc.len()));
        let w = work_after(avail, alloc, d);
        let w2 = work_after(avail2, alloc2, d);
        assert(dominates(w2, w));
        let x = o.last();
        assert(0 <= x < alloc.len());
        assert(alloc2[x].0 == alloc[x].0);
        let k = choose|k: int| 0 <= k < need.len() && need[k].0 == alloc[x].0 && #[trigger] covers(need[k].1, w);
        lemma_covers_monotone(need[k].1, w, w2);
        assert(covers(need[k].1, w2));
    }
}

/// Rows read the same at the positions of `q`: so does what those positions hold.
pub proof fn lemma_released_same_rows(
    alloc: Seq<(usize, Seq<usize>)>,
    alloc2: Seq<(usize, Seq<usize>)>,
    q: Seq<int>,
    j: int,
)
    requires
        forall|p: int| 0 <= p < q.len() ==> #[trigger] at(alloc2[q[p]].1, j) == at(alloc[q[p]].1, j),
    ensures
        released(alloc2, q, j) == released(alloc, q, j),
    decreases q.len(),
{
    if q.len() > 0 {
        let d = q.drop_last();
        assert forall|p: int| 0 <= p < d.len() implies #[trigger] at(alloc2[d[p]].1, j) == at(alloc[d[p]].1, j) by {
            assert(d[p] == q[p]);
        }
        lemma_released_same_rows(alloc, alloc2, d, j);
        assert(at(alloc2[q[q.len() - 1]].1, j) == at(alloc[q[q.len() - 1]].1, j));
    }
}

/// Adding rows behind the existing ones leaves an order of existing rows
/// runnable.
pub proof fn lemma_runs_extend(
    avail: Seq<usize>,
    alloc: Seq<(usize, Seq<usize>)>,
    need: Seq<(usize, Seq<usize>)>,
    alloc2: Seq<(usize, Seq<usize>)>,
    need2: Seq<(usize, Seq<usize>)>,
    o: Seq<int>,
)
    requires
        runs_in_order(avail, alloc, need, o),
        in_rows(o, alloc.len()),
        alloc2.len() >= alloc.len(),
        need2.len() >= need.len(),
        forall|i: int| 0 <= i < alloc.len() ==> #[trigger] alloc2[i] == alloc[i],
        forall|i: int| 0 <= i < need.len() ==> #[trigger] need2[i] == need[i],
    ensures
        runs_in_order(avail, alloc2, need2, o),
    decreases o.len(),
{
    if o.len() > 0 {
        let d = o.drop_last();
        assert(in_rows(d, alloc.len())) by {
            assert forall|p: int| 0 <= p < d.len() implies 0 <= #[trigger] d[p] < alloc.len() by {
                assert(d[p] == o[p]);
            }
        }
        lemma_runs_extend(avail, alloc, need, alloc2, need2, d);
        assert forall|j: int| 0 <= j < avail.len() implies released(alloc2, d, j) == released(alloc, d, j) by {
            assert forall|p: int| 0 <= p < d.len() implies #[trigger] at(alloc2[d[p]].1, j) == at(alloc[d[p]].1, j) by {
                assert(alloc2[d[p]] == alloc[d[p]]);
            }
            lemma_released_same_rows(alloc, alloc2, d, j);
        }
        assert(work_after(avail, alloc2, d) =~= work_after(avail, alloc, d));
        let x = o.last();
        assert(alloc2[x] == alloc[x]);
        let w = work_after(avail, alloc, d);
        let k = choose|k: int| 0 <= k < need.len() && need[k].0 == alloc[x].0 && #[trigger] covers(need[k].1, w);
        assert(need2[k] == need[k]);
        assert(covers(need2[k].1, w));
    }
}

/// Every row with one more counter, at zero.
pub open spec fn padded(rs: Seq<(usize, Seq<usize>)>) -> Seq<(usize, Seq<usize>)> {
    rs.map_values(|e: (usize, Seq<usize>)| (e.0, e.1.push(0usize)))
}

/// A new semaphore whose units are all free, with zero held and needed by
/// every thread, leaves an order that ran runnable.
pub proof fn lemma_runs_pad(
    avail: Seq<usize>,
    alloc: Seq<(usize, Seq<usize>)>,
    need: Seq<(usize, Seq<usize>)>,
    c: usize,
    o: Seq<int>,
)
    requires
        runs_in_order(avail, alloc, need, o),
        in_rows(o, alloc.len()),
        forall|i: int| 0 <= i < alloc.len() ==> #[trigger] alloc[i].1.len() == avail.len(),
        forall|i: int| 0 <= i < need.len() ==> #[trigger] need[i].1.len() == avail.len(),
    ensures
        runs_in_order(avail.push(c), padded(alloc), padded(need), o),
    decreases o.len(),
{
    if o.len() > 0 {
        let d = o.drop_last();
        assert(in_rows(d, alloc.len())) by {
            assert forall|p: int| 0 <= p < d.len() implies 0 <= #[trigger] d[p] < alloc.len() by {
                assert(d[p] == o[p]);
            }
        }
        lemma_runs_pad(avail, alloc, need, c, d);
        let m = avail.len() as int;
        let pa = padded(alloc);
        assert forall|j: int| 0 <= j < m implies released(pa, d, j) == released(alloc, d, j) by {
            assert forall|p: int| 0 <= p < d.len() implies #[trigger] at(pa[d[p]].1, j) == at(alloc[d[p]].1, j) by {
                assert(d[p] == o[p]);
            }
            lemma_released_same_rows(alloc, pa, d, j);
        }
        let zero_rows = Seq::new(alloc.len(), |i: int| (alloc[i].0, Seq::new(m as nat + 1, |jj: int| 0usize)));
        assert(released(pa, d, m) == 0) by {
            assert forall|p: int| 0 <= p < d.len() implies #[trigger] at(pa[d[p]].1, m) == at(zero_rows[d[p]].1, m) by {
                assert(d[p] == o[p]);
                assert(alloc[d[p]].1.len() == m);
            }
            lemma_released_same_rows(zero_rows, pa, d, m);
            lemma_released_zero(zero_rows, d, m);
        }
        let w = work_after(avail, alloc, d);
        let w2 = work_after(avail.push(c), pa, d);
        let x = o.last();
        let k = choose|k: int| 0 <= k < need.len() && need[k].0 == alloc[x].0 && #[trigger] covers(need[k].1, w);
        let pn = padded(need);
        assert(covers(pn[k].1, w2)) by {
            assert forall|j: int| 0 <= j < pn[k].1.len() && j < w2.len() implies pn[k].1[j] <= w2[j] by {
                if j < m {
                    assert(pn[k].1[j] == need[k].1[j]);
                    assert(w2[j] == w[j]);
                } else {
                    assert(pn[k].1[j] == 0);
                }
            }
        }
        assert(pa[x].0 == alloc[x].0);
    }
}

/// Rows that hold nothing of counter `j` hold nothing together.
pub proof fn lemma_released_zero(alloc: Seq<(usize, Seq<usize>)>, q: Seq<int>, j: int)
    requires
        forall|p: int| 0 <= p < q.len() ==> #[trigger] at(alloc[q[p]].1, j) == 0,
    ensures
        released(alloc, q, j) == 0,
    decreases q.len(),
{
    if q.len() > 0 {
        let d = q.drop_last();
        assert forall|p: int| 0 <= p < d.len() implies #[trigger] at(alloc[d[p]].1, j) == 0 by {
            assert(d[p] == q[p]);
        }
        lemma_released_zero(alloc, d, j);
        assert(at(alloc[q[q.len() - 1]].1, j) == 0);
    }
}

/// The rows of `s` in the order that `p` names them.
pub open spec fn permuted(s: Seq<(usize, Seq<usize>)>, p: Seq<int>) -> Seq<(usize, Seq<usize>)> {
    Seq::new(p.len(), |i: int| s[p[i]])
}

/// Where `x` stands in `s`.
pub open spec fn pos(s: Seq<int>, x: int) -> int {
    choose|i: int| 0 <= i < s.len() && s[i] == x
}

/// In an ordering of `0..n`, each position is found where it stands.
pub proof fn lemma_pos(s: Seq<int>, n: nat)
    requires
        is_schedule(s, n),
    ensures
        forall|x: int| 0 <= x < n ==> 0 <= #[trigger] pos(s, x) < s.len() && s[pos(s, x)] == x,
        forall|i: int| 0 <= i < s.len() ==> #[trigger] pos(s, s[i]) == i,
{
    assert forall|x: int| 0 <= x < n implies 0 <= #[trigger] pos(s, x) < s.len() && s[pos(s, x)] == x by {
        assert(s.contains(x));
    }
    assert forall|i: int| 0 <= i < s.len() implies #[trigger] pos(s, s[i]) == i by {
        assert(s.contains(s[i]));
        let c = pos(s, s[i]);
        assert(s[c] == s[i]);
    }
}

/// Orders that name the same rows position by position hold the same.
pub proof fn lemma_released_relabel(
    alloc: Seq<(usize, Seq<usize>)>,
    alloc2: Seq<(usize, Seq<usize>)>,
    o: Seq<int>,
    o2: Seq<int>,
    j: int,
)
    requires
        o.len() == o2.len(),
        forall|p: int| 0 <= p < o.len() ==> #[trigger] alloc2[o2[p]] == alloc[o[p]],
    ensures
        released(alloc2, o2, j) == released(alloc, o, j),
    decreases o.len(),
{
    if o.len() > 0 {
        let d = o.drop_last();
        let d2 = o2.drop_last();
        assert forall|p: int| 0 <= p < d.len() implies #[trigger] alloc2[d2[p]] == alloc[d[p]] by {
            assert(d2[p] == o2[p]);
            assert(d[p] == o[p]);
        }
        lemma_released_relabel(alloc, alloc2, d, d2, j);
        assert(alloc2[o2[o.len() - 1]] == alloc[o[o.len() - 1]]);
    }
}

/// An order that runs still runs with its rows relabelled and the need rows
/// reordered.
pub proof fn lemma_runs_relabel(
    avail: Seq<usize>,
    alloc: Seq<(usize, Seq<usize>)>,
    need: Seq<(usize, Seq<usize>)>,
    alloc2: Seq<(usize, Seq<usize>)>,
    pn: Seq<int>,
    o: Seq<int>,
    o2: Seq<int>,
)
    requires
        runs_in_order(avail, alloc, need, o),
        o.len() == o2.len(),
        forall|p: int| 0 <= p < o.len() ==> #[trigger] alloc2[o2[p]] == alloc[o[p]],
        is_schedule(pn, need.len()),
    ensures
        runs_in_order(avail, alloc2, permuted(need, pn), o2),
    decreases o.len(),
{
    if o.len() > 0 {
        let d = o.drop_last();
        let d2 = o2.drop_last();
        assert forall|p: int| 0 <= p < d.len() implies #[trigger] alloc2[d2[p]] == alloc[d[p]] by {
            assert(d2[p] == o2[p]);
            assert(d[p] == o[p]);
        }
        lemma_runs_relabel(avail, alloc, need, alloc2, pn, d, d2);
        assert forall|j: int| 0 <= j < avail.len() implies released(alloc2, d2, j) == released(alloc, d, j) by {
            lemma_released_relabel(alloc, alloc2, d, d2, j);
        }
        let w = work_after(avail, alloc, d);
        assert(work_after(avail, alloc2, d2) =~= w);
        let x = o.last();
        assert(alloc2[o2.last()] == alloc[x]);
        let k = choose|k: int| 0 <= k < need.len() && need[k].0 == alloc[x].0 && #[trigger] covers(need[k].1, w);
        lemma_pos(pn, need.len());
        let k2 = pos(pn, k);
        let need2 = permuted(need, pn);
        assert(need2[k2] == need[k]);
        assert(covers(need2[k2].1, w));
    }
}

/// Reordering the allocation rows by `pa` and the need rows by `pn` keeps a
/// safe state safe.
pub proof fn lemma_safe_permuted(
    avail: Seq<usize>,
    alloc: Seq<(usize, Seq<usize>)>,
    need: Seq<(usize, Seq<usize>)>,
    pa: Seq<int>,
    pn: Seq<int>,
)
    requires
        is_schedule(pa, alloc.len()),
        is_schedule(pn, need.len()),
        is_safe_state(avail, alloc, need),
    ensures
        is_safe_state(avail, permuted(alloc, pa), permuted(need, pn)),
{
    let n = alloc.len();
    let alloc2 = permuted(alloc, pa);
    let o = choose|o: Seq<int>| is_schedule(o, n) && #[trigger] runs_in_order(avail, alloc, need, o);
    lemma_pos(pa, n);
    let o2 = Seq::new(o.len(), |p: int| pos(pa, o[p]));
    assert forall|p: int| 0 <= p < o.len() implies #[trigger] alloc2[o2[p]] == alloc[o[p]] by {
        assert(0 <= o[p] < n);
    }
    lemma_runs_relabel(avail, alloc, need, alloc2, pn, o, o2);
    assert(is_schedule(o2, alloc2.len())) by {
        assert forall|a: int, b: int| 0 <= a < o2.len() && 0 <= b < o2.len() && a != b implies o2[a] != o2[b] by {
            assert(0 <= o[a] < n && 0 <= o[b] < n);
            assert(pa[o2[a]] == o[a]);
            assert(pa[o2[b]] == o[b]);
        }
        assert forall|p: int| 0 <= p < o2.len() implies 0 <= #[trigger] o2[p] < alloc2.len() by {
            assert(0 <= o[p] < n);
        }
        assert forall|i: int| 0 <= i < alloc2.len() implies #[trigger] o2.contains(i) by {
            assert(0 <= pa[i] < n);
            assert(o.contains(pa[i]));
            let q = choose|q: int| 0 <= q < o.len() && o[q] == pa[i];
            assert(o2[q] == pos(pa, pa[i]));
        }
    }
    assert(tids_distinct(alloc2)) by {
        assert forall|a: int, b: int| 0 <= a < b < alloc2.len() implies alloc2[a].0 != alloc2[b].0 by {
            assert(pa[a] != pa[b]);
            assert(0 <= pa[a] < n && 0 <= pa[b] < n);
            if pa[a] < pa[b] {
                assert(alloc[pa[a]].0 != alloc[pa[b]].0);
            } else {
                assert(alloc[pa[b]].0 != alloc[pa[a]].0);
            }
        }
    }
}

/// The positions that undo the ordering `p`.
pub open spec fn inverse(p: Seq<int>) -> Seq<int> {
    Seq::new(p.len(), |x: int| pos(p, x))
}

/// The inverse of an ordering of `0..n` is one, and undoes it.
pub proof fn lemma_inverse(s: Seq<(usize, Seq<usize>)>, p: Seq<int>)
    requires
        is_schedule(p, s.len()),
        p.len() == s.len(),
    ensures
        is_schedule(inverse(p), s.len()),
        permuted(permuted(s, p), inverse(p)) =~= s,
{
    let n = s.len();
    let q = inverse(p);
    lemma_pos(p, n);
    assert forall|a: int, b: int| 0 <= a < q.len() && 0 <= b < q.len() && a != b implies q[a] != q[b] by {
        assert(p[q[a]] == a);
        assert(p[q[b]] == b);
    }
    assert forall|i: int| 0 <= i < n implies #[trigger] q.contains(i) by {
        assert(q[p[i]] == i);
    }
    assert forall|x: int| 0 <= x < n implies #[trigger] permuted(permuted(s, p), q)[x] == s[x] by {
        assert(p[q[x]] == x);
    }
}

/// Every position of a smaller range is one of a larger range.
pub proof fn lemma_all_rows_grow(k: nat, n: nat, alloc: Seq<(usize, Seq<usize>)>, j: int)
    requires
        k <= n,
    ensures
        released(alloc, all_rows(k), j) <= released(alloc, all_rows(n), j),
{
    let s = all_rows(k);
    let t = all_rows(n);
    assert forall|p: int| 0 <= p < s.len() implies t.contains(#[trigger] s[p]) by {
        assert(t[p] == s[p]);
    }
    lemma_released_subset(alloc, s, t, j);
}

/// Whether the free counters plus everything held fit in a `usize`.
pub fn totals_fit(available: &Vec<usize>, allocation: &Vec<(usize, Vec<usize>)>) -> (r: bool)
    ensures
        r == banker_totals_fit(available@, rows(allocation@)),
{
    let ghost alloc = rows(allocation@);
    let n = allocation.len();
    let mut j: usize = 0;
    while j < available.len()
        invariant
            j <= available.len(),
            n == allocation.len(),
            alloc == rows(allocation@),
            forall|a: int| 0 <= a < j ==> available@[a] + #[trigger] released(alloc, all_rows(alloc.len()), a) <= usize::MAX,
        decreases available.len() - j,
    {
        let mut sum: usize = available[j];
        let mut i: usize = 0;
        while i < n
            invariant
                i <= n,
                n == allocation.len(),
                alloc == rows(allocation@),
                j < available.len(),
                sum == available@[j as int] + released(alloc, all_rows(i as nat), j as int),
            decreases n - i,
        {
            let row = &allocation[i].1;
            let x: usize = if j < row.len() {
                row[j]
            } else {
                0
            };
            proof {
                assert(all_rows((i + 1) as nat).drop_last() =~= all_rows(i as nat));
                assert(all_rows((i + 1) as nat).last() == i);
                assert(x == at(alloc[i as int].1, j as int));
            }
            if x > usize::MAX - sum {
                proof {
                    lemma_all_rows_grow((i + 1) as nat, n as nat, alloc, j as int);
                    assert(alloc.len() == n);
                }
                return false;
            }
            sum = sum + x;
            i = i + 1;
        }
        proof {
            assert(alloc.len() == n);
        }
        j = j + 1;
    }
    true
}

/// Counters as integers.
pub open spec fn as_ints(w: Seq<usize>) -> Seq<int> {
    w.map_values(|x: usize| x as int)
}

/// How many entries of `f` are set.
pub open spec fn count_set(f: Seq<bool>) -> nat
    decreases f.len(),
{
    if f.len() == 0 {
        0
    } else {
        count_set(f.drop_last()) + if f.last() {
            1nat
        } else {
            0nat
        }
    }
}

/// No more entries are set than there are.
pub proof fn lemma_count_set_bound(f: Seq<bool>)
    ensures
        count_set(f) <= f.len(),
    decreases f.len(),
{
    if f.len() > 0 {
        lemma_count_set_bound(f.drop_last());
    }
}

/// Setting an entry that was clear adds one to the count.
pub proof fn lemma_count_set_update(f: Seq<bool>, i: int)
    requires
        0 <= i < f.len(),
        !f[i],
    ensures
        count_set(f.update(i, true)) == count_set(f) + 1,
    decreases f.len(),
{
    let g = f.update(i, true);
    if i == f.len() - 1 {
        assert(g.drop_last() =~= f.drop_last());
    } else {
        lemma_count_set_update(f.drop_last(), i);
        assert(g.drop_last() =~= f.drop_last().update(i, true));
    }
}

/// The position of the first row of thread `tid`, if it has one.
pub fn find_row(rows: &Vec<(usize, Vec<usize>)>, tid: usize) -> (r: Option<usize>)
    ensures
        match r {
            Some(i) => i < rows.len() && rows@[i as int].0 == tid && forall|a: int|
                0 <= a < i ==> rows@[a].0 != tid,
            None => forall|a: int| 0 <= a < rows.len() ==> rows@[a].0 != tid,
        },
{
    let mut i: usize = 0;
    while i < rows.len()
        invariant
            i <= rows.len(),
            forall|a: int| 0 <= a < i ==> rows@[a].0 != tid,
        decreases rows.len() - i,
    {
        if rows[i].0 == tid {
            return Some(i);
        }
        i = i + 1;
    }
    None
}

/// Whether `n` asks for no more than `w` offers over the counters both have.
fn covers_counts(n: &Vec<usize>, w: &Vec<usize>) -> (r: bool)
    ensures
        r == covers(n@, as_ints(w@)),
{
    let mut j: usize = 0;
    while j < n.len() && j < w.len()
        invariant
            forall|a: int| 0 <= a < j ==> n@[a] <= w@[a],
            j <= n.len(),
        decreases n.len() - j,
    {
        if n[j] > w[j] {
            return false;
        }
        j = j + 1;
    }
    true
}

/// Tests whether the semaphore state is safe, by the banker's algorithm: free
/// counters `available`, per-thread `allocation` and `need` rows.
///
/// Threads are taken in passes over the need rows. A thread that has not
/// finished and whose need row fits the free counters finishes and gives back
/// its first allocation row; the passes stop when one makes no progress. The
/// state is safe when every allocation row has finished.
pub fn check_sem_safe_state(
    available: &Vec<usize>,
    allocation: &Vec<(usize, Vec<usize>)>,
    need: &Vec<(usize, Vec<usize>)>,
) -> (safe: bool)
    requires
        banker_fits(available@, rows(allocation@), rows(need@)),
    ensures
        safe == is_safe_state(available@, rows(allocation@), rows(need@)),
{
    let ghost avail = available@;
    let ghost alloc = rows(allocation@);
    let ghost needs = rows(need@);
    let n = allocation.len();
    let m = available.len();
    let mut work: Vec<usize> = Vec::new();
    let mut j: usize = 0;
    while j < m
        invariant
            j <= m,
            m == available.len(),
            work@.len() == j,
            forall|a: int| 0 <= a < j ==> work@[a] == available@[a],
        decreases m - j,
    {
        work.push(available[j]);
        j = j + 1;
    }
    let mut finished: Vec<bool> = Vec::new();
    let mut i: usize = 0;
    while i < n
        invariant
            i <= n,
            finished@.len() == i,
            forall|a: int| 0 <= a < i ==> !finished@[a],
        decreases n - i,
    {
        finished.push(false);
        i = i + 1;
    }
    let ghost mut order: Seq<int> = Seq::empty();
    proof {
        assert(as_ints(work@) =~= work_after(avail, alloc, order));
        lemma_count_clear(finished@);
    }
    loop
        invariant
            n == allocation.len(),
            m == available.len(),
            avail == available@,
            alloc == rows(allocation@),
            needs == rows(need@),
            banker_fits(avail, alloc, needs),
            work@.len() == m,
            finished@.len() == n,
            as_ints(work@) == work_after(avail, alloc, order),
            order.no_duplicates(),
            forall|p: int| 0 <= p < order.len() ==> 0 <= #[trigger] order[p] < n,
            forall|a: int| 0 <= a < n ==> (finished@[a] <==> order.contains(a)),
            forall|a: int| 0 <= a < n && #[trigger] finished@[a] ==> first_of_tid(alloc, a),
            runs_in_order(avail, alloc, needs, order),
            order.len() == count_set(finished@),
        ensures
            work@.len() == m,
            finished@.len() == n,
            as_ints(work@) == work_after(avail, alloc, order),
            order.no_duplicates(),
            forall|a: int| 0 <= a < n ==> (finished@[a] <==> order.contains(a)),
            forall|a: int| 0 <= a < n && #[trigger] finished@[a] ==> first_of_tid(alloc, a),
            forall|p: int| 0 <= p < order.len() ==> 0 <= #[trigger] order[p] < n,
            runs_in_order(avail, alloc, needs, order),
            stuck(alloc, needs, order, work_after(avail, alloc, order)),
        decreases n - order.len(),
    {
        proof {
            lemma_count_set_bound(finished@);
        }
        let ghost start_len = order.len();
        let mut progress = false;
        let mut k: usize = 0;
        while k < need.len()
            invariant
                n == allocation.len(),
                m == available.len(),
                avail == available@,
                alloc == rows(allocation@),
                needs == rows(need@),
                banker_fits(avail, alloc, needs),
                k <= need.len(),
                work@.len() == m,
                finished@.len() == n,
                as_ints(work@) == work_after(avail, alloc, order),
                order.no_duplicates(),
                forall|p: int| 0 <= p < order.len() ==> 0 <= #[trigger] order[p] < n,
                forall|a: int| 0 <= a < n ==> (finished@[a] <==> order.contains(a)),
                forall|a: int| 0 <= a < n && #[trigger] finished@[a] ==> first_of_tid(alloc, a),
                runs_in_order(avail, alloc, needs, order),
                order.len() == count_set(finished@),
                start_len <= order.len(),
                progress <==> start_len < order.len(),
                !progress ==> forall|kk: int, a: int|
                    #![trigger needs[kk], alloc[a]]
                    0 <= kk < k && 0 <= a < n && alloc[a].0 == needs[kk].0 && first_of_tid(alloc, a)
                        && !order.contains(a) ==> !covers(needs[kk].1, work_after(avail, alloc, order)),
            decreases need.len() - k,
        {
            let tid = need[k].0;
            match find_row(allocation, tid) {
                None => {
                    proof {
                        assert forall|kk: int, a: int|
                            #![trigger needs[kk], alloc[a]]
                            0 <= kk < k + 1 && 0 <= a < n && alloc[a].0 == needs[kk].0 && first_of_tid(alloc, a)
                                && !order.contains(a) && !progress implies !covers(needs[kk].1, work_after(avail, alloc, order)) by {
                            if kk == k {
                                assert(allocation@[a].0 == alloc[a].0);
                            }
                        }
                    }
                },
                Some(row) => {
                    proof {
                        assert(first_of_tid(alloc, row as int));
                    }
                    if !finished[row] && covers_counts(&need[k].1, &work) {
                        let ghost next = order.push(row as int);
                        proof {
                            assert(next.drop_last() =~= order);
                            assert(needs[k as int].0 == alloc[row as int].0);
                            assert(covers(needs[k as int].1, work_after(avail, alloc, order)));
                            assert(runs_in_order(avail, alloc, needs, next));
                            assert(!order.contains(row as int));
                            assert forall|a: int, b: int|
                                0 <= a < next.len() && 0 <= b < next.len() && a != b implies next[a] != next[b] by {
                            }
                            assert forall|p: int| 0 <= p < next.len() implies alloc.len() >= 0 && all_rows(n as nat).contains(#[trigger] next[p]) by {
                                assert(all_rows(n as nat)[next[p]] == next[p]);
                            }
                            assert(alloc[row as int].1.len() >= avail.len()) by {
                                assert(in_rows(order, alloc.len()));
                                assert forall|p: int| 0 <= p < order.len() implies first_of_tid(alloc, #[trigger] order[p]) by {
                                    assert(order.contains(order[p]));
                                    assert(finished@[order[p]]);
                                }
                                assert(first_rows(alloc, order));
                                assert(can_finish(needs, alloc[row as int].0, work_after(avail, alloc, order)));
                                assert(!finished@[row as int]);
                            }
                        }
                        let ghost old_fin = finished@;
                        let alloc_row = &allocation[row].1;
                        proof {
                            assert forall|a: int| 0 <= a < m implies work@[a] == avail[a] + released(alloc, order, a) by {
                                assert(as_ints(work@)[a] == work_after(avail, alloc, order)[a]);
                            }
                        }
                        let mut jj: usize = 0;
                        while jj < m
                            invariant
                                m == available.len(),
                                avail == available@,
                                alloc == rows(allocation@),
                                banker_fits(avail, alloc, needs),
                                row < n,
                                n == allocation.len(),
                                alloc_row@ == alloc[row as int].1,
                                alloc_row@.len() >= m,
                                jj <= m,
                                work@.len() == m,
                                next == order.push(row as int),
                                old_fin == finished@,
                                next.no_duplicates(),
                                forall|p: int| 0 <= p < next.len() ==> all_rows(n as nat).contains(#[trigger] next[p]),
                                forall|a: int| 0 <= a < jj ==> work@[a] == avail[a] + released(alloc, next, a),
                                forall|a: int| jj <= a < m ==> work@[a] == avail[a] + released(alloc, order, a),
                            decreases m - jj,
                        {
                            proof {
                                assert(next.drop_last() =~= order);
                                lemma_released_subset(alloc, next, all_rows(n as nat), jj as int);
                                assert(alloc.len() == n);
                                assert(alloc[row as int].1.len() >= avail.len());
                                assert(released(alloc, all_rows(n as nat), jj as int) + avail[jj as int] <= usize::MAX);
                            }
                            let v = work[jj] + alloc_row[jj];
                            work.set(jj, v);
                            jj = jj + 1;
                        }
                        proof {
                            lemma_count_set_update(finished@, row as int);
                        }
                        finished.set(row, true);
                        proof {
                            assert forall|a: int| 0 <= a < n implies (finished@[a] <==> next.contains(a)) by {
                                if a == row {
                                    assert(next[next.len() - 1] == a);
                                } else {
                                    assert(finished@[a] == old_fin[a]);
                                    assert(old_fin[a] <==> order.contains(a));
                                    if old_fin[a] {
                                        let q = choose|q: int| 0 <= q < order.len() && order[q] == a;
                                        assert(next[q] == a);
                                    }
                                    if next.contains(a) {
                                        let q = choose|q: int| 0 <= q < next.len() && next[q] == a;
                                        assert(q != next.len() - 1);
                                        assert(order[q] == a);
                                    }
                                }
                            }
                            order = next;
                            assert(as_ints(work@) =~= work_after(avail, alloc, order));
                        }
                        progress = true;
                    } else {
                        proof {
                            assert forall|kk: int, a: int|
                                #![trigger needs[kk], alloc[a]]
                                0 <= kk < k + 1 && 0 <= a < n && alloc[a].0 == needs[kk].0 && first_of_tid(alloc, a)
                                    && !order.contains(a) && !progress implies !covers(needs[kk].1, work_after(avail, alloc, order)) by {
                                if kk == k {
                                    assert(alloc[row as int].0 == alloc[a].0);
                                    if a != row {
                                        if a < row {
                                            assert(allocation@[a].0 != tid);
                                        } else {
                                            assert(first_of_tid(alloc, a));
                                            assert(alloc[row as int].0 != alloc[a].0);
                                        }
                                    }
                                    assert(!finished@[row as int]);
                                    assert(as_ints(work@) == work_after(avail, alloc, order));
                                }
                            }
                        }
                    }
                },
            }
            k = k + 1;
        }
        proof {
            lemma_count_set_bound(finished@);
        }
        if !progress {
            break;
        }
    }
    let mut all = true;
    let mut a: usize = 0;
    while a < n
        invariant
            a <= n,
            finished@.len() == n,
            all <==> forall|b: int| 0 <= b < a ==> finished@[b],
        decreases n - a,
    {
        if !finished[a] {
            all = false;
        }
        a = a + 1;
    }
    proof {
        if all {
            assert(is_schedule(order, n as nat));
            assert(tids_distinct(alloc)) by {
                assert forall|x: int, y: int| 0 <= x < y < alloc.len() implies alloc[x].0 != alloc[y].0 by {
                    assert(finished@[y]);
                }
            }
            assert(is_safe_state(avail, alloc, needs));
        } else {
            let u = choose|u: int| 0 <= u < n && !finished@[u];
            lemma_stuck_unsafe(avail, alloc, needs, order, u);
        }
    }
    all
}

/// A fresh list of flags counts none set.
proof fn lemma_count_clear(f: Seq<bool>)
    requires
        forall|a: int| 0 <= a < f.len() ==> !f[a],
    ensures
        count_set(f) == 0,
    decreases f.len(),
{
    if f.len() > 0 {
        lemma_count_clear(f.drop_last());
    }
}

} // verus!
