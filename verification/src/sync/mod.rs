//! Deadlock detection by the banker's algorithm.
use vstd::prelude::*;

pub mod banker;
pub mod check;
pub mod matrix;
pub mod state;

use crate::sync::banker::{
    index_range, lemma_range_sum_monotone, lemma_range_sum_step, seq_sum,
};
use crate::sync::state::ProcessSyncState;
use crate::sync::matrix::matrix_view;

verus! {

broadcast use crate::sync::matrix::lemma_matrix_view;

/// Runs the banker's safety check on the process: starting from the units
/// available to its threads, it repeatedly lets a thread whose whole need fits
/// in the work finish and release its allocation. It returns whether every
/// participating thread finished, which is so exactly when the state is safe.
pub fn deadlock_checker(state: &ProcessSyncState) -> (ok: bool)
    requires
        state.banker().work_fits(),
    ensures
        ok == state.banker().is_safe(),
{
    let ghost b = state.banker();
    let threads_num = state.tasks.len();
    let resource_types = state.mutex_list.len() + state.semaphore_list.len();
    let mut work: Vec<usize> = Vec::new();
    while work.len() < resource_types
        invariant
            work.len() <= resource_types,
            forall|j: int| 0 <= j < work.len() ==> work@[j] == 0,
        decreases resource_types - work.len(),
    {
        work.push(0);
    }
    let mut i: usize = 0;
    while i < threads_num
        invariant
            b == state.banker(),
            threads_num == b.threads(),
            resource_types == b.resources,
            b.work_fits(),
            i <= threads_num,
            work.len() == resource_types,
            forall|j: int| 0 <= j < resource_types ==> work@[j] == seq_sum(index_range(i as nat), #[trigger] b.initial_fn(j)),
        decreases threads_num - i,
    {
        proof {
            assert forall|j: int| 0 <= j < resource_types implies seq_sum(index_range((i + 1) as nat), #[trigger] b.initial_fn(j))
                == seq_sum(index_range(i as nat), b.initial_fn(j)) + b.initial_of(i as int, j) by {
                lemma_range_sum_step((i + 1) as nat, b.initial_fn(j));
            }
        }
        if let Some(tid) = state.tasks[i] {
            if tid < state.available.len() {
                let mut j: usize = 0;
                while j < resource_types
                    invariant
                        b == state.banker(),
                        threads_num == b.threads(),
                        resource_types == b.resources,
                        b.work_fits(),
                        i < threads_num,
                        state.tasks@[i as int] == Some(tid),
                        tid < state.available.len(),
                        j <= resource_types,
                        work.len() == resource_types,
                        forall|jj: int| 0 <= jj < j ==> work@[jj] == seq_sum(index_range((i + 1) as nat), #[trigger] b.initial_fn(jj)),
                        forall|jj: int| j <= jj < resource_types ==> work@[jj] == seq_sum(index_range(i as nat), #[trigger] b.initial_fn(jj)),
                        forall|jj: int| 0 <= jj < resource_types ==> seq_sum(index_range((i + 1) as nat), #[trigger] b.initial_fn(jj))
                            == seq_sum(index_range(i as nat), b.initial_fn(jj)) + b.initial_of(i as int, jj),
                    decreases resource_types - j,
                {
                    if j < state.available[tid].len() {
                        proof {
                            lemma_range_sum_monotone((i + 1) as nat, threads_num as nat, b.initial_fn(j as int));
                            assert(b.available[tid as int] == state.available@[tid as int]@);
                            assert(b.initial_of(i as int, j as int) == state.available@[tid as int]@[j as int]);
                            assert(b.units(j as int) <= usize::MAX);
                            assert(seq_sum(index_range((i + 1) as nat), b.initial_fn(j as int))
                                == seq_sum(index_range(i as nat), b.initial_fn(j as int)) + b.initial_of(i as int, j as int));
                        }
                        let v = work[j] + state.available[tid][j];
                        work.set(j, v);
                    }
                    j += 1;
                }
            }
        }
        i += 1;
    }
    assert(forall|j: int| 0 <= j < resource_types ==> work@[j] == b.work_after(Seq::<int>::empty(), j));

    let mut finish: Vec<bool> = Vec::new();
    while finish.len() < threads_num
        invariant
            finish.len() <= threads_num,
            forall|k: int| 0 <= k < finish.len() ==> !finish@[k],
        decreases threads_num - finish.len(),
    {
        finish.push(false);
    }

    let ghost mut order: Seq<int> = Seq::empty();
    let mut found = true;
    while found
        invariant
            b == state.banker(),
            threads_num == b.threads(),
            resource_types == b.resources,
            b.work_fits(),
            finish.len() == threads_num,
            work.len() == resource_types,
            b.safe_order(order),
            order.len() <= threads_num,
            forall|k: int| 0 <= k < threads_num && #[trigger] finish@[k] ==> b.exempt(k) || order.contains(k),
            forall|k: int| 0 <= k < order.len() ==> finish@[#[trigger] order[k]],
            forall|r: int| 0 <= r < resource_types ==> work@[r] == #[trigger] b.work_after(order, r),
            !found ==> forall|k: int| 0 <= k < threads_num && b.exempt(k) ==> finish@[k],
            !found ==> forall|k: int|
                0 <= k < threads_num && !b.exempt(k) && !finish@[k] ==> !b.can_run(k, order),
        decreases (if found { 1int } else { 0int }) + threads_num - order.len(),
    {
        proof {
            b.lemma_safe_order_len(order);
        }
        let ghost order_start = order;
        found = false;
        let mut i: usize = 0;
        while i < threads_num
            invariant
                b == state.banker(),
                threads_num == b.threads(),
                resource_types == b.resources,
                b.work_fits(),
                i <= threads_num,
                finish.len() == threads_num,
                work.len() == resource_types,
                b.safe_order(order),
                forall|k: int| 0 <= k < threads_num && #[trigger] finish@[k] ==> b.exempt(k) || order.contains(k),
                forall|k: int| 0 <= k < order.len() ==> finish@[#[trigger] order[k]],
                forall|r: int| 0 <= r < resource_types ==> work@[r] == #[trigger] b.work_after(order, r),
                found ==> order.len() > order_start.len(),
                !found ==> order == order_start,
                forall|k: int| 0 <= k < i && b.exempt(k) ==> finish@[k],
                !found ==> forall|k: int|
                    0 <= k < i && !b.exempt(k) && !finish@[k] ==> !b.can_run(k, order),
            decreases threads_num - i,
        {
            if let Some(tid) = state.tasks[i] {
                if !finish[i] && tid < state.need.len() && tid < state.allocation.len() {
                    let rnum = work.len();
                    let mut can_finish = true;
                    let mut r: usize = 0;
                    while r < rnum && can_finish
                        invariant
                            b == state.banker(),
                            rnum == resource_types,
                            resource_types == b.resources,
                            work.len() == resource_types,
                            i < threads_num,
                            threads_num == b.threads(),
                            state.tasks@[i as int] == Some(tid),
                            tid < state.need.len(),
                            r <= rnum,
                            can_finish ==> forall|rr: int| 0 <= rr < r ==> b.need_of(i as int, rr) <= work@[rr],
                            !can_finish ==> exists|rr: int| 0 <= rr < resource_types && b.need_of(i as int, rr) > work@[rr],
                        decreases rnum - r + (if can_finish { 1int } else { 0int }),
                    {
                        let need_val = if r < state.need[tid].len() { state.need[tid][r] } else { 0 };
                        if need_val > work[r] {
                            can_finish = false;
                        } else {
                            r += 1;
                        }
                    }
                    if can_finish {
                        proof {
                            assert(b.can_run(i as int, order));
                            assert(!order.contains(i as int));
                        }
                        let ghost new_order = order.push(i as int);
                        proof {
                            assert(new_order.take(order.len() as int) =~= order);
                            assert forall|k: int| 0 <= k < order.len() implies new_order.take(k) =~= order.take(k) by {}
                            assert(b.safe_order(new_order)) by {
                                assert forall|k: int| #![trigger new_order[k]] 0 <= k < new_order.len() implies {
                                    &&& 0 <= new_order[k] < b.threads()
                                    &&& !b.exempt(new_order[k])
                                    &&& b.can_run(new_order[k], new_order.take(k))
                                } by {
                                    if k < order.len() {
                                        assert(new_order[k] == order[k]);
                                        assert(new_order.take(k) =~= order.take(k));
                                    }
                                }
                            }
                            assert(new_order.drop_last() =~= order);
                        }
                        let mut r: usize = 0;
                        while r < rnum
                            invariant
                                b == state.banker(),
                                rnum == resource_types,
                                resource_types == b.resources,
                                b.work_fits(),
                                work.len() == resource_types,
                                i < threads_num,
                                threads_num == b.threads(),
                                state.tasks@[i as int] == Some(tid),
                                tid < state.allocation.len(),
                                r <= rnum,
                                b.safe_order(new_order),
                                new_order.len() == order.len() + 1,
                                new_order.drop_last() == order,
                                new_order.last() == i as int,
                                forall|rr: int| 0 <= rr < r ==> work@[rr] == #[trigger] b.work_after(new_order, rr),
                                forall|rr: int| r <= rr < resource_types ==> work@[rr] == #[trigger] b.work_after(order, rr),
                            decreases rnum - r,
                        {
                            let alloc_val = if r < state.allocation[tid].len() { state.allocation[tid][r] } else { 0 };
                            proof {
                                assert(b.allocation[tid as int] == state.allocation@[tid as int]@);
                                assert(b.alloc_of(i as int, r as int) == alloc_val);
                                assert(b.work_after(new_order, r as int) == b.work_after(order, r as int) + alloc_val);
                                assert forall|k: int| 0 <= k < new_order.len() implies 0 <= #[trigger] new_order[k] < b.threads() by {}
                                b.lemma_work_bounded(new_order, r as int);
                                assert(b.units(r as int) <= usize::MAX);
                            }
                            let v = work[r] + alloc_val;
                            work.set(r, v);
                            r += 1;
                        }
                        finish.set(i, true);
                        found = true;
                        proof {
                            order = new_order;
                            b.lemma_safe_order_len(order);
                        }
                    }
                }
            } else {
                finish.set(i, true);
            }
            i += 1;
        }
        proof {
            b.lemma_safe_order_len(order);
        }
    }

    let mut all = true;
    let mut i: usize = 0;
    while i < threads_num
        invariant
            finish.len() == threads_num,
            i <= threads_num,
            all == (forall|k: int| 0 <= k < i ==> finish@[k]),
        decreases threads_num - i,
    {
        if !finish[i] {
            all = false;
        }
        i += 1;
    }
    proof {
        if all {
            assert(b.covers(order));
            assert(b.safe_order(order) && b.covers(order));
        } else {
            let k = choose|k: int| 0 <= k < threads_num && !finish@[k];
            assert(!b.exempt(k));
            assert(!order.contains(k));
            assert forall|x: int|
                0 <= x < b.threads() && !b.exempt(x) && !order.contains(x) implies !b.can_run(x, order) by {
                if finish@[x] {
                    assert(b.exempt(x) || order.contains(x));
                }
            }
            b.lemma_stuck_is_unsafe(order, k);
        }
    }
    all
}

} // verus!
