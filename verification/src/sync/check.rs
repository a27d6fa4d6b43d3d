//! Checks, run on a state, of the bounds that the bookkeeping calls rely on.
use vstd::prelude::*;
use crate::sync::banker::{
    column_fn, column_sum, entry, index_range, lemma_range_sum_monotone, lemma_range_sum_step, seq_sum,
};
use crate::sync::state::ProcessSyncState;

verus! {

broadcast use crate::sync::matrix::lemma_matrix_view;

impl ProcessSyncState {
    /// Whether every occupied thread slot holds the thread whose id is the slot's index.
    pub fn slots_match_tids_check(&self) -> (ok: bool)
        ensures
            ok == self@.slots_match_tids(),
    {
        let mut i: usize = 0;
        while i < self.tasks.len()
            invariant
                i <= self.tasks.len(),
                forall|k: int| 0 <= k < i ==> (#[trigger] self@.tasks[k] is Some ==> self@.tasks[k]->0 == k),
            decreases self.tasks.len() - i,
        {
            if let Some(t) = self.tasks[i] {
                if t != i {
                    return false;
                }
            }
            i += 1;
        }
        true
    }

    /// Whether, in every resource column, the initial work plus everything
    /// allocated leaves at least `room` units below the machine word, the
    /// resource count fitting a word too.
    pub fn units_fit(&self, room: usize) -> (ok: bool)
        ensures
            ok == (self@.resource_types() <= usize::MAX && forall|r: int|
                0 <= r < self@.resource_types() ==> #[trigger] self@.banker().units(r) + room <= usize::MAX),
    {
        let ghost b = self@.banker();
        let ml = self.mutex_list.len();
        let sl = self.semaphore_list.len();
        if ml > usize::MAX - sl {
            return false;
        }
        let resource_types = ml + sl;
        let n = self.tasks.len();
        let mut r: usize = 0;
        while r < resource_types
            invariant
                b == self@.banker(),
                resource_types == b.resources,
                n == b.threads(),
                r <= resource_types,
                forall|rr: int| 0 <= rr < r ==> #[trigger] b.units(rr) + room <= usize::MAX,
            decreases resource_types - r,
        {
            let mut acc: usize = room;
            let mut i: usize = 0;
            while i < n
                invariant
                    b == self@.banker(),
                    n == b.threads(),
                    r < resource_types,
                    resource_types == b.resources,
                    i <= n,
                    acc == seq_sum(index_range(i as nat), b.initial_fn(r as int))
                        + seq_sum(index_range(i as nat), b.alloc_fn(r as int)) + room,
                decreases n - i,
            {
                proof {
                    lemma_range_sum_step((i + 1) as nat, b.initial_fn(r as int));
                    lemma_range_sum_step((i + 1) as nat, b.alloc_fn(r as int));
                    lemma_range_sum_monotone((i + 1) as nat, n as nat, b.initial_fn(r as int));
                    lemma_range_sum_monotone((i + 1) as nat, n as nat, b.alloc_fn(r as int));
                }
                let mut x: usize = 0;
                let mut y: usize = 0;
                if let Some(t) = self.tasks[i] {
                    if t < self.available.len() && r < self.available[t].len() {
                        x = self.available[t][r];
                    }
                    if t < self.allocation.len() && r < self.allocation[t].len() {
                        y = self.allocation[t][r];
                    }
                }
                assert(x == b.initial_of(i as int, r as int));
                assert(y == b.alloc_of(i as int, r as int));
                proof {
                    lemma_range_sum_monotone(i as nat, n as nat, b.alloc_fn(r as int));
                }
                if acc > usize::MAX - x {
                    assert(b.units(r as int) + room > usize::MAX);
                    return false;
                }
                acc = acc + x;
                if acc > usize::MAX - y {
                    assert(b.units(r as int) + room > usize::MAX);
                    return false;
                }
                acc = acc + y;
                i += 1;
            }
            r += 1;
        }
        true
    }

    /// Whether the units of column `col` in `available`, summed over all rows, fit a signed word.
    pub fn column_fits(&self, col: usize) -> (ok: bool)
        ensures
            ok == (column_sum(self@.available, col as int) <= isize::MAX),
    {
        let ghost v = self@.available;
        let mut acc: usize = 0;
        let mut row: usize = 0;
        while row < self.available.len()
            invariant
                v == self@.available,
                row <= self.available.len(),
                acc == seq_sum(index_range(row as nat), column_fn(v, col as int)),
                acc <= isize::MAX,
            decreases self.available.len() - row,
        {
            proof {
                lemma_range_sum_step((row + 1) as nat, column_fn(v, col as int));
                lemma_range_sum_monotone((row + 1) as nat, v.len(), column_fn(v, col as int));
            }
            let x = if col < self.available[row].len() { self.available[row][col] } else { 0 };
            assert(x == entry(v, row as int, col as int));
            if x > (isize::MAX as usize) - acc {
                return false;
            }
            acc = acc + x;
            row += 1;
        }
        true
    }
}

} // verus!
