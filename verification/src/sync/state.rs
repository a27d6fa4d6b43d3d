//! The synchronisation state of one process, as plain values.
use vstd::prelude::*;
use crate::sync::banker::BankerState;
use crate::sync::matrix::{matrix_view, pad_row, pad_rows, padded_row, padded_rows};

verus! {

broadcast use crate::sync::matrix::lemma_matrix_view;

/// The flavour of a mutex: spinning, or blocking the waiting thread.
#[derive(Clone, Copy, PartialEq, Eq, Debug)]
pub enum MutexKind {
    Spin,
    Blocking,
}

/// What a process holds for synchronisation: its thread slots, its mutexes,
/// semaphores and condition variables, whether deadlock detection is on, and
/// the banker's bookkeeping, one row per thread id and one column per resource
/// (mutexes first, then semaphores).
pub struct ProcessSyncState {
    /// Per thread slot: the thread's id while it holds user resources, else `None`.
    pub tasks: Vec<Option<usize>>,
    pub mutex_list: Vec<Option<MutexKind>>,
    /// Per semaphore slot: the number of units the semaphore there was created with.
    pub semaphore_list: Vec<Option<usize>>,
    /// Per condition-variable slot: whether a condition variable is there.
    pub condvar_list: Vec<bool>,
    pub enable_deadlock_detect: bool,
    pub available: Vec<Vec<usize>>,
    pub allocation: Vec<Vec<usize>>,
    pub need: Vec<Vec<usize>>,
}

/// The synchronisation state as mathematical values.
#[verifier::ext_equal]
pub struct SyncView {
    pub tasks: Seq<Option<usize>>,
    pub mutexes: Seq<Option<MutexKind>>,
    pub semaphores: Seq<Option<usize>>,
    pub condvars: Seq<bool>,
    pub detect: bool,
    pub available: Seq<Seq<usize>>,
    pub allocation: Seq<Seq<usize>>,
    pub need: Seq<Seq<usize>>,
}

/// `v` with rows `0 .. count` grown to at least `len` entries.
pub open spec fn pad_first_rows(v: Seq<Seq<usize>>, count: nat, len: nat) -> Seq<Seq<usize>> {
    Seq::new(v.len(), |t: int| if t < count { padded_row(v[t], len) } else { v[t] })
}

/// `v` with column `col` of rows `0 .. count` set: `x` in row `owner`, 0 elsewhere.
pub open spec fn column_assign(v: Seq<Seq<usize>>, count: nat, col: int, owner: int, x: usize) -> Seq<Seq<usize>> {
    Seq::new(v.len(), |t: int| if t < count { v[t].update(col, if t == owner { x } else { 0usize }) } else { v[t] })
}

impl SyncView {
    /// The number of resource kinds: mutexes and semaphores.
    pub open spec fn resource_types(self) -> nat {
        self.mutexes.len() + self.semaphores.len()
    }

    /// What the deadlock check reads of this state.
    pub open spec fn banker(self) -> BankerState {
        BankerState {
            tasks: self.tasks,
            resources: self.resource_types(),
            available: self.available,
            allocation: self.allocation,
            need: self.need,
        }
    }

    /// Every occupied thread slot holds the thread whose id is the slot's index.
    pub open spec fn slots_match_tids(self) -> bool {
        forall|i: int| 0 <= i < self.tasks.len() ==> (#[trigger] self.tasks[i] is Some ==> self.tasks[i]->0 == i)
    }

    pub open spec fn with_matrices(self, a: Seq<Seq<usize>>, b: Seq<Seq<usize>>, c: Seq<Seq<usize>>) -> SyncView {
        SyncView { available: a, allocation: b, need: c, ..self }
    }

    /// Each matrix grown to at least `rows` rows.
    pub open spec fn grown_rows(self, rows: nat) -> SyncView {
        self.with_matrices(
            padded_rows(self.available, rows),
            padded_rows(self.allocation, rows),
            padded_rows(self.need, rows),
        )
    }

    /// Row `t` of each matrix grown to at least `len` entries.
    pub open spec fn grown_row(self, t: int, len: nat) -> SyncView {
        self.with_matrices(
            self.available.update(t, padded_row(self.available[t], len)),
            self.allocation.update(t, padded_row(self.allocation[t], len)),
            self.need.update(t, padded_row(self.need[t], len)),
        )
    }

    /// Rows `0 .. count` of each matrix grown to at least `len` entries.
    pub open spec fn grown_first_rows(self, count: nat, len: nat) -> SyncView {
        self.with_matrices(
            pad_first_rows(self.available, count, len),
            pad_first_rows(self.allocation, count, len),
            pad_first_rows(self.need, count, len),
        )
    }

    /// Every matrix has at least `rows` rows, and rows `0 .. rows` have at least `len` entries.
    pub open spec fn shaped(self, rows: nat, len: nat) -> bool {
        &&& self.available.len() >= rows
        &&& self.allocation.len() >= rows
        &&& self.need.len() >= rows
        &&& forall|t: int| 0 <= t < rows ==> {
            &&& #[trigger] self.available[t].len() >= len
            &&& self.allocation[t].len() >= len
            &&& self.need[t].len() >= len
        }
    }
}

impl View for ProcessSyncState {
    type V = SyncView;

    open spec fn view(&self) -> SyncView {
        SyncView {
            tasks: self.tasks@,
            mutexes: self.mutex_list@,
            semaphores: self.semaphore_list@,
            condvars: self.condvar_list@,
            detect: self.enable_deadlock_detect,
            available: matrix_view(&self.available),
            allocation: matrix_view(&self.allocation),
            need: matrix_view(&self.need),
        }
    }
}

impl ProcessSyncState {
    /// A process with no threads and no synchronisation objects, detection off.
    pub fn new() -> (s: Self)
        ensures
            s@.tasks.len() == 0,
            s@.mutexes.len() == 0,
            s@.semaphores.len() == 0,
            s@.condvars.len() == 0,
            !s@.detect,
            s@.available.len() == 0,
            s@.allocation.len() == 0,
            s@.need.len() == 0,
    {
        ProcessSyncState {
            tasks: Vec::new(),
            mutex_list: Vec::new(),
            semaphore_list: Vec::new(),
            condvar_list: Vec::new(),
            enable_deadlock_detect: false,
            available: Vec::new(),
            allocation: Vec::new(),
            need: Vec::new(),
        }
    }

    /// What the deadlock check reads of this state.
    pub open spec fn banker(&self) -> BankerState {
        self@.banker()
    }

    /// Grows each matrix to at least `rows` rows.
    pub fn grow_rows(&mut self, rows: usize)
        ensures
            final(self)@ == old(self)@.grown_rows(rows as nat),
    {
        pad_rows(&mut self.available, rows);
        pad_rows(&mut self.allocation, rows);
        pad_rows(&mut self.need, rows);
    }

    /// Grows row `t` of each matrix to at least `len` entries.
    pub fn grow_row(&mut self, t: usize, len: usize)
        requires
            t < old(self).available.len(),
            t < old(self).allocation.len(),
            t < old(self).need.len(),
        ensures
            final(self)@ == old(self)@.grown_row(t as int, len as nat),
            final(self).available.len() == old(self).available.len(),
            final(self).allocation.len() == old(self).allocation.len(),
            final(self).need.len() == old(self).need.len(),
    {
        pad_row(&mut self.available, t, len);
        pad_row(&mut self.allocation, t, len);
        pad_row(&mut self.need, t, len);
    }

    /// Grows rows `0 .. count` of each matrix to at least `len` entries.
    pub fn grow_first_rows(&mut self, count: usize, len: usize)
        requires
            count <= old(self).available.len(),
            count <= old(self).allocation.len(),
            count <= old(self).need.len(),
        ensures
            final(self)@ == old(self)@.grown_first_rows(count as nat, len as nat),
    {
        let ghost start = self@;
        let mut t: usize = 0;
        while t < count
            invariant
                t <= count,
                count <= start.available.len(),
                count <= start.allocation.len(),
                count <= start.need.len(),
                self@ == start.grown_first_rows(t as nat, len as nat),
                self.available.len() == start.available.len(),
                self.allocation.len() == start.allocation.len(),
                self.need.len() == start.need.len(),
            decreases count - t,
        {
            self.grow_row(t, len);
            assert(self@ =~= start.grown_first_rows((t + 1) as nat, len as nat));
            t += 1;
        }
    }
}

} // verus!
