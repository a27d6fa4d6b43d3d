//! The bookkeeping of the synchronisation system calls. Each function takes
//! the process's synchronisation state and the calling thread's id, updates
//! the state as the system call does, and returns the system call's result;
//! where the call goes on to lock, wait or signal, a result of 0 means that
//! the caller performs that operation next.
use vstd::prelude::*;
use crate::sync::banker::{
    column_fn, column_sum, entry, first_positive, index_range, lemma_column_same, lemma_entry_padded_row,
    lemma_entry_padded_rows, lemma_entry_set, lemma_first_positive, lemma_range_sum_monotone,
    lemma_range_sum_step, lemma_sum_point, lemma_term_le_sum, seq_sum,
};
use crate::sync::deadlock_checker;
use crate::sync::matrix::{lemma_set_entry_restore, padded_row, padded_rows, set_entry, set_entry_at};
use crate::sync::state::{column_assign, pad_first_rows, MutexKind, ProcessSyncState, SyncView};

verus! {

broadcast use crate::sync::matrix::lemma_matrix_view;

/// The result of a system call refused because it could lead to deadlock.
pub const DEADLOCK: isize = -0xdead;

/// The state after `sys_enable_deadlock_detect(enabled)`: detection off for
/// 0; for 1 detection on, a row for every thread slot and every such row
/// covering every resource; any other value leaves the state as it is.
pub open spec fn detection_set(s: SyncView, enabled: usize) -> SyncView {
    if enabled == 0 {
        SyncView { detect: false, ..s }
    } else if enabled == 1 {
        (SyncView { detect: true, ..s }).grown_rows(s.tasks.len()).grown_first_rows(s.tasks.len(), s.resource_types())
    } else {
        s
    }
}

/// Turns deadlock detection off (`enabled == 0`) or on (`enabled == 1`); on
/// turning it on, the bookkeeping gets a row for every thread slot and a
/// column for every mutex and semaphore. Any other value is refused with -1.
pub fn sys_enable_deadlock_detect(state: &mut ProcessSyncState, enabled: usize) -> (r: isize)
    requires
        enabled == 1 ==> old(state)@.resource_types() <= usize::MAX,
    ensures
        r == if enabled <= 1 { 0isize } else { -1isize },
        final(state)@ == detection_set(old(state)@, enabled),
        enabled == 1 ==> final(state)@.shaped(old(state)@.tasks.len(), old(state)@.resource_types()),
        final(state)@.detect == if enabled == 0 { false } else if enabled == 1 { true } else { old(state)@.detect },
        final(state)@.tasks == old(state)@.tasks && final(state)@.mutexes == old(state)@.mutexes,
        final(state)@.semaphores == old(state)@.semaphores && final(state)@.condvars == old(state)@.condvars,
        forall|x: int, c: int| {
            &&& #[trigger] entry(final(state)@.available, x, c) == entry(old(state)@.available, x, c)
            &&& entry(final(state)@.allocation, x, c) == entry(old(state)@.allocation, x, c)
            &&& entry(final(state)@.need, x, c) == entry(old(state)@.need, x, c)
        },
        enabled != 1 ==> final(state)@.available == old(state)@.available && final(state)@.allocation == old(state)@.allocation
            && final(state)@.need == old(state)@.need,
{
    proof {
        let s0 = old(state)@;
        let n = s0.tasks.len();
        let rt = s0.resource_types();
        lemma_entry_padded_rows(s0.available, n);
        lemma_entry_padded_rows(s0.allocation, n);
        lemma_entry_padded_rows(s0.need, n);
        lemma_entry_pad_first_rows(padded_rows(s0.available, n), n, rt);
        lemma_entry_pad_first_rows(padded_rows(s0.allocation, n), n, rt);
        lemma_entry_pad_first_rows(padded_rows(s0.need, n), n, rt);
    }
    match enabled {
        0 => {
            state.enable_deadlock_detect = false;
            0
        },
        1 => {
            state.enable_deadlock_detect = true;
            let max_tid = state.tasks.len();
            state.grow_rows(max_tid);
            let resource_types = state.mutex_list.len() + state.semaphore_list.len();
            state.grow_first_rows(max_tid, resource_types);
            0
        },
        _ => -1,
    }
}

/// Index of the first slot for which `occupied` is false, or the number of slots.
pub open spec fn first_free(occupied: Seq<bool>) -> int
    decreases occupied.len(),
{
    if occupied.len() == 0 {
        0
    } else if !occupied[0] {
        0
    } else {
        1 + first_free(occupied.drop_first())
    }
}

pub proof fn lemma_first_free(occupied: Seq<bool>, i: int)
    requires
        0 <= i <= occupied.len(),
        forall|k: int| 0 <= k < i ==> occupied[k],
        i < occupied.len() ==> !occupied[i],
    ensures
        first_free(occupied) == i,
    decreases occupied.len(),
{
    if occupied.len() > 0 && i > 0 {
        lemma_first_free(occupied.drop_first(), i - 1);
    }
}

/// `first_free` names a slot that is free, or the end, and every slot before it is taken.
pub proof fn lemma_first_free_props(occupied: Seq<bool>)
    ensures
        0 <= first_free(occupied) <= occupied.len(),
        forall|k: int| 0 <= k < first_free(occupied) ==> occupied[k],
        first_free(occupied) < occupied.len() ==> !occupied[first_free(occupied)],
    decreases occupied.len(),
{
    if occupied.len() > 0 && occupied[0] {
        lemma_first_free_props(occupied.drop_first());
        assert forall|k: int| 0 <= k < first_free(occupied) implies occupied[k] by {
            if k > 0 {
                assert(occupied[k] == occupied.drop_first()[k - 1]);
            }
        }
    }
}

/// Which mutex slots hold a mutex.
pub open spec fn mutex_slots(mutexes: Seq<Option<MutexKind>>) -> Seq<bool> {
    mutexes.map_values(|m: Option<MutexKind>| m is Some)
}

/// Which semaphore slots hold a semaphore.
pub open spec fn semaphore_slots(semaphores: Seq<Option<usize>>) -> Seq<bool> {
    semaphores.map_values(|c: Option<usize>| c is Some)
}

/// The state after a slot `id` of `list` is filled: the slot is replaced when
/// it lies inside the list, else appended.
pub open spec fn fill_slot<T>(list: Seq<T>, id: int, x: T) -> Seq<T> {
    if id < list.len() {
        list.update(id, x)
    } else {
        list.push(x)
    }
}

/// The state after `sys_mutex_create` puts a mutex of `kind` in slot `id` for thread `tid`.
pub open spec fn mutex_created(s: SyncView, tid: int, kind: MutexKind, id: int) -> SyncView {
    let n = s.tasks.len();
    let with_mutex = SyncView { mutexes: fill_slot(s.mutexes, id, Some(kind)), ..s };
    if s.detect {
        let g = with_mutex.grown_rows(n).grown_first_rows(n, s.resource_types() + 1);
        g.with_matrices(
            column_assign(g.available, n, id, tid, 1),
            column_assign(g.allocation, n, id, tid, 0),
            column_assign(g.need, n, id, tid, 0),
        )
    } else {
        with_mutex
    }
}

/// Creates a mutex (spinning unless `blocking`) in the first free slot, or in a
/// new slot at the end, and returns its index. With detection on, thread
/// `tid` holds its one unit: every thread slot gets a row, and the mutex's
/// column reads 1 for `tid` in `available` and 0 everywhere else.
pub fn sys_mutex_create(state: &mut ProcessSyncState, tid: usize, blocking: bool) -> (r: isize)
    requires
        old(state)@.detect ==> old(state)@.resource_types() < usize::MAX,
    ensures
        r == first_free(mutex_slots(old(state)@.mutexes)) as isize,
        final(state)@ == mutex_created(
            old(state)@,
            tid as int,
            if blocking { MutexKind::Blocking } else { MutexKind::Spin },
            first_free(mutex_slots(old(state)@.mutexes)),
        ),
        ({
            let k = first_free(mutex_slots(old(state)@.mutexes));
            let s = old(state)@;
            let t = final(state)@;
            &&& 0 <= k <= s.mutexes.len()
            &&& forall|j: int| 0 <= j < k ==> s.mutexes[j] is Some
            &&& k < s.mutexes.len() ==> s.mutexes[k] is None
            &&& t.mutexes.len() == if k < s.mutexes.len() { s.mutexes.len() } else { s.mutexes.len() + 1 }
            &&& t.mutexes[k] == Some(if blocking { MutexKind::Blocking } else { MutexKind::Spin })
            &&& forall|j: int| 0 <= j < s.mutexes.len() && j != k ==> t.mutexes[j] == s.mutexes[j]
            &&& t.tasks == s.tasks && t.semaphores == s.semaphores && t.condvars == s.condvars && t.detect == s.detect
            &&& !s.detect ==> t.available == s.available && t.allocation == s.allocation && t.need == s.need
            &&& s.detect ==> forall|x: int| 0 <= x < s.tasks.len() ==> {
                &&& #[trigger] entry(t.available, x, k) == if x == tid { 1nat } else { 0nat }
                &&& entry(t.allocation, x, k) == 0
                &&& entry(t.need, x, k) == 0
            }
        }),
{
    let ghost s0 = state@;
    let kind = if !blocking { MutexKind::Spin } else { MutexKind::Blocking };
    if state.enable_deadlock_detect {
        let resource_types = state.mutex_list.len() + state.semaphore_list.len() + 1;
        let max_tid = state.tasks.len();
        state.grow_rows(max_tid);
        state.grow_first_rows(max_tid, resource_types);
    }
    let mut i: usize = 0;
    while i < state.mutex_list.len() && state.mutex_list[i].is_some()
        invariant
            i <= state.mutex_list.len(),
            state.mutex_list@ == s0.mutexes,
            forall|k: int| 0 <= k < i ==> state.mutex_list@[k] is Some,
        decreases state.mutex_list.len() - i,
    {
        i += 1;
    }
    proof {
        lemma_first_free(mutex_slots(s0.mutexes), i as int);
    }
    let id = i;
    if id < state.mutex_list.len() {
        state.mutex_list.set(id, Some(kind));
    } else {
        state.mutex_list.push(Some(kind));
    }
    if state.enable_deadlock_detect {
        assign_column(state, id, tid, 1);
    }
    assert(state@ =~= mutex_created(s0, tid as int, kind, id as int));
    proof {
        lemma_first_free_props(mutex_slots(s0.mutexes));
        if s0.detect {
            let n = s0.tasks.len();
            let w = SyncView { mutexes: fill_slot(s0.mutexes, id as int, Some(kind)), ..s0 };
            let g = w.grown_rows(n).grown_first_rows(n, s0.resource_types() + 1);
            assert forall|x: int| 0 <= x < n implies {
                &&& #[trigger] entry(state@.available, x, id as int) == if x == tid { 1nat } else { 0nat }
                &&& entry(state@.allocation, x, id as int) == 0
                &&& entry(state@.need, x, id as int) == 0
            } by {
                assert(g.available[x].len() >= s0.resource_types() + 1);
                assert(g.allocation[x].len() >= s0.resource_types() + 1);
                assert(g.need[x].len() >= s0.resource_types() + 1);
            }
        }
    }
    id as isize
}

/// Sets column `col` of rows `0 .. tasks.len()`: `x` for thread `owner` in
/// `available` and 0 elsewhere; 0 in `allocation` and `need`.
fn assign_column(state: &mut ProcessSyncState, col: usize, owner: usize, x: usize)
    requires
        old(state)@.shaped(old(state)@.tasks.len(), (col + 1) as nat),
    ensures
        final(state)@ == old(state)@.with_matrices(
            column_assign(old(state)@.available, old(state)@.tasks.len(), col as int, owner as int, x),
            column_assign(old(state)@.allocation, old(state)@.tasks.len(), col as int, owner as int, 0),
            column_assign(old(state)@.need, old(state)@.tasks.len(), col as int, owner as int, 0),
        ),
{
    let ghost s0 = state@;
    let n = state.tasks.len();
    let mut t: usize = 0;
    while t < n
        invariant
            n == s0.tasks.len(),
            t <= n,
            s0.shaped(n as nat, (col + 1) as nat),
            state@ == s0.with_matrices(
                column_assign(s0.available, t as nat, col as int, owner as int, x),
                column_assign(s0.allocation, t as nat, col as int, owner as int, 0),
                column_assign(s0.need, t as nat, col as int, owner as int, 0),
            ),
        decreases n - t,
    {
        let v = if t == owner { x } else { 0 };
        assert(state.available@[t as int]@ == state@.available[t as int]);
        assert(state.allocation@[t as int]@ == state@.allocation[t as int]);
        assert(state.need@[t as int]@ == state@.need[t as int]);
        set_entry_at(&mut state.available, t, col, v);
        set_entry_at(&mut state.allocation, t, col, 0);
        set_entry_at(&mut state.need, t, col, 0);
        assert(state@ =~= s0.with_matrices(
            column_assign(s0.available, (t + 1) as nat, col as int, owner as int, x),
            column_assign(s0.allocation, (t + 1) as nat, col as int, owner as int, 0),
            column_assign(s0.need, (t + 1) as nat, col as int, owner as int, 0),
        ));
        t += 1;
    }
}

/// Creates a condition variable in the first free slot, or in a new slot at
/// the end, and returns its index.
pub fn sys_condvar_create(state: &mut ProcessSyncState) -> (r: isize)
    ensures
        r == first_free(old(state)@.condvars) as isize,
        final(state)@ == (SyncView {
            condvars: fill_slot(old(state)@.condvars, first_free(old(state)@.condvars), true),
            ..old(state)@
        }),
        ({
            let k = first_free(old(state)@.condvars);
            let c = old(state)@.condvars;
            &&& 0 <= k <= c.len()
            &&& forall|j: int| 0 <= j < k ==> c[j]
            &&& k < c.len() ==> !c[k]
            &&& final(state)@.condvars.len() == if k < c.len() { c.len() } else { c.len() + 1 }
            &&& final(state)@.condvars[k]
            &&& forall|j: int| 0 <= j < c.len() && j != k ==> final(state)@.condvars[j] == c[j]
        }),
{
    proof {
        lemma_first_free_props(old(state)@.condvars);
    }
    let mut i: usize = 0;
    while i < state.condvar_list.len() && state.condvar_list[i]
        invariant
            i <= state.condvar_list.len(),
            forall|k: int| 0 <= k < i ==> state.condvar_list@[k],
        decreases state.condvar_list.len() - i,
    {
        i += 1;
    }
    proof {
        lemma_first_free(state.condvar_list@, i as int);
    }
    if i < state.condvar_list.len() {
        state.condvar_list.set(i, true);
    } else {
        state.condvar_list.push(true);
    }
    i as isize
}

/// Signalling condition variable `condvar_id` changes no bookkeeping; the
/// call returns 0 once the caller has signalled it.
pub fn sys_condvar_signal(state: &ProcessSyncState, condvar_id: usize) -> (r: isize)
    requires
        condvar_id < state@.condvars.len(),
        state@.condvars[condvar_id as int],
    ensures
        r == 0,
{
    0
}

/// Waiting on condition variable `condvar_id` with mutex `mutex_id` changes
/// no bookkeeping; the call returns 0 once the caller has waited.
pub fn sys_condvar_wait(state: &ProcessSyncState, condvar_id: usize, mutex_id: usize) -> (r: isize)
    requires
        condvar_id < state@.condvars.len(),
        state@.condvars[condvar_id as int],
        mutex_id < state@.mutexes.len(),
        state@.mutexes[mutex_id as int] is Some,
    ensures
        r == 0,
{
    0
}

/// The state in which a request of thread `tid` for resource `col` is judged:
/// rows up to `tid`, row `tid` covering every resource, and a need of at
/// least one unit of `col`.
pub open spec fn request_prepared(s: SyncView, tid: int, col: int) -> SyncView {
    let g = s.grown_rows((tid + 1) as nat).grown_row(tid, s.resource_types());
    if g.need[tid][col] == 0 {
        g.with_matrices(g.available, g.allocation, set_entry(g.need, tid, col, 1))
    } else {
        g
    }
}

/// One unit of resource `col` taken from the available units of row `from`
/// and given to thread `tid`: its allocation grows and its need shrinks by one.
pub open spec fn granted(s: SyncView, from: int, tid: int, col: int) -> SyncView {
    s.with_matrices(
        set_entry(s.available, from, col, (s.available[from][col] - 1) as usize),
        set_entry(s.allocation, tid, col, (s.allocation[tid][col] + 1) as usize),
        set_entry(s.need, tid, col, (s.need[tid][col] - 1) as usize),
    )
}

/// Row `t` of every matrix holds column `col`.
pub open spec fn has_entry(s: SyncView, t: int, col: int) -> bool {
    &&& 0 <= t < s.available.len()
    &&& 0 <= t < s.allocation.len()
    &&& 0 <= t < s.need.len()
    &&& 0 <= col < s.available[t].len()
    &&& 0 <= col < s.allocation[t].len()
    &&& 0 <= col < s.need[t].len()
}

/// Row `t` of `available` holds column `col`.
pub open spec fn has_available(s: SyncView, t: int, col: int) -> bool {
    &&& 0 <= t < s.available.len()
    &&& 0 <= col < s.available[t].len()
}

/// Grows the matrices for a request of thread `tid` for resource `col` and
/// records a need of at least one unit.
fn prepare_request(state: &mut ProcessSyncState, tid: usize, col: usize)
    requires
        tid < usize::MAX,
        col < old(state)@.resource_types() <= usize::MAX,
    ensures
        final(state)@ == request_prepared(old(state)@, tid as int, col as int),
        has_entry(final(state)@, tid as int, col as int),
        final(state)@.need[tid as int][col as int] > 0,
{
    let resource_types = state.mutex_list.len() + state.semaphore_list.len();
    state.grow_rows(tid + 1);
    state.grow_row(tid, resource_types);
    if state.need[tid][col] == 0 {
        set_entry_at(&mut state.need, tid, col, 1);
    }
}

/// Moves one unit of resource `col` from row `from` to thread `tid`.
fn grant(state: &mut ProcessSyncState, from: usize, tid: usize, col: usize)
    requires
        has_available(old(state)@, from as int, col as int),
        has_entry(old(state)@, tid as int, col as int),
        old(state)@.available[from as int][col as int] > 0,
        old(state)@.need[tid as int][col as int] > 0,
        old(state)@.allocation[tid as int][col as int] < usize::MAX,
    ensures
        final(state)@ == granted(old(state)@, from as int, tid as int, col as int),
{
    let a = state.available[from][col];
    set_entry_at(&mut state.available, from, col, a - 1);
    let b = state.allocation[tid][col];
    set_entry_at(&mut state.allocation, tid, col, b + 1);
    let c = state.need[tid][col];
    set_entry_at(&mut state.need, tid, col, c - 1);
}

/// What `granted` does to single entries: one available unit fewer in row
/// `from`, one allocated unit more and one needed unit fewer for `tid`,
/// every other entry as it was.
pub proof fn lemma_granted_entries(p: SyncView, from: int, tid: int, col: int)
    requires
        has_available(p, from, col),
        has_entry(p, tid, col),
        p.available[from][col] > 0,
        p.allocation[tid][col] < usize::MAX,
        p.need[tid][col] > 0,
    ensures
        forall|x: int, r: int| !(x == from && r == col) ==> #[trigger] entry(granted(p, from, tid, col).available, x, r) == entry(p.available, x, r),
        entry(granted(p, from, tid, col).available, from, col) + 1 == entry(p.available, from, col),
        forall|x: int, r: int| !(x == tid && r == col) ==> #[trigger] entry(granted(p, from, tid, col).allocation, x, r) == entry(p.allocation, x, r),
        entry(granted(p, from, tid, col).allocation, tid, col) == entry(p.allocation, tid, col) + 1,
        forall|x: int, r: int| !(x == tid && r == col) ==> #[trigger] entry(granted(p, from, tid, col).need, x, r) == entry(p.need, x, r),
        entry(granted(p, from, tid, col).need, tid, col) + 1 == entry(p.need, tid, col),
{
    lemma_entry_set(p.available, from, col, (p.available[from][col] - 1) as usize);
    lemma_entry_set(p.allocation, tid, col, (p.allocation[tid][col] + 1) as usize);
    lemma_entry_set(p.need, tid, col, (p.need[tid][col] - 1) as usize);
}

/// Moves the unit that `grant` moved back.
fn revoke(state: &mut ProcessSyncState, from: usize, tid: usize, col: usize, before: Ghost<SyncView>)
    requires
        has_available(before@, from as int, col as int),
        has_entry(before@, tid as int, col as int),
        before@.available[from as int][col as int] > 0,
        before@.need[tid as int][col as int] > 0,
        before@.allocation[tid as int][col as int] < usize::MAX,
        old(state)@ == granted(before@, from as int, tid as int, col as int),
    ensures
        final(state)@ == before@,
{
    let a = state.available[from][col];
    set_entry_at(&mut state.available, from, col, a + 1);
    let b = state.allocation[tid][col];
    set_entry_at(&mut state.allocation, tid, col, b - 1);
    let c = state.need[tid][col];
    set_entry_at(&mut state.need, tid, col, c + 1);
    proof {
        let b = before@;
        lemma_set_entry_restore(b.available, from as int, col as int, (b.available[from as int][col as int] - 1) as usize);
        lemma_set_entry_restore(b.allocation, tid as int, col as int, (b.allocation[tid as int][col as int] + 1) as usize);
        lemma_set_entry_restore(b.need, tid as int, col as int, (b.need[tid as int][col as int] - 1) as usize);
    }
    assert(state@ =~= before@);
}

/// Preparing a request keeps every resource's units (initial work plus
/// allocation); moving one unit from row `from` to the live thread `tid`
/// then adds at most one unit, and none when `from` is `tid`.
pub proof fn lemma_request_units(s: SyncView, tid: int, col: int, from: int)
    requires
        s.slots_match_tids(),
        0 <= tid < s.tasks.len(),
        s.tasks[tid] is Some,
        0 <= col < s.resource_types(),
        has_available(request_prepared(s, tid, col), from, col),
        has_entry(request_prepared(s, tid, col), tid, col),
        request_prepared(s, tid, col).available[from][col] > 0,
        request_prepared(s, tid, col).allocation[tid][col] < usize::MAX,
    ensures
        forall|r: int| #[trigger] request_prepared(s, tid, col).banker().units(r) == s.banker().units(r),
        forall|r: int| #[trigger] granted(request_prepared(s, tid, col), from, tid, col).banker().units(r)
            <= s.banker().units(r) + 1,
        from == tid ==> forall|r: int| #[trigger] granted(request_prepared(s, tid, col), from, tid, col).banker().units(r)
            == s.banker().units(r),
{
    let g1 = s.grown_rows((tid + 1) as nat);
    let g = g1.grown_row(tid, s.resource_types());
    let p = request_prepared(s, tid, col);
    lemma_entry_padded_rows(s.available, (tid + 1) as nat);
    lemma_entry_padded_rows(s.allocation, (tid + 1) as nat);
    lemma_entry_padded_row(g1.available, tid, s.resource_types());
    lemma_entry_padded_row(g1.allocation, tid, s.resource_types());
    s.banker().lemma_units_same(p.banker());
    let q = granted(p, from, tid, col);
    lemma_entry_set(p.available, from, col, (p.available[from][col] - 1) as usize);
    lemma_entry_set(p.allocation, tid, col, (p.allocation[tid][col] + 1) as usize);
    p.banker().lemma_transfer_units(q.banker(), from, tid, col);
}

/// The lock request is not refused: detection is off, or the prepared
/// request finds a unit and granting it leaves a safe state.
pub open spec fn lock_goes_on(s: SyncView, tid: int, id: int) -> bool {
    let p = request_prepared(s, tid, id);
    !s.detect || (p.available[tid][id] > 0 && p.need[tid][id] > 0 && granted(p, tid, tid, id).banker().is_safe())
}

/// Locking mutex `mutex_id` by thread `tid`. With detection off nothing
/// changes and the result is 0. With detection on the request is prepared
/// (rows grown, a need of one unit recorded); it is refused with `DEADLOCK`
/// when `tid` has no available unit of the mutex, and otherwise the unit is
/// granted when the resulting state is safe (result 0, the caller then
/// locks), or the state stays as prepared and the result is `DEADLOCK`.
pub fn sys_mutex_lock(state: &mut ProcessSyncState, tid: usize, mutex_id: usize) -> (r: isize)
    requires
        lock_goes_on(old(state)@, tid as int, mutex_id as int) ==> {
            &&& mutex_id < old(state)@.mutexes.len()
            &&& old(state)@.mutexes[mutex_id as int] is Some
        },
        old(state)@.detect ==> {
            &&& mutex_id < old(state)@.resource_types()
            &&& old(state)@.slots_match_tids()
            &&& tid < old(state).tasks.len()
            &&& old(state)@.tasks[tid as int] is Some
            &&& old(state)@.banker().work_fits()
        },
    ensures
        !old(state)@.detect ==> r == 0 && final(state)@ == old(state)@,
        old(state)@.detect && r == 0 ==> final(state)@.banker().is_safe(),
        old(state)@.detect ==> {
            let p = request_prepared(old(state)@, tid as int, mutex_id as int);
            let q = granted(p, tid as int, tid as int, mutex_id as int);
            if p.available[tid as int][mutex_id as int] == 0 || p.need[tid as int][mutex_id as int] == 0 {
                r == DEADLOCK && final(state)@ == p
            } else if q.banker().is_safe() {
                r == 0 && final(state)@ == q
            } else {
                r == DEADLOCK && final(state)@ == p
            }
        },
        old(state)@.detect ==> r == 0 || r == DEADLOCK,
        old(state)@.detect ==> forall|x: int, c: int| !(x == tid && c == mutex_id) ==> {
            &&& #[trigger] entry(final(state)@.available, x, c) == entry(old(state)@.available, x, c)
            &&& entry(final(state)@.allocation, x, c) == entry(old(state)@.allocation, x, c)
            &&& entry(final(state)@.need, x, c) == entry(old(state)@.need, x, c)
        },
        old(state)@.detect && r == DEADLOCK ==> {
            &&& entry(final(state)@.available, tid as int, mutex_id as int) == entry(old(state)@.available, tid as int, mutex_id as int)
            &&& entry(final(state)@.allocation, tid as int, mutex_id as int) == entry(old(state)@.allocation, tid as int, mutex_id as int)
            &&& entry(final(state)@.need, tid as int, mutex_id as int)
                == if entry(old(state)@.need, tid as int, mutex_id as int) == 0 { 1 } else { entry(old(state)@.need, tid as int, mutex_id as int) }
        },
        old(state)@.detect && r == 0 ==> {
            &&& entry(final(state)@.available, tid as int, mutex_id as int) + 1 == entry(old(state)@.available, tid as int, mutex_id as int)
            &&& entry(final(state)@.allocation, tid as int, mutex_id as int) == entry(old(state)@.allocation, tid as int, mutex_id as int) + 1
            &&& entry(final(state)@.need, tid as int, mutex_id as int) + 1
                == if entry(old(state)@.need, tid as int, mutex_id as int) == 0 { 1 } else { entry(old(state)@.need, tid as int, mutex_id as int) }
        },
{
    if state.enable_deadlock_detect {
        let ghost s0 = state@;
        prepare_request(state, tid, mutex_id);
        proof {
            lemma_prepared_keeps_entries(s0, tid as int, mutex_id as int);
        }
        if state.available[tid][mutex_id] == 0 {
            return DEADLOCK;
        }
        if state.need[tid][mutex_id] == 0 {
            return DEADLOCK;
        }
        let ghost p = state@;
        proof {
            lemma_entry_padded_rows(s0.available, (tid + 1) as nat);
            lemma_entry_padded_rows(s0.allocation, (tid + 1) as nat);
            lemma_entry_padded_row(s0.grown_rows((tid + 1) as nat).available, tid as int, s0.resource_types());
            lemma_entry_padded_row(s0.grown_rows((tid + 1) as nat).allocation, tid as int, s0.resource_types());
            s0.banker().lemma_units_same(p.banker());
            assert(p.banker().units(mutex_id as int) <= usize::MAX);
            lemma_term_le_sum(p.tasks.len(), p.banker().alloc_fn(mutex_id as int), tid as int);
            lemma_term_le_sum(p.tasks.len(), p.banker().initial_fn(mutex_id as int), tid as int);
            assert(p.allocation[tid as int][mutex_id as int] < usize::MAX);
            lemma_request_units(s0, tid as int, mutex_id as int, tid as int);
        }
        grant(state, tid, tid, mutex_id);
        proof {
            assert(state@.banker().work_fits());
            lemma_granted_entries(p, tid as int, tid as int, mutex_id as int);
        }
        if !deadlock_checker(state) {
            revoke(state, tid, tid, mutex_id, Ghost(p));
            return DEADLOCK;
        }
    }
    0
}

/// One unit of resource `col` returned by thread `tid`: its available units
/// grow and its allocation shrinks by one, and its need grows by one when
/// `renew_need` holds.
pub open spec fn released(s: SyncView, tid: int, col: int, renew_need: bool) -> SyncView {
    s.with_matrices(
        set_entry(s.available, tid, col, (s.available[tid][col] + 1) as usize),
        set_entry(s.allocation, tid, col, (s.allocation[tid][col] - 1) as usize),
        if renew_need { set_entry(s.need, tid, col, (s.need[tid][col] + 1) as usize) } else { s.need },
    )
}

/// From `s` to `t`, thread `tid` gave back one unit of resource `col`: its
/// available units there grew by one, its allocation shrank by one, its need
/// grew by one when `renew_need` holds and stayed otherwise, and no other
/// entry changed.
pub open spec fn units_returned(s: SyncView, t: SyncView, tid: int, col: int, renew_need: bool) -> bool {
    &&& entry(t.available, tid, col) == entry(s.available, tid, col) + 1
    &&& entry(t.allocation, tid, col) + 1 == entry(s.allocation, tid, col)
    &&& entry(t.need, tid, col) == entry(s.need, tid, col) + if renew_need { 1int } else { 0int }
    &&& forall|x: int, c: int| !(x == tid && c == col) ==> {
        &&& #[trigger] entry(t.available, x, c) == entry(s.available, x, c)
        &&& entry(t.allocation, x, c) == entry(s.allocation, x, c)
        &&& entry(t.need, x, c) == entry(s.need, x, c)
    }
}

/// Thread `tid` may give back one unit of resource `col` without a counter leaving its range.
pub open spec fn can_release(s: SyncView, tid: int, col: int, renew_need: bool) -> bool {
    &&& has_entry(s, tid, col)
    &&& s.allocation[tid][col] > 0
    &&& s.available[tid][col] < usize::MAX
    &&& renew_need ==> s.need[tid][col] < usize::MAX
}

fn release(state: &mut ProcessSyncState, tid: usize, col: usize, renew_need: bool)
    requires
        can_release(old(state)@, tid as int, col as int, renew_need),
    ensures
        final(state)@ == released(old(state)@, tid as int, col as int, renew_need),
        units_returned(old(state)@, final(state)@, tid as int, col as int, renew_need),
{
    proof {
        let s0 = old(state)@;
        lemma_entry_set(s0.available, tid as int, col as int, (s0.available[tid as int][col as int] + 1) as usize);
        lemma_entry_set(s0.allocation, tid as int, col as int, (s0.allocation[tid as int][col as int] - 1) as usize);
        lemma_entry_set(s0.need, tid as int, col as int, (s0.need[tid as int][col as int] + 1) as usize);
    }
    let a = state.available[tid][col];
    set_entry_at(&mut state.available, tid, col, a + 1);
    let b = state.allocation[tid][col];
    set_entry_at(&mut state.allocation, tid, col, b - 1);
    if renew_need {
        let c = state.need[tid][col];
        set_entry_at(&mut state.need, tid, col, c + 1);
    }
}

/// Unlocking mutex `mutex_id` by thread `tid`: with detection on, the unit
/// goes back to `tid`'s available units and `tid` needs it again; the
/// result is 0 and the caller then unlocks.
pub fn sys_mutex_unlock(state: &mut ProcessSyncState, tid: usize, mutex_id: usize) -> (r: isize)
    requires
        mutex_id < old(state)@.mutexes.len(),
        old(state)@.mutexes[mutex_id as int] is Some,
        old(state)@.detect ==> can_release(old(state)@, tid as int, mutex_id as int, true),
    ensures
        r == 0,
        !old(state)@.detect ==> final(state)@ == old(state)@,
        old(state)@.detect ==> final(state)@ == released(old(state)@, tid as int, mutex_id as int, true),
        old(state)@.detect ==> {
            &&& entry(final(state)@.available, tid as int, mutex_id as int) == entry(old(state)@.available, tid as int, mutex_id as int) + 1
            &&& entry(final(state)@.allocation, tid as int, mutex_id as int) + 1 == entry(old(state)@.allocation, tid as int, mutex_id as int)
            &&& entry(final(state)@.need, tid as int, mutex_id as int) == entry(old(state)@.need, tid as int, mutex_id as int) + 1
            &&& forall|x: int, c: int| !(x == tid && c == mutex_id) ==> {
                &&& #[trigger] entry(final(state)@.available, x, c) == entry(old(state)@.available, x, c)
                &&& entry(final(state)@.allocation, x, c) == entry(old(state)@.allocation, x, c)
                &&& entry(final(state)@.need, x, c) == entry(old(state)@.need, x, c)
            }
        },
{
    if state.enable_deadlock_detect {
        release(state, tid, mutex_id, true);
    }
    0
}

/// Raising semaphore `sem_id` by thread `tid`: with detection on, one unit
/// of the semaphore's resource goes back from `tid`'s allocation to its
/// available units; the result is 0 and the caller then raises the semaphore.
pub fn sys_semaphore_up(state: &mut ProcessSyncState, tid: usize, sem_id: usize) -> (r: isize)
    requires
        sem_id < old(state)@.semaphores.len(),
        old(state)@.semaphores[sem_id as int] is Some,
        old(state)@.detect ==> old(state)@.resource_types() <= usize::MAX,
        old(state)@.detect ==> can_release(
            old(state)@,
            tid as int,
            old(state)@.mutexes.len() + sem_id,
            false,
        ),
    ensures
        r == 0,
        !old(state)@.detect ==> final(state)@ == old(state)@,
        old(state)@.detect ==> final(state)@ == released(
            old(state)@,
            tid as int,
            old(state)@.mutexes.len() + sem_id,
            false,
        ),
        old(state)@.detect ==> ({
            let g = old(state)@.mutexes.len() + sem_id;
            &&& entry(final(state)@.available, tid as int, g) == entry(old(state)@.available, tid as int, g) + 1
            &&& entry(final(state)@.allocation, tid as int, g) + 1 == entry(old(state)@.allocation, tid as int, g)
            &&& forall|x: int, c: int| !(x == tid && c == g) ==> {
                &&& #[trigger] entry(final(state)@.available, x, c) == entry(old(state)@.available, x, c)
                &&& entry(final(state)@.allocation, x, c) == entry(old(state)@.allocation, x, c)
            }
            &&& forall|x: int, c: int| #[trigger] entry(final(state)@.need, x, c) == entry(old(state)@.need, x, c)
        }),
{
    if state.enable_deadlock_detect {
        let gid = state.mutex_list.len() + sem_id;
        release(state, tid, gid, false);
    }
    0
}

/// Locking after a granted lock and unlocking again gives back the state in
/// which the lock was judged: the unit returns, and the need of one unit is
/// recorded again.
pub proof fn lemma_lock_unlock_restores(p: SyncView, tid: int, col: int)
    requires
        has_entry(p, tid, col),
        p.available[tid][col] > 0,
        p.need[tid][col] > 0,
        p.allocation[tid][col] < usize::MAX,
    ensures
        can_release(granted(p, tid, tid, col), tid, col, true),
        released(granted(p, tid, tid, col), tid, col, true) == p,
{
    let q = granted(p, tid, tid, col);
    lemma_set_entry_restore(p.available, tid, col, (p.available[tid][col] - 1) as usize);
    lemma_set_entry_restore(p.allocation, tid, col, (p.allocation[tid][col] + 1) as usize);
    lemma_set_entry_restore(p.need, tid, col, (p.need[tid][col] - 1) as usize);
    assert(released(q, tid, col, true) =~= p);
}

/// The ids of the threads in the occupied slots, in slot order.
pub open spec fn live_tids(tasks: Seq<Option<usize>>) -> Seq<usize>
    decreases tasks.len(),
{
    if tasks.len() == 0 {
        Seq::empty()
    } else {
        let rest = live_tids(tasks.drop_last());
        match tasks.last() {
            Some(t) => rest.push(t),
            None => rest,
        }
    }
}

/// Thread `thread_id`'s row made to cover `rt` resources, with column `gid`
/// set: `count` available units for the creator `tid`, none for others, and
/// no allocation or need.
pub open spec fn semaphore_row_set(s: SyncView, thread_id: int, rt: nat, gid: int, tid: int, count: usize) -> SyncView {
    let g = s.grown_rows((thread_id + 1) as nat).grown_row(thread_id, rt);
    g.with_matrices(
        set_entry(g.available, thread_id, gid, if thread_id == tid { count } else { 0usize }),
        set_entry(g.allocation, thread_id, gid, 0),
        set_entry(g.need, thread_id, gid, 0),
    )
}

/// `semaphore_row_set` applied for each of `ids` in turn.
pub open spec fn semaphore_rows_set(s: SyncView, ids: Seq<usize>, rt: nat, gid: int, tid: int, count: usize) -> SyncView
    decreases ids.len(),
{
    if ids.len() == 0 {
        s
    } else {
        semaphore_row_set(semaphore_rows_set(s, ids.drop_last(), rt, gid, tid, count), ids.last() as int, rt, gid, tid, count)
    }
}

/// Each listed thread's row ends up with the semaphore's column set.
proof fn lemma_semaphore_rows_set(s: SyncView, ids: Seq<usize>, rt: nat, gid: int, tid: int, count: usize)
    requires
        0 <= gid < rt,
    ensures
        forall|j: int| #![trigger ids[j]] 0 <= j < ids.len() ==> {
            &&& entry(semaphore_rows_set(s, ids, rt, gid, tid, count).available, ids[j] as int, gid)
                == if ids[j] as int == tid { count as nat } else { 0nat }
            &&& entry(semaphore_rows_set(s, ids, rt, gid, tid, count).allocation, ids[j] as int, gid) == 0
            &&& entry(semaphore_rows_set(s, ids, rt, gid, tid, count).need, ids[j] as int, gid) == 0
        },
        semaphore_rows_set(s, ids, rt, gid, tid, count).tasks == s.tasks,
        semaphore_rows_set(s, ids, rt, gid, tid, count).mutexes == s.mutexes,
        semaphore_rows_set(s, ids, rt, gid, tid, count).semaphores == s.semaphores,
        semaphore_rows_set(s, ids, rt, gid, tid, count).condvars == s.condvars,
        semaphore_rows_set(s, ids, rt, gid, tid, count).detect == s.detect,
    decreases ids.len(),
{
    if ids.len() > 0 {
        let prev_ids = ids.drop_last();
        lemma_semaphore_rows_set(s, prev_ids, rt, gid, tid, count);
        let v = semaphore_rows_set(s, prev_ids, rt, gid, tid, count);
        let x = ids.last() as int;
        let g1 = v.grown_rows((x + 1) as nat);
        let g = g1.grown_row(x, rt);
        lemma_entry_padded_rows(v.available, (x + 1) as nat);
        lemma_entry_padded_rows(v.allocation, (x + 1) as nat);
        lemma_entry_padded_rows(v.need, (x + 1) as nat);
        lemma_entry_padded_row(g1.available, x, rt);
        lemma_entry_padded_row(g1.allocation, x, rt);
        lemma_entry_padded_row(g1.need, x, rt);
        lemma_entry_set(g.available, x, gid, if x == tid { count } else { 0usize });
        lemma_entry_set(g.allocation, x, gid, 0);
        lemma_entry_set(g.need, x, gid, 0);
        assert forall|j: int| #![trigger ids[j]] 0 <= j < ids.len() implies {
            &&& entry(semaphore_rows_set(s, ids, rt, gid, tid, count).available, ids[j] as int, gid)
                == if ids[j] as int == tid { count as nat } else { 0nat }
            &&& entry(semaphore_rows_set(s, ids, rt, gid, tid, count).allocation, ids[j] as int, gid) == 0
            &&& entry(semaphore_rows_set(s, ids, rt, gid, tid, count).need, ids[j] as int, gid) == 0
        } by {
            if j < ids.len() - 1 {
                assert(ids[j] == prev_ids[j]);
            }
        }
    }
}

/// Every occupied slot's thread id is among the live ids.
proof fn lemma_live_tids(tasks: Seq<Option<usize>>)
    ensures
        forall|i: int| 0 <= i < tasks.len() && #[trigger] tasks[i] is Some ==> live_tids(tasks).contains(tasks[i]->0),
    decreases tasks.len(),
{
    if tasks.len() > 0 {
        let prev = tasks.drop_last();
        lemma_live_tids(prev);
        assert forall|i: int| 0 <= i < tasks.len() && #[trigger] tasks[i] is Some implies live_tids(tasks).contains(tasks[i]->0) by {
            let l = live_tids(tasks);
            if i < tasks.len() - 1 {
                assert(prev[i] == tasks[i]);
                let k = choose|k: int| 0 <= k < live_tids(prev).len() && live_tids(prev)[k] == tasks[i]->0;
                assert(l[k] == tasks[i]->0);
            } else {
                assert(l[l.len() - 1] == tasks[i]->0);
            }
        }
    }
}

/// The state after `sys_semaphore_create` puts a semaphore with `count` units in slot `id` for thread `tid`.
pub open spec fn semaphore_created(s: SyncView, tid: int, count: usize, id: int) -> SyncView {
    let s1 = if s.detect { s.grown_rows((tid + 1) as nat) } else { s };
    let s2 = SyncView { semaphores: fill_slot(s.semaphores, id, Some(count)), ..s1 };
    if s.detect {
        semaphore_rows_set(s2, live_tids(s.tasks), s2.resource_types(), s.mutexes.len() + id, tid, count)
    } else {
        s2
    }
}

/// Creates a semaphore with `res_count` units in the first free slot, or in
/// a new slot at the end, and returns its index. With detection on, the
/// creator `tid` holds all units: for each live thread, in slot order, its
/// row is made to cover every resource and the semaphore's column reads
/// `res_count` for `tid` in `available` and 0 elsewhere.
pub fn sys_semaphore_create(state: &mut ProcessSyncState, tid: usize, res_count: usize) -> (r: isize)
    requires
        old(state)@.detect ==> {
            &&& tid < usize::MAX
            &&& forall|i: int| 0 <= i < old(state)@.tasks.len() && old(state)@.tasks[i] is Some
                ==> old(state)@.tasks[i]->0 < usize::MAX
            &&& old(state)@.resource_types() < usize::MAX
        },
    ensures
        r == first_free(semaphore_slots(old(state)@.semaphores)) as isize,
        final(state)@ == semaphore_created(
            old(state)@,
            tid as int,
            res_count,
            first_free(semaphore_slots(old(state)@.semaphores)),
        ),
        ({
            let k = first_free(semaphore_slots(old(state)@.semaphores));
            let s = old(state)@;
            let t = final(state)@;
            &&& 0 <= k <= s.semaphores.len()
            &&& forall|j: int| 0 <= j < k ==> s.semaphores[j] is Some
            &&& k < s.semaphores.len() ==> s.semaphores[k] is None
            &&& t.semaphores.len() == if k < s.semaphores.len() { s.semaphores.len() } else { s.semaphores.len() + 1 }
            &&& t.semaphores[k] == Some(res_count)
            &&& forall|j: int| 0 <= j < s.semaphores.len() && j != k ==> t.semaphores[j] == s.semaphores[j]
            &&& t.tasks == s.tasks && t.mutexes == s.mutexes && t.condvars == s.condvars && t.detect == s.detect
            &&& !s.detect ==> t.available == s.available && t.allocation == s.allocation && t.need == s.need
            &&& s.detect ==> forall|i: int| 0 <= i < s.tasks.len() && #[trigger] s.tasks[i] is Some ==> {
                let x = s.tasks[i]->0 as int;
                &&& entry(t.available, x, s.mutexes.len() + k) == if x == tid { res_count as nat } else { 0nat }
                &&& entry(t.allocation, x, s.mutexes.len() + k) == 0
                &&& entry(t.need, x, s.mutexes.len() + k) == 0
            }
        }),
{
    let ghost s0 = state@;
    let mutex_len = state.mutex_list.len();
    if state.enable_deadlock_detect {
        state.grow_rows(tid + 1);
    }
    let mut i: usize = 0;
    while i < state.semaphore_list.len() && state.semaphore_list[i].is_some()
        invariant
            i <= state.semaphore_list.len(),
            state.semaphore_list@ == s0.semaphores,
            forall|k: int| 0 <= k < i ==> state.semaphore_list@[k] is Some,
        decreases state.semaphore_list.len() - i,
    {
        i += 1;
    }
    proof {
        lemma_first_free(semaphore_slots(s0.semaphores), i as int);
    }
    let id = i;
    if id < state.semaphore_list.len() {
        state.semaphore_list.set(id, Some(res_count));
    } else {
        state.semaphore_list.push(Some(res_count));
    }
    if state.enable_deadlock_detect {
        let mut thread_ids: Vec<usize> = Vec::new();
        let mut t: usize = 0;
        while t < state.tasks.len()
            invariant
                t <= state.tasks.len(),
                state.tasks@ == s0.tasks,
                thread_ids@ == live_tids(s0.tasks.take(t as int)),
                forall|i: int| 0 <= i < s0.tasks.len() && s0.tasks[i] is Some ==> s0.tasks[i]->0 < usize::MAX,
                forall|j: int| 0 <= j < thread_ids.len() ==> thread_ids@[j] < usize::MAX,
            decreases state.tasks.len() - t,
        {
            assert(s0.tasks.take(t + 1).drop_last() =~= s0.tasks.take(t as int));
            if let Some(thread_id) = state.tasks[t] {
                thread_ids.push(thread_id);
            }
            t += 1;
        }
        assert(s0.tasks.take(s0.tasks.len() as int) =~= s0.tasks);
        let resource_types = state.mutex_list.len() + state.semaphore_list.len();
        let gid = mutex_len + id;
        let ghost s2 = state@;
        let mut k: usize = 0;
        while k < thread_ids.len()
            invariant
                k <= thread_ids.len(),
                thread_ids@ == live_tids(s0.tasks),
                forall|j: int| 0 <= j < thread_ids.len() ==> thread_ids@[j] < usize::MAX,
                resource_types == s2.resource_types(),
                gid < resource_types,
                state@ == semaphore_rows_set(s2, thread_ids@.take(k as int), resource_types as nat, gid as int, tid as int, res_count),
            decreases thread_ids.len() - k,
        {
            let thread_id = thread_ids[k];
            assert(thread_ids@.take(k + 1).drop_last() =~= thread_ids@.take(k as int));
            state.grow_rows(thread_id + 1);
            state.grow_row(thread_id, resource_types);
            let v = if thread_id == tid { res_count } else { 0 };
            set_entry_at(&mut state.available, thread_id, gid, v);
            set_entry_at(&mut state.allocation, thread_id, gid, 0);
            set_entry_at(&mut state.need, thread_id, gid, 0);
            k += 1;
        }
        assert(thread_ids@.take(thread_ids.len() as int) =~= thread_ids@);
        proof {
            lemma_semaphore_rows_set(s2, thread_ids@, resource_types as nat, gid as int, tid as int, res_count);
            lemma_live_tids(s0.tasks);
            assert forall|i: int| 0 <= i < s0.tasks.len() && #[trigger] s0.tasks[i] is Some implies {
                let x = s0.tasks[i]->0 as int;
                &&& entry(state@.available, x, s0.mutexes.len() + id) == if x == tid { res_count as nat } else { 0nat }
                &&& entry(state@.allocation, x, s0.mutexes.len() + id) == 0
                &&& entry(state@.need, x, s0.mutexes.len() + id) == 0
            } by {
                let j = choose|j: int| 0 <= j < thread_ids@.len() && thread_ids@[j] == s0.tasks[i]->0;
                assert(entry(state@.available, thread_ids@[j] as int, gid as int) == if thread_ids@[j] as int == tid { res_count as nat } else { 0nat });
            }
        }
    }
    proof {
        lemma_first_free_props(semaphore_slots(s0.semaphores));
        let k = id as int;
        assert(k == first_free(semaphore_slots(s0.semaphores)));
        assert(forall|j: int| 0 <= j < k ==> s0.semaphores[j] is Some) by {
            assert(forall|j: int| 0 <= j < k ==> semaphore_slots(s0.semaphores)[j]);
        }
        assert(state@.semaphores[k] == Some(res_count));
        assert(state@.tasks == s0.tasks);
    }
    id as isize
}

/// What the first half of `sys_semaphore_down` decides: the system call's
/// result when it ends here, and whether a unit was already given to the caller.
pub struct DownStep {
    pub code: isize,
    pub pre_allocated: bool,
}

/// The resource index of semaphore `sem_id`: semaphores follow the mutexes.
pub open spec fn semaphore_column(s: SyncView, sem_id: int) -> int {
    s.mutexes.len() + sem_id
}

/// The semaphore request is not refused: detection is off, or the prepared
/// request (with a unit given in advance when some row has one) leaves a
/// safe state.
pub open spec fn down_goes_on(s: SyncView, tid: int, sem_id: int) -> bool {
    let gid = semaphore_column(s, sem_id);
    let p = request_prepared(s, tid, gid);
    !s.detect || match first_positive(p.available, gid, p.available.len()) {
        Some(from) => granted(p, from, tid, gid).banker().is_safe(),
        None => p.banker().is_safe(),
    }
}

/// The first half of lowering semaphore `sem_id` by thread `tid`, before
/// the caller blocks on it. With detection off nothing changes. With
/// detection on the request is prepared (rows grown, a need of one unit
/// recorded); when some row has an available unit of the semaphore, the
/// first such row gives one to `tid` in advance. The result is then
/// `DEADLOCK`, with the advance taken back, when the state is not safe, and
/// 0 otherwise (the caller then lowers the semaphore and finishes with
/// `semaphore_down_acquired`).
pub fn sys_semaphore_down(state: &mut ProcessSyncState, tid: usize, sem_id: usize) -> (step: DownStep)
    requires
        down_goes_on(old(state)@, tid as int, sem_id as int) ==> {
            &&& sem_id < old(state)@.semaphores.len()
            &&& old(state)@.semaphores[sem_id as int] is Some
        },
        old(state)@.detect ==> {
            &&& sem_id < old(state)@.semaphores.len()
            &&& old(state)@.resource_types() <= usize::MAX
            &&& old(state)@.slots_match_tids()
            &&& tid < old(state).tasks.len()
            &&& old(state)@.tasks[tid as int] is Some
            &&& forall|r: int| 0 <= r < old(state)@.resource_types() ==> #[trigger] old(state)@.banker().units(r) < usize::MAX
            &&& column_sum(old(state)@.available, semaphore_column(old(state)@, sem_id as int)) <= isize::MAX
        },
    ensures
        step.code == DEADLOCK ==> !step.pre_allocated,
        !old(state)@.detect ==> step.code == 0 && !step.pre_allocated && final(state)@ == old(state)@,
        old(state)@.detect && step.code == 0 ==> final(state)@.banker().is_safe(),
        old(state)@.detect ==> {
            let gid = semaphore_column(old(state)@, sem_id as int);
            let p = request_prepared(old(state)@, tid as int, gid);
            match first_positive(p.available, gid, p.available.len()) {
                Some(from) => {
                    let q = granted(p, from, tid as int, gid);
                    if q.banker().is_safe() {
                        step.code == 0 && step.pre_allocated && final(state)@ == q
                    } else {
                        step.code == DEADLOCK && final(state)@ == p
                    }
                },
                None => {
                    if p.banker().is_safe() {
                        step.code == 0 && !step.pre_allocated && final(state)@ == p
                    } else {
                        step.code == DEADLOCK && final(state)@ == p
                    }
                },
            }
        },
        old(state)@.detect ==> ({
            let g = old(state)@.mutexes.len() + sem_id;
            let s = old(state)@;
            let t = final(state)@;
            &&& step.code == 0 || step.code == DEADLOCK
            &&& forall|x: int, c: int| !(x == tid && c == g) ==> #[trigger] entry(t.need, x, c) == entry(s.need, x, c)
            &&& !step.pre_allocated ==> {
                &&& forall|x: int, c: int| #[trigger] entry(t.available, x, c) == entry(s.available, x, c)
                &&& forall|x: int, c: int| #[trigger] entry(t.allocation, x, c) == entry(s.allocation, x, c)
                &&& entry(t.need, tid as int, g) == if entry(s.need, tid as int, g) == 0 { 1 } else { entry(s.need, tid as int, g) }
            }
            &&& step.code == 0 && !step.pre_allocated ==> column_sum(s.available, g) == 0
            &&& step.pre_allocated ==> {
                &&& step.code == 0
                &&& column_sum(t.available, g) + 1 == column_sum(s.available, g)
                &&& column_sum(t.allocation, g) == column_sum(s.allocation, g) + 1
                &&& entry(t.allocation, tid as int, g) == entry(s.allocation, tid as int, g) + 1
                &&& entry(t.need, tid as int, g) + 1 == if entry(s.need, tid as int, g) == 0 { 1 } else { entry(s.need, tid as int, g) }
                &&& forall|x: int, c: int| !(x == tid && c == g) ==> #[trigger] entry(t.allocation, x, c) == entry(s.allocation, x, c)
                &&& exists|from: int| {
                    &&& 0 <= from
                    &&& entry(s.available, from, g) > 0
                    &&& forall|y: int| 0 <= y < from ==> #[trigger] entry(s.available, y, g) == 0
                    &&& entry(t.available, from, g) + 1 == entry(s.available, from, g)
                    &&& forall|x: int, c: int| !(x == from && c == g) ==> #[trigger] entry(t.available, x, c) == entry(s.available, x, c)
                }
            }
        }),
{
    if !state.enable_deadlock_detect {
        return DownStep { code: 0, pre_allocated: false };
    }
    let ghost s0 = state@;
    let gid = state.mutex_list.len() + sem_id;
    prepare_request(state, tid, gid);
    let ghost p = state@;
    proof {
        lemma_entry_padded_rows(s0.available, (tid + 1) as nat);
        lemma_entry_padded_rows(s0.allocation, (tid + 1) as nat);
        lemma_entry_padded_row(s0.grown_rows((tid + 1) as nat).available, tid as int, s0.resource_types());
        lemma_entry_padded_row(s0.grown_rows((tid + 1) as nat).allocation, tid as int, s0.resource_types());
        s0.banker().lemma_units_same(p.banker());
        lemma_column_same(s0.available, p.available, gid as int);
        lemma_first_positive(p.available, gid as int, p.available.len());
        lemma_prepared_keeps_entries(s0, tid as int, gid as int);
        lemma_request_conserves_units(s0, tid as int, gid as int, tid as int);
    }
    let mut total_available: isize = 0;
    let mut donor: Option<usize> = None;
    let mut row: usize = 0;
    while row < state.available.len()
        invariant
            state@ == p,
            row <= state.available.len(),
            column_sum(p.available, gid as int) <= isize::MAX,
            total_available == seq_sum(index_range(row as nat), column_fn(p.available, gid as int)),
            donor is Some <==> first_positive(p.available, gid as int, row as nat) is Some,
            donor is Some ==> first_positive(p.available, gid as int, row as nat) == Some(donor->0 as int),
        decreases state.available.len() - row,
    {
        proof {
            lemma_range_sum_step((row + 1) as nat, column_fn(p.available, gid as int));
            lemma_range_sum_monotone((row + 1) as nat, p.available.len(), column_fn(p.available, gid as int));
        }
        if state.available[row].len() > gid {
            let v = state.available[row][gid];
            assert(v == entry(p.available, row as int, gid as int));
            total_available = total_available + v as isize;
            if donor.is_none() && v > 0 {
                donor = Some(row);
            }
        }
        row += 1;
    }
    proof {
        lemma_first_positive(p.available, gid as int, p.available.len());
    }
    let mut pre_allocated = false;
    let mut from = tid;
    if total_available > 0 {
        from = match donor {
            Some(d) => d,
            None => tid,
        };
        if state.available[from].len() <= gid {
            return DownStep { code: DEADLOCK, pre_allocated: false };
        }
        proof {
            lemma_term_le_sum(p.tasks.len(), p.banker().alloc_fn(gid as int), tid as int);
            assert(p.banker().units(gid as int) == s0.banker().units(gid as int));
            assert(s0.banker().units(gid as int) < usize::MAX);
            lemma_request_units(s0, tid as int, gid as int, from as int);
        }
        grant(state, from, tid, gid);
        pre_allocated = true;
        proof {
            lemma_granted_entries(p, from as int, tid as int, gid as int);
            lemma_column_sum_set(p.available, from as int, gid as int, (p.available[from as int][gid as int] - 1) as usize);
            lemma_column_sum_set(p.allocation, tid as int, gid as int, (p.allocation[tid as int][gid as int] + 1) as usize);
            let f = from as int;
            assert(entry(s0.available, f, gid as int) > 0);
            assert(p == request_prepared(s0, tid as int, gid as int));
            assert(first_positive(p.available, gid as int, p.available.len()) == Some(f));
            assert forall|y: int| 0 <= y < f implies #[trigger] entry(s0.available, y, gid as int) == 0 by {
                assert(entry(p.available, y, gid as int) == 0);
                assert(entry(request_prepared(s0, tid as int, gid as int).available, y, gid as int) == entry(s0.available, y, gid as int));
            }
        }
    }
    if !deadlock_checker(state) {
        if pre_allocated {
            revoke(state, from, tid, gid, Ghost(p));
        }
        return DownStep { code: DEADLOCK, pre_allocated: false };
    }
    DownStep { code: 0, pre_allocated }
}

/// The row that gives the unit when a thread acquires semaphore column `gid`
/// without an advance: the first row with an available unit, else `tid`.
pub open spec fn acquire_source(s: SyncView, tid: int, gid: int) -> int {
    match first_positive(s.available, gid, s.available.len()) {
        Some(k) => k,
        None => tid,
    }
}

/// The state after thread `tid` acquired a unit of column `gid` without an
/// advance: the source row loses an available unit when it holds the column,
/// `tid`'s allocation grows by one, and its need shrinks by one when positive.
pub open spec fn acquired(s: SyncView, tid: int, gid: int) -> SyncView {
    let from = acquire_source(s, tid, gid);
    s.with_matrices(
        if gid < s.available[from].len() {
            set_entry(s.available, from, gid, (s.available[from][gid] - 1) as usize)
        } else {
            s.available
        },
        set_entry(s.allocation, tid, gid, (s.allocation[tid][gid] + 1) as usize),
        if s.need[tid][gid] > 0 { set_entry(s.need, tid, gid, (s.need[tid][gid] - 1) as usize) } else { s.need },
    )
}

/// From `s` to `t`, thread `tid` has come to hold one more unit of column
/// `g`: its allocation there grew by one and its need shrank by one (or
/// stayed 0); when some row had an available unit of `g`, one such unit is
/// gone from `available`, so `available` plus `allocation` of column `g`
/// sum to what they did; when none had, `available` is unchanged.
pub open spec fn unit_recorded(s: SyncView, t: SyncView, tid: int, g: int) -> bool {
    &&& t.allocation[tid][g] == s.allocation[tid][g] + 1
    &&& t.need[tid][g] == if s.need[tid][g] > 0 { s.need[tid][g] - 1 } else { 0 }
    &&& column_sum(s.available, g) > 0 ==> {
        &&& column_sum(t.available, g) + 1 == column_sum(s.available, g)
        &&& column_sum(t.available, g) + column_sum(t.allocation, g) == column_sum(s.available, g) + column_sum(s.allocation, g)
    }
    &&& column_sum(s.available, g) == 0 ==> {
        &&& t.available == s.available
        &&& column_sum(t.allocation, g) == column_sum(s.allocation, g) + 1
    }
}

/// Recording an acquired unit moves it from the first row that has one to
/// the thread's allocation, as `unit_recorded` says.
proof fn lemma_acquired_records_unit(s: SyncView, tid: int, g: int)
    requires
        0 <= tid < s.allocation.len(),
        0 <= g < s.allocation[tid].len(),
        s.allocation[tid][g] < usize::MAX,
        tid < s.need.len(),
        g < s.need[tid].len(),
        first_positive(s.available, g, s.available.len()) is None ==> {
            &&& tid < s.available.len()
            &&& s.available[tid].len() <= g
        },
    ensures
        unit_recorded(s, acquired(s, tid, g), tid, g),
{
    let t = acquired(s, tid, g);
    lemma_first_positive(s.available, g, s.available.len());
    lemma_column_sum_set(s.allocation, tid, g, (s.allocation[tid][g] + 1) as usize);
    lemma_entry_set(s.allocation, tid, g, (s.allocation[tid][g] + 1) as usize);
    if s.need[tid][g] > 0 {
        lemma_entry_set(s.need, tid, g, (s.need[tid][g] - 1) as usize);
    }
    match first_positive(s.available, g, s.available.len()) {
        Some(from) => {
            assert(entry(s.available, from, g) > 0);
            lemma_column_sum_set(s.available, from, g, (s.available[from][g] - 1) as usize);
        },
        None => {},
    }
}

/// The second half of lowering semaphore `sem_id` by thread `tid`, once the
/// caller holds it: with detection on and no unit given in advance, the unit
/// is recorded now (see `acquired`). The result is 0.
pub fn semaphore_down_acquired(state: &mut ProcessSyncState, tid: usize, sem_id: usize, pre_allocated: bool) -> (r: isize)
    requires
        old(state)@.detect && !pre_allocated ==> {
            let gid = semaphore_column(old(state)@, sem_id as int);
            &&& gid <= usize::MAX
            &&& tid < old(state)@.allocation.len()
            &&& gid < old(state)@.allocation[tid as int].len()
            &&& old(state)@.allocation[tid as int][gid] < usize::MAX
            &&& tid < old(state)@.need.len()
            &&& gid < old(state)@.need[tid as int].len()
            &&& first_positive(old(state)@.available, gid, old(state)@.available.len()) is None ==> {
                &&& tid < old(state)@.available.len()
                &&& old(state)@.available[tid as int].len() <= gid
            }
        },
    ensures
        r == 0,
        old(state)@.detect && !pre_allocated ==> final(state)@ == acquired(
            old(state)@,
            tid as int,
            semaphore_column(old(state)@, sem_id as int),
        ),
        !(old(state)@.detect && !pre_allocated) ==> final(state)@ == old(state)@,
        old(state)@.detect && !pre_allocated ==> ({
            let g = old(state)@.mutexes.len() + sem_id;
            let s = old(state)@;
            let t = final(state)@;
            &&& t.allocation[tid as int][g] == s.allocation[tid as int][g] + 1
            &&& t.need[tid as int][g] == if s.need[tid as int][g] > 0 { s.need[tid as int][g] - 1 } else { 0 }
            &&& column_sum(s.available, g) > 0 ==> {
                &&& column_sum(t.available, g) + 1 == column_sum(s.available, g)
                &&& column_sum(t.available, g) + column_sum(t.allocation, g)
                    == column_sum(s.available, g) + column_sum(s.allocation, g)
            }
            &&& column_sum(s.available, g) == 0 ==> {
                &&& t.available == s.available
                &&& column_sum(t.allocation, g) == column_sum(s.allocation, g) + 1
            }
        }),
{
    proof {
        if old(state)@.detect && !pre_allocated {
            lemma_acquired_records_unit(old(state)@, tid as int, old(state)@.mutexes.len() + sem_id);
        }
    }
    if state.enable_deadlock_detect && !pre_allocated {
        let ghost s0 = state@;
        let gid = state.mutex_list.len() + sem_id;
        proof {
            lemma_first_positive(s0.available, gid as int, s0.available.len());
        }
        let mut from_opt: Option<usize> = None;
        let mut row: usize = 0;
        while row < state.available.len() && from_opt.is_none()
            invariant
                state@ == s0,
                row <= state.available.len(),
                from_opt is Some ==> first_positive(s0.available, gid as int, s0.available.len()) == Some(from_opt->0 as int),
                from_opt is None ==> first_positive(s0.available, gid as int, row as nat) is None,
            decreases state.available.len() - row + (if from_opt is None { 1int } else { 0int }),
        {
            if state.available[row].len() > gid && state.available[row][gid] > 0 {
                assert(entry(s0.available, row as int, gid as int) > 0);
                from_opt = Some(row);
                assert(first_positive(s0.available, gid as int, (row + 1) as nat) == Some(row as int));
                proof {
                    crate::sync::banker::lemma_first_positive_extend(s0.available, gid as int, (row + 1) as nat, s0.available.len());
                }
            } else {
                assert(entry(s0.available, row as int, gid as int) == 0);
                row += 1;
            }
        }
        let from = match from_opt {
            Some(k) => k,
            None => tid,
        };
        if state.available[from].len() > gid {
            let a = state.available[from][gid];
            set_entry_at(&mut state.available, from, gid, a - 1);
        }
        let b = state.allocation[tid][gid];
        set_entry_at(&mut state.allocation, tid, gid, b + 1);
        if state.need[tid][gid] > 0 {
            let c = state.need[tid][gid];
            set_entry_at(&mut state.need, tid, gid, c - 1);
        }
    }
    0
}

/// Preparing a request, which is all that a refused lock or a refused
/// semaphore down leaves behind, changes no entry of `available` or
/// `allocation`, and in `need` only the requested entry, which becomes
/// positive.
pub proof fn lemma_prepared_keeps_entries(s: SyncView, tid: int, col: int)
    requires
        0 <= tid,
        0 <= col < s.resource_types(),
    ensures
        forall|x: int, r: int| #[trigger] entry(request_prepared(s, tid, col).available, x, r) == entry(s.available, x, r),
        forall|x: int, r: int| #[trigger] entry(request_prepared(s, tid, col).allocation, x, r) == entry(s.allocation, x, r),
        forall|x: int, r: int| !(x == tid && r == col) ==> #[trigger] entry(request_prepared(s, tid, col).need, x, r) == entry(s.need, x, r),
        entry(request_prepared(s, tid, col).need, tid, col) == if entry(s.need, tid, col) == 0 { 1 } else { entry(s.need, tid, col) },
{
    let g1 = s.grown_rows((tid + 1) as nat);
    let g = g1.grown_row(tid, s.resource_types());
    lemma_entry_padded_rows(s.available, (tid + 1) as nat);
    lemma_entry_padded_rows(s.allocation, (tid + 1) as nat);
    lemma_entry_padded_rows(s.need, (tid + 1) as nat);
    lemma_entry_padded_row(g1.available, tid, s.resource_types());
    lemma_entry_padded_row(g1.allocation, tid, s.resource_types());
    lemma_entry_padded_row(g1.need, tid, s.resource_types());
    assert(g.need[tid].len() >= s.resource_types());
    lemma_entry_set(g.need, tid, col, 1);
}

/// Growing the first rows with zeros leaves every entry as it reads.
proof fn lemma_entry_pad_first_rows(v: Seq<Seq<usize>>, n: nat, len: nat)
    ensures
        forall|x: int, r: int| #[trigger] entry(pad_first_rows(v, n, len), x, r) == entry(v, x, r),
{
}

/// Growing a matrix to rows it already has, or rows to lengths they already have, changes nothing.
proof fn lemma_shaped_matrix(v: Seq<Seq<usize>>, n: nat, len: nat)
    requires
        v.len() >= n,
        forall|t: int| 0 <= t < n ==> #[trigger] v[t].len() >= len,
    ensures
        padded_rows(v, n) == v,
        pad_first_rows(v, n, len) == v,
{
    assert(pad_first_rows(v, n, len) =~= v);
}

/// Setting detection again to the value just set changes nothing.
pub proof fn lemma_enable_twice(s: SyncView, enabled: usize)
    requires
        enabled <= 1,
    ensures
        detection_set(detection_set(s, enabled), enabled) == detection_set(s, enabled),
{
    if enabled == 0 {
        assert(detection_set(detection_set(s, 0), 0) =~= detection_set(s, 0));
    } else {
        let d = detection_set(s, 1);
        let n = s.tasks.len();
        let rt = s.resource_types();
        assert(d.shaped(n, rt)) by {
            let t = (SyncView { detect: true, ..s }).grown_rows(n);
            assert forall|i: int| 0 <= i < n implies #[trigger] d.available[i].len() >= rt by {
                assert(d.available[i] == padded_row(t.available[i], rt));
            }
            assert forall|i: int| 0 <= i < n implies #[trigger] d.allocation[i].len() >= rt by {
                assert(d.allocation[i] == padded_row(t.allocation[i], rt));
            }
            assert forall|i: int| 0 <= i < n implies #[trigger] d.need[i].len() >= rt by {
                assert(d.need[i] == padded_row(t.need[i], rt));
            }
        }
        lemma_shaped_matrix(d.available, n, rt);
        lemma_shaped_matrix(d.allocation, n, rt);
        lemma_shaped_matrix(d.need, n, rt);
        assert(detection_set(d, 1) =~= d);
    }
}

/// Setting one entry of a column changes the column's sum by the difference.
proof fn lemma_column_sum_set(v: Seq<Seq<usize>>, t: int, c: int, y: usize)
    requires
        0 <= t < v.len(),
        0 <= c < v[t].len(),
    ensures
        column_sum(set_entry(v, t, c, y), c) + v[t][c] == column_sum(v, c) + y,
{
    let w = set_entry(v, t, c, y);
    lemma_entry_set(v, t, c, y);
    assert forall|i: int| 0 <= i < v.len() && i != t implies #[trigger] column_fn(v, c)(i) == column_fn(w, c)(i) by {}
    lemma_sum_point(v.len(), column_fn(v, c), column_fn(w, c), t);
}

/// A lock or semaphore request keeps the units of its resource column: the
/// prepared state has the same column sums in `available` and `allocation`,
/// and a unit moved from row `from` to thread `tid` leaves the sum of both
/// columns as it was. When the unit comes from `tid`'s own row, as a granted
/// lock's does, `tid`'s available plus allocated units stay the same and no
/// other entry of `available` or `allocation` changes.
pub proof fn lemma_request_conserves_units(s: SyncView, tid: int, col: int, from: int)
    requires
        0 <= tid,
        0 <= col < s.resource_types(),
    ensures
        column_sum(request_prepared(s, tid, col).available, col) == column_sum(s.available, col),
        column_sum(request_prepared(s, tid, col).allocation, col) == column_sum(s.allocation, col),
        ({
            let p = request_prepared(s, tid, col);
            let q = granted(p, from, tid, col);
            (has_available(p, from, col) && has_entry(p, tid, col) && p.available[from][col] > 0
                && p.allocation[tid][col] < usize::MAX && p.need[tid][col] > 0) ==> {
                &&& column_sum(q.available, col) + column_sum(q.allocation, col)
                    == column_sum(s.available, col) + column_sum(s.allocation, col)
                &&& from == tid ==> entry(q.available, tid, col) + entry(q.allocation, tid, col)
                    == entry(s.available, tid, col) + entry(s.allocation, tid, col)
                &&& from == tid ==> forall|x: int, r: int| !(x == tid && r == col) ==> {
                    &&& #[trigger] entry(q.available, x, r) == entry(s.available, x, r)
                    &&& entry(q.allocation, x, r) == entry(s.allocation, x, r)
                }
            }
        }),
{
    let p = request_prepared(s, tid, col);
    lemma_prepared_keeps_entries(s, tid, col);
    lemma_column_same(s.available, p.available, col);
    lemma_column_same(s.allocation, p.allocation, col);
    if has_available(p, from, col) && has_entry(p, tid, col) && p.available[from][col] > 0
        && p.allocation[tid][col] < usize::MAX && p.need[tid][col] > 0 {
        let a = (p.available[from][col] - 1) as usize;
        let b = (p.allocation[tid][col] + 1) as usize;
        lemma_column_sum_set(p.available, from, col, a);
        lemma_column_sum_set(p.allocation, tid, col, b);
        lemma_entry_set(p.available, from, col, a);
        lemma_entry_set(p.allocation, tid, col, b);
    }
}

/// A semaphore down that took a unit in advance from row `from`, followed by
/// the same thread's semaphore up, leaves the thread's allocation and the
/// column sums of `available` and `allocation` as they were before the down
/// (the unit comes back in the thread's own row, not necessarily in `from`).
pub proof fn lemma_down_up_round_trip(p: SyncView, from: int, tid: int, g: int)
    requires
        has_available(p, from, g),
        has_entry(p, tid, g),
        p.available[from][g] > 0,
        p.need[tid][g] > 0,
        p.allocation[tid][g] < usize::MAX,
        p.available[tid][g] < usize::MAX,
    ensures
        can_release(granted(p, from, tid, g), tid, g, false),
        released(granted(p, from, tid, g), tid, g, false).allocation[tid][g] == p.allocation[tid][g],
        column_sum(released(granted(p, from, tid, g), tid, g, false).available, g) == column_sum(p.available, g),
        column_sum(released(granted(p, from, tid, g), tid, g, false).allocation, g) == column_sum(p.allocation, g),
{
    let q = granted(p, from, tid, g);
    let a = (p.available[from][g] - 1) as usize;
    let b = (p.allocation[tid][g] + 1) as usize;
    lemma_column_sum_set(p.available, from, g, a);
    lemma_column_sum_set(p.allocation, tid, g, b);
    lemma_column_sum_set(q.available, tid, g, (q.available[tid][g] + 1) as usize);
    lemma_column_sum_set(q.allocation, tid, g, (q.allocation[tid][g] - 1) as usize);
}

} // verus!
