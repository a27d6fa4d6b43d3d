//! The mathematical model behind deadlock detection: the banker's safety
//! condition over the per-thread `available`, `allocation` and `need` rows.
use vstd::prelude::*;
use vstd::set_lib::{lemma_int_range, lemma_len_subset, set_int_range};
use crate::sync::matrix::{padded_row, padded_rows, set_entry};

verus! {

/// Sum of `f` over the elements of `s`, in order.
pub open spec fn seq_sum(s: Seq<int>, f: spec_fn(int) -> nat) -> nat
    decreases s.len(),
{
    if s.len() == 0 {
        0
    } else {
        seq_sum(s.drop_last(), f) + f(s.last())
    }
}

/// The indices `0, 1, ..., n - 1`.
pub open spec fn index_range(n: nat) -> Seq<int> {
    Seq::new(n, |i: int| i)
}

/// The entry in row `t`, column `r` of a matrix, where a missing row or column reads as 0.
pub open spec fn entry(m: Seq<Seq<usize>>, t: int, r: int) -> nat {
    if 0 <= t < m.len() && 0 <= r < m[t].len() {
        m[t][r] as nat
    } else {
        0
    }
}

/// What the deadlock check reads of a process: for each thread slot the
/// thread's id (`None` for an empty slot or a thread without user resources),
/// the number of resource kinds, and the three bookkeeping matrices, indexed
/// by thread id and resource.
pub struct BankerState {
    pub tasks: Seq<Option<usize>>,
    pub resources: nat,
    pub available: Seq<Seq<usize>>,
    pub allocation: Seq<Seq<usize>>,
    pub need: Seq<Seq<usize>>,
}

impl BankerState {
    pub open spec fn threads(self) -> nat {
        self.tasks.len()
    }

    /// A slot that takes no part in the check (empty, or a thread without resources).
    pub open spec fn exempt(self, i: int) -> bool {
        self.tasks[i] is None
    }

    /// The thread in slot `i` has rows in both `need` and `allocation`.
    pub open spec fn eligible(self, i: int) -> bool {
        &&& self.tasks[i] is Some
        &&& self.tasks[i]->0 < self.need.len()
        &&& self.tasks[i]->0 < self.allocation.len()
    }

    /// What slot `i` contributes to the initial work vector in column `r`.
    pub open spec fn initial_of(self, i: int, r: int) -> nat {
        match self.tasks[i] {
            Some(t) => entry(self.available, t as int, r),
            None => 0,
        }
    }

    pub open spec fn alloc_of(self, i: int, r: int) -> nat {
        match self.tasks[i] {
            Some(t) => entry(self.allocation, t as int, r),
            None => 0,
        }
    }

    pub open spec fn need_of(self, i: int, r: int) -> nat {
        match self.tasks[i] {
            Some(t) => entry(self.need, t as int, r),
            None => 0,
        }
    }

    pub open spec fn initial_fn(self, r: int) -> spec_fn(int) -> nat {
        |i: int| self.initial_of(i, r)
    }

    pub open spec fn alloc_fn(self, r: int) -> spec_fn(int) -> nat {
        |i: int| self.alloc_of(i, r)
    }

    /// The initial work in column `r`: the available units of every thread.
    pub open spec fn initial_work(self, r: int) -> nat {
        seq_sum(index_range(self.threads()), self.initial_fn(r))
    }

    /// Everything allocated in column `r`, over all slots.
    pub open spec fn total_allocation(self, r: int) -> nat {
        seq_sum(index_range(self.threads()), self.alloc_fn(r))
    }

    /// The work in column `r` once the slots of `order` have run and released their allocation.
    pub open spec fn work_after(self, order: Seq<int>, r: int) -> nat {
        self.initial_work(r) + seq_sum(order, self.alloc_fn(r))
    }

    /// Slot `i` can run to completion once the slots of `order` have finished.
    pub open spec fn can_run(self, i: int, order: Seq<int>) -> bool {
        &&& self.eligible(i)
        &&& forall|r: int| 0 <= r < self.resources ==> self.need_of(i, r) <= self.work_after(order, r)
    }

    /// `order` lists distinct participating slots, each of which can run once the ones before it have.
    pub open spec fn safe_order(self, order: Seq<int>) -> bool {
        &&& order.no_duplicates()
        &&& forall|k: int|
            #![trigger order[k]]
            0 <= k < order.len() ==> {
                &&& 0 <= order[k] < self.threads()
                &&& !self.exempt(order[k])
                &&& self.can_run(order[k], order.take(k))
            }
    }

    /// `order` names every participating slot.
    pub open spec fn covers(self, order: Seq<int>) -> bool {
        forall|i: int| 0 <= i < self.threads() && !self.exempt(i) ==> order.contains(i)
    }

    /// The state is safe: the participating threads can all finish, one after another.
    pub open spec fn is_safe(self) -> bool {
        exists|order: Seq<int>| self.safe_order(order) && self.covers(order)
    }

    /// No work counter can exceed the machine word.
    pub open spec fn work_fits(self) -> bool {
        &&& self.resources <= usize::MAX
        &&& forall|r: int|
            0 <= r < self.resources ==> #[trigger] self.units(r) <= usize::MAX
    }
}

pub proof fn lemma_seq_sum_remove(s: Seq<int>, f: spec_fn(int) -> nat, j: int)
    requires
        0 <= j < s.len(),
    ensures
        seq_sum(s, f) == seq_sum(s.remove(j), f) + f(s[j]),
    decreases s.len(),
{
    if j == s.len() - 1 {
        assert(s.remove(j) =~= s.drop_last());
    } else {
        lemma_seq_sum_remove(s.drop_last(), f, j);
        assert(s.remove(j).drop_last() =~= s.drop_last().remove(j));
        assert(s.remove(j).last() == s.last());
    }
}

pub proof fn lemma_remove_no_duplicates(s: Seq<int>, j: int)
    requires
        0 <= j < s.len(),
        s.no_duplicates(),
    ensures
        s.remove(j).no_duplicates(),
        forall|y: int| s.contains(y) && y != s[j] ==> s.remove(j).contains(y),
{
    let t = s.remove(j);
    assert forall|a: int, b: int| 0 <= a < t.len() && 0 <= b < t.len() && a != b implies t[a]
        != t[b] by {
        let sa = if a < j { a } else { a + 1 };
        let sb = if b < j { b } else { b + 1 };
        assert(t[a] == s[sa]);
        assert(t[b] == s[sb]);
    }
    assert forall|y: int| s.contains(y) && y != s[j] implies t.contains(y) by {
        let k = choose|k: int| 0 <= k < s.len() && s[k] == y;
        if k < j {
            assert(t[k] == y);
        } else {
            assert(k != j);
            assert(t[k - 1] == y);
        }
    }
}

/// Summing over a duplicate-free sequence gives no more than summing over a
/// duplicate-free sequence that holds all of its elements.
pub proof fn lemma_seq_sum_subset(a: Seq<int>, b: Seq<int>, f: spec_fn(int) -> nat)
    requires
        a.no_duplicates(),
        b.no_duplicates(),
        forall|x: int| a.contains(x) ==> b.contains(x),
    ensures
        seq_sum(a, f) <= seq_sum(b, f),
    decreases a.len(),
{
    if a.len() > 0 {
        let x = a.last();
        assert(a.contains(x)) by {
            assert(a[a.len() - 1] == x);
        }
        let j = b.index_of(x);
        let b2 = b.remove(j);
        lemma_seq_sum_remove(b, f, j);
        lemma_remove_no_duplicates(b, j);
        let a2 = a.drop_last();
        assert forall|y: int| a2.contains(y) implies b2.contains(y) by {
            let k = choose|k: int| 0 <= k < a2.len() && a2[k] == y;
            assert(a[k] == y);
            assert(a.contains(y));
            assert(y != x);
        }
        assert(a2.no_duplicates()) by {
            assert forall|p: int, q: int| 0 <= p < a2.len() && 0 <= q < a2.len() && p != q implies a2[p]
                != a2[q] by {
                assert(a2[p] == a[p]);
                assert(a2[q] == a[q]);
            }
        }
        lemma_seq_sum_subset(a2, b2, f);
    }
}

/// The sum over a prefix of the index range is no more than the sum over the whole range.
pub proof fn lemma_range_sum_monotone(i: nat, n: nat, f: spec_fn(int) -> nat)
    requires
        i <= n,
    ensures
        seq_sum(index_range(i), f) <= seq_sum(index_range(n), f),
    decreases n,
{
    if i < n {
        lemma_range_sum_step(n, f);
        lemma_range_sum_monotone(i, (n - 1) as nat, f);
        let m: nat = (n - 1) as nat;
        assert(seq_sum(index_range(n), f) == seq_sum(index_range(m), f) + f(m as int));
    }
}

pub proof fn lemma_range_sum_step(n: nat, f: spec_fn(int) -> nat)
    requires
        n > 0,
    ensures
        seq_sum(index_range(n), f) == seq_sum(index_range((n - 1) as nat), f) + f(n - 1),
{
    assert(index_range(n).drop_last() =~= index_range((n - 1) as nat));
}

pub proof fn lemma_index_range_no_duplicates(n: nat)
    ensures
        index_range(n).no_duplicates(),
        forall|x: int| 0 <= x < n ==> index_range(n).contains(x),
{
    assert forall|x: int| 0 <= x < n implies index_range(n).contains(x) by {
        assert(index_range(n)[x] == x);
    }
}

impl BankerState {
    /// Work only grows as more slots of a duplicate-free order finish, and it
    /// never exceeds the initial work plus everything allocated.
    pub proof fn lemma_work_bounded(self, order: Seq<int>, r: int)
        requires
            order.no_duplicates(),
            forall|k: int| 0 <= k < order.len() ==> 0 <= #[trigger] order[k] < self.threads(),
        ensures
            self.work_after(order, r) <= self.initial_work(r) + self.total_allocation(r),
    {
        lemma_index_range_no_duplicates(self.threads());
        assert forall|x: int| order.contains(x) implies index_range(self.threads()).contains(x) by {
            let k = choose|k: int| 0 <= k < order.len() && order[k] == x;
            assert(0 <= order[k] < self.threads());
        }
        lemma_seq_sum_subset(order, index_range(self.threads()), self.alloc_fn(r));
    }

    /// A safe order lists each slot at most once, so it is no longer than the slot count.
    pub proof fn lemma_safe_order_len(self, order: Seq<int>)
        requires
            self.safe_order(order),
        ensures
            order.len() <= self.threads(),
    {
        order.unique_seq_to_set();
        lemma_int_range(0, self.threads() as int);
        assert forall|x: int| order.to_set().contains(x) implies set_int_range(0, self.threads() as int).contains(x) by {
            let k = choose|k: int| 0 <= k < order.len() && order[k] == x;
            assert(0 <= order[k] < self.threads());
        }
        lemma_len_subset(order.to_set(), set_int_range(0, self.threads() as int));
    }

    /// If every element of `s.take(p)` lies in `order`, and `s` is a safe order
    /// while no participating slot outside `order` can run after `order`,
    /// then all of `s` lies in `order`.
    pub proof fn lemma_safe_prefix_in(self, s: Seq<int>, order: Seq<int>, p: int)
        requires
            self.safe_order(s),
            order.no_duplicates(),
            0 <= p <= s.len(),
            forall|q: int| 0 <= q < p ==> order.contains(#[trigger] s[q]),
            forall|x: int|
                0 <= x < self.threads() && !self.exempt(x) && !order.contains(x) ==> !self.can_run(
                    x,
                    order,
                ),
        ensures
            forall|q: int| 0 <= q < s.len() ==> order.contains(#[trigger] s[q]),
        decreases s.len() - p,
    {
        if p < s.len() {
            let pre = s.take(p);
            assert(pre.no_duplicates()) by {
                assert forall|a: int, b: int| 0 <= a < pre.len() && 0 <= b < pre.len() && a != b implies pre[a]
                    != pre[b] by {
                    assert(pre[a] == s[a]);
                    assert(pre[b] == s[b]);
                }
            }
            assert forall|x: int| pre.contains(x) implies order.contains(x) by {
                let k = choose|k: int| 0 <= k < pre.len() && pre[k] == x;
                assert(s[k] == x);
            }
            let x = s[p];
            assert(self.can_run(x, pre));
            assert forall|r: int| 0 <= r < self.resources implies self.need_of(x, r) <= self.work_after(
                order,
                r,
            ) by {
                lemma_seq_sum_subset(pre, order, self.alloc_fn(r));
            }
            assert(self.can_run(x, order));
            assert(order.contains(x));
            self.lemma_safe_prefix_in(s, order, p + 1);
        }
    }

    /// When no participating slot outside `order` can run after it, and some
    /// participating slot lies outside it, the state is not safe.
    pub proof fn lemma_stuck_is_unsafe(self, order: Seq<int>, k: int)
        requires
            order.no_duplicates(),
            0 <= k < self.threads(),
            !self.exempt(k),
            !order.contains(k),
            forall|x: int|
                0 <= x < self.threads() && !self.exempt(x) && !order.contains(x) ==> !self.can_run(
                    x,
                    order,
                ),
        ensures
            !self.is_safe(),
    {
        if self.is_safe() {
            let s = choose|s: Seq<int>| self.safe_order(s) && self.covers(s);
            self.lemma_safe_prefix_in(s, order, 0);
            assert(s.contains(k));
            let q = choose|q: int| 0 <= q < s.len() && s[q] == k;
            assert(order.contains(s[q]));
        }
    }
}


/// Changing `f` at one index `k` of the range changes the sum by the difference there.
pub proof fn lemma_sum_point(n: nat, f: spec_fn(int) -> nat, g: spec_fn(int) -> nat, k: int)
    requires
        0 <= k < n,
        forall|i: int| 0 <= i < n && i != k ==> #[trigger] f(i) == g(i),
    ensures
        seq_sum(index_range(n), g) + f(k) == seq_sum(index_range(n), f) + g(k),
    decreases n,
{
    lemma_range_sum_step(n, f);
    lemma_range_sum_step(n, g);
    if k == n - 1 {
        lemma_sum_ext((n - 1) as nat, f, g);
    } else {
        lemma_sum_point((n - 1) as nat, f, g, k);
    }
}

/// Functions that agree on the range have the same sum over it.
pub proof fn lemma_sum_ext(n: nat, f: spec_fn(int) -> nat, g: spec_fn(int) -> nat)
    requires
        forall|i: int| 0 <= i < n ==> #[trigger] f(i) == g(i),
    ensures
        seq_sum(index_range(n), g) == seq_sum(index_range(n), f),
    decreases n,
{
    if n > 0 {
        lemma_range_sum_step(n, f);
        lemma_range_sum_step(n, g);
        lemma_sum_ext((n - 1) as nat, f, g);
    }
}

impl BankerState {
    /// Every occupied slot holds the thread whose id is the slot's index.
    pub open spec fn slots_match_tids(self) -> bool {
        forall|i: int| 0 <= i < self.tasks.len() ==> (#[trigger] self.tasks[i] is Some ==> self.tasks[i]->0 == i)
    }

    /// The initial work plus everything allocated, in column `r`.
    pub open spec fn units(self, r: int) -> nat {
        self.initial_work(r) + self.total_allocation(r)
    }

    /// Two states with the same slots whose `available` and `allocation` entries agree have the same units.
    pub proof fn lemma_units_same(self, other: BankerState)
        requires
            other.tasks == self.tasks,
            forall|x: int, r: int| entry(other.available, x, r) == entry(self.available, x, r),
            forall|x: int, r: int| entry(other.allocation, x, r) == entry(self.allocation, x, r),
        ensures
            forall|r: int| #[trigger] other.units(r) == self.units(r),
    {
        assert forall|r: int| #[trigger] other.units(r) == self.units(r) by {
            lemma_sum_ext(self.threads(), self.initial_fn(r), other.initial_fn(r));
            lemma_sum_ext(self.threads(), self.alloc_fn(r), other.alloc_fn(r));
        }
    }

    /// Moving one unit of resource `col` from the available units of row
    /// `from` to the allocation of the live thread `t` adds at most one unit,
    /// and none when `from` is `t`.
    pub proof fn lemma_transfer_units(self, other: BankerState, from: int, t: int, col: int)
        requires
            other.tasks == self.tasks,
            self.slots_match_tids(),
            0 <= t < self.threads(),
            self.tasks[t] is Some,
            self.tasks[t]->0 == t,
            forall|x: int, r: int| !(x == from && r == col) ==> entry(other.available, x, r) == entry(self.available, x, r),
            entry(other.available, from, col) + 1 == entry(self.available, from, col),
            forall|x: int, r: int| !(x == t && r == col) ==> entry(other.allocation, x, r) == entry(self.allocation, x, r),
            entry(other.allocation, t, col) == entry(self.allocation, t, col) + 1,
        ensures
            forall|r: int| #[trigger] other.units(r) <= self.units(r) + 1,
            from == t ==> forall|r: int| #[trigger] other.units(r) == self.units(r),
    {
        let n = self.threads();
        assert forall|r: int| #[trigger] other.units(r) <= self.units(r) + 1 && (from == t ==> other.units(r) == self.units(r)) by {
            if r == col {
                assert forall|i: int| 0 <= i < n && i != t implies #[trigger] self.alloc_fn(r)(i) == other.alloc_fn(r)(i) by {
                    if self.tasks[i] is Some {
                        assert(self.tasks[i]->0 == i);
                    }
                }
                lemma_sum_point(n, self.alloc_fn(r), other.alloc_fn(r), t);
                if 0 <= from < n && self.tasks[from] is Some {
                    assert(self.tasks[from]->0 == from);
                    assert forall|i: int| 0 <= i < n && i != from implies #[trigger] self.initial_fn(r)(i) == other.initial_fn(r)(i) by {
                        if self.tasks[i] is Some {
                            assert(self.tasks[i]->0 == i);
                        }
                    }
                    lemma_sum_point(n, self.initial_fn(r), other.initial_fn(r), from);
                } else {
                    assert forall|i: int| 0 <= i < n implies #[trigger] self.initial_fn(r)(i) == other.initial_fn(r)(i) by {
                        if self.tasks[i] is Some {
                            assert(self.tasks[i]->0 == i);
                        }
                    }
                    lemma_sum_ext(n, self.initial_fn(r), other.initial_fn(r));
                }
            } else {
                lemma_sum_ext(n, self.alloc_fn(r), other.alloc_fn(r));
                lemma_sum_ext(n, self.initial_fn(r), other.initial_fn(r));
            }
        }
    }
}

/// Growing a matrix by rows leaves every entry as it reads.
pub proof fn lemma_entry_padded_rows(v: Seq<Seq<usize>>, rows: nat)
    ensures
        forall|x: int, r: int| #[trigger] entry(padded_rows(v, rows), x, r) == entry(v, x, r),
{
    assert forall|x: int, r: int| #[trigger] entry(padded_rows(v, rows), x, r) == entry(v, x, r) by {
        if 0 <= x < padded_rows(v, rows).len() && x >= v.len() {
            assert(padded_rows(v, rows)[x] =~= Seq::<usize>::empty());
        }
    }
}

/// Growing one row with zeros leaves every entry as it reads.
pub proof fn lemma_entry_padded_row(v: Seq<Seq<usize>>, t: int, len: nat)
    requires
        0 <= t < v.len(),
    ensures
        forall|x: int, r: int| #[trigger] entry(v.update(t, padded_row(v[t], len)), x, r) == entry(v, x, r),
{
}

/// Setting one entry changes only that entry.
pub proof fn lemma_entry_set(v: Seq<Seq<usize>>, t: int, c: int, y: usize)
    requires
        0 <= t < v.len(),
        0 <= c < v[t].len(),
    ensures
        forall|x: int, r: int| #[trigger] entry(set_entry(v, t, c, y), x, r) == if x == t && r == c { y as nat } else { entry(v, x, r) },
{
}

/// One term of a sum over the range is at most the sum.
pub proof fn lemma_term_le_sum(n: nat, f: spec_fn(int) -> nat, k: int)
    requires
        0 <= k < n,
    ensures
        f(k) <= seq_sum(index_range(n), f),
{
    let g = |i: int| if i == k { 0nat } else { f(i) };
    lemma_sum_point(n, f, g, k);
}

/// Column `col` of a matrix, as a function of the row.
pub open spec fn column_fn(v: Seq<Seq<usize>>, col: int) -> spec_fn(int) -> nat {
    |x: int| entry(v, x, col)
}

/// The sum of column `col` over all rows.
pub open spec fn column_sum(v: Seq<Seq<usize>>, col: int) -> nat {
    seq_sum(index_range(v.len()), column_fn(v, col))
}

/// The first of rows `0 .. n` whose entry in column `col` is positive.
pub open spec fn first_positive(v: Seq<Seq<usize>>, col: int, n: nat) -> Option<int>
    decreases n,
{
    if n == 0 {
        None
    } else {
        match first_positive(v, col, (n - 1) as nat) {
            Some(k) => Some(k),
            None => if entry(v, n - 1, col) > 0 { Some(n - 1) } else { None },
        }
    }
}

/// A row is found exactly when the column has a positive sum, and it is the
/// first row with a positive entry.
pub proof fn lemma_first_positive(v: Seq<Seq<usize>>, col: int, n: nat)
    ensures
        first_positive(v, col, n) is Some <==> seq_sum(index_range(n), column_fn(v, col)) > 0,
        first_positive(v, col, n) matches Some(k) ==> {
            &&& 0 <= k < n
            &&& entry(v, k, col) > 0
            &&& forall|j: int| 0 <= j < k ==> entry(v, j, col) == 0
        },
        first_positive(v, col, n) is None ==> forall|j: int| 0 <= j < n ==> entry(v, j, col) == 0,
    decreases n,
{
    if n > 0 {
        lemma_first_positive(v, col, (n - 1) as nat);
        lemma_range_sum_step(n, column_fn(v, col));
    }
}

/// Extending a range with indices where `f` is zero leaves the sum unchanged.
pub proof fn lemma_sum_zero_tail(n1: nat, n2: nat, f: spec_fn(int) -> nat)
    requires
        n1 <= n2,
        forall|x: int| n1 <= x < n2 ==> #[trigger] f(x) == 0,
    ensures
        seq_sum(index_range(n2), f) == seq_sum(index_range(n1), f),
    decreases n2,
{
    if n1 < n2 {
        lemma_range_sum_step(n2, f);
        lemma_sum_zero_tail(n1, (n2 - 1) as nat, f);
    }
}

/// Matrices whose entries agree have the same column sums and the same first positive row.
pub proof fn lemma_column_same(v1: Seq<Seq<usize>>, v2: Seq<Seq<usize>>, col: int)
    requires
        v1.len() <= v2.len(),
        forall|x: int, r: int| #[trigger] entry(v2, x, r) == entry(v1, x, r),
    ensures
        column_sum(v2, col) == column_sum(v1, col),
        first_positive(v2, col, v2.len()) == first_positive(v1, col, v1.len()),
{
    lemma_sum_ext(v2.len(), column_fn(v1, col), column_fn(v2, col));
    assert forall|x: int| v1.len() <= x < v2.len() implies #[trigger] column_fn(v1, col)(x) == 0 by {}
    lemma_sum_zero_tail(v1.len(), v2.len(), column_fn(v1, col));
    lemma_first_positive_same(v1, v2, col, v2.len());
    lemma_first_positive(v1, col, v1.len());
    lemma_first_positive(v1, col, v2.len());
    if first_positive(v1, col, v1.len()) is None {
        lemma_first_positive_zero_tail(v1, col, v1.len(), v2.len());
    } else {
        lemma_first_positive_extend(v1, col, v1.len(), v2.len());
    }
}

proof fn lemma_first_positive_same(v1: Seq<Seq<usize>>, v2: Seq<Seq<usize>>, col: int, n: nat)
    requires
        forall|x: int, r: int| #[trigger] entry(v2, x, r) == entry(v1, x, r),
    ensures
        first_positive(v2, col, n) == first_positive(v1, col, n),
    decreases n,
{
    if n > 0 {
        lemma_first_positive_same(v1, v2, col, (n - 1) as nat);
        assert(entry(v2, n - 1, col) == entry(v1, n - 1, col));
    }
}

pub proof fn lemma_first_positive_extend(v: Seq<Seq<usize>>, col: int, n1: nat, n2: nat)
    requires
        n1 <= n2,
        first_positive(v, col, n1) is Some,
    ensures
        first_positive(v, col, n2) == first_positive(v, col, n1),
    decreases n2,
{
    if n1 < n2 {
        lemma_first_positive_extend(v, col, n1, (n2 - 1) as nat);
    }
}

proof fn lemma_first_positive_zero_tail(v: Seq<Seq<usize>>, col: int, n1: nat, n2: nat)
    requires
        n1 <= n2,
        first_positive(v, col, n1) is None,
        forall|x: int| n1 <= x < n2 ==> entry(v, x, col) == 0,
    ensures
        first_positive(v, col, n2) is None,
    decreases n2,
{
    if n1 < n2 {
        lemma_first_positive_zero_tail(v, col, n1, (n2 - 1) as nat);
    }
}

/// A sum over a sequence grows with the summed function.
pub proof fn lemma_seq_sum_pointwise(s: Seq<int>, f: spec_fn(int) -> nat, g: spec_fn(int) -> nat)
    requires
        forall|k: int| 0 <= k < s.len() ==> #[trigger] f(s[k]) <= g(s[k]),
    ensures
        seq_sum(s, f) <= seq_sum(s, g),
    decreases s.len(),
{
    if s.len() > 0 {
        let t = s.drop_last();
        assert forall|k: int| 0 <= k < t.len() implies #[trigger] f(t[k]) <= g(t[k]) by {
            assert(t[k] == s[k]);
        }
        lemma_seq_sum_pointwise(t, f, g);
        assert(f(s[s.len() - 1]) <= g(s[s.len() - 1]));
    }
}

impl BankerState {
    /// Less need, more available units and more allocation keep a safe state
    /// safe: the same order still lets every thread finish.
    pub proof fn lemma_safe_monotone(self, other: BankerState)
        requires
            other.tasks == self.tasks,
            other.resources == self.resources,
            other.need.len() >= self.need.len(),
            other.allocation.len() >= self.allocation.len(),
            forall|x: int, r: int| #[trigger] entry(other.need, x, r) <= entry(self.need, x, r),
            forall|x: int, r: int| #[trigger] entry(other.available, x, r) >= entry(self.available, x, r),
            forall|x: int, r: int| #[trigger] entry(other.allocation, x, r) >= entry(self.allocation, x, r),
            self.is_safe(),
        ensures
            other.is_safe(),
    {
        let s = choose|s: Seq<int>| self.safe_order(s) && self.covers(s);
        assert forall|r: int, order: Seq<int>| #[trigger] self.work_after(order, r) <= other.work_after(order, r) by {
            let n = self.threads();
            let ri = index_range(n);
            assert forall|k: int| 0 <= k < ri.len() implies #[trigger] self.initial_fn(r)(ri[k]) <= other.initial_fn(r)(ri[k]) by {}
            lemma_seq_sum_pointwise(ri, self.initial_fn(r), other.initial_fn(r));
            assert forall|k: int| 0 <= k < order.len() implies #[trigger] self.alloc_fn(r)(order[k]) <= other.alloc_fn(r)(order[k]) by {}
            lemma_seq_sum_pointwise(order, self.alloc_fn(r), other.alloc_fn(r));
        }
        assert forall|k: int| #![trigger s[k]] 0 <= k < s.len() implies {
            &&& 0 <= s[k] < other.threads()
            &&& !other.exempt(s[k])
            &&& other.can_run(s[k], s.take(k))
        } by {
            assert(self.can_run(s[k], s.take(k)));
            assert forall|r: int| 0 <= r < other.resources implies other.need_of(s[k], r) <= other.work_after(s.take(k), r) by {
                assert(self.need_of(s[k], r) <= self.work_after(s.take(k), r));
                assert(self.work_after(s.take(k), r) <= other.work_after(s.take(k), r));
            }
        }
        assert(other.safe_order(s) && other.covers(s));
    }
}

impl BankerState {
    /// A live thread whose need of some resource, together with what it
    /// already holds of it, exceeds every unit there is of that resource
    /// (all live threads' available units plus everything allocated to live
    /// threads) can never finish, so the state is not safe. In particular a
    /// thread that holds the only unit of a resource and asks for one more
    /// makes the state unsafe.
    pub proof fn lemma_need_beyond_units_unsafe(self, i: int, r: int)
        requires
            0 <= i < self.threads(),
            self.tasks[i] is Some,
            0 <= r < self.resources,
            entry(self.need, self.tasks[i]->0 as int, r) + entry(self.allocation, self.tasks[i]->0 as int, r)
                > self.initial_work(r) + self.total_allocation(r),
        ensures
            !self.is_safe(),
    {
        if self.is_safe() {
            let s = choose|s: Seq<int>| self.safe_order(s) && self.covers(s);
            assert(s.contains(i));
            let k = choose|k: int| 0 <= k < s.len() && s[k] == i;
            assert(self.can_run(s[k], s.take(k)));
            let u = s.take(k + 1);
            assert(u.drop_last() =~= s.take(k));
            assert(u.last() == i);
            assert(u.no_duplicates()) by {
                assert forall|a: int, b: int| 0 <= a < u.len() && 0 <= b < u.len() && a != b implies u[a] != u[b] by {
                    assert(u[a] == s[a]);
                    assert(u[b] == s[b]);
                }
            }
            assert forall|j: int| 0 <= j < u.len() implies 0 <= #[trigger] u[j] < self.threads() by {
                assert(u[j] == s[j]);
            }
            self.lemma_work_bounded(u, r);
            assert(self.need_of(i, r) <= self.work_after(s.take(k), r));
        }
    }
}

impl BankerState {
    /// The participating slots among `0 .. n`, in increasing order.
    pub open spec fn live_slots(self, n: nat) -> Seq<int>
        decreases n,
    {
        if n == 0 {
            Seq::empty()
        } else if self.exempt(n - 1) {
            self.live_slots((n - 1) as nat)
        } else {
            self.live_slots((n - 1) as nat).push(n - 1)
        }
    }

    proof fn lemma_live_slots(self, n: nat)
        ensures
            forall|k: int| 0 <= k < self.live_slots(n).len() ==> 0 <= #[trigger] self.live_slots(n)[k] < n
                && !self.exempt(self.live_slots(n)[k]),
            forall|a: int, b: int| 0 <= a < b < self.live_slots(n).len() ==> #[trigger] self.live_slots(n)[a]
                < #[trigger] self.live_slots(n)[b],
            forall|i: int| 0 <= i < n && !self.exempt(i) ==> self.live_slots(n).contains(i),
        decreases n,
    {
        if n > 0 {
            self.lemma_live_slots((n - 1) as nat);
            let prev = self.live_slots((n - 1) as nat);
            if !self.exempt(n - 1) {
                let cur = prev.push(n - 1);
                assert forall|i: int| 0 <= i < n && !self.exempt(i) implies cur.contains(i) by {
                    if i == n - 1 {
                        assert(cur[prev.len() as int] == i);
                    } else {
                        assert(prev.contains(i));
                        let k = choose|k: int| 0 <= k < prev.len() && prev[k] == i;
                        assert(cur[k] == i);
                    }
                }
            }
        }
    }

    /// When every participating thread has rows for its need and allocation
    /// and each of its needs fits in the initial work of that resource, the
    /// state is safe: the threads can finish one after another in slot order.
    pub proof fn lemma_needs_within_initial_safe(self)
        requires
            forall|i: int| 0 <= i < self.threads() && #[trigger] self.tasks[i] is Some ==> {
                &&& self.tasks[i]->0 < self.need.len()
                &&& self.tasks[i]->0 < self.allocation.len()
                &&& forall|r: int| 0 <= r < self.resources ==> entry(self.need, self.tasks[i]->0 as int, r) <= self.initial_work(r)
            },
        ensures
            self.is_safe(),
    {
        let n = self.threads();
        self.lemma_live_slots(n);
        let s = self.live_slots(n);
        assert(s.no_duplicates()) by {
            assert forall|a: int, b: int| 0 <= a < s.len() && 0 <= b < s.len() && a != b implies s[a] != s[b] by {
                if a < b {
                    assert(s[a] < s[b]);
                } else {
                    assert(s[b] < s[a]);
                }
            }
        }
        assert forall|k: int| #![trigger s[k]] 0 <= k < s.len() implies {
            &&& 0 <= s[k] < self.threads()
            &&& !self.exempt(s[k])
            &&& self.can_run(s[k], s.take(k))
        } by {
            let i = s[k];
            assert(self.tasks[i] is Some);
            assert forall|r: int| 0 <= r < self.resources implies self.need_of(i, r) <= self.work_after(s.take(k), r) by {
                assert(entry(self.need, self.tasks[i]->0 as int, r) <= self.initial_work(r));
            }
        }
        assert(self.safe_order(s) && self.covers(s));
    }
}

} // verus!
