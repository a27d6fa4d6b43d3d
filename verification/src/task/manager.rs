//! The ready queue, scheduled by stride: the task with the least stride runs
//! next, and its stride then grows by `BIG_STRIDE / priority`.
use vstd::prelude::*;
use std::collections::VecDeque;

verus! {

/// The stride that a task of priority 1 advances by each time it is scheduled.
pub const BIG_STRIDE: usize = 1000000;

/// A task in the ready queue, with what the scheduler reads of it.
#[derive(Clone, Copy, PartialEq, Eq, Structural, Debug)]
pub struct StrideTask {
    pub id: usize,
    pub stride: usize,
    pub priority: usize,
}

/// The pass of a task: how far its stride advances when it is scheduled.
pub open spec fn pass_of(t: StrideTask) -> nat {
    (BIG_STRIDE / t.priority) as nat
}

/// The task after it was scheduled once.
pub open spec fn advanced(t: StrideTask) -> StrideTask {
    StrideTask { stride: (t.stride + pass_of(t)) as usize, ..t }
}

/// Scanning the first `n` tasks for the least stride, starting from the
/// largest stride and taking a task only when it is strictly smaller: the
/// index found and the least stride seen.
pub open spec fn stride_scan(q: Seq<StrideTask>, n: nat) -> (int, usize)
    decreases n,
{
    if n == 0 {
        (0, usize::MAX)
    } else {
        let (k, m) = stride_scan(q, (n - 1) as nat);
        if q[n - 1].stride < m {
            (n - 1, q[n - 1].stride)
        } else {
            (k, m)
        }
    }
}

/// The index of the task that `fetch` takes from the queue.
pub open spec fn fetch_index(q: Seq<StrideTask>) -> int {
    stride_scan(q, q.len()).0
}

/// The scan finds the first task with the least stride.
pub proof fn lemma_stride_scan(q: Seq<StrideTask>, n: nat)
    requires
        0 < n <= q.len(),
    ensures
        0 <= stride_scan(q, n).0 < n,
        stride_scan(q, n).1 == q[stride_scan(q, n).0].stride,
        forall|j: int| 0 <= j < n ==> q[stride_scan(q, n).0].stride <= #[trigger] q[j].stride,
        forall|j: int| 0 <= j < stride_scan(q, n).0 ==> q[stride_scan(q, n).0].stride < #[trigger] q[j].stride,
    decreases n,
{
    let prev = stride_scan(q, (n - 1) as nat);
    if n > 1 {
        lemma_stride_scan(q, (n - 1) as nat);
    } else {
        assert(prev == (0int, usize::MAX));
    }
    assert(stride_scan(q, n) == (if q[n - 1].stride < prev.1 { (n - 1, q[n - 1].stride) } else { prev }));
}

/// The strides of the queue lie within `bound` of each other.
pub open spec fn strides_within(q: Seq<StrideTask>, bound: nat) -> bool {
    forall|i: int, j: int| 0 <= i < q.len() && 0 <= j < q.len() ==> #[trigger] q[i].stride <= #[trigger] q[j].stride + bound
}

/// A FIFO-ordered ready queue scheduled by stride.
pub struct TaskManager {
    ready_queue: VecDeque<StrideTask>,
}

impl TaskManager {
    /// The tasks in the ready queue, front first.
    pub closed spec fn queue(&self) -> Seq<StrideTask> {
        self.ready_queue@
    }

    /// An empty ready queue.
    pub fn new() -> (m: Self)
        ensures
            m.queue() == Seq::<StrideTask>::empty(),
    {
        TaskManager { ready_queue: VecDeque::new() }
    }

    /// Adds a task at the back of the ready queue.
    pub fn add(&mut self, task: StrideTask)
        ensures
            final(self).queue() == old(self).queue().push(task),
    {
        self.ready_queue.push_back(task);
    }

    /// The number of tasks in the ready queue.
    pub fn len(&self) -> (n: usize)
        ensures
            n == self.queue().len(),
    {
        self.ready_queue.len()
    }

    /// The index of the first task with the least stride.
    fn min_stride_index(&self) -> (k: usize)
        ensures
            k == fetch_index(self.queue()),
    {
        let ghost q = self.ready_queue@;
        let mut min_stride = usize::MAX;
        let mut min_stride_index: usize = 0;
        let mut i: usize = 0;
        while i < self.ready_queue.len()
            invariant
                self.ready_queue@ == q,
                i <= q.len(),
                stride_scan(q, i as nat) == (min_stride_index as int, min_stride),
            decreases q.len() - i,
        {
            let current_stride = self.ready_queue[i].stride;
            if current_stride < min_stride {
                min_stride = current_stride;
                min_stride_index = i;
            }
            i += 1;
        }
        min_stride_index
    }

    /// The task that `fetch` would take out next, as it is now; `None` for an empty queue.
    pub fn peek_next(&self) -> (t: Option<StrideTask>)
        ensures
            self.queue().len() == 0 ==> t is None,
            self.queue().len() > 0 ==> t == Some(self.queue()[fetch_index(self.queue())]),
    {
        if self.ready_queue.len() == 0 {
            return None;
        }
        proof {
            lemma_stride_scan(self.queue(), self.queue().len());
        }
        let k = self.min_stride_index();
        Some(self.ready_queue[k])
    }

    /// Takes out the first task with the least stride, advances its stride by
    /// its pass, and returns it; an empty queue gives `None`.
    pub fn fetch(&mut self) -> (t: Option<StrideTask>)
        requires
            old(self).queue().len() > 0 ==> {
                &&& old(self).queue()[fetch_index(old(self).queue())].priority > 0
                &&& old(self).queue()[fetch_index(old(self).queue())].stride + pass_of(
                    old(self).queue()[fetch_index(old(self).queue())],
                ) <= usize::MAX
            },
        ensures
            old(self).queue().len() == 0 ==> t is None && final(self).queue() == old(self).queue(),
            old(self).queue().len() > 0 ==> {
                &&& t == Some(advanced(old(self).queue()[fetch_index(old(self).queue())]))
                &&& final(self).queue() == old(self).queue().remove(fetch_index(old(self).queue()))
            },
            forall|j: int| 0 <= j < old(self).queue().len() ==>
                old(self).queue()[fetch_index(old(self).queue())].stride <= #[trigger] old(self).queue()[j].stride,
            forall|j: int| 0 <= j < fetch_index(old(self).queue()) ==>
                old(self).queue()[fetch_index(old(self).queue())].stride < #[trigger] old(self).queue()[j].stride,
            old(self).queue().len() > 0 ==> ({
                let k = fetch_index(old(self).queue());
                let o = old(self).queue()[k];
                &&& 0 <= k < old(self).queue().len()
                &&& t is Some
                &&& t->0.id == o.id
                &&& t->0.priority == o.priority
                &&& t->0.stride >= o.stride
                &&& (t->0.stride - o.stride) * o.priority <= BIG_STRIDE
                &&& BIG_STRIDE < (t->0.stride - o.stride + 1) * o.priority
            }),
    {
        if self.ready_queue.len() == 0 {
            return None;
        }
        let ghost q = self.ready_queue@;
        let min_stride_index = self.min_stride_index();
        proof {
            lemma_stride_scan(q, q.len());
        }
        let task = self.ready_queue.remove(min_stride_index).unwrap();
        let pass = BIG_STRIDE / task.priority;
        proof {
            let p = task.priority as int;
            let q = pass as int;
            assert(q * p <= BIG_STRIDE && BIG_STRIDE < (q + 1) * p) by (nonlinear_arith)
                requires
                    p > 0,
                    q == BIG_STRIDE as int / p,
            ;
        }
        let task = StrideTask { stride: task.stride + pass, ..task };
        Some(task)
    }
}

/// When every priority is at least 2, the pass of a task is at most half of
/// `BIG_STRIDE`; so if the strides of the ready queue lie within
/// `BIG_STRIDE / 2` of each other, they still do once the fetched task is
/// back in the queue with its advanced stride.
pub proof fn lemma_fetch_keeps_strides_within(q: Seq<StrideTask>)
    requires
        q.len() > 0,
        forall|i: int| 0 <= i < q.len() ==> #[trigger] q[i].priority >= 2,
        strides_within(q, (BIG_STRIDE / 2) as nat),
        q[fetch_index(q)].stride + pass_of(q[fetch_index(q)]) <= usize::MAX,
    ensures
        strides_within(q.remove(fetch_index(q)).push(advanced(q[fetch_index(q)])), (BIG_STRIDE / 2) as nat),
{
    lemma_stride_scan(q, q.len());
    let k = fetch_index(q);
    let t = q[k];
    let p = t.priority;
    assert(BIG_STRIDE / p <= BIG_STRIDE / 2) by (nonlinear_arith)
        requires
            p >= 2,
    ;
    let r = q.remove(k).push(advanced(t));
    assert forall|i: int, j: int| 0 <= i < r.len() && 0 <= j < r.len() implies #[trigger] r[i].stride <= #[trigger] r[j].stride + (BIG_STRIDE / 2) as nat by {
        let qi = if i < k { i } else { i + 1 };
        let qj = if j < k { j } else { j + 1 };
        if i < r.len() - 1 {
            assert(r[i] == q[qi]);
        }
        if j < r.len() - 1 {
            assert(r[j] == q[qj]);
        }
    }
}

} // verus!
