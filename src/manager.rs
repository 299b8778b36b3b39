use vstd::prelude::*;
use std::collections::VecDeque;

verus! {

/// The stride a task of priority 1 advances by each time it runs.
pub const BIG_STRIDE: usize = 1048576;

/// A task waiting to run: its id, the stride it has reached, and its
/// priority.
#[derive(Clone, Copy, Debug, PartialEq, Eq, Structural)]
pub struct ReadyTask {
    pub pid: usize,
    pub stride: usize,
    pub priority: usize,
}

/// The ready queue of a stride scheduler.
pub struct TaskManager {
    pub ready_queue: VecDeque<ReadyTask>,
}

/// The position of the first task of least stride in `q`.
pub open spec fn is_first_min(q: Seq<ReadyTask>, k: int) -> bool {
    &&& 0 <= k < q.len()
    &&& forall|m: int| 0 <= m < k ==> (#[trigger] q[m]).stride > q[k].stride
    &&& forall|m: int| 0 <= m < q.len() ==> (#[trigger] q[m]).stride >= q[k].stride
}

impl TaskManager {
    /// Every waiting task has a priority of at least 1.
    pub open spec fn wf(&self) -> bool {
        forall|m: int| 0 <= m < self.ready_queue@.len() ==> (#[trigger] self.ready_queue@[m]).priority >= 1
    }

    /// An empty ready queue.
    pub fn new() -> (r: TaskManager)
        ensures
            r.wf(),
            r.ready_queue@.len() == 0,
    {
        TaskManager { ready_queue: VecDeque::new() }
    }

    /// Puts `task` at the back of the ready queue.
    pub fn add(&mut self, task: ReadyTask)
        requires
            old(self).wf(),
            task.priority >= 1,
        ensures
            final(self).wf(),
            final(self).ready_queue@ == old(self).ready_queue@.push(task),
    {
        self.ready_queue.push_back(task);
    }

    /// Takes out the first task of least stride and advances its stride by
    /// `BIG_STRIDE / priority`; `None` when the queue is empty.
    pub fn fetch(&mut self) -> (r: Option<ReadyTask>)
        requires
            old(self).wf(),
            forall|m: int| 0 <= m < old(self).ready_queue@.len() ==> (#[trigger] old(self).ready_queue@[m]).stride
                + BIG_STRIDE <= usize::MAX,
        ensures
            final(self).wf(),
            r.is_none() <==> old(self).ready_queue@.len() == 0,
            r.is_none() ==> final(self).ready_queue@ == old(self).ready_queue@,
            r.is_some() ==> exists|k: int|
                #[trigger] is_first_min(old(self).ready_queue@, k) && final(self).ready_queue@ == old(
                    self,
                ).ready_queue@.remove(k) && r.unwrap() == (ReadyTask {
                    stride: (old(self).ready_queue@[k].stride + BIG_STRIDE / old(self).ready_queue@[k].priority) as usize,
                    ..old(self).ready_queue@[k]
                }),
    {
        let n = self.ready_queue.len();
        if n == 0 {
            return None;
        }
        let mut min_idx: usize = 0;
        let mut min_stride = self.ready_queue[0].stride;
        let mut k: usize = 1;
        while k < n
            invariant
                n == self.ready_queue@.len(),
                self.ready_queue@ == old(self).ready_queue@,
                1 <= k <= n,
                min_idx < k,
                min_stride == self.ready_queue@[min_idx as int].stride,
                forall|m: int| 0 <= m < min_idx ==> (#[trigger] self.ready_queue@[m]).stride > min_stride,
                forall|m: int| 0 <= m < k ==> (#[trigger] self.ready_queue@[m]).stride >= min_stride,
            decreases n - k,
        {
            let s = self.ready_queue[k].stride;
            if s < min_stride {
                min_stride = s;
                min_idx = k;
            }
            k = k + 1;
        }
        let ghost q = self.ready_queue@;
        let task = self.ready_queue.remove(min_idx).unwrap();
        proof {
            assert(is_first_min(q, min_idx as int));
            assert(task.priority >= 1);
            assert forall|m: int| 0 <= m < self.ready_queue@.len() implies (#[trigger] self.ready_queue@[m]).priority >= 1 by {
                if m < min_idx {
                    assert(self.ready_queue@[m] == q[m]);
                } else {
                    assert(self.ready_queue@[m] == q[m + 1]);
                }
            }
        }
        let pass = BIG_STRIDE / task.priority;
        Some(ReadyTask { stride: task.stride + pass, ..task })
    }
}

} // verus!
