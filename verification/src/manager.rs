//! The ready queue of runnable tasks and its stride scheduler.
use std::collections::VecDeque;
use vstd::prelude::*;

verus! {

/// The scheduling state of one task.
#[derive(Clone, Copy, Debug, PartialEq, Eq, Structural)]
pub struct TaskControlBlock {
    /// Identifies the task.
    pub pid: usize,
    /// Virtual time that the task has been charged so far.
    pub pass: u128,
    /// Virtual time charged for each dispatch: the smaller, the larger the
    /// task's share.
    pub stride: u64,
}

impl TaskControlBlock {
    /// The task after one more dispatch: `pass` grown by `stride`, held at the
    /// largest value of its type where the sum would pass it.
    pub open spec fn charged(self) -> TaskControlBlock {
        TaskControlBlock {
            pid: self.pid,
            pass: if self.pass + self.stride > u128::MAX {
                u128::MAX
            } else {
                (self.pass + self.stride) as u128
            },
            stride: self.stride,
        }
    }

    /// A task that was never dispatched.
    pub fn new(pid: usize, stride: u64) -> (task: Self)
        ensures
            task == (TaskControlBlock { pid, pass: 0, stride }),
    {
        TaskControlBlock { pid, pass: 0, stride }
    }

    /// Charges the task for one dispatch.
    pub fn charge(self) -> (task: Self)
        ensures
            task == self.charged(),
    {
        let step: u128 = self.stride as u128;
        let pass: u128 = if self.pass > u128::MAX - step {
            u128::MAX
        } else {
            self.pass + step
        };
        TaskControlBlock { pid: self.pid, pass, stride: self.stride }
    }
}

/// `i` is the position of the first task among those of least `pass`.
pub open spec fn is_first_min(queue: Seq<TaskControlBlock>, i: int) -> bool {
    &&& 0 <= i < queue.len()
    &&& forall|j: int| 0 <= j < i ==> queue[i].pass < (#[trigger] queue[j]).pass
    &&& forall|j: int| i <= j < queue.len() ==> queue[i].pass <= (#[trigger] queue[j]).pass
}

/// The position of the task that the scheduler dispatches next.
pub open spec fn first_min_index(queue: Seq<TaskControlBlock>) -> int {
    choose|i: int| is_first_min(queue, i)
}

/// No two positions are both the first of least `pass`.
pub proof fn lemma_first_min_unique(queue: Seq<TaskControlBlock>, i: int, j: int)
    requires
        is_first_min(queue, i),
        is_first_min(queue, j),
    ensures
        i == j,
{
    if i < j {
        assert(queue[j].pass < queue[i].pass);
        assert(queue[i].pass <= queue[j].pass);
    } else if j < i {
        assert(queue[i].pass < queue[j].pass);
        assert(queue[j].pass <= queue[i].pass);
    }
}

/// The tasks that are ready to run, in the order in which they were added.
pub struct TaskManager {
    ready_queue: VecDeque<TaskControlBlock>,
}

impl View for TaskManager {
    type V = Seq<TaskControlBlock>;

    closed spec fn view(&self) -> Seq<TaskControlBlock> {
        self.ready_queue@
    }
}

impl TaskManager {
    /// A manager with no task.
    pub fn new() -> (manager: Self)
        ensures
            manager@ == Seq::<TaskControlBlock>::empty(),
    {
        Self { ready_queue: VecDeque::new() }
    }

    /// The number of tasks that are ready.
    pub fn len(&self) -> (n: usize)
        ensures
            n == self@.len(),
    {
        self.ready_queue.len()
    }

    /// Puts a task at the back of the ready queue.
    pub fn add(&mut self, task: TaskControlBlock)
        ensures
            final(self)@ == old(self)@.push(task),
    {
        self.ready_queue.push_back(task);
    }

    /// The position of the task of least `pass`; among several of least
    /// `pass`, the one nearest the front.
    pub fn find_min_pass_index(&self) -> (index: usize)
        requires
            self@.len() > 0,
        ensures
            is_first_min(self@, index as int),
            index == first_min_index(self@),
    {
        let mut ret: usize = 0;
        let mut min: u128 = self.ready_queue[0].pass;
        let mut index: usize = 1;
        while index < self.ready_queue.len()
            invariant
                1 <= index <= self.ready_queue@.len(),
                ret < index,
                min == self.ready_queue@[ret as int].pass,
                forall|j: int| 0 <= j < ret ==> min < (#[trigger] self.ready_queue@[j]).pass,
                forall|j: int| ret <= j < index ==> min <= (#[trigger] self.ready_queue@[j]).pass,
            decreases self.ready_queue@.len() - index,
        {
            let pass: u128 = self.ready_queue[index].pass;
            if pass < min {
                min = pass;
                ret = index;
            }
            index += 1;
        }
        proof {
            assert(is_first_min(self@, ret as int));
            lemma_first_min_unique(self@, ret as int, first_min_index(self@));
        }
        ret
    }

    /// Takes out the task of least `pass` (the one nearest the front among
    /// equals), charges it its stride and returns it; the others keep their
    /// order. Returns `None` when no task is ready.
    pub fn stride_fetch(&mut self) -> (r: Option<TaskControlBlock>)
        ensures
            old(self)@.len() == 0 ==> r is None && final(self)@ == old(self)@,
            old(self)@.len() > 0 ==> {
                &&& is_first_min(old(self)@, first_min_index(old(self)@))
                &&& r == Some(old(self)@[first_min_index(old(self)@)].charged())
                &&& final(self)@ == old(self)@.remove(first_min_index(old(self)@))
            },
    {
        if self.ready_queue.len() == 0 {
            return None;
        }
        let index = self.find_min_pass_index();
        match self.ready_queue.remove(index) {
            Some(task) => Some(task.charge()),
            None => None,
        }
    }

    /// Takes the next task to run out of the ready queue, as `stride_fetch`
    /// does.
    pub fn fetch(&mut self) -> (r: Option<TaskControlBlock>)
        ensures
            old(self)@.len() == 0 ==> r is None && final(self)@ == old(self)@,
            old(self)@.len() > 0 ==> {
                &&& is_first_min(old(self)@, first_min_index(old(self)@))
                &&& r == Some(old(self)@[first_min_index(old(self)@)].charged())
                &&& final(self)@ == old(self)@.remove(first_min_index(old(self)@))
            },
    {
        self.stride_fetch()
    }
}

/// Makes a task ready to run.
pub fn add_task(manager: &mut TaskManager, task: TaskControlBlock)
    ensures
        final(manager)@ == old(manager)@.push(task),
{
    manager.add(task);
}

/// Takes the next task to run, if any is ready.
pub fn fetch_task(manager: &mut TaskManager) -> (r: Option<TaskControlBlock>)
    ensures
        old(manager)@.len() == 0 ==> r is None && final(manager)@ == old(manager)@,
        old(manager)@.len() > 0 ==> {
            &&& is_first_min(old(manager)@, first_min_index(old(manager)@))
            &&& r == Some(old(manager)@[first_min_index(old(manager)@)].charged())
            &&& final(manager)@ == old(manager)@.remove(first_min_index(old(manager)@))
        },
{
    manager.stride_fetch()
}

} // verus!
