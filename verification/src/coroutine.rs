//! A minimal stackless-coroutine executor. Each task is a two-state
//! machine whose `waiter` alternates between completing a stage and
//! yielding; the executor polls the queue in FIFO order, re-queues a
//! pending task at the tail (round-robin) and drops a finished one. `run`
//! returns the exact sequence of task ids polled, pinned by a spec-level
//! model of that discipline.

use vstd::prelude::*;

verus! {

/// Whether the task's next poll yields (`Halted`) or runs on (`Running`).
#[derive(Clone, Copy, PartialEq, Eq, Structural, Debug)]
pub enum State {
    Halted,
    Running,
}

/// Poll outcome of one step.
#[derive(Clone, Copy, PartialEq, Eq, Structural, Debug)]
pub enum Poll {
    Ready,
    Pending,
}

/// A coroutine control block: one state bit.
#[derive(Clone, Copy, PartialEq, Eq, Structural, Debug)]
pub struct Task {
    pub state: State,
}

impl Task {
    /// One poll of the task's waiter: `Halted` flips to `Running` and the
    /// stage completes; `Running` flips to `Halted` and the task yields.
    pub fn waiter(&mut self) -> (r: Poll)
        ensures
            old(self).state == State::Halted ==> final(self).state == State::Running && r
                == Poll::Ready,
            old(self).state == State::Running ==> final(self).state == State::Halted && r
                == Poll::Pending,
    {
        match self.state {
            State::Halted => {
                self.state = State::Running;
                Poll::Ready
            },
            State::Running => {
                self.state = State::Halted;
                Poll::Pending
            },
        }
    }
}

/// A queued coroutine: its task, how many waiter stages remain, and the
/// id `run` logs when it polls it.
#[derive(Clone, Copy, PartialEq, Eq, Structural, Debug)]
pub struct TaskFuture {
    pub task: Task,
    pub waits: usize,
    pub id: usize,
}

/// One poll of a queued coroutine: from `Running` it either finishes (no
/// stages left) or yields at the next stage; from `Halted` it completes
/// the pending stage and then finishes or yields at the one after.
pub open spec fn poll_step(f: TaskFuture) -> (TaskFuture, Poll) {
    match f.task.state {
        State::Running => if f.waits == 0 {
            (f, Poll::Ready)
        } else {
            (TaskFuture { task: Task { state: State::Halted }, ..f }, Poll::Pending)
        },
        State::Halted => if f.waits <= 1 {
            (TaskFuture { task: Task { state: State::Running }, waits: 0, ..f }, Poll::Ready)
        } else {
            (
                TaskFuture {
                    task: Task { state: State::Halted },
                    waits: (f.waits - 1) as usize,
                    ..f
                },
                Poll::Pending,
            )
        },
    }
}

/// Polls a task can still receive before finishing.
pub open spec fn fuel(f: TaskFuture) -> nat {
    (2 * f.waits + (if f.task.state == State::Running {
        1int
    } else {
        0int
    })) as nat
}

/// Total polls the whole queue can still receive.
pub open spec fn queue_fuel(q: Seq<TaskFuture>) -> nat
    decreases q.len(),
{
    if q.len() == 0 {
        0
    } else {
        1 + fuel(q[0]) + queue_fuel(q.drop_first())
    }
}

proof fn lemma_queue_fuel_push(q: Seq<TaskFuture>, f: TaskFuture)
    ensures
        queue_fuel(q.push(f)) == queue_fuel(q) + 1 + fuel(f),
    decreases q.len(),
{
    assert(q.push(f).len() == q.len() + 1);
    if q.len() == 0 {
        assert(q.push(f)[0] == f);
        assert(q.push(f).drop_first() =~= Seq::<TaskFuture>::empty());
        assert(queue_fuel(Seq::<TaskFuture>::empty()) == 0);
        assert(queue_fuel(q) == 0);
        assert(queue_fuel(q.push(f)) == 1 + fuel(f) + queue_fuel(q.push(f).drop_first()));
    } else {
        assert(q.push(f)[0] == q[0]);
        assert(q.push(f).drop_first() =~= q.drop_first().push(f));
        lemma_queue_fuel_push(q.drop_first(), f);
    }
}

#[via_fn]
proof fn rr_log_decreases(q: Seq<TaskFuture>) {
    if q.len() > 0 {
        let (f2, p) = poll_step(q[0]);
        if p == Poll::Pending {
            lemma_queue_fuel_push(q.drop_first(), f2);
        }
    }
}

/// The round-robin poll log: the head of the queue is polled (its id
/// logged); a pending task goes to the tail, a finished one is dropped;
/// until the queue is empty.
pub open spec fn rr_log(q: Seq<TaskFuture>) -> Seq<usize>
    decreases queue_fuel(q),
    via rr_log_decreases
{
    if q.len() == 0 {
        Seq::empty()
    } else {
        let (f2, p) = poll_step(q[0]);
        if p == Poll::Ready {
            seq![q[0].id] + rr_log(q.drop_first())
        } else {
            seq![q[0].id] + rr_log(q.drop_first().push(f2))
        }
    }
}

/// The round-robin executor: a FIFO queue of coroutines.
pub struct Executor {
    pub tasks: Vec<TaskFuture>,
    pub next_id: usize,
}

impl Executor {
    /// An empty executor.
    pub fn new() -> (r: Executor)
        ensures
            r.tasks@.len() == 0,
            r.next_id == 0,
    {
        Executor { tasks: Vec::new(), next_id: 0 }
    }

    /// Queues a coroutine that will pass `waits` waiter stages; it starts
    /// in the `Running` state and is logged under the next id.
    pub fn push(&mut self, waits: usize)
        requires
            old(self).next_id < usize::MAX,
        ensures
            final(self).tasks@ == old(self).tasks@.push(
                TaskFuture { task: Task { state: State::Running }, waits, id: old(self).next_id },
            ),
            final(self).next_id == old(self).next_id + 1,
    {
        let id = self.next_id;
        self.next_id = self.next_id + 1;
        self.tasks.push(TaskFuture { task: Task { state: State::Running }, waits, id });
    }

    /// Runs every queued coroutine to completion, FIFO with re-queue at
    /// the tail, and returns the ids in the order they were polled —
    /// exactly the round-robin log of the starting queue.
    pub fn run(&mut self) -> (log: Vec<usize>)
        ensures
            final(self).tasks@.len() == 0,
            final(self).next_id == old(self).next_id,
            log@ == rr_log(old(self).tasks@),
    {
        let ghost q0 = self.tasks@;
        let mut log: Vec<usize> = Vec::new();
        while self.tasks.len() > 0
            invariant
                rr_log(q0) == log@ + rr_log(self.tasks@),
                self.next_id == old(self).next_id,
            decreases queue_fuel(self.tasks@),
        {
            let ghost qpre = self.tasks@;
            let mut f = self.tasks.remove(0);
            let ghost pre = f;
            log.push(f.id);
            let mut pending = false;
            match f.task.state {
                State::Running => {
                    if f.waits > 0 {
                        f.task.waiter();
                        pending = true;
                    }
                },
                State::Halted => {
                    if f.waits > 0 {
                        f.task.waiter();
                        f.waits = f.waits - 1;
                        if f.waits > 0 {
                            f.task.waiter();
                            pending = true;
                        }
                    }
                },
            }
            proof {
                assert(self.tasks@ =~= qpre.drop_first());
                if pending {
                    assert(poll_step(pre) == (f, Poll::Pending));
                    lemma_queue_fuel_push(qpre.drop_first(), f);
                }
            }
            if pending {
                self.tasks.push(f);
            }
            proof {
                if pending {
                    assert(self.tasks@ =~= qpre.drop_first().push(f));
                    assert(rr_log(qpre) =~= seq![pre.id] + rr_log(self.tasks@));
                } else {
                    assert(poll_step(pre).1 == Poll::Ready);
                    assert(rr_log(qpre) =~= seq![pre.id] + rr_log(self.tasks@));
                }
                assert(log@ + rr_log(self.tasks@) =~= rr_log(q0));
            }
        }
        proof {
            assert(rr_log(self.tasks@) =~= Seq::<usize>::empty());
            assert(log@ =~= rr_log(q0));
        }
        log
    }
}

} // verus!
