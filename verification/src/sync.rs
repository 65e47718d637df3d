//! Synchronization primitives as plain state: a mutex in a spin or a
//! blocking variant, a counting semaphore, and a condition variable. Each
//! holds its owner and a FIFO queue of blocked thread ids; the lifecycle
//! layer decides who blocks, who wakes, and when the deadlock detector is
//! consulted, so every operation here is a small total state change with an
//! exact contract.

use vstd::prelude::*;

verus! {

/// The two mutex variants. A spin mutex never blocks its caller (the caller
/// yields and retries); a blocking mutex parks failed lockers in a FIFO
/// queue and hands ownership over on unlock.
#[derive(Clone, Copy, PartialEq, Eq, Structural, Debug)]
pub enum MutexKind {
    Spin,
    Blocking,
}

/// A mutex: at most one owning thread, and (in the blocking variant) the
/// queue of threads parked on it, in arrival order.
pub struct Mutex {
    pub kind: MutexKind,
    pub owner: Option<usize>,
    pub waiters: Vec<usize>,
}

impl Mutex {
    /// A spin mutex parks nobody; nobody waits on a free mutex; waiters
    /// are distinct.
    pub open spec fn wf(self) -> bool {
        &&& self.kind == MutexKind::Spin ==> self.waiters@.len() == 0
        &&& self.owner is None ==> self.waiters@.len() == 0
        &&& forall|i: int, j: int|
            0 <= i < self.waiters@.len() && 0 <= j < self.waiters@.len() && i != j
                ==> #[trigger] self.waiters@[i] != #[trigger] self.waiters@[j]
    }

    pub open spec fn waiting(self, tid: usize) -> bool {
        exists|i: int| 0 <= i < self.waiters@.len() && #[trigger] self.waiters@[i] == tid
    }

    pub fn new(kind: MutexKind) -> (r: Mutex)
        ensures
            r.wf(),
            r.kind == kind,
            r.owner is None,
            r.waiters@ =~= Seq::<usize>::empty(),
    {
        Mutex { kind, owner: None, waiters: Vec::new() }
    }

    /// One compare-and-set attempt on the owner slot: takes the mutex iff it
    /// is free, and changes nothing otherwise.
    pub fn try_acquire(&mut self, tid: usize) -> (r: bool)
        requires
            old(self).wf(),
        ensures
            final(self).wf(),
            r == (old(self).owner is None),
            r ==> *final(self) == (Mutex { owner: Some(tid), ..*old(self) }),
            !r ==> *final(self) == *old(self),
    {
        match self.owner {
            None => {
                self.owner = Some(tid);
                true
            },
            Some(_) => false,
        }
    }

    /// Parks `tid` at the tail of the wait queue of a held blocking mutex.
    pub fn enqueue(&mut self, tid: usize)
        requires
            old(self).wf(),
            old(self).kind == MutexKind::Blocking,
            old(self).owner is Some,
            !old(self).waiting(tid),
        ensures
            final(self).wf(),
            final(self).kind == old(self).kind,
            final(self).owner == old(self).owner,
            final(self).waiters@ =~= old(self).waiters@.push(tid),
    {
        self.waiters.push(tid);
    }

    /// Releases the mutex held by `tid`: ownership passes to the head of the
    /// wait queue when one is parked (returned, for the caller to make it
    /// ready), and is cleared otherwise.
    pub fn unlock(&mut self, tid: usize) -> (r: Option<usize>)
        requires
            old(self).wf(),
            old(self).owner == Some(tid),
        ensures
            final(self).wf(),
            final(self).kind == old(self).kind,
            old(self).waiters@.len() == 0 ==> {
                &&& r is None
                &&& final(self).owner is None
                &&& final(self).waiters@ =~= old(self).waiters@
            },
            old(self).waiters@.len() > 0 ==> {
                &&& r == Some(old(self).waiters@[0])
                &&& final(self).owner == Some(old(self).waiters@[0])
                &&& final(self).waiters@ =~= old(self).waiters@.subrange(
                    1,
                    old(self).waiters@.len() as int,
                )
            },
    {
        if self.waiters.len() == 0 {
            self.owner = None;
            None
        } else {
            let next = self.waiters.remove(0);
            self.owner = Some(next);
            proof {
                assert(self.waiters@ =~= old(self).waiters@.subrange(
                    1,
                    old(self).waiters@.len() as int,
                ));
            }
            Some(next)
        }
    }
}

/// A counting semaphore. A negative count means the queue holds exactly
/// `-count` blocked threads whose decrements are pending.
pub struct Semaphore {
    pub count: i64,
    pub waiters: Vec<usize>,
}

impl Semaphore {
    pub open spec fn wf(self) -> bool {
        &&& self.count < 0 ==> self.waiters@.len() == -self.count
        &&& self.count >= 0 ==> self.waiters@.len() == 0
        &&& forall|i: int, j: int|
            0 <= i < self.waiters@.len() && 0 <= j < self.waiters@.len() && i != j
                ==> #[trigger] self.waiters@[i] != #[trigger] self.waiters@[j]
    }

    pub open spec fn waiting(self, tid: usize) -> bool {
        exists|i: int| 0 <= i < self.waiters@.len() && #[trigger] self.waiters@[i] == tid
    }

    pub fn new(n: i64) -> (r: Semaphore)
        requires
            n >= 0,
        ensures
            r.wf(),
            r.count == n,
            r.waiters@ =~= Seq::<usize>::empty(),
    {
        Semaphore { count: n, waiters: Vec::new() }
    }

    /// The non-blocking half of `down`: consumes one unit when one is free.
    pub fn down_acquire(&mut self)
        requires
            old(self).wf(),
            old(self).count > 0,
        ensures
            final(self).wf(),
            final(self).count == old(self).count - 1,
            final(self).waiters@ =~= old(self).waiters@,
    {
        self.count = self.count - 1;
    }

    /// The blocking half of `down`: records the pending decrement and parks
    /// `tid` at the tail of the queue.
    pub fn down_block(&mut self, tid: usize)
        requires
            old(self).wf(),
            old(self).count <= 0,
            old(self).count > i64::MIN,
            !old(self).waiting(tid),
        ensures
            final(self).wf(),
            final(self).count == old(self).count - 1,
            final(self).waiters@ =~= old(self).waiters@.push(tid),
    {
        self.count = self.count - 1;
        self.waiters.push(tid);
    }

    /// `up`: returns one unit. When threads are parked, the head of the
    /// queue leaves it and its pending decrement completes (the caller makes
    /// it ready); the unit passes to it directly.
    pub fn up(&mut self) -> (r: Option<usize>)
        requires
            old(self).wf(),
            old(self).count < i64::MAX,
        ensures
            final(self).wf(),
            final(self).count == old(self).count + 1,
            old(self).waiters@.len() == 0 ==> {
                &&& r is None
                &&& final(self).waiters@ =~= old(self).waiters@
            },
            old(self).waiters@.len() > 0 ==> {
                &&& r == Some(old(self).waiters@[0])
                &&& final(self).waiters@ =~= old(self).waiters@.subrange(
                    1,
                    old(self).waiters@.len() as int,
                )
            },
    {
        self.count = self.count + 1;
        if self.waiters.len() == 0 {
            None
        } else {
            let next = self.waiters.remove(0);
            proof {
                assert(self.waiters@ =~= old(self).waiters@.subrange(
                    1,
                    old(self).waiters@.len() as int,
                ));
            }
            Some(next)
        }
    }
}

/// A condition variable: only a FIFO queue of waiting threads. Signals are
/// not counted; a signal with nobody parked does nothing.
pub struct Condvar {
    pub waiters: Vec<usize>,
}

impl Condvar {
    pub open spec fn wf(self) -> bool {
        forall|i: int, j: int|
            0 <= i < self.waiters@.len() && 0 <= j < self.waiters@.len() && i != j
                ==> #[trigger] self.waiters@[i] != #[trigger] self.waiters@[j]
    }

    pub open spec fn waiting(self, tid: usize) -> bool {
        exists|i: int| 0 <= i < self.waiters@.len() && #[trigger] self.waiters@[i] == tid
    }

    pub fn new() -> (r: Condvar)
        ensures
            r.wf(),
            r.waiters@ =~= Seq::<usize>::empty(),
    {
        Condvar { waiters: Vec::new() }
    }

    /// Parks `tid`; the lifecycle layer releases the paired mutex in the
    /// same atomic step.
    pub fn enqueue(&mut self, tid: usize)
        requires
            old(self).wf(),
            !old(self).waiting(tid),
        ensures
            final(self).wf(),
            final(self).waiters@ =~= old(self).waiters@.push(tid),
    {
        self.waiters.push(tid);
    }

    /// Takes the head waiter off the queue, if any: the one thread a signal
    /// wakes.
    pub fn signal_pop(&mut self) -> (r: Option<usize>)
        requires
            old(self).wf(),
        ensures
            final(self).wf(),
            old(self).waiters@.len() == 0 ==> {
                &&& r is None
                &&& *final(self) == *old(self)
            },
            old(self).waiters@.len() > 0 ==> {
                &&& r == Some(old(self).waiters@[0])
                &&& final(self).waiters@ =~= old(self).waiters@.subrange(
                    1,
                    old(self).waiters@.len() as int,
                )
            },
    {
        if self.waiters.len() == 0 {
            None
        } else {
            let next = self.waiters.remove(0);
            proof {
                assert(self.waiters@ =~= old(self).waiters@.subrange(
                    1,
                    old(self).waiters@.len() as int,
                ));
            }
            Some(next)
        }
    }
}

} // verus!
