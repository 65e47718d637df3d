//! Mutual exclusion put to work: `N` threads each perform `M` locked,
//! non-atomic read-modify-write increments of a shared counter, under
//! either mutex variant, with the interleaving chosen freely step by step.
//! The invariant `wf` carries the exclusion argument — at any instant at
//! most one thread stands between a successful lock and its unlock, and
//! the counter equals the number of completed increments — so once every
//! thread is done the counter is exactly `N * M`, whatever the schedule.

use vstd::prelude::*;
use crate::sync::Mutex;
use crate::sync::MutexKind;

verus! {

/// Where a thread stands in its current increment.
#[derive(Clone, Copy, PartialEq, Eq, Structural, Debug)]
pub enum Phase {
    Lock,
    Read,
    Write,
    Unlock,
    Done,
}

/// Between a lock that succeeded and the matching unlock.
pub open spec fn in_cs(p: Phase) -> bool {
    p == Phase::Read || p == Phase::Write || p == Phase::Unlock
}

/// One incrementing thread: its phase, the value its last read returned,
/// how many increments it still owes, and whether it is parked on the
/// mutex queue.
#[derive(Clone, Copy, PartialEq, Eq, Structural, Debug)]
pub struct RaceThread {
    pub phase: Phase,
    pub local: u64,
    pub left: u64,
    pub queued: bool,
}

/// Completed increments, summed over all threads.
pub open spec fn done_sum(threads: Seq<RaceThread>, m: u64) -> int
    decreases threads.len(),
{
    if threads.len() == 0 {
        0
    } else {
        done_sum(threads.drop_last(), m) + (m - threads.last().left)
    }
}

proof fn lemma_done_sum_update(threads: Seq<RaceThread>, i: int, t2: RaceThread, m: u64)
    requires
        0 <= i < threads.len(),
    ensures
        done_sum(threads.update(i, t2), m) == done_sum(threads, m) + threads[i].left
            - t2.left,
    decreases threads.len(),
{
    if i == threads.len() - 1 {
        assert(threads.update(i, t2).drop_last() =~= threads.drop_last());
    } else {
        assert(threads.update(i, t2).drop_last() =~= threads.drop_last().update(i, t2));
        assert(threads.update(i, t2).last() == threads.last());
        lemma_done_sum_update(threads.drop_last(), i, t2, m);
    }
}

proof fn lemma_done_sum_bounds(threads: Seq<RaceThread>, m: u64)
    requires
        forall|i: int| 0 <= i < threads.len() ==> (#[trigger] threads[i]).left <= m,
    ensures
        0 <= done_sum(threads, m) <= threads.len() * m,
    decreases threads.len(),
{
    if threads.len() > 0 {
        lemma_done_sum_bounds(threads.drop_last(), m);
        assert(threads.len() * m == (threads.len() - 1) * m + m) by (nonlinear_arith);
    }
}

/// With one thread's increment still in flight, at least one unit of the
/// total is missing.
proof fn lemma_done_sum_slack(threads: Seq<RaceThread>, i: int, m: u64)
    requires
        forall|k: int| 0 <= k < threads.len() ==> (#[trigger] threads[k]).left <= m,
        0 <= i < threads.len(),
        threads[i].left >= 1,
    ensures
        done_sum(threads, m) <= threads.len() * m - 1,
    decreases threads.len(),
{
    if i == threads.len() - 1 {
        lemma_done_sum_bounds(threads.drop_last(), m);
    } else {
        lemma_done_sum_slack(threads.drop_last(), i, m);
    }
    assert(threads.len() * m == (threads.len() - 1) * m + m) by (nonlinear_arith);
}

proof fn lemma_done_sum_all_done(threads: Seq<RaceThread>, m: u64)
    requires
        forall|i: int| 0 <= i < threads.len() ==> (#[trigger] threads[i]).left == 0,
    ensures
        done_sum(threads, m) == threads.len() * m,
    decreases threads.len(),
{
    if threads.len() > 0 {
        lemma_done_sum_all_done(threads.drop_last(), m);
        assert(threads.len() * m == (threads.len() - 1) * m + m) by (nonlinear_arith);
    }
}

/// The shared state of the experiment: the mutex, the counter it guards,
/// and the racing threads.
pub struct RaceSim {
    pub mutex: Mutex,
    pub counter: u64,
    pub threads: Vec<RaceThread>,
    pub m: u64,
}

impl RaceSim {
    /// The exclusion invariant. The counter always equals the number of
    /// completed increments; a thread inside the critical section owns the
    /// mutex (so there is at most one such thread); a thread that read the
    /// counter and has not yet written still sees the current value; queue
    /// members are parked lockers.
    pub open spec fn wf(self) -> bool {
        &&& self.mutex.wf()
        &&& self.threads@.len() * self.m <= u64::MAX
        &&& self.counter == done_sum(self.threads@, self.m)
        &&& forall|i: usize|
            (i as int) < self.threads@.len() && in_cs((#[trigger] self.threads@[i as int]).phase)
                ==> self.mutex.owner == Some(i)
        &&& forall|i: usize|
            (i as int) < self.threads@.len() && (#[trigger] self.threads@[i as int]).phase
                == Phase::Write ==> self.threads@[i as int].local == self.counter
        &&& forall|i: int|
            0 <= i < self.threads@.len() && ((#[trigger] self.threads@[i]).phase == Phase::Lock
                || self.threads@[i].phase == Phase::Read || self.threads@[i].phase
                == Phase::Write) ==> self.threads@[i].left >= 1
        &&& forall|i: int|
            0 <= i < self.threads@.len() && (#[trigger] self.threads@[i]).phase == Phase::Done
                ==> self.threads@[i].left == 0
        &&& forall|i: int| 0 <= i < self.threads@.len()
            ==> (#[trigger] self.threads@[i]).left <= self.m
        &&& forall|k: int| 0 <= k < self.mutex.waiters@.len() ==> {
                let w = #[trigger] self.mutex.waiters@[k];
                &&& (w as int) < self.threads@.len()
                &&& self.threads@[w as int].queued
                &&& self.threads@[w as int].phase == Phase::Lock
                &&& self.mutex.owner != Some(w)
            }
    }

    /// Every thread has completed all its increments.
    pub open spec fn all_done(self) -> bool {
        forall|i: int| 0 <= i < self.threads@.len()
            ==> (#[trigger] self.threads@[i]).phase == Phase::Done
    }

    /// `n` threads owing `m` increments each, over a fresh mutex of the
    /// given kind and a zero counter.
    pub fn new(n: usize, m: u64, kind: MutexKind) -> (r: RaceSim)
        requires
            n * m <= u64::MAX,
        ensures
            r.wf(),
            r.threads@.len() == n,
            r.m == m,
            r.counter == 0,
            r.mutex.kind == kind,
            n > 0 && m > 0 ==> !r.all_done(),
    {
        let t = RaceThread {
            phase: if m == 0 {
                Phase::Done
            } else {
                Phase::Lock
            },
            local: 0,
            left: m,
            queued: false,
        };
        let mut threads: Vec<RaceThread> = Vec::new();
        let mut i: usize = 0;
        while i < n
            invariant
                i <= n,
                threads@.len() == i,
                forall|j: int| 0 <= j < i ==> threads@[j] == t,
                t.left == m,
                t.phase == (if m == 0 {
                    Phase::Done
                } else {
                    Phase::Lock
                }),
                n * m <= u64::MAX,
            decreases n - i,
        {
            threads.push(t);
            i = i + 1;
        }
        proof {
            lemma_done_sum_all_zero(threads@, m);
            assert(i * m <= n * m) by (nonlinear_arith)
                requires i <= n, 0 <= m;
        }
        RaceSim { mutex: Mutex::new(kind), counter: 0, threads, m }
    }

    /// One atomic step of thread `i`, whichever the adversary picks next:
    /// a lock attempt (spin retry, park, or acquisition), the unguarded
    /// read, the unguarded write-plus-one, or the unlock (handing the
    /// mutex to the queue's head). A finished or parked thread does
    /// nothing.
    pub fn step(&mut self, i: usize)
        requires
            old(self).wf(),
            (i as int) < old(self).threads@.len(),
        ensures
            final(self).wf(),
            final(self).threads@.len() == old(self).threads@.len(),
            final(self).m == old(self).m,
            final(self).mutex.kind == old(self).mutex.kind,
            old(self).threads@[i as int].phase == Phase::Done ==> *final(self) == *old(self),
            final(self).counter == old(self).counter + (
            if old(self).threads@[i as int].phase == Phase::Write {
                1int
            } else {
                0int
            }),
            forall|j: int|
                0 <= j < old(self).threads@.len() && j != i
                    ==> (#[trigger] final(self).threads@[j]).phase == old(
                    self,
                ).threads@[j].phase && final(self).threads@[j].left == old(
                    self,
                ).threads@[j].left,
    {
        let t = self.threads[i];
        match t.phase {
            Phase::Done => {},
            Phase::Lock => {
                let mine = match self.mutex.owner {
                    Some(o) => o == i,
                    None => false,
                };
                if mine {
                    // Ownership was handed over while this thread was
                    // parked: it holds the lock and enters the section.
                    let t2 = RaceThread { phase: Phase::Read, queued: false, ..t };
                    self.threads[i] = t2;
                    proof {
                        lemma_done_sum_update(old(self).threads@, i as int, t2, self.m);
                        assert forall|k: int| 0 <= k < self.mutex.waiters@.len() implies {
                            let w = #[trigger] self.mutex.waiters@[k];
                            &&& (w as int) < self.threads@.len()
                            &&& self.threads@[w as int].queued
                            &&& self.threads@[w as int].phase == Phase::Lock
                            &&& self.mutex.owner != Some(w)
                        } by {
                            assert(self.mutex.waiters@[k] != i);
                        }
                    }
                } else {
                    let free = self.mutex.try_acquire(i);
                    if free {
                        let t2 = RaceThread { phase: Phase::Read, ..t };
                        self.threads[i] = t2;
                        proof {
                            lemma_done_sum_update(old(self).threads@, i as int, t2, self.m);
                        }
                    } else {
                        let blocking = match self.mutex.kind {
                            MutexKind::Blocking => true,
                            MutexKind::Spin => false,
                        };
                        if blocking && !t.queued {
                            proof {
                                assert forall|k: int|
                                    0 <= k < self.mutex.waiters@.len()
                                    implies #[trigger] self.mutex.waiters@[k] != i by {}
                            }
                            self.mutex.enqueue(i);
                            let t2 = RaceThread { queued: true, ..t };
                            self.threads[i] = t2;
                            proof {
                                lemma_done_sum_update(old(self).threads@, i as int, t2, self.m);
                            }
                        }
                        // A spinner (or an already parked thread) just
                        // burns its step.
                    }
                }
            },
            Phase::Read => {
                let t2 = RaceThread { phase: Phase::Write, local: self.counter, ..t };
                self.threads[i] = t2;
                proof {
                    lemma_done_sum_update(old(self).threads@, i as int, t2, self.m);
                }
            },
            Phase::Write => {
                proof {
                    lemma_done_sum_slack(self.threads@, i as int, self.m);
                }
                let t2 = RaceThread {
                    phase: Phase::Unlock,
                    left: t.left - 1,
                    ..t
                };
                self.counter = t.local + 1;
                self.threads[i] = t2;
                proof {
                    lemma_done_sum_update(old(self).threads@, i as int, t2, self.m);
                }
            },
            Phase::Unlock => {
                let woken = self.mutex.unlock(i);
                let t2 = RaceThread {
                    phase: if t.left == 0 {
                        Phase::Done
                    } else {
                        Phase::Lock
                    },
                    ..t
                };
                self.threads[i] = t2;
                proof {
                    lemma_done_sum_update(old(self).threads@, i as int, t2, self.m);
                    match woken {
                        Some(w) => {
                            assert(old(self).mutex.waiters@[0] == w);
                            assert(old(self).threads@[w as int].phase == Phase::Lock);
                            assert(w != i);
                            assert forall|k: int| 0 <= k < self.mutex.waiters@.len() implies {
                                let w2 = #[trigger] self.mutex.waiters@[k];
                                &&& (w2 as int) < self.threads@.len()
                                &&& self.threads@[w2 as int].queued
                                &&& self.threads@[w2 as int].phase == Phase::Lock
                                &&& self.mutex.owner != Some(w2)
                            } by {
                                assert(self.mutex.waiters@[k]
                                    == old(self).mutex.waiters@[k + 1]);
                                assert(old(self).mutex.waiters@[k + 1]
                                    != old(self).mutex.waiters@[0]);
                            }
                        },
                        None => {},
                    }
                }
            },
        }
    }

    /// Runs an arbitrary schedule, one thread index per step; out-of-range
    /// entries are ignored. The invariant survives any interleaving.
    pub fn run(&mut self, schedule: &Vec<usize>)
        requires
            old(self).wf(),
        ensures
            final(self).wf(),
            final(self).threads@.len() == old(self).threads@.len(),
            final(self).m == old(self).m,
    {
        let mut k: usize = 0;
        while k < schedule.len()
            invariant
                self.wf(),
                self.threads@.len() == old(self).threads@.len(),
                self.m == old(self).m,
            decreases schedule@.len() - k,
        {
            let i = schedule[k];
            if i < self.threads.len() {
                self.step(i);
            }
            k = k + 1;
        }
    }

    /// Have all threads finished?
    pub fn finished(&self) -> (r: bool)
        ensures
            r == self.all_done(),
    {
        let mut i: usize = 0;
        while i < self.threads.len()
            invariant
                i <= self.threads@.len(),
                forall|j: int| 0 <= j < i ==> (#[trigger] self.threads@[j]).phase == Phase::Done,
            decreases self.threads@.len() - i,
        {
            let done = match self.threads[i].phase {
                Phase::Done => true,
                _ => false,
            };
            if !done {
                return false;
            }
            i = i + 1;
        }
        true
    }
}

proof fn lemma_done_sum_all_zero(threads: Seq<RaceThread>, m: u64)
    requires
        forall|i: int| 0 <= i < threads.len() ==> (#[trigger] threads[i]).left == m,
    ensures
        done_sum(threads, m) == 0,
    decreases threads.len(),
{
    if threads.len() > 0 {
        lemma_done_sum_all_zero(threads.drop_last(), m);
    }
}

/// Mutual exclusion itself: under the invariant, no two threads stand in
/// the critical section at once, for either mutex variant and any
/// interleaving that got here.
pub proof fn lemma_mutual_exclusion(s: RaceSim, i: usize, j: usize)
    requires
        s.wf(),
        (i as int) < s.threads@.len(),
        (j as int) < s.threads@.len(),
        i != j,
        in_cs(s.threads@[i as int].phase),
    ensures
        !in_cs(s.threads@[j as int].phase),
{
    if in_cs(s.threads@[j as int].phase) {
        assert(s.mutex.owner == Some(i));
        assert(s.mutex.owner == Some(j));
        assert(false);
    }
}

/// The counter law: when every one of the `N` threads has completed its
/// `M` locked increments — under either mutex variant and whatever
/// interleaving the schedule chose — the shared counter is exactly
/// `N * M`: no increment was lost to an interleaved read-modify-write.
pub proof fn lemma_counter_exact(s: RaceSim)
    requires
        s.wf(),
        s.all_done(),
    ensures
        s.counter == s.threads@.len() * s.m,
{
    lemma_done_sum_all_done(s.threads@, s.m);
}

} // verus!
