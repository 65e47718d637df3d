//! Process and thread lifecycle behind a syscall-shaped interface. The
//! kernel owns the process table, the global thread table, the stride
//! scheduler and, inside each process, its mailbox, its synchronization
//! objects and its deadlock-detector bookkeeping. Every call is one atomic
//! step of the model: a call that would suspend its caller marks the thread
//! `Blocked` and leaves dispatching to an explicit `schedule` step, exactly
//! as the real kernel parks a thread and then picks the next one.

use vstd::prelude::*;
use crate::mailbox::Mailbox;
use crate::mailbox::MAIL_CAPACITY;
use crate::mailbox::mail_trunc;
use crate::stride::Scheduler;
use crate::stride::Entity;
use crate::stride::MIN_PRIORITY;
use crate::stride::DEFAULT_PRIORITY;
use crate::stride::min_at;
use crate::stride::advanced;
use crate::stride::sched_inserted;
use crate::sync::Mutex;
use crate::sync::MutexKind;
use crate::sync::Semaphore;
use crate::sync::Condvar;
use crate::detect::DetectState;

verus! {

/// Refusal code for an acquisition that would deadlock the system.
pub const DEADLOCK_ERR: isize = -0xdead;

/// Failure code for an invalid reference or an exhausted resource.
pub const INVALID: isize = -1;

/// A probe that cannot complete yet; the caller yields and retries.
pub const AGAIN: isize = -2;

#[derive(Clone, Copy, PartialEq, Eq, Structural, Debug)]
pub enum ThreadState {
    Ready,
    Running,
    Blocked,
    Zombie,
    Reaped,
}

#[derive(Clone, Copy, PartialEq, Eq, Structural, Debug)]
pub enum ProcState {
    Live,
    Zombie,
    Reaped,
}

/// The one wait queue a blocked thread sits in, named by process and
/// object index.
#[derive(Clone, Copy, PartialEq, Eq, Structural, Debug)]
pub enum WaitSlot {
    OnMutex(usize, usize),
    OnSem(usize, usize),
    OnCondvar(usize, usize),
}

/// A thread control block. `local` is the thread's index inside its
/// process: the value `gettid` reports and the detector's row for it.
pub struct Thread {
    pub pid: usize,
    pub local: usize,
    pub state: ThreadState,
    pub exit_code: i32,
    pub priority: u64,
    pub entry: usize,
    pub arg: usize,
    pub blocked_on: Option<WaitSlot>,
    pub wait_mutex: usize,
}

/// A process control block, with its threads (global ids), its mailbox,
/// and its synchronization objects; `mutex_res[m]` / `sem_res[s]` name the
/// detector column standing for each object.
pub struct Process {
    pub parent: Option<usize>,
    pub state: ProcState,
    pub exit_code: i32,
    pub prog: usize,
    pub threads: Vec<usize>,
    pub mailbox: Mailbox,
    pub mutexes: Vec<Mutex>,
    pub semaphores: Vec<Semaphore>,
    pub condvars: Vec<Condvar>,
    pub mutex_res: Vec<usize>,
    pub sem_res: Vec<usize>,
    pub detect: DetectState,
    pub detect_enabled: bool,
}

/// The whole machine state.
pub struct Kernel {
    pub procs: Vec<Process>,
    pub threads: Vec<Thread>,
    pub sched: Scheduler,
    pub current: Option<usize>,
    pub n_programs: usize,
    pub time: u64,
}

/// `w` is a well-placed member of the wait queue `slot` of process `p`.
pub open spec fn member_blocked(threads: Seq<Thread>, p: int, w: usize, slot: WaitSlot) -> bool {
    &&& (w as int) < threads.len()
    &&& threads[w as int].pid == p
    &&& threads[w as int].state == ThreadState::Blocked
    &&& threads[w as int].blocked_on == Some(slot)
}

/// Resource columns: one per mutex and per semaphore, all in range and
/// pairwise distinct.
pub open spec fn res_cols_ok(pr: Process) -> bool {
    &&& pr.mutex_res@.len() == pr.mutexes@.len()
    &&& pr.sem_res@.len() == pr.semaphores@.len()
    &&& forall|i: int| 0 <= i < pr.mutex_res@.len() ==> (#[trigger] pr.mutex_res@[i]) < pr.detect.nr()
    &&& forall|i: int| 0 <= i < pr.sem_res@.len() ==> (#[trigger] pr.sem_res@[i]) < pr.detect.nr()
    &&& forall|i: int, j: int|
        0 <= i < pr.mutex_res@.len() && 0 <= j < pr.mutex_res@.len() && i != j
            ==> #[trigger] pr.mutex_res@[i] != #[trigger] pr.mutex_res@[j]
    &&& forall|i: int, j: int|
        0 <= i < pr.sem_res@.len() && 0 <= j < pr.sem_res@.len() && i != j
            ==> #[trigger] pr.sem_res@[i] != #[trigger] pr.sem_res@[j]
    &&& forall|i: int, j: int|
        0 <= i < pr.mutex_res@.len() && 0 <= j < pr.sem_res@.len()
            ==> #[trigger] pr.mutex_res@[i] != #[trigger] pr.sem_res@[j]
}

/// Everything that must hold of one process against the thread table: its
/// objects are well formed, the detector mirrors them (a free mutex's
/// column has one available unit, an owned one none and exactly the owner's
/// row holds it; a semaphore's column has `max(count, 0)` available), and
/// every queued thread is a blocked thread of this process parked in
/// exactly that queue.
pub open spec fn proc_ok(pr: Process, threads: Seq<Thread>, p: int) -> bool {
    &&& pr.mailbox.wf()
    &&& pr.detect.wf()
    &&& pr.detect.nt() == pr.threads@.len()
    &&& res_cols_ok(pr)
    &&& forall|m: int| 0 <= m < pr.mutexes@.len() ==> (#[trigger] pr.mutexes@[m]).wf()
    &&& forall|s: int| 0 <= s < pr.semaphores@.len() ==> (#[trigger] pr.semaphores@[s]).wf()
    &&& forall|c: int| 0 <= c < pr.condvars@.len() ==> (#[trigger] pr.condvars@[c]).wf()
    &&& forall|m: int| 0 <= m < pr.mutexes@.len() ==> match (#[trigger] pr.mutexes@[m]).owner {
            Some(o) => {
                &&& (o as int) < threads.len()
                &&& threads[o as int].pid == p
                &&& pr.detect.available@[pr.mutex_res@[m] as int] == 0
                &&& forall|l: int|
                    0 <= l < pr.detect.nt()
                        ==> #[trigger] pr.detect.alloc_m()[l][pr.mutex_res@[m] as int] == (
                        if l == threads[o as int].local { 1int } else { 0int })
            },
            None => {
                &&& pr.detect.available@[pr.mutex_res@[m] as int] == 1
                &&& forall|l: int|
                    0 <= l < pr.detect.nt()
                        ==> #[trigger] pr.detect.alloc_m()[l][pr.mutex_res@[m] as int] == 0
            },
        }
    &&& forall|s: int| 0 <= s < pr.semaphores@.len()
        ==> #[trigger] pr.detect.available@[pr.sem_res@[s] as int] == (
            if pr.semaphores@[s].count >= 0 { pr.semaphores@[s].count as int } else { 0int })
    &&& forall|m: int, i: int|
        0 <= m < pr.mutexes@.len() && 0 <= i < (#[trigger] pr.mutexes@[m]).waiters@.len()
            ==> member_blocked(threads, p, #[trigger] pr.mutexes@[m].waiters@[i],
                WaitSlot::OnMutex(p as usize, m as usize))
    &&& forall|s: int, i: int|
        0 <= s < pr.semaphores@.len() && 0 <= i < (#[trigger] pr.semaphores@[s]).waiters@.len()
            ==> member_blocked(threads, p, #[trigger] pr.semaphores@[s].waiters@[i],
                WaitSlot::OnSem(p as usize, s as usize))
    &&& forall|c: int, i: int|
        0 <= c < pr.condvars@.len() && 0 <= i < (#[trigger] pr.condvars@[c]).waiters@.len()
            ==> member_blocked(threads, p, #[trigger] pr.condvars@[c].waiters@[i],
                WaitSlot::OnCondvar(p as usize, c as usize))
                && (threads[pr.condvars@[c].waiters@[i] as int].wait_mutex as int)
                    < pr.mutexes@.len()
}

/// Thread `t` is parked in no wait queue of any process.
pub open spec fn not_member(procs: Seq<Process>, t: int) -> bool {
    &&& forall|p: int, m: int, i: int|
        0 <= p < procs.len() && 0 <= m < procs[p].mutexes@.len() && 0 <= i
            < procs[p].mutexes@[m].waiters@.len()
            ==> #[trigger] procs[p].mutexes@[m].waiters@[i] != t
    &&& forall|p: int, s: int, i: int|
        0 <= p < procs.len() && 0 <= s < procs[p].semaphores@.len() && 0 <= i
            < procs[p].semaphores@[s].waiters@.len()
            ==> #[trigger] procs[p].semaphores@[s].waiters@[i] != t
    &&& forall|p: int, c: int, i: int|
        0 <= p < procs.len() && 0 <= c < procs[p].condvars@.len() && 0 <= i
            < procs[p].condvars@[c].waiters@.len()
            ==> #[trigger] procs[p].condvars@[c].waiters@[i] != t
}

/// The scheduler holds exactly the ready (or currently running) threads.
pub open spec fn sched_ok(entities: Seq<Entity>, threads: Seq<Thread>) -> bool {
    &&& forall|k: int| 0 <= k < entities.len() ==> {
            let id = (#[trigger] entities[k]).id;
            &&& (id as int) < threads.len()
            &&& (threads[id as int].state == ThreadState::Ready || threads[id as int].state
                == ThreadState::Running)
        }
    &&& forall|t: int|
        0 <= t < threads.len() && ((#[trigger] threads[t]).state == ThreadState::Ready
            || threads[t].state == ThreadState::Running)
            ==> exists|k: int| 0 <= k < entities.len() && (#[trigger] entities[k]).id == t
}

/// At most one running thread, and it is the current one.
pub open spec fn current_ok(current: Option<usize>, threads: Seq<Thread>) -> bool {
    &&& match current {
        Some(c) => (c as int) < threads.len() && threads[c as int].state == ThreadState::Running,
        None => true,
    }
    &&& forall|t: int|
        0 <= t < threads.len() && (#[trigger] threads[t]).state == ThreadState::Running
            ==> current == Some(t as usize)
}

/// The thread table and the per-process thread lists index each other.
pub open spec fn table_ok(procs: Seq<Process>, threads: Seq<Thread>) -> bool {
    &&& forall|t: int| 0 <= t < threads.len() ==> {
            let th = #[trigger] threads[t];
            &&& (th.pid as int) < procs.len()
            &&& (th.local as int) < procs[th.pid as int].threads@.len()
            &&& procs[th.pid as int].threads@[th.local as int] == t
            &&& th.priority >= MIN_PRIORITY
        }
    &&& forall|p: int, i: int|
        0 <= p < procs.len() && 0 <= i < procs[p].threads@.len() ==> {
            let g = #[trigger] procs[p].threads@[i];
            &&& (g as int) < threads.len()
            &&& threads[g as int].pid == p
            &&& threads[g as int].local == i
        }
}

impl Kernel {
    pub open spec fn wf(self) -> bool {
        &&& self.threads@.len() <= isize::MAX
        &&& self.sched.wf()
        &&& sched_ok(self.sched.entities@, self.threads@)
        &&& current_ok(self.current, self.threads@)
        &&& table_ok(self.procs@, self.threads@)
        &&& forall|p: int| 0 <= p < self.procs@.len()
            ==> proc_ok(#[trigger] self.procs@[p], self.threads@, p)
    }

    pub open spec fn n_procs(self) -> int {
        self.procs@.len() as int
    }

    pub open spec fn n_threads(self) -> int {
        self.threads@.len() as int
    }

    /// The pid of the running thread; meaningful only when one is running.
    pub open spec fn cur_pid(self) -> int {
        self.threads@[self.current->0 as int].pid as int
    }

    pub open spec fn cur_tid(self) -> int {
        self.current->0 as int
    }

    /// A fresh machine: one live initial process whose single thread is
    /// ready, `n_programs` loadable images, the clock at zero.
    pub fn new(n_programs: usize) -> (r: Kernel)
        ensures
            r.wf(),
            r.n_procs() == 1,
            r.n_threads() == 1,
            r.threads@[0].state == ThreadState::Ready,
            r.threads@[0].pid == 0,
            r.threads@[0].local == 0,
            r.procs@[0].state == ProcState::Live,
            r.procs@[0].parent is None,
            r.procs@[0].detect_enabled == false,
            r.procs@[0].mailbox@ =~= Seq::<Seq<u8>>::empty(),
            r.current is None,
            r.n_programs == n_programs,
            r.time == 0,
    {
        let mut sched = Scheduler::new();
        sched.insert(0, DEFAULT_PRIORITY);
        let thread = Thread {
            pid: 0,
            local: 0,
            state: ThreadState::Ready,
            exit_code: 0,
            priority: DEFAULT_PRIORITY,
            entry: 0,
            arg: 0,
            blocked_on: None,
            wait_mutex: 0,
        };
        let mut threads: Vec<Thread> = Vec::new();
        threads.push(thread);
        let mut tids: Vec<usize> = Vec::new();
        tids.push(0);
        let mut detect = DetectState::new();
        detect.add_thread();
        let proc0 = Process {
            parent: None,
            state: ProcState::Live,
            exit_code: 0,
            prog: 0,
            threads: tids,
            mailbox: Mailbox::new(),
            mutexes: Vec::new(),
            semaphores: Vec::new(),
            condvars: Vec::new(),
            mutex_res: Vec::new(),
            sem_res: Vec::new(),
            detect,
            detect_enabled: false,
        };
        let mut procs: Vec<Process> = Vec::new();
        procs.push(proc0);
        Kernel { procs, threads, sched, current: None, n_programs, time: 0 }
    }

    /// Dispatch: the stride scheduler picks the ready thread with least
    /// pass and it becomes the running one; `None` exactly when no thread
    /// is ready.
    pub fn schedule(&mut self) -> (r: Option<usize>)
        requires
            old(self).wf(),
            old(self).current is None,
        ensures
            final(self).wf(),
            final(self).procs@ == old(self).procs@,
            final(self).time == old(self).time,
            final(self).n_programs == old(self).n_programs,
            (r is None) <==> old(self).sched.entities@.len() == 0,
            r is None ==> final(self).threads@ == old(self).threads@
                && final(self).current == old(self).current
                && final(self).sched.entities@ == old(self).sched.entities@,
            r matches Some(t) ==> {
                &&& (t as int) < old(self).threads@.len()
                &&& old(self).threads@[t as int].state == ThreadState::Ready
                &&& final(self).current == Some(t)
                &&& final(self).threads@ == old(self).threads@.update(
                    t as int,
                    Thread { state: ThreadState::Running, ..old(self).threads@[t as int] },
                )
                &&& exists|k: int|
                    {
                        &&& #[trigger] min_at(old(self).sched.entities@, k)
                        &&& old(self).sched.entities@[k].id == t
                        &&& advanced(
                            old(self).sched.entities@[k],
                            final(self).sched.entities@[k],
                        )
                    }
            },
    {
        let picked = self.sched.pick();
        match picked {
            None => None,
            Some(t) => {
                let th = Thread { state: ThreadState::Running, ..self.threads[t] };
                self.threads[t] = th;
                self.current = Some(t);
                proof {
                    assert forall|p: int| 0 <= p < self.procs@.len() implies proc_ok(
                        #[trigger] self.procs@[p],
                        self.threads@,
                        p,
                    ) by {
                        lemma_proc_ok_retarget(
                            old(self).procs@[p],
                            old(self).threads@,
                            self.threads@,
                            p,
                            t as int,
                        );
                    }
                }
                Some(t)
            },
        }
    }

    /// The running thread gives up the rest of its slot: back to `Ready`
    /// (it stays in the ready queue), nobody running until the next
    /// `schedule`.
    pub fn yield_(&mut self)
        requires
            old(self).wf(),
            old(self).current is Some,
        ensures
            final(self).wf(),
            final(self).procs@ == old(self).procs@,
            final(self).sched.entities@ == old(self).sched.entities@,
            final(self).time == old(self).time,
            final(self).current is None,
            final(self).threads@ == old(self).threads@.update(
                old(self).cur_tid(),
                Thread { state: ThreadState::Ready, ..old(self).threads@[old(self).cur_tid()] },
            ),
    {
        let c = self.current.unwrap();
        let th = Thread { state: ThreadState::Ready, ..self.threads[c] };
        self.threads[c] = th;
        self.current = None;
        proof {
            assert forall|p: int| 0 <= p < self.procs@.len() implies proc_ok(
                #[trigger] self.procs@[p],
                self.threads@,
                p,
            ) by {
                lemma_proc_ok_retarget(
                    old(self).procs@[p],
                    old(self).threads@,
                    self.threads@,
                    p,
                    c as int,
                );
            }
        }
    }

    /// The running thread's tid as it sees it: its index inside its
    /// process.
    pub fn gettid(&self) -> (r: usize)
        requires
            self.wf(),
            self.current is Some,
        ensures
            r == self.threads@[self.cur_tid()].local,
    {
        let c = self.current.unwrap();
        self.threads[c].local
    }

    /// The running thread's process id.
    pub fn getpid(&self) -> (r: usize)
        requires
            self.wf(),
            self.current is Some,
        ensures
            r == self.cur_pid(),
    {
        let c = self.current.unwrap();
        self.threads[c].pid
    }

    /// The model clock, in milliseconds.
    pub fn get_time(&self) -> (r: u64)
        ensures
            r == self.time,
    {
        self.time
    }

    /// Lets `ms` milliseconds pass on the model clock (saturating at the
    /// clock's range); the caller keeps its slot.
    pub fn sleep(&mut self, ms: u64)
        requires
            old(self).wf(),
        ensures
            final(self).wf(),
            final(self).time == (if old(self).time + ms <= u64::MAX {
                old(self).time + ms
            } else {
                u64::MAX as int
            }),
            final(self).procs@ == old(self).procs@,
            final(self).threads@ == old(self).threads@,
            final(self).sched.entities@ == old(self).sched.entities@,
            final(self).current == old(self).current,
    {
        if ms > u64::MAX - self.time {
            self.time = u64::MAX;
        } else {
            self.time = self.time + ms;
        }
    }

    /// Like `sleep`, via the timer-blocking path of the real kernel: in
    /// this model the wait collapses to the clock advance, since no other
    /// thread's state depends on the sleeper while it waits.
    pub fn sleep_blocking(&mut self, ms: u64)
        requires
            old(self).wf(),
        ensures
            final(self).wf(),
            final(self).time == (if old(self).time + ms <= u64::MAX {
                old(self).time + ms
            } else {
                u64::MAX as int
            }),
            final(self).procs@ == old(self).procs@,
            final(self).threads@ == old(self).threads@,
            final(self).sched.entities@ == old(self).sched.entities@,
            final(self).current == old(self).current,
    {
        self.sleep(ms)
    }

    /// Adjusts the running thread's scheduling priority for future
    /// dispatches: returns `p` when `p >= 2`, `INVALID` otherwise.
    pub fn set_priority(&mut self, p: isize) -> (r: isize)
        requires
            old(self).wf(),
            old(self).current is Some,
        ensures
            final(self).wf(),
            final(self).procs@ == old(self).procs@,
            final(self).current == old(self).current,
            final(self).time == old(self).time,
            p < 2 ==> r == INVALID && final(self).threads@ == old(self).threads@
                && final(self).sched.entities@ == old(self).sched.entities@,
            p >= 2 ==> {
                &&& r == p
                &&& final(self).threads@ == old(self).threads@.update(
                    old(self).cur_tid(),
                    Thread {
                        priority: p as u64,
                        ..old(self).threads@[old(self).cur_tid()]
                    },
                )
                &&& exists|k: int|
                    {
                        &&& 0 <= k < old(self).sched.entities@.len()
                        &&& (#[trigger] old(self).sched.entities@[k]).id == old(self).cur_tid()
                        &&& final(self).sched.entities@[k].priority == p
                        &&& final(self).sched.entities@[k].stride
                            == crate::stride::BIG_STRIDE as int / (p as int)
                        &&& forall|i: int|
                            0 <= i < old(self).sched.entities@.len() && i != k
                                ==> final(self).sched.entities@[i]
                                    == old(self).sched.entities@[i]
                    }
            },
    {
        if p < MIN_PRIORITY as isize {
            return INVALID;
        }
        let c = self.current.unwrap();
        proof {
            assert(self.sched.contains_id(c));
        }
        let rr = self.sched.set_priority(c, p);
        let th = Thread { priority: p as u64, ..self.threads[c] };
        self.threads[c] = th;
        proof {
            assert forall|p2: int| 0 <= p2 < self.procs@.len() implies proc_ok(
                #[trigger] self.procs@[p2],
                self.threads@,
                p2,
            ) by {
                lemma_proc_ok_retarget(
                    old(self).procs@[p2],
                    old(self).threads@,
                    self.threads@,
                    p2,
                    c as int,
                );
            }
        }
        rr
    }
}

/// Changing one thread's record — without touching its identity fields,
/// and while it sits in no wait queue — cannot disturb any process's
/// queue/owner/detector facts.
pub proof fn lemma_proc_ok_retarget(
    pr: Process,
    t1: Seq<Thread>,
    t2: Seq<Thread>,
    p: int,
    t: int,
)
    requires
        proc_ok(pr, t1, p),
        t1.len() == t2.len(),
        0 <= t < t1.len(),
        forall|u: int| 0 <= u < t1.len() && u != t ==> t2[u] == t1[u],
        t2[t].pid == t1[t].pid,
        t2[t].local == t1[t].local,
        t1[t].state != ThreadState::Blocked,
    ensures
        proc_ok(pr, t2, p),
{
    assert forall|m: int, i: int|
        0 <= m < pr.mutexes@.len() && 0 <= i < (#[trigger] pr.mutexes@[m]).waiters@.len()
            implies member_blocked(t2, p, #[trigger] pr.mutexes@[m].waiters@[i],
        WaitSlot::OnMutex(p as usize, m as usize)) by {
        let w = pr.mutexes@[m].waiters@[i];
        assert(member_blocked(t1, p, w, WaitSlot::OnMutex(p as usize, m as usize)));
        assert(w != t);
    }
    assert forall|s: int, i: int|
        0 <= s < pr.semaphores@.len() && 0 <= i < (#[trigger] pr.semaphores@[s]).waiters@.len()
            implies member_blocked(t2, p, #[trigger] pr.semaphores@[s].waiters@[i],
        WaitSlot::OnSem(p as usize, s as usize)) by {
        let w = pr.semaphores@[s].waiters@[i];
        assert(member_blocked(t1, p, w, WaitSlot::OnSem(p as usize, s as usize)));
        assert(w != t);
    }
    assert forall|c: int, i: int|
        0 <= c < pr.condvars@.len() && 0 <= i < (#[trigger] pr.condvars@[c]).waiters@.len()
            implies member_blocked(t2, p, #[trigger] pr.condvars@[c].waiters@[i],
        WaitSlot::OnCondvar(p as usize, c as usize)) by {
        let w = pr.condvars@[c].waiters@[i];
        assert(member_blocked(t1, p, w, WaitSlot::OnCondvar(p as usize, c as usize)));
        assert(w != t);
    }
    assert forall|m: int| 0 <= m < pr.mutexes@.len() implies match (
    #[trigger] pr.mutexes@[m]).owner {
        Some(o) => {
            &&& (o as int) < t2.len()
            &&& t2[o as int].pid == p
            &&& pr.detect.available@[pr.mutex_res@[m] as int] == 0
            &&& forall|l: int|
                0 <= l < pr.detect.nt()
                    ==> #[trigger] pr.detect.alloc_m()[l][pr.mutex_res@[m] as int] == (
                    if l == t2[o as int].local { 1int } else { 0int })
        },
        None => {
            &&& pr.detect.available@[pr.mutex_res@[m] as int] == 1
            &&& forall|l: int|
                0 <= l < pr.detect.nt()
                    ==> #[trigger] pr.detect.alloc_m()[l][pr.mutex_res@[m] as int] == 0
        },
    } by {
        match pr.mutexes@[m].owner {
            Some(o) => {
                assert(t2[o as int].local == t1[o as int].local);
            },
            None => {},
        }
    }
}


/// Extending the thread table with fresh threads disturbs no process's
/// facts: every thread a process's queues or owners mention already
/// existed.
pub proof fn lemma_proc_ok_extend(pr: Process, t1: Seq<Thread>, t2: Seq<Thread>, p: int)
    requires
        proc_ok(pr, t1, p),
        t1.len() <= t2.len(),
        forall|u: int| 0 <= u < t1.len() ==> t2[u] == t1[u],
    ensures
        proc_ok(pr, t2, p),
{
    assert forall|m: int, i: int|
        0 <= m < pr.mutexes@.len() && 0 <= i < (#[trigger] pr.mutexes@[m]).waiters@.len()
            implies member_blocked(t2, p, #[trigger] pr.mutexes@[m].waiters@[i],
        WaitSlot::OnMutex(p as usize, m as usize)) by {
        assert(member_blocked(t1, p, pr.mutexes@[m].waiters@[i],
            WaitSlot::OnMutex(p as usize, m as usize)));
    }
    assert forall|s: int, i: int|
        0 <= s < pr.semaphores@.len() && 0 <= i < (#[trigger] pr.semaphores@[s]).waiters@.len()
            implies member_blocked(t2, p, #[trigger] pr.semaphores@[s].waiters@[i],
        WaitSlot::OnSem(p as usize, s as usize)) by {
        assert(member_blocked(t1, p, pr.semaphores@[s].waiters@[i],
            WaitSlot::OnSem(p as usize, s as usize)));
    }
    assert forall|c: int, i: int|
        0 <= c < pr.condvars@.len() && 0 <= i < (#[trigger] pr.condvars@[c]).waiters@.len()
            implies member_blocked(t2, p, #[trigger] pr.condvars@[c].waiters@[i],
        WaitSlot::OnCondvar(p as usize, c as usize)) by {
        assert(member_blocked(t1, p, pr.condvars@[c].waiters@[i],
            WaitSlot::OnCondvar(p as usize, c as usize)));
    }
    assert forall|m: int| 0 <= m < pr.mutexes@.len() implies match (
    #[trigger] pr.mutexes@[m]).owner {
        Some(o) => {
            &&& (o as int) < t2.len()
            &&& t2[o as int].pid == p
            &&& pr.detect.available@[pr.mutex_res@[m] as int] == 0
            &&& forall|l: int|
                0 <= l < pr.detect.nt()
                    ==> #[trigger] pr.detect.alloc_m()[l][pr.mutex_res@[m] as int] == (
                    if l == t2[o as int].local { 1int } else { 0int })
        },
        None => {
            &&& pr.detect.available@[pr.mutex_res@[m] as int] == 1
            &&& forall|l: int|
                0 <= l < pr.detect.nt()
                    ==> #[trigger] pr.detect.alloc_m()[l][pr.mutex_res@[m] as int] == 0
        },
    } by {
        match pr.mutexes@[m].owner {
            Some(o) => {
                assert(t2[o as int] == t1[o as int]);
            },
            None => {},
        }
    }
}

impl Kernel {
    /// A new thread in the calling process, sharing its address space: it
    /// starts `Ready` at the default priority, gets the next local tid and
    /// a zero detector row. Returns its local tid.
    pub fn thread_create(&mut self, entry: usize, arg: usize) -> (r: isize)
        requires
            old(self).wf(),
            old(self).current is Some,
        ensures
            final(self).wf(),
            final(self).current == old(self).current,
            final(self).time == old(self).time,
            (old(self).procs@[old(self).cur_pid()].threads@.len() > isize::MAX
                || old(self).threads@.len() >= isize::MAX) ==> r == INVALID
                && final(self).threads@ == old(self).threads@
                && final(self).procs@ == old(self).procs@,
            (old(self).procs@[old(self).cur_pid()].threads@.len() <= isize::MAX
                && old(self).threads@.len() < isize::MAX) ==> {
                let p = old(self).cur_pid();
                let g = old(self).threads@.len() as int;
                &&& r == old(self).procs@[p].threads@.len()
                &&& final(self).threads@.len() == g + 1
                &&& forall|u: int| 0 <= u < g ==> final(self).threads@[u] == old(self).threads@[u]
                &&& final(self).threads@[g] == (Thread {
                    pid: p as usize,
                    local: old(self).procs@[p].threads@.len() as usize,
                    state: ThreadState::Ready,
                    exit_code: 0,
                    priority: DEFAULT_PRIORITY,
                    entry,
                    arg,
                    blocked_on: None,
                    wait_mutex: 0,
                })
                &&& final(self).procs@.len() == old(self).procs@.len()
                &&& forall|q: int| 0 <= q < old(self).procs@.len() && q != p
                    ==> final(self).procs@[q] == old(self).procs@[q]
                &&& final(self).procs@[p].threads@ == old(self).procs@[p].threads@.push(
                    g as usize,
                )
                &&& final(self).procs@[p].mutexes@ == old(self).procs@[p].mutexes@
                &&& final(self).procs@[p].semaphores@ == old(self).procs@[p].semaphores@
                &&& final(self).procs@[p].condvars@ == old(self).procs@[p].condvars@
                &&& final(self).procs@[p].mailbox == old(self).procs@[p].mailbox
                &&& final(self).procs@[p].state == old(self).procs@[p].state
                &&& final(self).procs@[p].detect_enabled == old(self).procs@[p].detect_enabled
                &&& final(self).procs@[p].mutex_res@ == old(self).procs@[p].mutex_res@
                &&& final(self).procs@[p].sem_res@ == old(self).procs@[p].sem_res@
                &&& final(self).procs@[p].detect.nr() == old(self).procs@[p].detect.nr()
                &&& final(self).procs@[p].detect.nt() == old(self).procs@[p].detect.nt() + 1
                &&& final(self).procs@[p].detect.available@
                    == old(self).procs@[p].detect.available@
                &&& forall|t: int| 0 <= t < old(self).procs@[p].detect.nt()
                    ==> final(self).procs@[p].detect.alloc_m()[t]
                        == old(self).procs@[p].detect.alloc_m()[t]
                        && final(self).procs@[p].detect.req_m()[t]
                        == old(self).procs@[p].detect.req_m()[t]
                &&& forall|rr: int| 0 <= rr < old(self).procs@[p].detect.nr()
                    ==> final(self).procs@[p].detect.alloc_m()[old(self).procs@[p].detect.nt()][rr]
                        == 0 && final(self).procs@[p].detect.req_m()[old(
                        self,
                    ).procs@[p].detect.nt()][rr] == 0
                &&& final(self).sched.contains_id(g as usize)
                &&& sched_inserted(
                    old(self).sched,
                    final(self).sched,
                    g as usize,
                    DEFAULT_PRIORITY,
                )
            },
    {
        let c = self.current.unwrap();
        let p = self.threads[c].pid;
        let local = self.procs[p].threads.len();
        if local > isize::MAX as usize || self.threads.len() >= isize::MAX as usize {
            return INVALID;
        }
        let g = self.threads.len();
        let th = Thread {
            pid: p,
            local,
            state: ThreadState::Ready,
            exit_code: 0,
            priority: DEFAULT_PRIORITY,
            entry,
            arg,
            blocked_on: None,
            wait_mutex: 0,
        };
        self.threads.push(th);
        self.procs[p].threads.push(g);
        self.procs[p].detect.add_thread();
        proof {
            if self.sched.contains_id(g) {
                let k = choose|k: int|
                    0 <= k < self.sched.entities@.len() && self.sched.entities@[k].id == g;
                assert(old(self).sched.entities@[k].id == g);
                assert(false);
            }
        }
        self.sched.insert(g, DEFAULT_PRIORITY);
        proof {
            assert forall|q: int| 0 <= q < self.procs@.len() implies proc_ok(
                #[trigger] self.procs@[q],
                self.threads@,
                q,
            ) by {
                if q != p as int {
                    lemma_proc_ok_extend(self.procs@[q], old(self).threads@, self.threads@, q);
                } else {
                    lemma_proc_ok_extend(
                        old(self).procs@[q],
                        old(self).threads@,
                        self.threads@,
                        q,
                    );
                    let pr0 = old(self).procs@[p as int];
                    let pr1 = self.procs@[p as int];
                    assert(pr1.mutexes@ == pr0.mutexes@);
                    assert(res_cols_ok(pr1));
                    assert forall|m: int| 0 <= m < pr1.mutexes@.len() implies match (
                    #[trigger] pr1.mutexes@[m]).owner {
                        Some(o) => {
                            &&& (o as int) < self.threads@.len()
                            &&& self.threads@[o as int].pid == p
                            &&& pr1.detect.available@[pr1.mutex_res@[m] as int] == 0
                            &&& forall|l: int|
                                0 <= l < pr1.detect.nt()
                                    ==> #[trigger] pr1.detect.alloc_m()[l][pr1.mutex_res@[m] as int]
                                        == (if l == self.threads@[o as int].local {
                                        1int
                                    } else {
                                        0int
                                    })
                        },
                        None => {
                            &&& pr1.detect.available@[pr1.mutex_res@[m] as int] == 1
                            &&& forall|l: int|
                                0 <= l < pr1.detect.nt()
                                    ==> #[trigger] pr1.detect.alloc_m()[l][pr1.mutex_res@[m] as int]
                                        == 0
                        },
                    } by {
                        assert(pr1.mutexes@[m] == pr0.mutexes@[m]);
                        assert(pr1.mutexes@[m].wf());
                        match pr1.mutexes@[m].owner {
                            Some(o) => {
                                assert(self.threads@[o as int] == old(self).threads@[o as int]);
                                assert forall|l: int| 0 <= l < pr1.detect.nt()
                                    implies #[trigger] pr1.detect.alloc_m()[l][pr1.mutex_res@[m] as int] == (if l == self.threads@[o as int].local {
                                    1int
                                } else {
                                    0int
                                }) by {
                                    if l < pr0.detect.nt() {
                                        assert(pr1.detect.alloc_m()[l] == pr0.detect.alloc_m()[l]);
                                    }
                                }
                            },
                            None => {
                                assert forall|l: int| 0 <= l < pr1.detect.nt()
                                    implies #[trigger] pr1.detect.alloc_m()[l][pr1.mutex_res@[m] as int] == 0 by {
                                    if l < pr0.detect.nt() {
                                        assert(pr1.detect.alloc_m()[l] == pr0.detect.alloc_m()[l]);
                                    }
                                }
                            },
                        }
                    }
                }
            }
        }
        local as isize
    }

    /// Reaps an exited thread of the calling process by its local tid:
    /// returns its exit code and reclaims the control block. `INVALID` for
    /// the caller's own tid, an unknown tid or one already reaped; `AGAIN`
    /// while the thread has not exited. As in the raw syscall, the
    /// blocking wait is the caller's retry-on-`AGAIN` loop around this
    /// one-step probe.
    pub fn waittid(&mut self, tid: usize) -> (r: isize)
        requires
            old(self).wf(),
            old(self).current is Some,
        ensures
            final(self).wf(),
            final(self).current == old(self).current,
            final(self).procs@ == old(self).procs@,
            final(self).sched.entities@ == old(self).sched.entities@,
            final(self).time == old(self).time,
            ({
                let p = old(self).cur_pid();
                let me = old(self).threads@[old(self).cur_tid()].local;
                &&& (tid == me || tid >= old(self).procs@[p].threads@.len()) ==> r == INVALID
                    && final(self).threads@ == old(self).threads@
                &&& (tid != me && tid < old(self).procs@[p].threads@.len()) ==> {
                    let g = old(self).procs@[p].threads@[tid as int] as int;
                    &&& old(self).threads@[g].state == ThreadState::Zombie ==> {
                        &&& r == old(self).threads@[g].exit_code
                        &&& final(self).threads@ == old(self).threads@.update(
                            g,
                            Thread { state: ThreadState::Reaped, ..old(self).threads@[g] },
                        )
                    }
                    &&& old(self).threads@[g].state == ThreadState::Reaped ==> r == INVALID
                        && final(self).threads@ == old(self).threads@
                    &&& (old(self).threads@[g].state != ThreadState::Zombie
                        && old(self).threads@[g].state != ThreadState::Reaped) ==> r == AGAIN
                        && final(self).threads@ == old(self).threads@
                }
            }),
    {
        let c = self.current.unwrap();
        let p = self.threads[c].pid;
        let me = self.threads[c].local;
        if tid == me || tid >= self.procs[p].threads.len() {
            return INVALID;
        }
        let g = self.procs[p].threads[tid];
        match self.threads[g].state {
            ThreadState::Zombie => {
                let code = self.threads[g].exit_code;
                let th = Thread { state: ThreadState::Reaped, ..self.threads[g] };
                self.threads[g] = th;
                proof {
                    assert forall|q: int| 0 <= q < self.procs@.len() implies proc_ok(
                        #[trigger] self.procs@[q],
                        self.threads@,
                        q,
                    ) by {
                        lemma_proc_ok_retarget(
                            old(self).procs@[q],
                            old(self).threads@,
                            self.threads@,
                            q,
                            g as int,
                        );
                    }
                }
                code as isize
            },
            ThreadState::Reaped => INVALID,
            _ => AGAIN,
        }
    }

    /// Turns on or off deadlock detection for the calling process. Always
    /// returns 0.
    pub fn enable_deadlock_detect(&mut self, flag: bool) -> (r: isize)
        requires
            old(self).wf(),
            old(self).current is Some,
        ensures
            final(self).wf(),
            r == 0,
            final(self).current == old(self).current,
            final(self).threads@ == old(self).threads@,
            final(self).sched.entities@ == old(self).sched.entities@,
            final(self).time == old(self).time,
            final(self).procs@.len() == old(self).procs@.len(),
            forall|q: int| 0 <= q < old(self).procs@.len() && q != old(self).cur_pid()
                ==> final(self).procs@[q] == old(self).procs@[q],
            final(self).procs@[old(self).cur_pid()] == (Process {
                detect_enabled: flag,
                ..old(self).procs@[old(self).cur_pid()]
            }),
    {
        let c = self.current.unwrap();
        let p = self.threads[c].pid;
        self.procs[p].detect_enabled = flag;
        proof {
            assert forall|q: int| 0 <= q < self.procs@.len() implies proc_ok(
                #[trigger] self.procs@[q],
                self.threads@,
                q,
            ) by {
                if q == p as int {
                    let pr0 = old(self).procs@[q];
                    let pr1 = self.procs@[q];
                    assert(pr1.mutexes@ == pr0.mutexes@);
                    assert(pr1.semaphores@ == pr0.semaphores@);
                    assert(pr1.condvars@ == pr0.condvars@);
                    assert(pr1.detect == pr0.detect);
                }
            }
        }
        0
    }

    /// Sends `bytes` to process `dst`'s mailbox: fails with `INVALID` when
    /// `dst` is not a live process or its queue is full; otherwise enqueues
    /// the (truncated) payload and returns the retained length.
    pub fn mail_write(&mut self, dst: usize, bytes: &[u8]) -> (r: isize)
        requires
            old(self).wf(),
        ensures
            final(self).wf(),
            final(self).current == old(self).current,
            final(self).threads@ == old(self).threads@,
            final(self).sched.entities@ == old(self).sched.entities@,
            final(self).time == old(self).time,
            final(self).procs@.len() == old(self).procs@.len(),
            (dst >= old(self).procs@.len() || old(self).procs@[dst as int].state
                != ProcState::Live) ==> r == INVALID && final(self).procs@ == old(self).procs@,
            (dst < old(self).procs@.len() && old(self).procs@[dst as int].state
                == ProcState::Live) ==> {
                let q0 = old(self).procs@[dst as int].mailbox@;
                &&& forall|q: int| 0 <= q < old(self).procs@.len() && q != dst
                    ==> final(self).procs@[q] == old(self).procs@[q]
                &&& q0.len() == MAIL_CAPACITY ==> r == INVALID
                    && final(self).procs@[dst as int] == old(self).procs@[dst as int]
                &&& q0.len() < MAIL_CAPACITY ==> {
                    &&& r == mail_trunc(bytes@).len()
                    &&& final(self).procs@[dst as int].mailbox@ =~= q0.push(mail_trunc(bytes@))
                    &&& final(self).procs@[dst as int] == (Process {
                        mailbox: final(self).procs@[dst as int].mailbox,
                        ..old(self).procs@[dst as int]
                    })
                }
            },
    {
        if dst >= self.procs.len() {
            return INVALID;
        }
        let live = match self.procs[dst].state {
            ProcState::Live => true,
            _ => false,
        };
        if !live {
            return INVALID;
        }
        let r = self.procs[dst].mailbox.write(bytes);
        proof {
            if old(self).procs@[dst as int].mailbox@.len() == MAIL_CAPACITY {
                assert(self.procs@[dst as int] == old(self).procs@[dst as int]);
            }
            assert forall|q: int| 0 <= q < self.procs@.len() implies proc_ok(
                #[trigger] self.procs@[q],
                self.threads@,
                q,
            ) by {
                if q == dst as int {
                    let pr0 = old(self).procs@[q];
                    let pr1 = self.procs@[q];
                    assert(pr1.mutexes@ == pr0.mutexes@);
                    assert(pr1.semaphores@ == pr0.semaphores@);
                    assert(pr1.condvars@ == pr0.condvars@);
                    assert(pr1.detect == pr0.detect);
                }
            }
        }
        r
    }

    /// Receives the head message of the calling process's mailbox into
    /// `buf` (`INVALID` when empty): the copied length is returned and the
    /// message leaves the queue even if `buf` could not hold it whole.
    pub fn mail_read(&mut self, buf: &mut Vec<u8>) -> (r: isize)
        requires
            old(self).wf(),
            old(self).current is Some,
        ensures
            final(self).wf(),
            final(self).current == old(self).current,
            final(self).threads@ == old(self).threads@,
            final(self).sched.entities@ == old(self).sched.entities@,
            final(self).time == old(self).time,
            final(self).procs@.len() == old(self).procs@.len(),
            forall|q: int| 0 <= q < old(self).procs@.len() && q != old(self).cur_pid()
                ==> final(self).procs@[q] == old(self).procs@[q],
            ({
                let p = old(self).cur_pid();
                let q0 = old(self).procs@[p].mailbox@;
                &&& q0.len() == 0 ==> r == INVALID && final(self).procs@ == old(self).procs@
                    && final(buf)@ == old(buf)@
                &&& q0.len() > 0 ==> {
                    let msg = q0[0];
                    let n = if old(buf)@.len() <= msg.len() {
                        old(buf)@.len() as int
                    } else {
                        msg.len() as int
                    };
                    &&& r == n
                    &&& final(self).procs@[p].mailbox@ =~= q0.subrange(1, q0.len() as int)
                    &&& final(self).procs@[p] == (Process {
                        mailbox: final(self).procs@[p].mailbox,
                        ..old(self).procs@[p]
                    })
                    &&& final(buf)@.len() == old(buf)@.len()
                    &&& forall|i: int| 0 <= i < n ==> final(buf)@[i] == msg[i]
                    &&& forall|i: int| n <= i < old(buf)@.len() ==> final(buf)@[i] == old(buf)@[i]
                }
            }),
    {
        let c = self.current.unwrap();
        let p = self.threads[c].pid;
        let r = self.procs[p].mailbox.read(buf);
        proof {
            if old(self).procs@[p as int].mailbox@.len() == 0 {
                assert(self.procs@[p as int] == old(self).procs@[p as int]);
                assert(self.procs@ =~= old(self).procs@);
            }
            assert forall|q: int| 0 <= q < self.procs@.len() implies proc_ok(
                #[trigger] self.procs@[q],
                self.threads@,
                q,
            ) by {
                if q == p as int {
                    let pr0 = old(self).procs@[q];
                    let pr1 = self.procs@[q];
                    assert(pr1.mutexes@ == pr0.mutexes@);
                    assert(pr1.semaphores@ == pr0.semaphores@);
                    assert(pr1.condvars@ == pr0.condvars@);
                    assert(pr1.detect == pr0.detect);
                }
            }
        }
        r
    }
}


impl Kernel {
    /// Takes the running thread off the processor and out of the ready
    /// queue, moving it to `st` (`Blocked` or `Zombie`). Used by every
    /// blocking operation and by `exit`.
    fn deschedule_current(&mut self, st: ThreadState, slot: Option<WaitSlot>, code: i32) -> (c:
        usize)
        requires
            old(self).wf(),
            old(self).current is Some,
            st == ThreadState::Blocked || st == ThreadState::Zombie,
            st == ThreadState::Blocked <==> slot is Some,
        ensures
            final(self).wf(),
            c == old(self).cur_tid(),
            final(self).current is None,
            final(self).procs@ == old(self).procs@,
            final(self).time == old(self).time,
            final(self).n_programs == old(self).n_programs,
            final(self).threads@ == old(self).threads@.update(
                c as int,
                Thread {
                    state: st,
                    blocked_on: slot,
                    exit_code: code,
                    ..old(self).threads@[c as int]
                },
            ),
            !final(self).sched.contains_id(c),
            forall|id: usize| id != c
                ==> final(self).sched.contains_id(id) == old(self).sched.contains_id(id),
    {
        let c = self.current.unwrap();
        proof {
            assert(self.sched.contains_id(c));
        }
        self.sched.remove(c);
        let th = Thread {
            state: st,
            blocked_on: slot,
            exit_code: code,
            ..self.threads[c]
        };
        self.threads[c] = th;
        self.current = None;
        proof {
            let e1 = old(self).sched.entities@;
            let e2 = self.sched.entities@;
            let k = choose|k: int|
                0 <= k < e1.len() && (#[trigger] e1[k]).id == c && e2 =~= e1.remove(k);
            assert forall|kk: int| 0 <= kk < e2.len() implies (#[trigger] e2[kk]).id != c by {
                if kk < k {
                    assert(e2[kk] == e1[kk]);
                } else {
                    assert(e2[kk] == e1[kk + 1]);
                }
            }
            assert forall|id: usize|
                id != c && old(self).sched.contains_id(id) implies self.sched.contains_id(
                id,
            ) by {
                let j = choose|j: int| 0 <= j < e1.len() && (#[trigger] e1[j]).id == id;
                if j < k {
                    assert(e2[j].id == id);
                } else {
                    assert(j > k);
                    assert(e2[j - 1].id == id);
                }
            }
            assert forall|id: usize|
                id != c && self.sched.contains_id(id) implies old(self).sched.contains_id(
                id,
            ) by {
                let j = choose|j: int| 0 <= j < e2.len() && (#[trigger] e2[j]).id == id;
                if j < k {
                    assert(e1[j].id == id);
                } else {
                    assert(e1[j + 1].id == id);
                }
            }
            assert forall|kk: int| 0 <= kk < e2.len() implies {
                let id = (#[trigger] e2[kk]).id;
                &&& (id as int) < self.threads@.len()
                &&& (self.threads@[id as int].state == ThreadState::Ready
                    || self.threads@[id as int].state == ThreadState::Running)
            } by {
                if kk < k {
                    assert(e2[kk] == e1[kk]);
                } else {
                    assert(e2[kk] == e1[kk + 1]);
                }
            }
            assert forall|t: int|
                0 <= t < self.threads@.len() && ((#[trigger] self.threads@[t]).state
                    == ThreadState::Ready || self.threads@[t].state == ThreadState::Running)
                implies exists|kk: int|
                0 <= kk < e2.len() && (#[trigger] e2[kk]).id == t by {
                assert(t != c as int);
                assert(old(self).sched.contains_id(t as usize));
                assert(self.sched.contains_id(t as usize));
            }
            assert forall|p: int| 0 <= p < self.procs@.len() implies proc_ok(
                #[trigger] self.procs@[p],
                self.threads@,
                p,
            ) by {
                lemma_proc_ok_retarget(
                    old(self).procs@[p],
                    old(self).threads@,
                    self.threads@,
                    p,
                    c as int,
                );
            }
        }
        c
    }

    /// Appends a fresh single-threaded process: its main thread is ready at
    /// `priority`, its mailbox empty, and it owns no synchronization
    /// objects yet. Returns the new pid.
    fn add_process(&mut self, parent: Option<usize>, prog: usize, priority: u64) -> (r: usize)
        requires
            old(self).wf(),
            MIN_PRIORITY <= priority,
            old(self).threads@.len() < isize::MAX,
        ensures
            final(self).wf(),
            final(self).current == old(self).current,
            final(self).time == old(self).time,
            final(self).n_programs == old(self).n_programs,
            r == old(self).procs@.len(),
            final(self).procs@.len() == old(self).procs@.len() + 1,
            forall|q: int| 0 <= q < old(self).procs@.len()
                ==> final(self).procs@[q] == old(self).procs@[q],
            final(self).threads@.len() == old(self).threads@.len() + 1,
            forall|u: int| 0 <= u < old(self).threads@.len()
                ==> final(self).threads@[u] == old(self).threads@[u],
            ({
                let g = old(self).threads@.len() as int;
                let pr = final(self).procs@[r as int];
                &&& final(self).threads@[g] == (Thread {
                    pid: r,
                    local: 0,
                    state: ThreadState::Ready,
                    exit_code: 0,
                    priority,
                    entry: 0,
                    arg: 0,
                    blocked_on: None,
                    wait_mutex: 0,
                })
                &&& pr.parent == parent
                &&& pr.state == ProcState::Live
                &&& pr.prog == prog
                &&& pr.threads@ =~= seq![g as usize]
                &&& pr.mailbox@ =~= Seq::<Seq<u8>>::empty()
                &&& pr.mutexes@.len() == 0
                &&& pr.semaphores@.len() == 0
                &&& pr.condvars@.len() == 0
                &&& pr.detect_enabled == false
                &&& sched_inserted(
                    old(self).sched,
                    final(self).sched,
                    g as usize,
                    priority,
                )
            }),
    {
        let pid = self.procs.len();
        let g = self.threads.len();
        let th = Thread {
            pid,
            local: 0,
            state: ThreadState::Ready,
            exit_code: 0,
            priority,
            entry: 0,
            arg: 0,
            blocked_on: None,
            wait_mutex: 0,
        };
        self.threads.push(th);
        let mut tids: Vec<usize> = Vec::new();
        tids.push(g);
        let mut detect = DetectState::new();
        detect.add_thread();
        let pr = Process {
            parent,
            state: ProcState::Live,
            exit_code: 0,
            prog,
            threads: tids,
            mailbox: Mailbox::new(),
            mutexes: Vec::new(),
            semaphores: Vec::new(),
            condvars: Vec::new(),
            mutex_res: Vec::new(),
            sem_res: Vec::new(),
            detect,
            detect_enabled: false,
        };
        self.procs.push(pr);
        proof {
            if self.sched.contains_id(g) {
                let k = choose|k: int|
                    0 <= k < self.sched.entities@.len() && self.sched.entities@[k].id == g;
                assert(old(self).sched.entities@[k].id == g);
                assert(false);
            }
        }
        self.sched.insert(g, priority);
        proof {
            assert forall|q: int| 0 <= q < self.procs@.len() implies proc_ok(
                #[trigger] self.procs@[q],
                self.threads@,
                q,
            ) by {
                if q < old(self).procs@.len() {
                    lemma_proc_ok_extend(self.procs@[q], old(self).threads@, self.threads@, q);
                }
            }
        }
        pid
    }

    /// Loads program image `prog` as a new child process of the caller and
    /// returns its pid; `INVALID` when no such image exists.
    pub fn spawn(&mut self, prog: usize) -> (r: isize)
        requires
            old(self).wf(),
            old(self).current is Some,
            old(self).procs@.len() <= isize::MAX,
            old(self).threads@.len() < isize::MAX,
        ensures
            final(self).wf(),
            final(self).current == old(self).current,
            final(self).time == old(self).time,
            prog >= old(self).n_programs ==> r == INVALID && final(self).procs@ == old(
                self,
            ).procs@ && final(self).threads@ == old(self).threads@,
            prog < old(self).n_programs ==> {
                &&& r == old(self).procs@.len()
                &&& final(self).procs@.len() == old(self).procs@.len() + 1
                &&& forall|q: int| 0 <= q < old(self).procs@.len()
                    ==> final(self).procs@[q] == old(self).procs@[q]
                &&& final(self).procs@[r as int].parent == Some(
                    old(self).threads@[old(self).cur_tid()].pid,
                )
                &&& final(self).procs@[r as int].state == ProcState::Live
                &&& final(self).procs@[r as int].prog == prog
                &&& final(self).procs@[r as int].mailbox@ =~= Seq::<Seq<u8>>::empty()
                &&& final(self).threads@.len() == old(self).threads@.len() + 1
                &&& forall|u: int| 0 <= u < old(self).threads@.len()
                    ==> final(self).threads@[u] == old(self).threads@[u]
                &&& final(self).threads@.last().state == ThreadState::Ready
                &&& final(self).threads@.last().pid == r
            },
    {
        if prog >= self.n_programs {
            return INVALID;
        }
        let c = self.current.unwrap();
        let p = self.threads[c].pid;
        let pid = self.add_process(Some(p), prog, DEFAULT_PRIORITY);
        pid as isize
    }

    /// Duplicates the calling process: the child is a new single-threaded
    /// process with the same image, an empty mailbox and the caller's
    /// priority; the caller learns the child's pid (the child itself would
    /// observe zero). Returns the child pid.
    pub fn fork(&mut self) -> (r: isize)
        requires
            old(self).wf(),
            old(self).current is Some,
            old(self).procs@.len() <= isize::MAX,
            old(self).threads@.len() < isize::MAX,
        ensures
            final(self).wf(),
            final(self).current == old(self).current,
            final(self).time == old(self).time,
            r == old(self).procs@.len(),
            final(self).procs@.len() == old(self).procs@.len() + 1,
            forall|q: int| 0 <= q < old(self).procs@.len()
                ==> final(self).procs@[q] == old(self).procs@[q],
            final(self).procs@[r as int].parent == Some(
                old(self).threads@[old(self).cur_tid()].pid,
            ),
            final(self).procs@[r as int].state == ProcState::Live,
            final(self).procs@[r as int].prog == old(self).procs@[old(self).cur_pid()].prog,
            final(self).procs@[r as int].mailbox@ =~= Seq::<Seq<u8>>::empty(),
            final(self).threads@.len() == old(self).threads@.len() + 1,
            forall|u: int| 0 <= u < old(self).threads@.len()
                ==> final(self).threads@[u] == old(self).threads@[u],
            final(self).threads@.last().state == ThreadState::Ready,
            final(self).threads@.last().pid == r,
            final(self).threads@.last().priority == old(self).threads@[old(
                self,
            ).cur_tid()].priority,
    {
        let c = self.current.unwrap();
        let p = self.threads[c].pid;
        let prog = self.procs[p].prog;
        let prio = self.threads[c].priority;
        let pid = self.add_process(Some(p), prog, prio);
        pid as isize
    }

    /// The running thread exits with `code` and becomes a zombie. When it
    /// is its process's main thread, the whole process exits: the process
    /// turns zombie holding `code` for its parent to reap, its mailbox and
    /// synchronization objects are torn down, and its remaining threads are
    /// ended (already-reaped ones stay reaped).
    #[verifier::rlimit(100)]
    pub fn exit(&mut self, code: i32)
        requires
            old(self).wf(),
            old(self).current is Some,
        ensures
            final(self).wf(),
            final(self).current is None,
            final(self).time == old(self).time,
            final(self).procs@.len() == old(self).procs@.len(),
            final(self).threads@.len() == old(self).threads@.len(),
            ({
                let c = old(self).cur_tid();
                let p = old(self).cur_pid();
                &&& final(self).threads@[c].state == ThreadState::Zombie
                &&& final(self).threads@[c].exit_code == code
                &&& final(self).threads@[c].pid == old(self).threads@[c].pid
                &&& final(self).threads@[c].local == old(self).threads@[c].local
                &&& old(self).threads@[c].local != 0 ==> {
                    &&& final(self).procs@ == old(self).procs@
                    &&& forall|u: int| 0 <= u < old(self).threads@.len() && u != c
                        ==> final(self).threads@[u] == old(self).threads@[u]
                }
                &&& old(self).threads@[c].local == 0 ==> {
                    &&& forall|q: int| 0 <= q < old(self).procs@.len() && q != p
                        ==> final(self).procs@[q] == old(self).procs@[q]
                    &&& final(self).procs@[p].state == ProcState::Zombie
                    &&& final(self).procs@[p].exit_code == code
                    &&& final(self).procs@[p].parent == old(self).procs@[p].parent
                    &&& final(self).procs@[p].threads@ == old(self).procs@[p].threads@
                    &&& final(self).procs@[p].mutexes@.len() == 0
                    &&& final(self).procs@[p].semaphores@.len() == 0
                    &&& final(self).procs@[p].condvars@.len() == 0
                    &&& final(self).procs@[p].mailbox@ =~= Seq::<Seq<u8>>::empty()
                    &&& forall|u: int|
                        0 <= u < old(self).threads@.len() && old(self).threads@[u].pid != p
                            ==> final(self).threads@[u] == old(self).threads@[u]
                    &&& forall|u: int|
                        0 <= u < old(self).threads@.len() && old(self).threads@[u].pid == p
                            && u != c ==> final(self).threads@[u] == (Thread {
                            state: if old(self).threads@[u].state == ThreadState::Reaped {
                                ThreadState::Reaped
                            } else {
                                ThreadState::Zombie
                            },
                            blocked_on: None,
                            ..old(self).threads@[u]
                        })
                }
            }),
    {
        let c = self.deschedule_current(ThreadState::Zombie, None, code);
        let p = self.threads[c].pid;
        if self.threads[c].local != 0 {
            return;
        }
        self.procs[p].state = ProcState::Zombie;
        self.procs[p].exit_code = code;
        self.procs[p].mutexes = Vec::new();
        self.procs[p].semaphores = Vec::new();
        self.procs[p].condvars = Vec::new();
        self.procs[p].mutex_res = Vec::new();
        self.procs[p].sem_res = Vec::new();
        self.procs[p].mailbox = Mailbox::new();
        let n = self.procs[p].threads.len();
        let mut d = DetectState::new();
        let mut i: usize = 0;
        while i < n
            invariant
                i <= n,
                d.wf(),
                d.nt() == i,
                d.nr() == 0,
            decreases n - i,
        {
            d.add_thread();
            i = i + 1;
        }
        self.procs[p].detect = d;
        let ghost mid = *self;
        proof {
            assert forall|q: int| 0 <= q < self.procs@.len() implies proc_ok(
                #[trigger] self.procs@[q],
                self.threads@,
                q,
            ) by {
                if q != p as int {
                    assert(self.procs@[q] == old(self).procs@[q]);
                    lemma_proc_ok_retarget(
                        old(self).procs@[q],
                        old(self).threads@,
                        self.threads@,
                        q,
                        c as int,
                    );
                }
            }
        }
        let mut j: usize = 1;
        while j < n
            invariant
                1 <= j <= n,
                self.wf(),
                self.current is None,
                n == self.procs@[p as int].threads@.len(),
                (p as int) < self.procs@.len(),
                (c as int) < self.threads@.len(),
                self.threads@[c as int].pid == p,
                self.threads@[c as int].local == 0,
                self.procs@[p as int].threads@[0] == c,
                self.procs@ == mid.procs@,
                self.time == mid.time,
                mid.procs@[p as int].mutexes@.len() == 0,
                mid.procs@[p as int].semaphores@.len() == 0,
                mid.procs@[p as int].condvars@.len() == 0,
                self.threads@.len() == mid.threads@.len(),
                self.threads@[c as int] == mid.threads@[c as int],
                forall|u: int|
                    0 <= u < self.threads@.len() && self.threads@[u].pid != p
                        ==> #[trigger] self.threads@[u] == mid.threads@[u],
                forall|i2: int| j <= i2 < n
                    ==> self.threads@[#[trigger] self.procs@[p as int].threads@[i2] as int]
                        == mid.threads@[self.procs@[p as int].threads@[i2] as int],
                forall|i2: int| 1 <= i2 < j ==> {
                    let g = #[trigger] self.procs@[p as int].threads@[i2] as int;
                    self.threads@[g] == (Thread {
                        state: if mid.threads@[g].state == ThreadState::Reaped {
                            ThreadState::Reaped
                        } else {
                            ThreadState::Zombie
                        },
                        blocked_on: None,
                        ..mid.threads@[g]
                    })
                },
            decreases n - j,
        {
            let g = self.procs[p].threads[j];
            proof {
                assert(self.threads@[g as int].pid == p);
                assert(g != c);
            }
            self.end_thread(g);
            j = j + 1;
        }
    }

    /// Ends one thread of a process in teardown (its synchronization
    /// objects already cleared): a reaped thread stays reaped, any other
    /// leaves the ready queue and becomes a zombie.
    fn end_thread(&mut self, g: usize)
        requires
            old(self).wf(),
            old(self).current is None,
            (g as int) < old(self).threads@.len(),
            old(self).procs@[old(self).threads@[g as int].pid as int].mutexes@.len() == 0,
            old(self).procs@[old(self).threads@[g as int].pid as int].semaphores@.len() == 0,
            old(self).procs@[old(self).threads@[g as int].pid as int].condvars@.len() == 0,
        ensures
            final(self).wf(),
            final(self).current is None,
            final(self).procs@ == old(self).procs@,
            final(self).time == old(self).time,
            final(self).threads@.len() == old(self).threads@.len(),
            forall|u: int| 0 <= u < old(self).threads@.len() && u != g
                ==> final(self).threads@[u] == old(self).threads@[u],
            final(self).threads@[g as int] == (Thread {
                state: if old(self).threads@[g as int].state == ThreadState::Reaped {
                    ThreadState::Reaped
                } else {
                    ThreadState::Zombie
                },
                blocked_on: None,
                ..old(self).threads@[g as int]
            }),
    {
        let reaped = match self.threads[g].state {
            ThreadState::Reaped => true,
            _ => false,
        };
        if reaped {
            proof {
                assert(self.threads@ =~= old(self).threads@.update(
                    g as int,
                    Thread {
                        state: ThreadState::Reaped,
                        blocked_on: old(self).threads@[g as int].blocked_on,
                        ..old(self).threads@[g as int]
                    },
                ));
                if old(self).threads@[g as int].blocked_on is Some {
                    assert(self.threads@ == old(self).threads@);
                }
            }
            if self.threads[g].blocked_on.is_some() {
                let th = Thread { blocked_on: None, ..self.threads[g] };
                self.threads[g] = th;
                proof {
                    assert forall|q: int| 0 <= q < self.procs@.len() implies proc_ok(
                        #[trigger] self.procs@[q],
                        self.threads@,
                        q,
                    ) by {
                        lemma_proc_ok_retarget(
                            old(self).procs@[q],
                            old(self).threads@,
                            self.threads@,
                            q,
                            g as int,
                        );
                    }
                }
            }
            return;
        }
        let p = self.threads[g].pid;
        let ready = match self.threads[g].state {
            ThreadState::Ready => true,
            _ => false,
        };
        if ready {
            proof {
                assert(self.sched.contains_id(g));
            }
            self.sched.remove(g);
        }
        let th = Thread {
            state: ThreadState::Zombie,
            blocked_on: None,
            ..self.threads[g]
        };
        self.threads[g] = th;
        proof {
            let e1 = old(self).sched.entities@;
            let e2 = self.sched.entities@;
            if ready {
                let k = choose|k: int|
                    0 <= k < e1.len() && (#[trigger] e1[k]).id == g && e2 =~= e1.remove(k);
                assert forall|kk: int| 0 <= kk < e2.len() implies {
                    let id = (#[trigger] e2[kk]).id;
                    &&& (id as int) < self.threads@.len()
                    &&& (self.threads@[id as int].state == ThreadState::Ready
                        || self.threads@[id as int].state == ThreadState::Running)
                } by {
                    if kk < k {
                        assert(e2[kk] == e1[kk]);
                    } else {
                        assert(e2[kk] == e1[kk + 1]);
                    }
                }
                assert forall|t: int|
                    0 <= t < self.threads@.len() && ((#[trigger] self.threads@[t]).state
                        == ThreadState::Ready || self.threads@[t].state == ThreadState::Running)
                    implies exists|kk: int|
                    0 <= kk < e2.len() && (#[trigger] e2[kk]).id == t by {
                    assert(t != g as int);
                    assert(old(self).sched.contains_id(t as usize));
                    let jj = choose|jj: int| 0 <= jj < e1.len() && (#[trigger] e1[jj]).id == t;
                    if jj < k {
                        assert(e2[jj].id == t);
                    } else {
                        assert(jj > k);
                        assert(e2[jj - 1].id == t);
                    }
                }
            } else {
                assert forall|t: int|
                    0 <= t < self.threads@.len() && ((#[trigger] self.threads@[t]).state
                        == ThreadState::Ready || self.threads@[t].state == ThreadState::Running)
                    implies exists|kk: int|
                    0 <= kk < e2.len() && (#[trigger] e2[kk]).id == t by {
                    assert(t != g as int);
                    assert(old(self).sched.contains_id(t as usize));
                }
            }
            assert forall|q: int| 0 <= q < self.procs@.len() implies proc_ok(
                #[trigger] self.procs@[q],
                self.threads@,
                q,
            ) by {
                if q != p as int {
                    lemma_proc_ok_retarget_foreign(
                        self.procs@[q],
                        old(self).threads@,
                        self.threads@,
                        q,
                        g as int,
                    );
                } else {
                    assert(self.procs@[q].mutexes@.len() == 0);
                    assert(self.procs@[q].semaphores@.len() == 0);
                    assert(self.procs@[q].condvars@.len() == 0);
                }
            }
        }
    }

    /// Reaps an exited child process. A `pid` of `-1` stands for any
    /// child. Returns the reaped child's pid after copying its exit code
    /// into `status`; `INVALID` when the caller has no matching child, and
    /// `AGAIN` while every matching child is still running. As in the raw
    /// syscall, the blocking wait is the caller's retry-on-`AGAIN` loop
    /// around this one-step probe.
    pub fn waitpid(&mut self, pid: isize, status: &mut i32) -> (r: isize)
        requires
            old(self).wf(),
            old(self).current is Some,
            old(self).procs@.len() <= isize::MAX,
        ensures
            final(self).wf(),
            final(self).current == old(self).current,
            final(self).threads@ == old(self).threads@,
            final(self).time == old(self).time,
            final(self).procs@.len() == old(self).procs@.len(),
            r == INVALID || r == AGAIN ==> final(self).procs@ == old(self).procs@
                && *final(status) == *old(status),
            r >= 0 ==> {
                &&& old(self).procs@[r as int].parent == Some(
                    old(self).threads@[old(self).cur_tid()].pid,
                )
                &&& old(self).procs@[r as int].state == ProcState::Zombie
                &&& *final(status) == old(self).procs@[r as int].exit_code
                &&& final(self).procs@ == old(self).procs@.update(
                    r as int,
                    Process { state: ProcState::Reaped, ..old(self).procs@[r as int] },
                )
                &&& (pid >= 0 ==> r == pid)
            },
            pid >= 0 ==> {
                let me = old(self).threads@[old(self).cur_tid()].pid;
                &&& (pid >= old(self).procs@.len() || old(self).procs@[pid as int].parent
                    != Some(me) || old(self).procs@[pid as int].state == ProcState::Reaped)
                    ==> r == INVALID
                &&& (pid < old(self).procs@.len() && old(self).procs@[pid as int].parent
                    == Some(me) && old(self).procs@[pid as int].state == ProcState::Zombie)
                    ==> r == pid
                &&& (pid < old(self).procs@.len() && old(self).procs@[pid as int].parent
                    == Some(me) && old(self).procs@[pid as int].state == ProcState::Live)
                    ==> r == AGAIN
            },
            pid == -1 ==> ({
                let me = old(self).threads@[old(self).cur_tid()].pid;
                let has_zombie = exists|q: int|
                    0 <= q < old(self).procs@.len() && (#[trigger] old(self).procs@[q]).parent
                        == Some(me) && old(self).procs@[q].state == ProcState::Zombie;
                let has_live = exists|q: int|
                    0 <= q < old(self).procs@.len() && (#[trigger] old(self).procs@[q]).parent
                        == Some(me) && old(self).procs@[q].state == ProcState::Live;
                &&& has_zombie ==> {
                    &&& r >= 0
                    &&& old(self).procs@[r as int].parent == Some(me)
                    &&& old(self).procs@[r as int].state == ProcState::Zombie
                    &&& forall|q: int|
                        0 <= q < r && (#[trigger] old(self).procs@[q]).parent == Some(me)
                            ==> old(self).procs@[q].state != ProcState::Zombie
                }
                &&& (!has_zombie && has_live) ==> r == AGAIN
                &&& (!has_zombie && !has_live) ==> r == INVALID
            }),
            pid < -1 ==> r == INVALID,
    {
        let c = self.current.unwrap();
        let me = self.threads[c].pid;
        if pid >= 0 {
            let q = pid as usize;
            if q >= self.procs.len() {
                return INVALID;
            }
            let is_child = match self.procs[q].parent {
                Some(par) => par == me,
                None => false,
            };
            if !is_child {
                return INVALID;
            }
            match self.procs[q].state {
                ProcState::Zombie => {
                    *status = self.procs[q].exit_code;
                    self.procs[q].state = ProcState::Reaped;
                    proof {
                        assert forall|qq: int| 0 <= qq < self.procs@.len() implies proc_ok(
                            #[trigger] self.procs@[qq],
                            self.threads@,
                            qq,
                        ) by {
                            if qq == q as int {
                                let pr0 = old(self).procs@[qq];
                                let pr1 = self.procs@[qq];
                                assert(pr1.mutexes@ == pr0.mutexes@);
                                assert(pr1.semaphores@ == pr0.semaphores@);
                                assert(pr1.condvars@ == pr0.condvars@);
                                assert(pr1.detect == pr0.detect);
                            }
                        }
                    }
                    pid
                },
                ProcState::Reaped => INVALID,
                ProcState::Live => AGAIN,
            }
        } else if pid == -1 {
            let mut q: usize = 0;
            let mut found: Option<usize> = None;
            let mut has_child = false;
            while q < self.procs.len() && found.is_none()
                invariant
                    self.wf(),
                    *self == *old(self),
                    q <= self.procs@.len(),
                    me == old(self).threads@[old(self).cur_tid()].pid,
                    has_child <==> exists|q2: int|
                        0 <= q2 < q && (#[trigger] self.procs@[q2]).parent == Some(me)
                            && self.procs@[q2].state == ProcState::Live,
                    match found {
                        Some(f) => {
                            &&& (f as int) < self.procs@.len()
                            &&& f == q
                            &&& self.procs@[f as int].parent == Some(me)
                            &&& self.procs@[f as int].state == ProcState::Zombie
                            &&& forall|q2: int|
                                0 <= q2 < f && (#[trigger] self.procs@[q2]).parent == Some(me)
                                    ==> self.procs@[q2].state != ProcState::Zombie
                        },
                        None => forall|q2: int|
                            0 <= q2 < q && (#[trigger] self.procs@[q2]).parent == Some(me)
                                ==> self.procs@[q2].state != ProcState::Zombie,
                    },
                decreases self.procs@.len() - q + (if found is None { 1int } else { 0int }),
            {
                let is_child = match self.procs[q].parent {
                    Some(par) => par == me,
                    None => false,
                };
                if is_child {
                    match self.procs[q].state {
                        ProcState::Zombie => {
                            found = Some(q);
                        },
                        ProcState::Live => {
                            has_child = true;
                        },
                        ProcState::Reaped => {},
                    }
                }
                if found.is_none() {
                    q = q + 1;
                }
            }
            match found {
                Some(f) => {
                    *status = self.procs[f].exit_code;
                    self.procs[f].state = ProcState::Reaped;
                    proof {
                        assert forall|qq: int| 0 <= qq < self.procs@.len() implies proc_ok(
                            #[trigger] self.procs@[qq],
                            self.threads@,
                            qq,
                        ) by {
                            if qq == f as int {
                                let pr0 = old(self).procs@[qq];
                                let pr1 = self.procs@[qq];
                                assert(pr1.mutexes@ == pr0.mutexes@);
                                assert(pr1.semaphores@ == pr0.semaphores@);
                                assert(pr1.condvars@ == pr0.condvars@);
                                assert(pr1.detect == pr0.detect);
                            }
                        }
                    }
                    f as isize
                },
                None => {
                    if has_child {
                        AGAIN
                    } else {
                        INVALID
                    }
                },
            }
        } else {
            INVALID
        }
    }
}

/// Like `lemma_proc_ok_retarget`, for a thread that belongs to another
/// process and so sits in none of this one's queues and owns none of its
/// mutexes' identity facts beyond its unchanged pid.
pub proof fn lemma_proc_ok_retarget_foreign(
    pr: Process,
    t1: Seq<Thread>,
    t2: Seq<Thread>,
    p: int,
    t: int,
)
    requires
        proc_ok(pr, t1, p),
        t1.len() == t2.len(),
        0 <= t < t1.len(),
        forall|u: int| 0 <= u < t1.len() && u != t ==> t2[u] == t1[u],
        t2[t].pid == t1[t].pid,
        t2[t].local == t1[t].local,
        t1[t].pid != p,
    ensures
        proc_ok(pr, t2, p),
{
    assert forall|m: int, i: int|
        0 <= m < pr.mutexes@.len() && 0 <= i < (#[trigger] pr.mutexes@[m]).waiters@.len()
            implies member_blocked(t2, p, #[trigger] pr.mutexes@[m].waiters@[i],
        WaitSlot::OnMutex(p as usize, m as usize)) by {
        let w = pr.mutexes@[m].waiters@[i];
        assert(member_blocked(t1, p, w, WaitSlot::OnMutex(p as usize, m as usize)));
        assert(w != t);
    }
    assert forall|s: int, i: int|
        0 <= s < pr.semaphores@.len() && 0 <= i < (#[trigger] pr.semaphores@[s]).waiters@.len()
            implies member_blocked(t2, p, #[trigger] pr.semaphores@[s].waiters@[i],
        WaitSlot::OnSem(p as usize, s as usize)) by {
        let w = pr.semaphores@[s].waiters@[i];
        assert(member_blocked(t1, p, w, WaitSlot::OnSem(p as usize, s as usize)));
        assert(w != t);
    }
    assert forall|c: int, i: int|
        0 <= c < pr.condvars@.len() && 0 <= i < (#[trigger] pr.condvars@[c]).waiters@.len()
            implies member_blocked(t2, p, #[trigger] pr.condvars@[c].waiters@[i],
        WaitSlot::OnCondvar(p as usize, c as usize)) by {
        let w = pr.condvars@[c].waiters@[i];
        assert(member_blocked(t1, p, w, WaitSlot::OnCondvar(p as usize, c as usize)));
        assert(w != t);
    }
    assert forall|m: int| 0 <= m < pr.mutexes@.len() implies match (
    #[trigger] pr.mutexes@[m]).owner {
        Some(o) => {
            &&& (o as int) < t2.len()
            &&& t2[o as int].pid == p
            &&& pr.detect.available@[pr.mutex_res@[m] as int] == 0
            &&& forall|l: int|
                0 <= l < pr.detect.nt()
                    ==> #[trigger] pr.detect.alloc_m()[l][pr.mutex_res@[m] as int] == (
                    if l == t2[o as int].local { 1int } else { 0int })
        },
        None => {
            &&& pr.detect.available@[pr.mutex_res@[m] as int] == 1
            &&& forall|l: int|
                0 <= l < pr.detect.nt()
                    ==> #[trigger] pr.detect.alloc_m()[l][pr.mutex_res@[m] as int] == 0
        },
    } by {
        match pr.mutexes@[m].owner {
            Some(o) => {
                assert(t2[o as int].local == t1[o as int].local);
            },
            None => {},
        }
    }
}


/// Result of a `mutex_lock` attempt.
#[derive(Clone, Copy, PartialEq, Eq, Structural, Debug)]
pub enum LockResult {
    Acquired,
    SpinRetry,
    Waiting,
    Refused,
    NoSuchId,
}

/// Result of a `mutex_unlock`.
#[derive(Clone, Copy, PartialEq, Eq, Structural, Debug)]
pub enum UnlockResult {
    Released,
    Handed(usize),
    NotOwner,
    NoSuchId,
}

impl LockResult {
    /// The raw syscall code: 0 once the lock is (or will be) held,
    /// `DEADLOCK_ERR` for a refusal, `INVALID` for a bad id, `AGAIN` for a
    /// spin retry.
    pub fn code(self) -> (r: isize)
        ensures
            self == LockResult::Acquired || self == LockResult::Waiting ==> r == 0,
            self == LockResult::Refused ==> r == DEADLOCK_ERR,
            self == LockResult::NoSuchId ==> r == INVALID,
            self == LockResult::SpinRetry ==> r == AGAIN,
    {
        match self {
            LockResult::Acquired => 0,
            LockResult::Waiting => 0,
            LockResult::Refused => DEADLOCK_ERR,
            LockResult::NoSuchId => INVALID,
            LockResult::SpinRetry => AGAIN,
        }
    }
}

/// Like `lemma_proc_ok_retarget`, with the non-membership of the changed
/// thread given directly (as after popping it from the one queue it sat
/// in).
pub proof fn lemma_proc_ok_retarget_nonmember(
    pr: Process,
    t1: Seq<Thread>,
    t2: Seq<Thread>,
    p: int,
    t: int,
)
    requires
        proc_ok(pr, t1, p),
        t1.len() == t2.len(),
        0 <= t < t1.len(),
        forall|u: int| 0 <= u < t1.len() && u != t ==> t2[u] == t1[u],
        t2[t].pid == t1[t].pid,
        t2[t].local == t1[t].local,
        forall|m: int, i: int|
            0 <= m < pr.mutexes@.len() && 0 <= i < pr.mutexes@[m].waiters@.len()
                ==> #[trigger] pr.mutexes@[m].waiters@[i] != t,
        forall|s: int, i: int|
            0 <= s < pr.semaphores@.len() && 0 <= i < pr.semaphores@[s].waiters@.len()
                ==> #[trigger] pr.semaphores@[s].waiters@[i] != t,
        forall|c: int, i: int|
            0 <= c < pr.condvars@.len() && 0 <= i < pr.condvars@[c].waiters@.len()
                ==> #[trigger] pr.condvars@[c].waiters@[i] != t,
    ensures
        proc_ok(pr, t2, p),
{
    assert forall|m: int, i: int|
        0 <= m < pr.mutexes@.len() && 0 <= i < (#[trigger] pr.mutexes@[m]).waiters@.len()
            implies member_blocked(t2, p, #[trigger] pr.mutexes@[m].waiters@[i],
        WaitSlot::OnMutex(p as usize, m as usize)) by {
        let w = pr.mutexes@[m].waiters@[i];
        assert(member_blocked(t1, p, w, WaitSlot::OnMutex(p as usize, m as usize)));
    }
    assert forall|s: int, i: int|
        0 <= s < pr.semaphores@.len() && 0 <= i < (#[trigger] pr.semaphores@[s]).waiters@.len()
            implies member_blocked(t2, p, #[trigger] pr.semaphores@[s].waiters@[i],
        WaitSlot::OnSem(p as usize, s as usize)) by {
        let w = pr.semaphores@[s].waiters@[i];
        assert(member_blocked(t1, p, w, WaitSlot::OnSem(p as usize, s as usize)));
    }
    assert forall|c: int, i: int|
        0 <= c < pr.condvars@.len() && 0 <= i < (#[trigger] pr.condvars@[c]).waiters@.len()
            implies member_blocked(t2, p, #[trigger] pr.condvars@[c].waiters@[i],
        WaitSlot::OnCondvar(p as usize, c as usize)) && (t2[pr.condvars@[c].waiters@[i] as int]
        .wait_mutex as int) < pr.mutexes@.len() by {
        let w = pr.condvars@[c].waiters@[i];
        assert(member_blocked(t1, p, w, WaitSlot::OnCondvar(p as usize, c as usize)));
    }
    assert forall|m: int| 0 <= m < pr.mutexes@.len() implies match (
    #[trigger] pr.mutexes@[m]).owner {
        Some(o) => {
            &&& (o as int) < t2.len()
            &&& t2[o as int].pid == p
            &&& pr.detect.available@[pr.mutex_res@[m] as int] == 0
            &&& forall|l: int|
                0 <= l < pr.detect.nt()
                    ==> #[trigger] pr.detect.alloc_m()[l][pr.mutex_res@[m] as int] == (
                    if l == t2[o as int].local { 1int } else { 0int })
        },
        None => {
            &&& pr.detect.available@[pr.mutex_res@[m] as int] == 1
            &&& forall|l: int|
                0 <= l < pr.detect.nt()
                    ==> #[trigger] pr.detect.alloc_m()[l][pr.mutex_res@[m] as int] == 0
        },
    } by {
        match pr.mutexes@[m].owner {
            Some(o) => {
                assert(t2[o as int].local == t1[o as int].local);
            },
            None => {},
        }
    }
}

/// Full effect of creating a mutex of the given kind: a fresh object with
/// the next id, a fresh unit-capacity detector column mirroring it, and
/// everything else — other processes, threads, scheduler, clock, the
/// process's other objects, mailbox, detection flag — unchanged.
pub open spec fn mutex_created(k0: Kernel, k1: Kernel, kind: MutexKind, r: isize) -> bool {
    let p = k0.cur_pid();
    let pr0 = k0.procs@[p];
    let pr1 = k1.procs@[p];
    &&& k1.threads@ == k0.threads@
    &&& k1.sched.entities@ == k0.sched.entities@
    &&& k1.current == k0.current
    &&& k1.time == k0.time
    &&& k1.n_programs == k0.n_programs
    &&& k1.procs@.len() == k0.procs@.len()
    &&& forall|q: int| 0 <= q < k0.procs@.len() && q != p ==> k1.procs@[q] == k0.procs@[q]
    &&& pr0.mutexes@.len() > isize::MAX ==> r == INVALID && k1.procs@ == k0.procs@
    &&& pr0.mutexes@.len() <= isize::MAX ==> {
        &&& r == pr0.mutexes@.len()
        &&& pr1.mutexes@.len() == pr0.mutexes@.len() + 1
        &&& forall|m: int| 0 <= m < pr0.mutexes@.len() ==> pr1.mutexes@[m] == pr0.mutexes@[m]
        &&& pr1.mutexes@.last().kind == kind
        &&& pr1.mutexes@.last().owner is None
        &&& pr1.mutexes@.last().waiters@.len() == 0
        &&& pr1.mutex_res@ == pr0.mutex_res@.push((pr0.detect.nr()) as usize)
        &&& pr1.sem_res@ == pr0.sem_res@
        &&& pr1.semaphores@ == pr0.semaphores@
        &&& pr1.condvars@ == pr0.condvars@
        &&& pr1.mailbox == pr0.mailbox
        &&& pr1.state == pr0.state
        &&& pr1.parent == pr0.parent
        &&& pr1.threads@ == pr0.threads@
        &&& pr1.detect_enabled == pr0.detect_enabled
        &&& pr1.detect.nr() == pr0.detect.nr() + 1
        &&& pr1.detect.nt() == pr0.detect.nt()
        &&& pr1.detect.available@ == pr0.detect.available@.push(1u64)
        &&& forall|t: int, rr: int|
            0 <= t < pr0.detect.nt() && 0 <= rr < pr0.detect.nr()
                ==> pr1.detect.alloc_m()[t][rr] == pr0.detect.alloc_m()[t][rr]
                    && pr1.detect.req_m()[t][rr] == pr0.detect.req_m()[t][rr]
        &&& forall|t: int| 0 <= t < pr0.detect.nt()
            ==> pr1.detect.alloc_m()[t][pr0.detect.nr()] == 0
                && pr1.detect.req_m()[t][pr0.detect.nr()] == 0
    }
}

impl Kernel {
    /// Moves a blocked thread that no longer sits in any wait queue back
    /// into the ready queue.
    fn wake_thread(&mut self, w: usize)
        requires
            old(self).wf(),
            (w as int) < old(self).threads@.len(),
            old(self).threads@[w as int].state == ThreadState::Blocked,
            not_member(old(self).procs@, w as int),
        ensures
            final(self).wf(),
            final(self).current == old(self).current,
            final(self).procs@ == old(self).procs@,
            final(self).time == old(self).time,
            final(self).threads@ == old(self).threads@.update(
                w as int,
                Thread {
                    state: ThreadState::Ready,
                    blocked_on: None,
                    ..old(self).threads@[w as int]
                },
            ),
            final(self).sched.contains_id(w),
            sched_inserted(
                old(self).sched,
                final(self).sched,
                w,
                old(self).threads@[w as int].priority,
            ),
            forall|id: usize| id != w
                ==> final(self).sched.contains_id(id) == old(self).sched.contains_id(id),
    {
        proof {
            if self.sched.contains_id(w) {
                let k = choose|k: int|
                    0 <= k < self.sched.entities@.len() && self.sched.entities@[k].id == w;
                assert(false);
            }
        }
        let prio = self.threads[w].priority;
        self.sched.insert(w, prio);
        let th = Thread {
            state: ThreadState::Ready,
            blocked_on: None,
            ..self.threads[w]
        };
        self.threads[w] = th;
        proof {
            let e1 = old(self).sched.entities@;
            let e2 = self.sched.entities@;
            assert(e2.len() == e1.len() + 1);
            assert(e2[e1.len() as int].id == w);
            assert forall|id: usize| id != w && old(self).sched.contains_id(id)
                implies self.sched.contains_id(id) by {
                let j = choose|j: int| 0 <= j < e1.len() && (#[trigger] e1[j]).id == id;
                assert(e2[j].id == id);
            }
            assert forall|id: usize| id != w && self.sched.contains_id(id)
                implies old(self).sched.contains_id(id) by {
                let j = choose|j: int| 0 <= j < e2.len() && (#[trigger] e2[j]).id == id;
                assert(j < e1.len());
                assert(e1[j].id == id);
            }
            assert forall|kk: int| 0 <= kk < e2.len() implies {
                let id = (#[trigger] e2[kk]).id;
                &&& (id as int) < self.threads@.len()
                &&& (self.threads@[id as int].state == ThreadState::Ready
                    || self.threads@[id as int].state == ThreadState::Running)
            } by {
                if kk < e1.len() {
                    assert(e2[kk] == e1[kk]);
                }
            }
            assert forall|t: int|
                0 <= t < self.threads@.len() && ((#[trigger] self.threads@[t]).state
                    == ThreadState::Ready || self.threads@[t].state == ThreadState::Running)
                implies exists|kk: int| 0 <= kk < e2.len() && (#[trigger] e2[kk]).id == t by {
                if t != w as int {
                    assert(old(self).sched.contains_id(t as usize));
                    assert(self.sched.contains_id(t as usize));
                } else {
                    assert(e2[e1.len() as int].id == w);
                }
            }
            assert forall|p: int| 0 <= p < self.procs@.len() implies proc_ok(
                #[trigger] self.procs@[p],
                self.threads@,
                p,
            ) by {
                lemma_proc_ok_retarget_nonmember(
                    old(self).procs@[p],
                    old(self).threads@,
                    self.threads@,
                    p,
                    w as int,
                );
            }
        }
    }

    /// Creates a mutex of the given kind in the calling process, giving it
    /// the next id and a fresh unit-capacity detector column.
    fn create_mutex(&mut self, kind: MutexKind) -> (r: isize)
        requires
            old(self).wf(),
            old(self).current is Some,
        ensures
            final(self).wf(),
            mutex_created(*old(self), *final(self), kind, r),
    {
        let c = self.current.unwrap();
        let p = self.threads[c].pid;
        let id = self.procs[p].mutexes.len();
        if id > isize::MAX as usize {
            return INVALID;
        }
        let col = self.procs[p].detect.n_resources();
        self.procs[p].detect.add_resource(1);
        self.procs[p].mutexes.push(Mutex::new(kind));
        self.procs[p].mutex_res.push(col);
        proof {
            assert forall|q: int| 0 <= q < self.procs@.len() implies proc_ok(
                #[trigger] self.procs@[q],
                self.threads@,
                q,
            ) by {
                if q == p as int {
                    let pr0 = old(self).procs@[q];
                    let pr1 = self.procs@[q];
                    assert(res_cols_ok(pr1));
                    assert forall|m: int| 0 <= m < pr1.mutexes@.len() implies match (
                    #[trigger] pr1.mutexes@[m]).owner {
                        Some(o) => {
                            &&& (o as int) < self.threads@.len()
                            &&& self.threads@[o as int].pid == q
                            &&& pr1.detect.available@[pr1.mutex_res@[m] as int] == 0
                            &&& forall|l: int|
                                0 <= l < pr1.detect.nt()
                                    ==> #[trigger] pr1.detect.alloc_m()[l][pr1.mutex_res@[m] as int]
                                        == (if l == self.threads@[o as int].local {
                                        1int
                                    } else {
                                        0int
                                    })
                        },
                        None => {
                            &&& pr1.detect.available@[pr1.mutex_res@[m] as int] == 1
                            &&& forall|l: int|
                                0 <= l < pr1.detect.nt()
                                    ==> #[trigger] pr1.detect.alloc_m()[l][pr1.mutex_res@[m] as int]
                                        == 0
                        },
                    } by {
                        if m < pr0.mutexes@.len() {
                            assert(pr1.mutexes@[m] == pr0.mutexes@[m]);
                            assert(pr1.mutex_res@[m] == pr0.mutex_res@[m]);
                            assert((pr1.mutex_res@[m] as int) < pr0.detect.nr());
                        }
                    }
                    assert forall|s: int| 0 <= s < pr1.semaphores@.len()
                        implies #[trigger] pr1.detect.available@[pr1.sem_res@[s] as int] == (
                        if pr1.semaphores@[s].count >= 0 {
                            pr1.semaphores@[s].count as int
                        } else {
                            0int
                        }) by {
                        assert(pr1.semaphores@[s] == pr0.semaphores@[s]);
                        assert((pr1.sem_res@[s] as int) < pr0.detect.nr());
                    }
                }
            }
        }
        id as isize
    }

    /// `mutex_create`: a new spin mutex; its id.
    pub fn mutex_create(&mut self) -> (r: isize)
        requires
            old(self).wf(),
            old(self).current is Some,
        ensures
            final(self).wf(),
            mutex_created(*old(self), *final(self), MutexKind::Spin, r),
    {
        self.create_mutex(MutexKind::Spin)
    }

    /// `mutex_blocking_create`: a new blocking mutex; its id.
    pub fn mutex_blocking_create(&mut self) -> (r: isize)
        requires
            old(self).wf(),
            old(self).current is Some,
        ensures
            final(self).wf(),
            mutex_created(*old(self), *final(self), MutexKind::Blocking, r),
    {
        self.create_mutex(MutexKind::Blocking)
    }
}



/// What `proc_ok` asks of the detector column of one mutex, as a function
/// of its owner.
pub open spec fn mutex_col_ok(pr: Process, threads: Seq<Thread>, p: int, m: int) -> bool {
    match pr.mutexes@[m].owner {
        Some(o) => {
            &&& (o as int) < threads.len()
            &&& threads[o as int].pid == p
            &&& pr.detect.available@[pr.mutex_res@[m] as int] == 0
            &&& forall|l: int|
                0 <= l < pr.detect.nt()
                    ==> #[trigger] pr.detect.alloc_m()[l][pr.mutex_res@[m] as int] == (
                    if l == threads[o as int].local { 1int } else { 0int })
        },
        None => {
            &&& pr.detect.available@[pr.mutex_res@[m] as int] == 1
            &&& forall|l: int|
                0 <= l < pr.detect.nt()
                    ==> #[trigger] pr.detect.alloc_m()[l][pr.mutex_res@[m] as int] == 0
        },
    }
}

/// `pr1` is `pr0` with only mutex `id`, and the detector entries of its
/// column, changed; the detector still well formed and request entries
/// free to move.
pub open spec fn mutex_slot_updated(pr0: Process, pr1: Process, id: int) -> bool {
    let col = pr0.mutex_res@[id] as int;
    &&& pr1.threads@ == pr0.threads@
    &&& pr1.mailbox == pr0.mailbox
    &&& pr1.semaphores@ == pr0.semaphores@
    &&& pr1.condvars@ == pr0.condvars@
    &&& pr1.mutex_res@ == pr0.mutex_res@
    &&& pr1.sem_res@ == pr0.sem_res@
    &&& pr1.mutexes@.len() == pr0.mutexes@.len()
    &&& forall|m: int| 0 <= m < pr0.mutexes@.len() && m != id
        ==> #[trigger] pr1.mutexes@[m] == pr0.mutexes@[m]
    &&& pr1.detect.wf()
    &&& pr1.detect.nt() == pr0.detect.nt()
    &&& pr1.detect.nr() == pr0.detect.nr()
    &&& forall|r: int| 0 <= r < pr0.detect.nr() && r != col
        ==> #[trigger] pr1.detect.available@[r] == pr0.detect.available@[r]
    &&& forall|l: int, r: int|
        0 <= l < pr0.detect.nt() && 0 <= r < pr0.detect.nr() && r != col
            ==> #[trigger] pr1.detect.alloc_m()[l][r] == pr0.detect.alloc_m()[l][r]
}

/// One mutex operation (acquire, release, handover) re-establishes a
/// process's facts, provided the touched mutex and its column land in the
/// shape `proc_ok` demands.
pub proof fn lemma_proc_ok_mutex_op(
    pr0: Process,
    pr1: Process,
    threads: Seq<Thread>,
    p: int,
    id: int,
)
    requires
        proc_ok(pr0, threads, p),
        0 <= id < pr0.mutexes@.len(),
        mutex_slot_updated(pr0, pr1, id),
        pr1.mutexes@[id].wf(),
        forall|i: int| 0 <= i < pr1.mutexes@[id].waiters@.len()
            ==> member_blocked(threads, p, #[trigger] pr1.mutexes@[id].waiters@[i],
                WaitSlot::OnMutex(p as usize, id as usize)),
        mutex_col_ok(pr1, threads, p, id),
    ensures
        proc_ok(pr1, threads, p),
{
    let col = pr0.mutex_res@[id] as int;
    assert(res_cols_ok(pr1));
    assert forall|m: int| 0 <= m < pr1.mutexes@.len() implies (
    #[trigger] pr1.mutexes@[m]).wf() by {
        if m != id {
            assert(pr1.mutexes@[m] == pr0.mutexes@[m]);
        }
    }
    assert forall|m: int, i: int|
        0 <= m < pr1.mutexes@.len() && 0 <= i < (#[trigger] pr1.mutexes@[m]).waiters@.len()
            implies member_blocked(threads, p, #[trigger] pr1.mutexes@[m].waiters@[i],
        WaitSlot::OnMutex(p as usize, m as usize)) by {
        if m != id {
            assert(pr1.mutexes@[m] == pr0.mutexes@[m]);
        }
    }
    assert forall|m: int| 0 <= m < pr1.mutexes@.len() implies match (
    #[trigger] pr1.mutexes@[m]).owner {
        Some(o) => {
            &&& (o as int) < threads.len()
            &&& threads[o as int].pid == p
            &&& pr1.detect.available@[pr1.mutex_res@[m] as int] == 0
            &&& forall|l: int|
                0 <= l < pr1.detect.nt()
                    ==> #[trigger] pr1.detect.alloc_m()[l][pr1.mutex_res@[m] as int] == (
                    if l == threads[o as int].local { 1int } else { 0int })
        },
        None => {
            &&& pr1.detect.available@[pr1.mutex_res@[m] as int] == 1
            &&& forall|l: int|
                0 <= l < pr1.detect.nt()
                    ==> #[trigger] pr1.detect.alloc_m()[l][pr1.mutex_res@[m] as int] == 0
        },
    } by {
        if m != id {
            assert(pr1.mutexes@[m] == pr0.mutexes@[m]);
            assert(pr1.mutex_res@[m] != pr0.mutex_res@[id]);
            assert(mutex_col_ok(pr0, threads, p, m));
        } else {
            assert(mutex_col_ok(pr1, threads, p, id));
        }
    }
    assert forall|s: int| 0 <= s < pr1.semaphores@.len()
        implies #[trigger] pr1.detect.available@[pr1.sem_res@[s] as int] == (
        if pr1.semaphores@[s].count >= 0 {
            pr1.semaphores@[s].count as int
        } else {
            0int
        }) by {
        assert(pr1.sem_res@[s] != pr0.mutex_res@[id]);
        assert(pr1.semaphores@[s] == pr0.semaphores@[s]);
    }
}

/// A change that only touches the detector's request matrix (and nothing
/// else `proc_ok` reads) is invisible to a process's facts.
pub proof fn lemma_proc_ok_req_only(pr0: Process, pr1: Process, threads: Seq<Thread>, p: int)
    requires
        proc_ok(pr0, threads, p),
        pr1.threads@ == pr0.threads@,
        pr1.mailbox == pr0.mailbox,
        pr1.mutexes@ == pr0.mutexes@,
        pr1.semaphores@ == pr0.semaphores@,
        pr1.condvars@ == pr0.condvars@,
        pr1.mutex_res@ == pr0.mutex_res@,
        pr1.sem_res@ == pr0.sem_res@,
        pr1.detect.wf(),
        pr1.detect.nt() == pr0.detect.nt(),
        pr1.detect.nr() == pr0.detect.nr(),
        pr1.detect.available@ == pr0.detect.available@,
        pr1.detect.alloc_m() == pr0.detect.alloc_m(),
    ensures
        proc_ok(pr1, threads, p),
{
    assert(res_cols_ok(pr1));
}

impl Kernel {
    /// `mutex_lock`. A free mutex is taken at once. A held spin mutex
    /// answers `SpinRetry`: the caller yields and tries again. A held
    /// blocking mutex parks the caller — unless the process has deadlock
    /// detection enabled and admitting the request would leave the system
    /// with no order in which every thread can finish, in which case the
    /// call answers `Refused` (the raw code `DEADLOCK_ERR`) and changes
    /// nothing.
    #[verifier::rlimit(100)]
    #[verifier::spinoff_prover]
    pub fn mutex_lock(&mut self, id: usize) -> (r: LockResult)
        requires
            old(self).wf(),
            old(self).current is Some,
        ensures
            final(self).wf(),
            final(self).time == old(self).time,
            ({
                let c = old(self).cur_tid();
                let p = old(self).cur_pid();
                let pr0 = old(self).procs@[p];
                let local = old(self).threads@[c].local as int;
                &&& id >= pr0.mutexes@.len() ==> r == LockResult::NoSuchId && final(self).procs@
                    == old(self).procs@ && final(self).threads@ == old(self).threads@
                    && final(self).current == old(self).current
                &&& id < pr0.mutexes@.len() ==> {
                    let mu = pr0.mutexes@[id as int];
                    let col = pr0.mutex_res@[id as int] as int;
                    let req1 = pr0.detect.req_m().update(
                        local,
                        pr0.detect.req_m()[local].update(col, 1u64),
                    );
                    &&& mu.owner is None ==> {
                        &&& r == LockResult::Acquired
                        &&& final(self).threads@ == old(self).threads@
                        &&& final(self).current == old(self).current
                        &&& final(self).procs@[p].mutexes@[id as int].owner == Some(c as usize)
                        &&& final(self).procs@[p].mutexes@[id as int].kind == mu.kind
                        &&& final(self).procs@[p].mutexes@[id as int].waiters@ == mu.waiters@
                        &&& final(self).procs@[p].mutexes@.len() == pr0.mutexes@.len()
                        &&& forall|m: int| 0 <= m < pr0.mutexes@.len() && m != id
                            ==> final(self).procs@[p].mutexes@[m] == pr0.mutexes@[m]
                        &&& final(self).procs@[p].semaphores@ == pr0.semaphores@
                        &&& final(self).procs@[p].condvars@ == pr0.condvars@
                        &&& final(self).procs@[p].mailbox@ == pr0.mailbox@
                        &&& forall|q: int| 0 <= q < old(self).procs@.len() && q != p
                            ==> final(self).procs@[q] == old(self).procs@[q]
                    }
                    &&& (mu.owner is Some && mu.kind == MutexKind::Spin) ==> {
                        &&& r == LockResult::SpinRetry
                        &&& final(self).procs@ == old(self).procs@
                        &&& final(self).threads@ == old(self).threads@
                        &&& final(self).current == old(self).current
                    }
                    &&& (mu.owner is Some && mu.kind == MutexKind::Blocking) ==> {
                        &&& (r == LockResult::Refused <==> pr0.detect_enabled
                            && !crate::detect::safe(
                            pr0.detect.available@,
                            pr0.detect.alloc_m(),
                            req1,
                        ))
                        &&& r == LockResult::Refused ==> {
                            &&& final(self).threads@ == old(self).threads@
                            &&& final(self).current == old(self).current
                            &&& forall|q: int| 0 <= q < old(self).procs@.len() && q != p
                                ==> final(self).procs@[q] == old(self).procs@[q]
                            &&& final(self).procs@[p].mutexes@ == pr0.mutexes@
                            &&& final(self).procs@[p].semaphores@ == pr0.semaphores@
                            &&& final(self).procs@[p].condvars@ == pr0.condvars@
                            &&& final(self).procs@[p].mailbox@ == pr0.mailbox@
                        }
                        &&& r != LockResult::Refused ==> {
                            &&& r == LockResult::Waiting
                            &&& final(self).current is None
                            &&& final(self).threads@[c].state == ThreadState::Blocked
                            &&& final(self).threads@[c].blocked_on == Some(
                                WaitSlot::OnMutex(p as usize, id),
                            )
                            &&& forall|u: int| 0 <= u < old(self).threads@.len() && u != c
                                ==> final(self).threads@[u] == old(self).threads@[u]
                            &&& final(self).procs@[p].mutexes@[id as int].owner == mu.owner
                            &&& final(self).procs@[p].mutexes@[id as int].waiters@
                                =~= mu.waiters@.push(c as usize)
                            &&& final(self).procs@[p].mutexes@.len() == pr0.mutexes@.len()
                            &&& forall|m: int| 0 <= m < pr0.mutexes@.len() && m != id
                                ==> final(self).procs@[p].mutexes@[m] == pr0.mutexes@[m]
                            &&& final(self).procs@[p].semaphores@ == pr0.semaphores@
                            &&& final(self).procs@[p].condvars@ == pr0.condvars@
                            &&& forall|q: int| 0 <= q < old(self).procs@.len() && q != p
                                ==> final(self).procs@[q] == old(self).procs@[q]
                            &&& !final(self).sched.contains_id(c as usize)
                        }
                    }
                }
            }),
    {
        let c = self.current.unwrap();
        let p = self.threads[c].pid;
        if id >= self.procs[p].mutexes.len() {
            return LockResult::NoSuchId;
        }
        let local = self.threads[c].local;
        let col = self.procs[p].mutex_res[id];
        let free = match self.procs[p].mutexes[id].owner {
            None => true,
            Some(_) => false,
        };
        if free {
            self.procs[p].detect.grant(local, col);
            let got = self.procs[p].mutexes[id].try_acquire(c);
            proof {
                assert forall|q: int| 0 <= q < self.procs@.len() implies proc_ok(
                    #[trigger] self.procs@[q],
                    self.threads@,
                    q,
                ) by {
                    if q == p as int {
                        lemma_proc_ok_mutex_op(
                            old(self).procs@[q],
                            self.procs@[q],
                            self.threads@,
                            q,
                            id as int,
                        );
                    }
                }
            }
            return LockResult::Acquired;
        }
        let spin = match self.procs[p].mutexes[id].kind {
            MutexKind::Spin => true,
            MutexKind::Blocking => false,
        };
        if spin {
            return LockResult::SpinRetry;
        }
        self.procs[p].detect.request_set(local, col);
        proof {
            assert forall|q: int| 0 <= q < self.procs@.len() implies proc_ok(
                #[trigger] self.procs@[q],
                self.threads@,
                q,
            ) by {
                if q == p as int {
                    lemma_proc_ok_req_only(old(self).procs@[q], self.procs@[q], self.threads@, q);
                }
            }
        }
        if self.procs[p].detect_enabled {
            let ok = self.procs[p].detect.is_safe();
            if !ok {
                let ghost pre = self.procs@[p as int];
                self.procs[p].detect.request_clear(local, col);
                proof {
                    assert forall|q: int| 0 <= q < self.procs@.len() implies proc_ok(
                        #[trigger] self.procs@[q],
                        self.threads@,
                        q,
                    ) by {
                        if q == p as int {
                            lemma_proc_ok_req_only(pre, self.procs@[q], self.threads@, q);
                        }
                    }
                }
                return LockResult::Refused;
            }
        }
        let code = self.threads[c].exit_code;
        self.deschedule_current(
            ThreadState::Blocked,
            Some(WaitSlot::OnMutex(p, id)),
            code,
        );
        let ghost mid = *self;
        proof {
            assert forall|i: int| 0 <= i < mid.procs@[p as int].mutexes@[id as int].waiters@.len()
                implies #[trigger] mid.procs@[p as int].mutexes@[id as int].waiters@[i] != c by {
                assert(member_blocked(
                    old(self).threads@,
                    p as int,
                    mid.procs@[p as int].mutexes@[id as int].waiters@[i],
                    WaitSlot::OnMutex(p, id),
                ));
            }
        }
        self.procs[p].mutexes[id].enqueue(c);
        proof {
            assert forall|q: int| 0 <= q < self.procs@.len() implies proc_ok(
                #[trigger] self.procs@[q],
                self.threads@,
                q,
            ) by {
                if q == p as int {
                    assert forall|i: int|
                        0 <= i < self.procs@[q].mutexes@[id as int].waiters@.len()
                        implies member_blocked(self.threads@, q,
                        #[trigger] self.procs@[q].mutexes@[id as int].waiters@[i],
                        WaitSlot::OnMutex(q as usize, id)) by {
                        if i < self.procs@[q].mutexes@[id as int].waiters@.len() - 1 {
                            assert(self.procs@[q].mutexes@[id as int].waiters@[i]
                                == mid.procs@[q].mutexes@[id as int].waiters@[i]);
                            assert(member_blocked(mid.threads@, q,
                                mid.procs@[q].mutexes@[id as int].waiters@[i],
                                WaitSlot::OnMutex(q as usize, id)));
                        } else {
                            assert(self.procs@[q].mutexes@[id as int].waiters@[i] == c);
                        }
                    }
                    lemma_proc_ok_mutex_op(
                        mid.procs@[q],
                        self.procs@[q],
                        mid.threads@,
                        q,
                        id as int,
                    );
                }
            }
        }
        LockResult::Waiting
    }

    /// `mutex_unlock` by the owner. With the queue empty the mutex is
    /// released; otherwise ownership passes atomically to the queue's head,
    /// which wakes. A caller that does not hold the mutex gets `NotOwner`
    /// and nothing changes.
    #[verifier::rlimit(60)]
    pub fn mutex_unlock(&mut self, id: usize) -> (r: UnlockResult)
        requires
            old(self).wf(),
            old(self).current is Some,
        ensures
            final(self).wf(),
            final(self).time == old(self).time,
            final(self).current == old(self).current,
            final(self).threads@.len() == old(self).threads@.len(),
            final(self).procs@.len() == old(self).procs@.len(),
            ({
                let c = old(self).cur_tid();
                let p = old(self).cur_pid();
                let pr0 = old(self).procs@[p];
                &&& (id >= pr0.mutexes@.len() || pr0.mutexes@[id as int].owner != Some(
                    c as usize,
                )) ==> (r == (if id >= pr0.mutexes@.len() {
                    UnlockResult::NoSuchId
                } else {
                    UnlockResult::NotOwner
                }) && final(self).procs@ == old(self).procs@ && final(self).threads@ == old(
                    self,
                ).threads@)
                &&& (id < pr0.mutexes@.len() && pr0.mutexes@[id as int].owner == Some(
                    c as usize,
                )) ==> {
                    let mu = pr0.mutexes@[id as int];
                    &&& forall|q: int| 0 <= q < old(self).procs@.len() && q != p
                        ==> final(self).procs@[q] == old(self).procs@[q]
                    &&& final(self).procs@[p].mutexes@.len() == pr0.mutexes@.len()
                    &&& forall|m: int| 0 <= m < pr0.mutexes@.len() && m != id
                        ==> final(self).procs@[p].mutexes@[m] == pr0.mutexes@[m]
                    &&& final(self).procs@[p].semaphores@ == pr0.semaphores@
                    &&& final(self).procs@[p].condvars@ == pr0.condvars@
                    &&& final(self).procs@[p].mailbox == pr0.mailbox
                    &&& final(self).procs@[p].detect_enabled == pr0.detect_enabled
                    &&& final(self).procs@[p].state == pr0.state
                    &&& mu.waiters@.len() == 0 ==> {
                        &&& r == UnlockResult::Released
                        &&& final(self).threads@ == old(self).threads@
                        &&& final(self).procs@[p].mutexes@[id as int].owner is None
                        &&& final(self).procs@[p].mutexes@[id as int].waiters@.len() == 0
                        &&& final(self).procs@[p].mutexes@[id as int].kind == mu.kind
                    }
                    &&& mu.waiters@.len() > 0 ==> {
                        let w = mu.waiters@[0];
                        &&& r == UnlockResult::Handed(w)
                        &&& final(self).procs@[p].mutexes@[id as int].owner == Some(w)
                        &&& final(self).procs@[p].mutexes@[id as int].waiters@
                            =~= mu.waiters@.subrange(1, mu.waiters@.len() as int)
                        &&& final(self).threads@[w as int].state == ThreadState::Ready
                        &&& final(self).threads@[w as int].blocked_on is None
                        &&& forall|u: int| 0 <= u < old(self).threads@.len() && u != w
                            ==> final(self).threads@[u] == old(self).threads@[u]
                        &&& final(self).sched.contains_id(w)
                        &&& sched_inserted(
                            old(self).sched,
                            final(self).sched,
                            w,
                            old(self).threads@[w as int].priority,
                        )
                    }
                }
            }),
    {
        let c = self.current.unwrap();
        let p = self.threads[c].pid;
        if id >= self.procs[p].mutexes.len() {
            return UnlockResult::NoSuchId;
        }
        let is_owner = match self.procs[p].mutexes[id].owner {
            Some(o) => o == c,
            None => false,
        };
        if !is_owner {
            return UnlockResult::NotOwner;
        }
        let col = self.procs[p].mutex_res[id];
        let local_c = self.threads[c].local;
        let woken = self.procs[p].mutexes[id].unlock(c);
        match woken {
            None => {
                self.procs[p].detect.ungrant(local_c, col);
                proof {
                    assert forall|q: int| 0 <= q < self.procs@.len() implies proc_ok(
                        #[trigger] self.procs@[q],
                        self.threads@,
                        q,
                    ) by {
                        if q == p as int {
                            assert(self.procs@[q].mutexes@[id as int].waiters@.len() == 0);
                            lemma_proc_ok_mutex_op(
                                old(self).procs@[q],
                                self.procs@[q],
                                self.threads@,
                                q,
                                id as int,
                            );
                        }
                    }
                }
                UnlockResult::Released
            },
            Some(w) => {
                proof {
                    assert(member_blocked(
                        old(self).threads@,
                        p as int,
                        w,
                        WaitSlot::OnMutex(p, id),
                    ));
                }
                let local_w = self.threads[w].local;
                self.procs[p].detect.ungrant(local_c, col);
                self.procs[p].detect.grant(local_w, col);
                self.procs[p].detect.request_clear(local_w, col);
                proof {
                    let pr0 = old(self).procs@[p as int];
                    let pr1 = self.procs@[p as int];
                    assert forall|i: int| 0 <= i < pr1.mutexes@[id as int].waiters@.len()
                        implies member_blocked(self.threads@, p as int,
                        #[trigger] pr1.mutexes@[id as int].waiters@[i],
                        WaitSlot::OnMutex(p, id)) by {
                        assert(pr1.mutexes@[id as int].waiters@[i]
                            == pr0.mutexes@[id as int].waiters@[i + 1]);
                        assert(member_blocked(old(self).threads@, p as int,
                            pr0.mutexes@[id as int].waiters@[i + 1],
                            WaitSlot::OnMutex(p, id)));
                    }
                    assert forall|q: int| 0 <= q < self.procs@.len() implies proc_ok(
                        #[trigger] self.procs@[q],
                        self.threads@,
                        q,
                    ) by {
                        if q == p as int {
                            lemma_proc_ok_mutex_op(
                                old(self).procs@[q],
                                self.procs@[q],
                                self.threads@,
                                q,
                                id as int,
                            );
                        }
                    }
                    assert forall|q: int, m: int, i: int|
                        0 <= q < self.procs@.len() && 0 <= m < self.procs@[q].mutexes@.len()
                            && 0 <= i < self.procs@[q].mutexes@[m].waiters@.len()
                        implies #[trigger] self.procs@[q].mutexes@[m].waiters@[i] != w by {
                        let x = self.procs@[q].mutexes@[m].waiters@[i];
                        assert(member_blocked(self.threads@, q, x,
                            WaitSlot::OnMutex(q as usize, m as usize)));
                        if q == p as int && m == id {
                            assert(x == pr0.mutexes@[id as int].waiters@[i + 1]);
                        }
                    }
                    assert forall|q: int, s: int, i: int|
                        0 <= q < self.procs@.len() && 0 <= s < self.procs@[q].semaphores@.len()
                            && 0 <= i < self.procs@[q].semaphores@[s].waiters@.len()
                        implies #[trigger] self.procs@[q].semaphores@[s].waiters@[i] != w by {
                        let x = self.procs@[q].semaphores@[s].waiters@[i];
                        assert(member_blocked(self.threads@, q, x,
                            WaitSlot::OnSem(q as usize, s as usize)));
                    }
                    assert forall|q: int, c2: int, i: int|
                        0 <= q < self.procs@.len() && 0 <= c2 < self.procs@[q].condvars@.len()
                            && 0 <= i < self.procs@[q].condvars@[c2].waiters@.len()
                        implies #[trigger] self.procs@[q].condvars@[c2].waiters@[i] != w by {
                        let x = self.procs@[q].condvars@[c2].waiters@[i];
                        assert(member_blocked(self.threads@, q, x,
                            WaitSlot::OnCondvar(q as usize, c2 as usize)));
                    }
                }
                self.wake_thread(w);
                UnlockResult::Handed(w)
            },
        }
    }
}


/// Result of a `semaphore_down`.
#[derive(Clone, Copy, PartialEq, Eq, Structural, Debug)]
pub enum DownResult {
    Acquired,
    Waiting,
    Refused,
    NoSuchId,
}

/// Result of a `semaphore_up`.
#[derive(Clone, Copy, PartialEq, Eq, Structural, Debug)]
pub enum UpResult {
    Released,
    Woke(usize),
    Overflow,
    NoSuchId,
}

impl DownResult {
    /// The raw syscall code: 0 once the decrement is (or will be)
    /// complete, `DEADLOCK_ERR` for a refusal, `INVALID` for a bad id.
    pub fn code(self) -> (r: isize)
        ensures
            self == DownResult::Acquired || self == DownResult::Waiting ==> r == 0,
            self == DownResult::Refused ==> r == DEADLOCK_ERR,
            self == DownResult::NoSuchId ==> r == INVALID,
    {
        match self {
            DownResult::Acquired => 0,
            DownResult::Waiting => 0,
            DownResult::Refused => DEADLOCK_ERR,
            DownResult::NoSuchId => INVALID,
        }
    }
}

/// Pairwise-distinct thread ids below `n` number at most `n`.
pub proof fn lemma_waiters_bounded(s: Seq<usize>, n: int)
    requires
        forall|i: int, j: int|
            0 <= i < s.len() && 0 <= j < s.len() && i != j ==> #[trigger] s[i] != #[trigger] s[j],
        forall|i: int| 0 <= i < s.len() ==> (#[trigger] s[i] as int) < n,
        0 <= n,
    ensures
        s.len() <= n,
{
    let si = Seq::new(s.len(), |i: int| s[i] as int);
    assert forall|i: int, j: int|
        0 <= i < si.len() && 0 <= j < si.len() && i != j implies si[i] != si[j] by {
        assert(s[i] != s[j]);
    }
    assert(si.no_duplicates());
    assert(crate::detect::in_range(si, n));
    crate::detect::lemma_distinct_bounded_len(si, n);
}

/// `pr1` is `pr0` with only semaphore `id`, and the detector entries of
/// its column, changed.
pub open spec fn sem_slot_updated(pr0: Process, pr1: Process, id: int) -> bool {
    let col = pr0.sem_res@[id] as int;
    &&& pr1.threads@ == pr0.threads@
    &&& pr1.mailbox == pr0.mailbox
    &&& pr1.mutexes@ == pr0.mutexes@
    &&& pr1.condvars@ == pr0.condvars@
    &&& pr1.mutex_res@ == pr0.mutex_res@
    &&& pr1.sem_res@ == pr0.sem_res@
    &&& pr1.semaphores@.len() == pr0.semaphores@.len()
    &&& forall|s: int| 0 <= s < pr0.semaphores@.len() && s != id
        ==> #[trigger] pr1.semaphores@[s] == pr0.semaphores@[s]
    &&& pr1.detect.wf()
    &&& pr1.detect.nt() == pr0.detect.nt()
    &&& pr1.detect.nr() == pr0.detect.nr()
    &&& forall|r: int| 0 <= r < pr0.detect.nr() && r != col
        ==> #[trigger] pr1.detect.available@[r] == pr0.detect.available@[r]
    &&& forall|l: int, r: int|
        0 <= l < pr0.detect.nt() && 0 <= r < pr0.detect.nr() && r != col
            ==> #[trigger] pr1.detect.alloc_m()[l][r] == pr0.detect.alloc_m()[l][r]
}

/// One semaphore operation re-establishes a process's facts, provided the
/// touched semaphore's column mirrors its new count and its queue holds
/// blocked threads of this process.
pub proof fn lemma_proc_ok_sem_op(
    pr0: Process,
    pr1: Process,
    threads: Seq<Thread>,
    p: int,
    id: int,
)
    requires
        proc_ok(pr0, threads, p),
        0 <= id < pr0.semaphores@.len(),
        sem_slot_updated(pr0, pr1, id),
        pr1.semaphores@[id].wf(),
        forall|i: int| 0 <= i < pr1.semaphores@[id].waiters@.len()
            ==> member_blocked(threads, p, #[trigger] pr1.semaphores@[id].waiters@[i],
                WaitSlot::OnSem(p as usize, id as usize)),
        pr1.detect.available@[pr0.sem_res@[id] as int] == (if pr1.semaphores@[id].count >= 0 {
            pr1.semaphores@[id].count as int
        } else {
            0int
        }),
    ensures
        proc_ok(pr1, threads, p),
{
    let col = pr0.sem_res@[id] as int;
    assert(res_cols_ok(pr1));
    assert forall|s: int| 0 <= s < pr1.semaphores@.len() implies (
    #[trigger] pr1.semaphores@[s]).wf() by {
        if s != id {
            assert(pr1.semaphores@[s] == pr0.semaphores@[s]);
        }
    }
    assert forall|s: int, i: int|
        0 <= s < pr1.semaphores@.len() && 0 <= i < (#[trigger] pr1.semaphores@[s]).waiters@.len()
            implies member_blocked(threads, p, #[trigger] pr1.semaphores@[s].waiters@[i],
        WaitSlot::OnSem(p as usize, s as usize)) by {
        if s != id {
            assert(pr1.semaphores@[s] == pr0.semaphores@[s]);
        }
    }
    assert forall|m: int| 0 <= m < pr1.mutexes@.len() implies match (
    #[trigger] pr1.mutexes@[m]).owner {
        Some(o) => {
            &&& (o as int) < threads.len()
            &&& threads[o as int].pid == p
            &&& pr1.detect.available@[pr1.mutex_res@[m] as int] == 0
            &&& forall|l: int|
                0 <= l < pr1.detect.nt()
                    ==> #[trigger] pr1.detect.alloc_m()[l][pr1.mutex_res@[m] as int] == (
                    if l == threads[o as int].local { 1int } else { 0int })
        },
        None => {
            &&& pr1.detect.available@[pr1.mutex_res@[m] as int] == 1
            &&& forall|l: int|
                0 <= l < pr1.detect.nt()
                    ==> #[trigger] pr1.detect.alloc_m()[l][pr1.mutex_res@[m] as int] == 0
        },
    } by {
        assert(pr1.mutex_res@[m] != pr0.sem_res@[id]);
        assert(mutex_col_ok(pr0, threads, p, m));
    }
    assert forall|s: int| 0 <= s < pr1.semaphores@.len()
        implies #[trigger] pr1.detect.available@[pr1.sem_res@[s] as int] == (
        if pr1.semaphores@[s].count >= 0 {
            pr1.semaphores@[s].count as int
        } else {
            0int
        }) by {
        if s != id {
            assert(pr1.sem_res@[s] != pr0.sem_res@[id]);
            assert(pr1.semaphores@[s] == pr0.semaphores@[s]);
        }
    }
}

impl Kernel {
    /// `semaphore_create(n)`: a new semaphore with count `n` and a fresh
    /// `n`-unit detector column; its id.
    pub fn semaphore_create(&mut self, n: usize) -> (r: isize)
        requires
            old(self).wf(),
            old(self).current is Some,
        ensures
            final(self).wf(),
            final(self).current == old(self).current,
            final(self).threads@ == old(self).threads@,
            final(self).sched.entities@ == old(self).sched.entities@,
            final(self).time == old(self).time,
            final(self).procs@.len() == old(self).procs@.len(),
            forall|q: int| 0 <= q < old(self).procs@.len() && q != old(self).cur_pid()
                ==> final(self).procs@[q] == old(self).procs@[q],
            ({
                let p = old(self).cur_pid();
                &&& (old(self).procs@[p].semaphores@.len() > isize::MAX || n > i64::MAX)
                    ==> r == INVALID && final(self).procs@ == old(self).procs@
                &&& (old(self).procs@[p].semaphores@.len() <= isize::MAX && n <= i64::MAX) ==> {
                    &&& r == old(self).procs@[p].semaphores@.len()
                    &&& final(self).procs@[p].semaphores@.len() == old(
                        self,
                    ).procs@[p].semaphores@.len() + 1
                    &&& forall|s: int| 0 <= s < old(self).procs@[p].semaphores@.len()
                        ==> final(self).procs@[p].semaphores@[s]
                            == old(self).procs@[p].semaphores@[s]
                    &&& final(self).procs@[p].semaphores@.last().count == n
                    &&& final(self).procs@[p].semaphores@.last().waiters@.len() == 0
                    &&& final(self).procs@[p].mutexes@ == old(self).procs@[p].mutexes@
                    &&& final(self).procs@[p].condvars@ == old(self).procs@[p].condvars@
                    &&& final(self).procs@[p].mailbox == old(self).procs@[p].mailbox
                    &&& final(self).procs@[p].state == old(self).procs@[p].state
                    &&& final(self).procs@[p].detect_enabled == old(
                        self,
                    ).procs@[p].detect_enabled
                    &&& final(self).procs@[p].threads@ == old(self).procs@[p].threads@
                    &&& final(self).procs@[p].mutex_res@ == old(self).procs@[p].mutex_res@
                    &&& final(self).procs@[p].sem_res@ == old(self).procs@[p].sem_res@.push((old(
                        self,
                    ).procs@[p].detect.nr()) as usize)
                    &&& final(self).procs@[p].detect.nr() == old(self).procs@[p].detect.nr() + 1
                    &&& final(self).procs@[p].detect.nt() == old(self).procs@[p].detect.nt()
                    &&& final(self).procs@[p].detect.available@ == old(
                        self,
                    ).procs@[p].detect.available@.push(n as u64)
                    &&& forall|t: int, rr: int|
                        0 <= t < old(self).procs@[p].detect.nt() && 0 <= rr < old(
                            self,
                        ).procs@[p].detect.nr()
                            ==> final(self).procs@[p].detect.alloc_m()[t][rr] == old(
                                self,
                            ).procs@[p].detect.alloc_m()[t][rr]
                                && final(self).procs@[p].detect.req_m()[t][rr] == old(
                                self,
                            ).procs@[p].detect.req_m()[t][rr]
                    &&& forall|t: int| 0 <= t < old(self).procs@[p].detect.nt()
                        ==> final(self).procs@[p].detect.alloc_m()[t][old(
                            self,
                        ).procs@[p].detect.nr()] == 0 && final(self).procs@[p].detect.req_m()[t][old(
                            self,
                        ).procs@[p].detect.nr()] == 0
                }
            }),
    {
        let c = self.current.unwrap();
        let p = self.threads[c].pid;
        let id = self.procs[p].semaphores.len();
        if id > isize::MAX as usize || n as u64 > i64::MAX as u64 {
            return INVALID;
        }
        let col = self.procs[p].detect.n_resources();
        self.procs[p].detect.add_resource(n as u64);
        self.procs[p].semaphores.push(Semaphore::new(n as i64));
        self.procs[p].sem_res.push(col);
        proof {
            assert forall|q: int| 0 <= q < self.procs@.len() implies proc_ok(
                #[trigger] self.procs@[q],
                self.threads@,
                q,
            ) by {
                if q == p as int {
                    let pr0 = old(self).procs@[q];
                    let pr1 = self.procs@[q];
                    assert(res_cols_ok(pr1));
                    assert forall|m: int| 0 <= m < pr1.mutexes@.len() implies match (
                    #[trigger] pr1.mutexes@[m]).owner {
                        Some(o) => {
                            &&& (o as int) < self.threads@.len()
                            &&& self.threads@[o as int].pid == q
                            &&& pr1.detect.available@[pr1.mutex_res@[m] as int] == 0
                            &&& forall|l: int|
                                0 <= l < pr1.detect.nt()
                                    ==> #[trigger] pr1.detect.alloc_m()[l][pr1.mutex_res@[m] as int]
                                        == (if l == self.threads@[o as int].local {
                                        1int
                                    } else {
                                        0int
                                    })
                        },
                        None => {
                            &&& pr1.detect.available@[pr1.mutex_res@[m] as int] == 1
                            &&& forall|l: int|
                                0 <= l < pr1.detect.nt()
                                    ==> #[trigger] pr1.detect.alloc_m()[l][pr1.mutex_res@[m] as int]
                                        == 0
                        },
                    } by {
                        assert(pr1.mutexes@[m] == pr0.mutexes@[m]);
                        assert((pr1.mutex_res@[m] as int) < pr0.detect.nr());
                        assert(mutex_col_ok(pr0, self.threads@, q, m));
                    }
                    assert forall|s: int| 0 <= s < pr1.semaphores@.len()
                        implies #[trigger] pr1.detect.available@[pr1.sem_res@[s] as int] == (
                        if pr1.semaphores@[s].count >= 0 {
                            pr1.semaphores@[s].count as int
                        } else {
                            0int
                        }) by {
                        if s < pr0.semaphores@.len() {
                            assert(pr1.semaphores@[s] == pr0.semaphores@[s]);
                            assert((pr1.sem_res@[s] as int) < pr0.detect.nr());
                        }
                    }
                }
            }
        }
        id as isize
    }

    /// `semaphore_down`. With a positive count the unit is taken at once;
    /// otherwise the caller parks at the tail of the queue — unless
    /// deadlock detection is on and admitting the request would leave no
    /// order in which every thread can finish, in which case `Refused`
    /// (raw code `DEADLOCK_ERR`) and nothing changes.
    #[verifier::rlimit(100)]
    #[verifier::spinoff_prover]
    pub fn semaphore_down(&mut self, id: usize) -> (r: DownResult)
        requires
            old(self).wf(),
            old(self).current is Some,
        ensures
            final(self).wf(),
            final(self).time == old(self).time,
            ({
                let c = old(self).cur_tid();
                let p = old(self).cur_pid();
                let pr0 = old(self).procs@[p];
                let local = old(self).threads@[c].local as int;
                &&& id >= pr0.semaphores@.len() ==> r == DownResult::NoSuchId
                    && final(self).procs@ == old(self).procs@ && final(self).threads@ == old(self).threads@
                    && final(self).current == old(self).current
                &&& id < pr0.semaphores@.len() ==> {
                    let se = pr0.semaphores@[id as int];
                    let col = pr0.sem_res@[id as int] as int;
                    let req1 = pr0.detect.req_m().update(
                        local,
                        pr0.detect.req_m()[local].update(col, 1u64),
                    );
                    &&& se.count > 0 ==> {
                        &&& r == DownResult::Acquired
                        &&& final(self).threads@ == old(self).threads@
                        &&& final(self).current == old(self).current
                        &&& final(self).procs@[p].semaphores@[id as int].count == se.count - 1
                        &&& final(self).procs@[p].semaphores@[id as int].waiters@ == se.waiters@
                        &&& forall|s: int| 0 <= s < pr0.semaphores@.len() && s != id
                            ==> final(self).procs@[p].semaphores@[s] == pr0.semaphores@[s]
                        &&& final(self).procs@[p].mutexes@ == pr0.mutexes@
                        &&& final(self).procs@[p].condvars@ == pr0.condvars@
                        &&& final(self).procs@[p].mailbox@ == pr0.mailbox@
                        &&& forall|q: int| 0 <= q < old(self).procs@.len() && q != p
                            ==> final(self).procs@[q] == old(self).procs@[q]
                    }
                    &&& se.count <= 0 ==> {
                        &&& (r == DownResult::Refused <==> pr0.detect_enabled
                            && !crate::detect::safe(
                            pr0.detect.available@,
                            pr0.detect.alloc_m(),
                            req1,
                        ))
                        &&& r == DownResult::Refused ==> {
                            &&& final(self).threads@ == old(self).threads@
                            &&& final(self).current == old(self).current
                            &&& forall|q: int| 0 <= q < old(self).procs@.len() && q != p
                                ==> final(self).procs@[q] == old(self).procs@[q]
                            &&& final(self).procs@[p].mutexes@ == pr0.mutexes@
                            &&& final(self).procs@[p].semaphores@ == pr0.semaphores@
                            &&& final(self).procs@[p].condvars@ == pr0.condvars@
                            &&& final(self).procs@[p].mailbox@ == pr0.mailbox@
                        }
                        &&& r != DownResult::Refused ==> {
                            &&& r == DownResult::Waiting
                            &&& final(self).current is None
                            &&& final(self).threads@[c].state == ThreadState::Blocked
                            &&& final(self).threads@[c].blocked_on == Some(
                                WaitSlot::OnSem(p as usize, id),
                            )
                            &&& forall|u: int| 0 <= u < old(self).threads@.len() && u != c
                                ==> final(self).threads@[u] == old(self).threads@[u]
                            &&& final(self).procs@[p].semaphores@[id as int].count == se.count
                                - 1
                            &&& final(self).procs@[p].semaphores@[id as int].waiters@
                                =~= se.waiters@.push(c as usize)
                            &&& forall|s: int| 0 <= s < pr0.semaphores@.len() && s != id
                                ==> final(self).procs@[p].semaphores@[s] == pr0.semaphores@[s]
                            &&& final(self).procs@[p].mutexes@ == pr0.mutexes@
                            &&& final(self).procs@[p].condvars@ == pr0.condvars@
                            &&& forall|q: int| 0 <= q < old(self).procs@.len() && q != p
                                ==> final(self).procs@[q] == old(self).procs@[q]
                            &&& !final(self).sched.contains_id(c as usize)
                        }
                    }
                }
            }),
    {
        let c = self.current.unwrap();
        let p = self.threads[c].pid;
        if id >= self.procs[p].semaphores.len() {
            return DownResult::NoSuchId;
        }
        let local = self.threads[c].local;
        let col = self.procs[p].sem_res[id];
        if self.procs[p].semaphores[id].count > 0 {
            self.procs[p].detect.grant(local, col);
            self.procs[p].semaphores[id].down_acquire();
            proof {
                assert forall|q: int| 0 <= q < self.procs@.len() implies proc_ok(
                    #[trigger] self.procs@[q],
                    self.threads@,
                    q,
                ) by {
                    if q == p as int {
                        lemma_proc_ok_sem_op(
                            old(self).procs@[q],
                            self.procs@[q],
                            self.threads@,
                            q,
                            id as int,
                        );
                    }
                }
            }
            return DownResult::Acquired;
        }
        self.procs[p].detect.request_set(local, col);
        proof {
            assert forall|q: int| 0 <= q < self.procs@.len() implies proc_ok(
                #[trigger] self.procs@[q],
                self.threads@,
                q,
            ) by {
                if q == p as int {
                    lemma_proc_ok_req_only(old(self).procs@[q], self.procs@[q], self.threads@, q);
                }
            }
        }
        if self.procs[p].detect_enabled {
            let ok = self.procs[p].detect.is_safe();
            if !ok {
                let ghost pre = self.procs@[p as int];
                self.procs[p].detect.request_clear(local, col);
                proof {
                    assert forall|q: int| 0 <= q < self.procs@.len() implies proc_ok(
                        #[trigger] self.procs@[q],
                        self.threads@,
                        q,
                    ) by {
                        if q == p as int {
                            lemma_proc_ok_req_only(pre, self.procs@[q], self.threads@, q);
                        }
                    }
                }
                return DownResult::Refused;
            }
        }
        proof {
            let se = self.procs@[p as int].semaphores@[id as int];
            assert forall|i: int| 0 <= i < se.waiters@.len() implies (
            #[trigger] se.waiters@[i] as int) < self.threads@.len() by {
                assert(member_blocked(self.threads@, p as int, se.waiters@[i],
                    WaitSlot::OnSem(p, id)));
            }
            lemma_waiters_bounded(se.waiters@, self.threads@.len() as int);
        }
        let code = self.threads[c].exit_code;
        self.deschedule_current(ThreadState::Blocked, Some(WaitSlot::OnSem(p, id)), code);
        let ghost mid = *self;
        proof {
            assert forall|i: int|
                0 <= i < mid.procs@[p as int].semaphores@[id as int].waiters@.len()
                implies #[trigger] mid.procs@[p as int].semaphores@[id as int].waiters@[i]
                != c by {
                assert(member_blocked(
                    old(self).threads@,
                    p as int,
                    mid.procs@[p as int].semaphores@[id as int].waiters@[i],
                    WaitSlot::OnSem(p, id),
                ));
            }
        }
        self.procs[p].semaphores[id].down_block(c);
        proof {
            assert forall|q: int| 0 <= q < self.procs@.len() implies proc_ok(
                #[trigger] self.procs@[q],
                self.threads@,
                q,
            ) by {
                if q == p as int {
                    assert forall|i: int|
                        0 <= i < self.procs@[q].semaphores@[id as int].waiters@.len()
                        implies member_blocked(self.threads@, q,
                        #[trigger] self.procs@[q].semaphores@[id as int].waiters@[i],
                        WaitSlot::OnSem(q as usize, id)) by {
                        if i < self.procs@[q].semaphores@[id as int].waiters@.len() - 1 {
                            assert(self.procs@[q].semaphores@[id as int].waiters@[i]
                                == mid.procs@[q].semaphores@[id as int].waiters@[i]);
                            assert(member_blocked(mid.threads@, q,
                                mid.procs@[q].semaphores@[id as int].waiters@[i],
                                WaitSlot::OnSem(q as usize, id)));
                        } else {
                            assert(self.procs@[q].semaphores@[id as int].waiters@[i] == c);
                        }
                    }
                    lemma_proc_ok_sem_op(
                        mid.procs@[q],
                        self.procs@[q],
                        mid.threads@,
                        q,
                        id as int,
                    );
                }
            }
        }
        DownResult::Waiting
    }

    /// `semaphore_up`: returns one unit. With threads parked, the head of
    /// the queue receives the unit and wakes; otherwise the count grows.
    /// `Overflow` signals a count or bookkeeping total at its machine
    /// limit, with nothing changed.
    #[verifier::rlimit(100)]
    #[verifier::spinoff_prover]
    pub fn semaphore_up(&mut self, id: usize) -> (r: UpResult)
        requires
            old(self).wf(),
            old(self).current is Some,
        ensures
            final(self).wf(),
            final(self).time == old(self).time,
            final(self).current == old(self).current,
            ({
                let c = old(self).cur_tid();
                let p = old(self).cur_pid();
                let pr0 = old(self).procs@[p];
                let local = old(self).threads@[c].local as int;
                &&& id >= pr0.semaphores@.len() ==> r == UpResult::NoSuchId && final(self).procs@
                    == old(self).procs@ && final(self).threads@ == old(self).threads@
                &&& id < pr0.semaphores@.len() ==> {
                    let se = pr0.semaphores@[id as int];
                    let col = pr0.sem_res@[id as int] as int;
                    &&& r != UpResult::NoSuchId
                    &&& r == UpResult::Overflow ==> final(self).procs@ == old(self).procs@
                        && final(self).threads@ == old(self).threads@
                    &&& se.count == i64::MAX ==> r == UpResult::Overflow
                    &&& (se.count < i64::MAX && pr0.detect.available@[col]
                        + crate::detect::col_sum(pr0.detect.alloc_m(), col) < u64::MAX)
                        ==> r != UpResult::Overflow
                    &&& r != UpResult::Overflow && r != UpResult::NoSuchId ==> {
                        &&& final(self).procs@[p].semaphores@[id as int].count == se.count + 1
                        &&& forall|s: int| 0 <= s < pr0.semaphores@.len() && s != id
                            ==> final(self).procs@[p].semaphores@[s] == pr0.semaphores@[s]
                        &&& final(self).procs@[p].mutexes@ == pr0.mutexes@
                        &&& final(self).procs@[p].condvars@ == pr0.condvars@
                        &&& final(self).procs@[p].mailbox@ == pr0.mailbox@
                        &&& forall|q: int| 0 <= q < old(self).procs@.len() && q != p
                            ==> final(self).procs@[q] == old(self).procs@[q]
                        &&& se.waiters@.len() == 0 ==> {
                            &&& r == UpResult::Released
                            &&& final(self).threads@ == old(self).threads@
                            &&& final(self).procs@[p].semaphores@[id as int].waiters@.len() == 0
                        }
                        &&& se.waiters@.len() > 0 ==> {
                            let w = se.waiters@[0];
                            &&& r == UpResult::Woke(w)
                            &&& final(self).procs@[p].semaphores@[id as int].waiters@
                                =~= se.waiters@.subrange(1, se.waiters@.len() as int)
                            &&& final(self).threads@[w as int].state == ThreadState::Ready
                            &&& final(self).threads@[w as int].blocked_on is None
                            &&& forall|u: int| 0 <= u < old(self).threads@.len() && u != w
                                ==> final(self).threads@[u] == old(self).threads@[u]
                            &&& final(self).sched.contains_id(w)
                            &&& sched_inserted(
                                old(self).sched,
                                final(self).sched,
                                w,
                                old(self).threads@[w as int].priority,
                            )
                        }
                    }
                }
            }),
    {
        let c = self.current.unwrap();
        let p = self.threads[c].pid;
        if id >= self.procs[p].semaphores.len() {
            return UpResult::NoSuchId;
        }
        let local = self.threads[c].local;
        let col = self.procs[p].sem_res[id];
        if self.procs[p].semaphores[id].count == i64::MAX {
            return UpResult::Overflow;
        }
        let mine = self.procs[p].detect.alloc_at(local, col);
        if mine > 0 {
            self.procs[p].detect.ungrant(local, col);
        } else {
            let total = self.procs[p].detect.col_total(col);
            let avail = self.procs[p].detect.avail_at(col);
            let sum = avail + total;
            if sum == u64::MAX {
                return UpResult::Overflow;
            }
            self.procs[p].detect.add_unit(col);
        }
        let woken = self.procs[p].semaphores[id].up();
        match woken {
            None => {
                proof {
                    assert forall|q: int| 0 <= q < self.procs@.len() implies proc_ok(
                        #[trigger] self.procs@[q],
                        self.threads@,
                        q,
                    ) by {
                        if q == p as int {
                            lemma_proc_ok_sem_op(
                                old(self).procs@[q],
                                self.procs@[q],
                                self.threads@,
                                q,
                                id as int,
                            );
                        }
                    }
                }
                UpResult::Released
            },
            Some(w) => {
                proof {
                    assert(member_blocked(
                        old(self).threads@,
                        p as int,
                        w,
                        WaitSlot::OnSem(p, id),
                    ));
                }
                let local_w = self.threads[w].local;
                self.procs[p].detect.grant(local_w, col);
                self.procs[p].detect.request_clear(local_w, col);
                proof {
                    let pr0 = old(self).procs@[p as int];
                    let pr1 = self.procs@[p as int];
                    assert forall|i: int| 0 <= i < pr1.semaphores@[id as int].waiters@.len()
                        implies member_blocked(self.threads@, p as int,
                        #[trigger] pr1.semaphores@[id as int].waiters@[i],
                        WaitSlot::OnSem(p, id)) by {
                        assert(pr1.semaphores@[id as int].waiters@[i]
                            == pr0.semaphores@[id as int].waiters@[i + 1]);
                        assert(member_blocked(old(self).threads@, p as int,
                            pr0.semaphores@[id as int].waiters@[i + 1],
                            WaitSlot::OnSem(p, id)));
                    }
                    assert forall|q: int| 0 <= q < self.procs@.len() implies proc_ok(
                        #[trigger] self.procs@[q],
                        self.threads@,
                        q,
                    ) by {
                        if q == p as int {
                            lemma_proc_ok_sem_op(
                                old(self).procs@[q],
                                self.procs@[q],
                                self.threads@,
                                q,
                                id as int,
                            );
                        }
                    }
                    assert forall|q: int, m: int, i: int|
                        0 <= q < self.procs@.len() && 0 <= m < self.procs@[q].mutexes@.len()
                            && 0 <= i < self.procs@[q].mutexes@[m].waiters@.len()
                        implies #[trigger] self.procs@[q].mutexes@[m].waiters@[i] != w by {
                        let x = self.procs@[q].mutexes@[m].waiters@[i];
                        assert(member_blocked(self.threads@, q, x,
                            WaitSlot::OnMutex(q as usize, m as usize)));
                    }
                    assert forall|q: int, s: int, i: int|
                        0 <= q < self.procs@.len() && 0 <= s < self.procs@[q].semaphores@.len()
                            && 0 <= i < self.procs@[q].semaphores@[s].waiters@.len()
                        implies #[trigger] self.procs@[q].semaphores@[s].waiters@[i] != w by {
                        let x = self.procs@[q].semaphores@[s].waiters@[i];
                        assert(member_blocked(self.threads@, q, x,
                            WaitSlot::OnSem(q as usize, s as usize)));
                        if q == p as int && s == id {
                            assert(x == old(self).procs@[q].semaphores@[id as int].waiters@[i
                                + 1]);
                        }
                    }
                    assert forall|q: int, c2: int, i: int|
                        0 <= q < self.procs@.len() && 0 <= c2 < self.procs@[q].condvars@.len()
                            && 0 <= i < self.procs@[q].condvars@[c2].waiters@.len()
                        implies #[trigger] self.procs@[q].condvars@[c2].waiters@[i] != w by {
                        let x = self.procs@[q].condvars@[c2].waiters@[i];
                        assert(member_blocked(self.threads@, q, x,
                            WaitSlot::OnCondvar(q as usize, c2 as usize)));
                    }
                }
                self.wake_thread(w);
                UpResult::Woke(w)
            },
        }
    }
}


/// Result of a `condvar_wait`.
#[derive(Clone, Copy, PartialEq, Eq, Structural, Debug)]
pub enum WaitResult {
    Waiting,
    NotOwner,
    NoSuchId,
}

/// Result of a `condvar_signal`.
#[derive(Clone, Copy, PartialEq, Eq, Structural, Debug)]
pub enum SignalResult {
    Woke(usize),
    Empty,
    NoSuchId,
}

/// `pr1` is `pr0` with only condition variable `id` changed; the detector
/// untouched.
pub open spec fn condvar_slot_updated(pr0: Process, pr1: Process, id: int) -> bool {
    &&& pr1.threads@ == pr0.threads@
    &&& pr1.mailbox == pr0.mailbox
    &&& pr1.mutexes@ == pr0.mutexes@
    &&& pr1.semaphores@ == pr0.semaphores@
    &&& pr1.mutex_res@ == pr0.mutex_res@
    &&& pr1.sem_res@ == pr0.sem_res@
    &&& pr1.detect == pr0.detect
    &&& 0 <= id <= pr0.condvars@.len()
    &&& pr1.condvars@.len() == (if id < pr0.condvars@.len() {
        pr0.condvars@.len()
    } else {
        pr0.condvars@.len() + 1
    })
    &&& forall|c: int| 0 <= c < pr0.condvars@.len() && c != id
        ==> #[trigger] pr1.condvars@[c] == pr0.condvars@[c]
}

/// One condition-variable queue operation re-establishes a process's
/// facts.
pub proof fn lemma_proc_ok_condvar_op(
    pr0: Process,
    pr1: Process,
    threads: Seq<Thread>,
    p: int,
    id: int,
)
    requires
        proc_ok(pr0, threads, p),
        condvar_slot_updated(pr0, pr1, id),
        pr1.condvars@[id].wf(),
        forall|i: int| 0 <= i < pr1.condvars@[id].waiters@.len()
            ==> member_blocked(threads, p, #[trigger] pr1.condvars@[id].waiters@[i],
                WaitSlot::OnCondvar(p as usize, id as usize))
                && (threads[pr1.condvars@[id].waiters@[i] as int].wait_mutex as int)
                    < pr1.mutexes@.len(),
    ensures
        proc_ok(pr1, threads, p),
{
    assert(res_cols_ok(pr1));
    assert forall|c: int| 0 <= c < pr1.condvars@.len() implies (
    #[trigger] pr1.condvars@[c]).wf() by {
        if c != id {
            assert(pr1.condvars@[c] == pr0.condvars@[c]);
        }
    }
    assert forall|c: int, i: int|
        0 <= c < pr1.condvars@.len() && 0 <= i < (#[trigger] pr1.condvars@[c]).waiters@.len()
            implies member_blocked(threads, p, #[trigger] pr1.condvars@[c].waiters@[i],
        WaitSlot::OnCondvar(p as usize, c as usize)) && (threads[pr1.condvars@[c].waiters@[i]
        as int].wait_mutex as int) < pr1.mutexes@.len() by {
        if c != id {
            assert(pr1.condvars@[c] == pr0.condvars@[c]);
        }
    }
    assert forall|m: int| 0 <= m < pr1.mutexes@.len() implies match (
    #[trigger] pr1.mutexes@[m]).owner {
        Some(o) => {
            &&& (o as int) < threads.len()
            &&& threads[o as int].pid == p
            &&& pr1.detect.available@[pr1.mutex_res@[m] as int] == 0
            &&& forall|l: int|
                0 <= l < pr1.detect.nt()
                    ==> #[trigger] pr1.detect.alloc_m()[l][pr1.mutex_res@[m] as int] == (
                    if l == threads[o as int].local { 1int } else { 0int })
        },
        None => {
            &&& pr1.detect.available@[pr1.mutex_res@[m] as int] == 1
            &&& forall|l: int|
                0 <= l < pr1.detect.nt()
                    ==> #[trigger] pr1.detect.alloc_m()[l][pr1.mutex_res@[m] as int] == 0
        },
    } by {
        assert(mutex_col_ok(pr0, threads, p, m));
    }
}

impl Kernel {
    /// `condvar_create`: a new condition variable; its id.
    pub fn condvar_create(&mut self) -> (r: isize)
        requires
            old(self).wf(),
            old(self).current is Some,
        ensures
            final(self).wf(),
            final(self).current == old(self).current,
            final(self).threads@ == old(self).threads@,
            final(self).sched.entities@ == old(self).sched.entities@,
            final(self).time == old(self).time,
            final(self).procs@.len() == old(self).procs@.len(),
            forall|q: int| 0 <= q < old(self).procs@.len() && q != old(self).cur_pid()
                ==> final(self).procs@[q] == old(self).procs@[q],
            ({
                let p = old(self).cur_pid();
                &&& old(self).procs@[p].condvars@.len() > isize::MAX ==> r == INVALID
                    && final(self).procs@ == old(self).procs@
                &&& old(self).procs@[p].condvars@.len() <= isize::MAX ==> {
                    &&& r == old(self).procs@[p].condvars@.len()
                    &&& final(self).procs@[p].condvars@.len() == old(
                        self,
                    ).procs@[p].condvars@.len() + 1
                    &&& forall|c: int| 0 <= c < old(self).procs@[p].condvars@.len()
                        ==> final(self).procs@[p].condvars@[c] == old(self).procs@[p].condvars@[c]
                    &&& final(self).procs@[p].condvars@.last().waiters@.len() == 0
                    &&& final(self).procs@[p].mutexes@ == old(self).procs@[p].mutexes@
                    &&& final(self).procs@[p].semaphores@ == old(self).procs@[p].semaphores@
                    &&& final(self).procs@[p].mailbox == old(self).procs@[p].mailbox
                    &&& final(self).procs@[p].detect == old(self).procs@[p].detect
                    &&& final(self).procs@[p].detect_enabled == old(
                        self,
                    ).procs@[p].detect_enabled
                    &&& final(self).procs@[p].state == old(self).procs@[p].state
                    &&& final(self).procs@[p].mutex_res@ == old(self).procs@[p].mutex_res@
                    &&& final(self).procs@[p].sem_res@ == old(self).procs@[p].sem_res@
                }
            }),
    {
        let c = self.current.unwrap();
        let p = self.threads[c].pid;
        let id = self.procs[p].condvars.len();
        if id > isize::MAX as usize {
            return INVALID;
        }
        self.procs[p].condvars.push(Condvar::new());
        proof {
            assert forall|q: int| 0 <= q < self.procs@.len() implies proc_ok(
                #[trigger] self.procs@[q],
                self.threads@,
                q,
            ) by {
                if q == p as int {
                    lemma_proc_ok_condvar_op(
                        old(self).procs@[q],
                        self.procs@[q],
                        self.threads@,
                        q,
                        id as int,
                    );
                }
            }
        }
        id as isize
    }

    /// Parks the running thread on condition variable `cond_id` of its
    /// process: it leaves the processor and the ready queue, turns
    /// `Blocked` on that queue's slot, and joins the queue at the tail.
    fn block_on_condvar(&mut self, cond_id: usize)
        requires
            old(self).wf(),
            old(self).current is Some,
            (cond_id as int) < old(self).procs@[old(self).cur_pid()].condvars@.len(),
            (old(self).threads@[old(self).cur_tid()].wait_mutex as int) < old(self).procs@[old(
                self,
            ).cur_pid()].mutexes@.len(),
        ensures
            final(self).wf(),
            final(self).current is None,
            final(self).time == old(self).time,
            final(self).threads@ == old(self).threads@.update(
                old(self).cur_tid(),
                Thread {
                    state: ThreadState::Blocked,
                    blocked_on: Some(WaitSlot::OnCondvar(old(self).cur_pid() as usize, cond_id)),
                    ..old(self).threads@[old(self).cur_tid()]
                },
            ),
            final(self).procs@.len() == old(self).procs@.len(),
            forall|q: int| 0 <= q < old(self).procs@.len() && q != old(self).cur_pid()
                ==> final(self).procs@[q] == old(self).procs@[q],
            ({
                let p = old(self).cur_pid();
                let pr0 = old(self).procs@[p];
                let pr1 = final(self).procs@[p];
                &&& pr1.condvars@.len() == pr0.condvars@.len()
                &&& pr1.condvars@[cond_id as int].waiters@ =~= pr0.condvars@[cond_id
                    as int].waiters@.push(old(self).cur_tid() as usize)
                &&& forall|c2: int| 0 <= c2 < pr0.condvars@.len() && c2 != cond_id
                    ==> pr1.condvars@[c2] == pr0.condvars@[c2]
                &&& pr1.mutexes@ == pr0.mutexes@
                &&& pr1.semaphores@ == pr0.semaphores@
                &&& pr1.mailbox == pr0.mailbox
                &&& pr1.detect == pr0.detect
                &&& pr1.detect_enabled == pr0.detect_enabled
                &&& pr1.state == pr0.state
                &&& pr1.threads@ == pr0.threads@
            }),
            !final(self).sched.contains_id(old(self).cur_tid() as usize),
            forall|id: usize| id != old(self).cur_tid()
                ==> final(self).sched.contains_id(id) == old(self).sched.contains_id(id),
    {
        let c = self.current.unwrap();
        let p = self.threads[c].pid;
        let code = self.threads[c].exit_code;
        self.deschedule_current(
            ThreadState::Blocked,
            Some(WaitSlot::OnCondvar(p, cond_id)),
            code,
        );
        let ghost mid = *self;
        proof {
            assert forall|i: int|
                0 <= i < mid.procs@[p as int].condvars@[cond_id as int].waiters@.len()
                implies #[trigger] mid.procs@[p as int].condvars@[cond_id as int].waiters@[i]
                != c by {
                assert(member_blocked(
                    old(self).threads@,
                    p as int,
                    mid.procs@[p as int].condvars@[cond_id as int].waiters@[i],
                    WaitSlot::OnCondvar(p, cond_id),
                ));
            }
        }
        self.procs[p].condvars[cond_id].enqueue(c);
        proof {
            assert forall|q: int| 0 <= q < self.procs@.len() implies proc_ok(
                #[trigger] self.procs@[q],
                self.threads@,
                q,
            ) by {
                if q == p as int {
                    assert forall|i: int|
                        0 <= i < self.procs@[q].condvars@[cond_id as int].waiters@.len()
                        implies member_blocked(self.threads@, q,
                        #[trigger] self.procs@[q].condvars@[cond_id as int].waiters@[i],
                        WaitSlot::OnCondvar(q as usize, cond_id))
                        && (self.threads@[self.procs@[q].condvars@[cond_id as int].waiters@[i]
                        as int].wait_mutex as int) < self.procs@[q].mutexes@.len() by {
                        if i < self.procs@[q].condvars@[cond_id as int].waiters@.len() - 1 {
                            assert(self.procs@[q].condvars@[cond_id as int].waiters@[i]
                                == mid.procs@[q].condvars@[cond_id as int].waiters@[i]);
                            assert(member_blocked(mid.threads@, q,
                                mid.procs@[q].condvars@[cond_id as int].waiters@[i],
                                WaitSlot::OnCondvar(q as usize, cond_id)));
                        } else {
                            assert(self.procs@[q].condvars@[cond_id as int].waiters@[i] == c);
                        }
                    }
                    lemma_proc_ok_condvar_op(
                        mid.procs@[q],
                        self.procs@[q],
                        mid.threads@,
                        q,
                        cond_id as int,
                    );
                }
            }
        }
    }

    /// `condvar_wait(cond, mutex)`: one atomic step that releases the held
    /// mutex (clearing it, or waking or handing it to its next locker
    /// exactly as `mutex_unlock` would) and parks the caller on the
    /// condition variable's FIFO queue. After a signal wakes it, the caller
    /// re-acquires that mutex before it runs on.
    #[verifier::rlimit(100)]
    #[verifier::spinoff_prover]
    pub fn condvar_wait(&mut self, cond_id: usize, mutex_id: usize) -> (r: WaitResult)
        requires
            old(self).wf(),
            old(self).current is Some,
        ensures
            final(self).wf(),
            final(self).time == old(self).time,
            ({
                let c = old(self).cur_tid();
                let p = old(self).cur_pid();
                let pr0 = old(self).procs@[p];
                &&& (cond_id >= pr0.condvars@.len() || mutex_id >= pr0.mutexes@.len())
                    ==> r == WaitResult::NoSuchId && final(self).procs@ == old(self).procs@
                        && final(self).threads@ == old(self).threads@ && final(self).current
                        == old(self).current
                &&& (cond_id < pr0.condvars@.len() && mutex_id < pr0.mutexes@.len()
                    && pr0.mutexes@[mutex_id as int].owner != Some(c as usize))
                    ==> r == WaitResult::NotOwner && final(self).procs@ == old(self).procs@
                        && final(self).threads@ == old(self).threads@ && final(self).current
                        == old(self).current
                &&& (cond_id < pr0.condvars@.len() && mutex_id < pr0.mutexes@.len()
                    && pr0.mutexes@[mutex_id as int].owner == Some(c as usize)) ==> {
                    let mu = pr0.mutexes@[mutex_id as int];
                    &&& r == WaitResult::Waiting
                    &&& final(self).current is None
                    &&& final(self).threads@[c].state == ThreadState::Blocked
                    &&& final(self).threads@[c].blocked_on == Some(
                        WaitSlot::OnCondvar(p as usize, cond_id),
                    )
                    &&& final(self).threads@[c].wait_mutex == mutex_id
                    &&& final(self).procs@[p].condvars@[cond_id as int].waiters@
                        =~= pr0.condvars@[cond_id as int].waiters@.push(c as usize)
                    &&& final(self).procs@[p].condvars@.len() == pr0.condvars@.len()
                    &&& forall|c2: int| 0 <= c2 < pr0.condvars@.len() && c2 != cond_id
                        ==> final(self).procs@[p].condvars@[c2] == pr0.condvars@[c2]
                    &&& final(self).procs@[p].mutexes@.len() == pr0.mutexes@.len()
                    &&& forall|m: int| 0 <= m < pr0.mutexes@.len() && m != mutex_id
                        ==> final(self).procs@[p].mutexes@[m] == pr0.mutexes@[m]
                    &&& mu.waiters@.len() == 0 ==> {
                        &&& final(self).procs@[p].mutexes@[mutex_id as int].owner is None
                        &&& final(self).procs@[p].mutexes@[mutex_id as int].waiters@.len() == 0
                        &&& forall|u: int| 0 <= u < old(self).threads@.len() && u != c
                            ==> final(self).threads@[u] == old(self).threads@[u]
                    }
                    &&& mu.waiters@.len() > 0 ==> {
                        let w = mu.waiters@[0];
                        &&& final(self).procs@[p].mutexes@[mutex_id as int].owner == Some(w)
                        &&& final(self).procs@[p].mutexes@[mutex_id as int].waiters@
                            =~= mu.waiters@.subrange(1, mu.waiters@.len() as int)
                        &&& final(self).threads@[w as int].state == ThreadState::Ready
                        &&& final(self).threads@[w as int].blocked_on is None
                        &&& final(self).sched.contains_id(w)
                        &&& forall|u: int| 0 <= u < old(self).threads@.len() && u != c && u != w
                            ==> final(self).threads@[u] == old(self).threads@[u]
                    }
                    &&& final(self).procs@[p].semaphores@ == pr0.semaphores@
                    &&& final(self).procs@[p].mailbox == pr0.mailbox
                    &&& final(self).procs@[p].detect_enabled == pr0.detect_enabled
                    &&& forall|q: int| 0 <= q < old(self).procs@.len() && q != p
                        ==> final(self).procs@[q] == old(self).procs@[q]
                    &&& !final(self).sched.contains_id(c as usize)
                }
            }),
    {
        let c = self.current.unwrap();
        let p = self.threads[c].pid;
        if cond_id >= self.procs[p].condvars.len() || mutex_id >= self.procs[p].mutexes.len() {
            return WaitResult::NoSuchId;
        }
        let is_owner = match self.procs[p].mutexes[mutex_id].owner {
            Some(o) => o == c,
            None => false,
        };
        if !is_owner {
            return WaitResult::NotOwner;
        }
        let th = Thread { wait_mutex: mutex_id, ..self.threads[c] };
        self.threads[c] = th;
        proof {
            assert forall|q: int| 0 <= q < self.procs@.len() implies proc_ok(
                #[trigger] self.procs@[q],
                self.threads@,
                q,
            ) by {
                lemma_proc_ok_retarget(
                    old(self).procs@[q],
                    old(self).threads@,
                    self.threads@,
                    q,
                    c as int,
                );
            }
        }
        let ghost mid0 = *self;
        self.mutex_unlock(mutex_id);
        let ghost mid1 = *self;
        self.block_on_condvar(cond_id);
        proof {
            let pr0 = old(self).procs@[p as int];
            if pr0.mutexes@[mutex_id as int].waiters@.len() > 0 {
                let w_ = pr0.mutexes@[mutex_id as int].waiters@[0];
                assert forall|u: int|
                    0 <= u < old(self).threads@.len() && u != c && u != w_
                    implies self.threads@[u] == old(self).threads@[u] by {
                    assert(mid0.threads@[u] == old(self).threads@[u]);
                    assert(mid1.threads@[u] == mid0.threads@[u]);
                    assert(self.threads@[u] == mid1.threads@[u]);
                }
            } else {
                assert forall|u: int|
                    0 <= u < old(self).threads@.len() && u != c
                    implies self.threads@[u] == old(self).threads@[u] by {
                    assert(mid0.threads@[u] == old(self).threads@[u]);
                    assert(mid1.threads@[u] == mid0.threads@[u]);
                    assert(self.threads@[u] == mid1.threads@[u]);
                }
            }
        }
        WaitResult::Waiting
    }

    /// `condvar_signal`: wakes the head waiter, if any (signals are not
    /// stored). The woken thread re-acquires the mutex it released in
    /// `condvar_wait`: it takes it when free, parks on its queue when held
    /// (spurious-wakeup style, with a spin mutex it simply retries), and
    /// only then runs on.
    #[verifier::rlimit(100)]
    #[verifier::spinoff_prover]
    pub fn condvar_signal(&mut self, cond_id: usize) -> (r: SignalResult)
        requires
            old(self).wf(),
            old(self).current is Some,
        ensures
            final(self).wf(),
            final(self).time == old(self).time,
            final(self).current == old(self).current,
            ({
                let p = old(self).cur_pid();
                let pr0 = old(self).procs@[p];
                &&& cond_id >= pr0.condvars@.len() ==> r == SignalResult::NoSuchId
                    && final(self).procs@ == old(self).procs@ && final(self).threads@ == old(self).threads@
                &&& (cond_id < pr0.condvars@.len() && pr0.condvars@[cond_id as int].waiters@.len()
                    == 0) ==> r == SignalResult::Empty && final(self).procs@ == old(self).procs@
                    && final(self).threads@ == old(self).threads@
                &&& (cond_id < pr0.condvars@.len() && pr0.condvars@[cond_id as int].waiters@.len()
                    > 0) ==> {
                    let w = pr0.condvars@[cond_id as int].waiters@[0];
                    let m = old(self).threads@[w as int].wait_mutex as int;
                    let mu = pr0.mutexes@[m];
                    &&& r == SignalResult::Woke(w)
                    &&& final(self).procs@[p].condvars@[cond_id as int].waiters@
                        =~= pr0.condvars@[cond_id as int].waiters@.subrange(
                        1,
                        pr0.condvars@[cond_id as int].waiters@.len() as int,
                    )
                    &&& forall|c2: int| 0 <= c2 < pr0.condvars@.len() && c2 != cond_id
                        ==> final(self).procs@[p].condvars@[c2] == pr0.condvars@[c2]
                    &&& forall|u: int| 0 <= u < old(self).threads@.len() && u != w
                        ==> final(self).threads@[u] == old(self).threads@[u]
                    &&& forall|q: int| 0 <= q < old(self).procs@.len() && q != p
                        ==> final(self).procs@[q] == old(self).procs@[q]
                    &&& final(self).procs@[p].semaphores@ == pr0.semaphores@
                    &&& mu.owner is None ==> {
                        &&& final(self).threads@[w as int].state == ThreadState::Ready
                        &&& final(self).procs@[p].mutexes@[m].owner == Some(w)
                        &&& final(self).sched.contains_id(w)
                        &&& sched_inserted(
                            old(self).sched,
                            final(self).sched,
                            w,
                            old(self).threads@[w as int].priority,
                        )
                    }
                    &&& (mu.owner is Some && mu.kind == MutexKind::Spin) ==> {
                        &&& final(self).threads@[w as int].state == ThreadState::Ready
                        &&& final(self).procs@[p].mutexes@ == pr0.mutexes@
                        &&& final(self).sched.contains_id(w)
                        &&& sched_inserted(
                            old(self).sched,
                            final(self).sched,
                            w,
                            old(self).threads@[w as int].priority,
                        )
                    }
                    &&& (mu.owner is Some && mu.kind == MutexKind::Blocking) ==> {
                        &&& final(self).threads@[w as int].state == ThreadState::Blocked
                        &&& final(self).threads@[w as int].blocked_on == Some(
                            WaitSlot::OnMutex(p as usize, old(self).threads@[w as int].wait_mutex),
                        )
                        &&& final(self).procs@[p].mutexes@[m].owner == mu.owner
                        &&& final(self).procs@[p].mutexes@[m].waiters@ =~= mu.waiters@.push(w)
                    }
                }
            }),
    {
        let c = self.current.unwrap();
        let p = self.threads[c].pid;
        if cond_id >= self.procs[p].condvars.len() {
            return SignalResult::NoSuchId;
        }
        if self.procs[p].condvars[cond_id].waiters.len() == 0 {
            return SignalResult::Empty;
        }
        let popped = self.procs[p].condvars[cond_id].signal_pop();
        let w = match popped {
            None => {
                return SignalResult::Empty;
            },
            Some(w) => w,
        };
        proof {
            assert(member_blocked(old(self).threads@, p as int, w,
                WaitSlot::OnCondvar(p, cond_id)));
            let pr0 = old(self).procs@[p as int];
            let pr1 = self.procs@[p as int];
            assert forall|i: int| 0 <= i < pr1.condvars@[cond_id as int].waiters@.len()
                implies member_blocked(self.threads@, p as int,
                #[trigger] pr1.condvars@[cond_id as int].waiters@[i],
                WaitSlot::OnCondvar(p, cond_id)) && (self.threads@[pr1.condvars@[cond_id
                as int].waiters@[i] as int].wait_mutex as int) < pr1.mutexes@.len() by {
                assert(pr1.condvars@[cond_id as int].waiters@[i]
                    == pr0.condvars@[cond_id as int].waiters@[i + 1]);
                assert(member_blocked(old(self).threads@, p as int,
                    pr0.condvars@[cond_id as int].waiters@[i + 1],
                    WaitSlot::OnCondvar(p, cond_id)));
            }
            assert forall|q: int| 0 <= q < self.procs@.len() implies proc_ok(
                #[trigger] self.procs@[q],
                self.threads@,
                q,
            ) by {
                if q == p as int {
                    lemma_proc_ok_condvar_op(
                        old(self).procs@[q],
                        self.procs@[q],
                        self.threads@,
                        q,
                        cond_id as int,
                    );
                }
            }
            assert forall|q: int, m: int, i: int|
                0 <= q < self.procs@.len() && 0 <= m < self.procs@[q].mutexes@.len() && 0 <= i
                    < self.procs@[q].mutexes@[m].waiters@.len()
                implies #[trigger] self.procs@[q].mutexes@[m].waiters@[i] != w by {
                let x = self.procs@[q].mutexes@[m].waiters@[i];
                assert(member_blocked(self.threads@, q, x,
                    WaitSlot::OnMutex(q as usize, m as usize)));
            }
            assert forall|q: int, s: int, i: int|
                0 <= q < self.procs@.len() && 0 <= s < self.procs@[q].semaphores@.len() && 0 <= i
                    < self.procs@[q].semaphores@[s].waiters@.len()
                implies #[trigger] self.procs@[q].semaphores@[s].waiters@[i] != w by {
                let x = self.procs@[q].semaphores@[s].waiters@[i];
                assert(member_blocked(self.threads@, q, x,
                    WaitSlot::OnSem(q as usize, s as usize)));
            }
            assert forall|q: int, c2: int, i: int|
                0 <= q < self.procs@.len() && 0 <= c2 < self.procs@[q].condvars@.len() && 0 <= i
                    < self.procs@[q].condvars@[c2].waiters@.len()
                implies #[trigger] self.procs@[q].condvars@[c2].waiters@[i] != w by {
                let x = self.procs@[q].condvars@[c2].waiters@[i];
                assert(member_blocked(self.threads@, q, x,
                    WaitSlot::OnCondvar(q as usize, c2 as usize)));
                if q == p as int && c2 == cond_id {
                    assert(x == old(self).procs@[q].condvars@[cond_id as int].waiters@[i + 1]);
                }
            }
        }
        let m = self.threads[w].wait_mutex;
        let col = self.procs[p].mutex_res[m];
        let local_w = self.threads[w].local;
        let free = match self.procs[p].mutexes[m].owner {
            None => true,
            Some(_) => false,
        };
        if free {
            let ghost mid = *self;
            self.procs[p].detect.grant(local_w, col);
            self.procs[p].mutexes[m].try_acquire(w);
            proof {
                assert forall|q: int| 0 <= q < self.procs@.len() implies proc_ok(
                    #[trigger] self.procs@[q],
                    self.threads@,
                    q,
                ) by {
                    if q == p as int {
                        lemma_proc_ok_mutex_op(
                            mid.procs@[q],
                            self.procs@[q],
                            self.threads@,
                            q,
                            m as int,
                        );
                    }
                }
            }
            self.wake_thread(w);
            return SignalResult::Woke(w);
        }
        let spin = match self.procs[p].mutexes[m].kind {
            MutexKind::Spin => true,
            MutexKind::Blocking => false,
        };
        if spin {
            self.wake_thread(w);
            return SignalResult::Woke(w);
        }
        let ghost mid2 = *self;
        self.procs[p].detect.request_set(local_w, col);
        proof {
            assert forall|q: int| 0 <= q < self.procs@.len() implies proc_ok(
                #[trigger] self.procs@[q],
                self.threads@,
                q,
            ) by {
                if q == p as int {
                    lemma_proc_ok_req_only(mid2.procs@[q], self.procs@[q], self.threads@, q);
                }
            }
        }
        let th = Thread { blocked_on: Some(WaitSlot::OnMutex(p, m)), ..self.threads[w] };
        self.threads[w] = th;
        let ghost mid3 = *self;
        proof {
            assert forall|q: int| 0 <= q < self.procs@.len() implies proc_ok(
                #[trigger] self.procs@[q],
                self.threads@,
                q,
            ) by {
                lemma_proc_ok_retarget_nonmember(
                    mid2.procs@[q],
                    mid2.threads@,
                    self.threads@,
                    q,
                    w as int,
                );
            }
            assert forall|i: int|
                0 <= i < mid3.procs@[p as int].mutexes@[m as int].waiters@.len()
                implies #[trigger] mid3.procs@[p as int].mutexes@[m as int].waiters@[i] != w by {
                assert(mid3.procs@[p as int].mutexes@[m as int].waiters@[i]
                    == mid2.procs@[p as int].mutexes@[m as int].waiters@[i]);
            }
        }
        self.procs[p].mutexes[m].enqueue(w);
        proof {
            assert forall|q: int| 0 <= q < self.procs@.len() implies proc_ok(
                #[trigger] self.procs@[q],
                self.threads@,
                q,
            ) by {
                if q == p as int {
                    assert forall|i: int|
                        0 <= i < self.procs@[q].mutexes@[m as int].waiters@.len()
                        implies member_blocked(self.threads@, q,
                        #[trigger] self.procs@[q].mutexes@[m as int].waiters@[i],
                        WaitSlot::OnMutex(q as usize, m)) by {
                        if i < self.procs@[q].mutexes@[m as int].waiters@.len() - 1 {
                            assert(self.procs@[q].mutexes@[m as int].waiters@[i]
                                == mid3.procs@[q].mutexes@[m as int].waiters@[i]);
                            assert(member_blocked(mid3.threads@, q,
                                mid3.procs@[q].mutexes@[m as int].waiters@[i],
                                WaitSlot::OnMutex(q as usize, m)));
                        } else {
                            assert(self.procs@[q].mutexes@[m as int].waiters@[i] == w);
                        }
                    }
                    lemma_proc_ok_mutex_op(
                        mid3.procs@[q],
                        self.procs@[q],
                        mid3.threads@,
                        q,
                        m as int,
                    );
                }
            }
        }
        SignalResult::Woke(w)
    }
}

} // verus!
