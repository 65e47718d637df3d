//! Stride scheduling. Every runnable entity carries a priority of at least
//! two and a stride of `BIG_STRIDE / priority`; dispatch picks the entity
//! with the least accumulated pass value and advances it by its stride.
//! Pass values wrap around in `u64`, so the ready queue keeps the spread of
//! live pass values at or under `BIG_STRIDE / 2` and compares them with
//! wrapping subtraction; ghost fields carry the unwrapped pass values that
//! justify those comparisons and the fairness bound.

use vstd::prelude::*;
use vstd::arithmetic::div_mod::lemma_fundamental_div_mod;
use vstd::arithmetic::div_mod::lemma_div_is_ordered_by_denominator;

verus! {

/// Common numerator of every stride.
pub const BIG_STRIDE: u64 = 0x8000_0000_0000_0000;

/// Least priority a caller may request; smaller values are rejected.
pub const MIN_PRIORITY: u64 = 2;

/// Priority a fresh entity starts with when none is requested.
pub const DEFAULT_PRIORITY: u64 = 16;

/// One runnable entity in the ready queue. The `u64` fields drive execution;
/// the ghost fields record the unwrapped pass history: `truth` is the pass
/// value had it never wrapped, and `truth == base + dispatches * stride`
/// since the entity's last arrival or priority change.
#[derive(Clone, Copy)]
pub struct Entity {
    pub id: usize,
    pub priority: u64,
    pub stride: u64,
    pub pass: u64,
    pub base: Ghost<int>,
    pub dispatches: Ghost<nat>,
    pub truth: Ghost<int>,
}

impl Entity {
    pub open spec fn wf(self) -> bool {
        &&& MIN_PRIORITY <= self.priority
        &&& self.stride == BIG_STRIDE as int / self.priority as int
        &&& 0 <= self.base@
        &&& self.truth@ == self.base@ + self.dispatches@ * self.stride
        &&& self.pass == self.truth@ % 0x1_0000_0000_0000_0000
    }
}

/// An entity's stride never exceeds half of `BIG_STRIDE`, because its
/// priority is at least two.
proof fn lemma_stride_le_half(priority: u64)
    requires
        MIN_PRIORITY <= priority,
    ensures
        BIG_STRIDE as int / priority as int <= BIG_STRIDE / 2,
{
    lemma_div_is_ordered_by_denominator(BIG_STRIDE as int, 2, priority as int);
}

/// With both unwrapped values within half the `u64` range of each other,
/// wrapping subtraction of the wrapped values decides their true order.
proof fn lemma_wrap_cmp(at: int, bt: int, a: u64, b: u64)
    requires
        0 <= at,
        0 <= bt,
        a == at % 0x1_0000_0000_0000_0000,
        b == bt % 0x1_0000_0000_0000_0000,
        -0x4000_0000_0000_0000 <= bt - at <= 0x4000_0000_0000_0000,
    ensures
        (vstd::wrapping::u64_specs::wrapping_sub(b, a) < 0x8000_0000_0000_0000) <==> at <= bt,
{
    let r = 0x1_0000_0000_0000_0000int;
    lemma_fundamental_div_mod(at, r);
    lemma_fundamental_div_mod(bt, r);
}

/// Position `k` holds the entity that dispatch must choose: its unwrapped
/// pass is minimal, and it stands before every other minimum (FIFO order
/// among ties).
pub open spec fn min_at(s: Seq<Entity>, k: int) -> bool {
    &&& 0 <= k < s.len()
    &&& forall|i: int| 0 <= i < s.len() ==> s[k].truth@ <= #[trigger] s[i].truth@
    &&& forall|i: int| 0 <= i < k ==> s[k].truth@ < #[trigger] s[i].truth@
}

/// How one dispatch changes the chosen entity: the pass advances by one
/// stride (wrapping in `u64`, exactly in ghost state) and nothing else moves.
pub open spec fn advanced(a: Entity, b: Entity) -> bool {
    &&& b.id == a.id
    &&& b.priority == a.priority
    &&& b.stride == a.stride
    &&& b.base@ == a.base@
    &&& b.dispatches@ == a.dispatches@ + 1
    &&& b.truth@ == a.truth@ + a.stride
}

/// How an insertion changes the ready queue: one entity appended, with
/// the given id and priority, a zero dispatch count, and a pass equal to
/// the least live pass (zero in an empty queue).
pub open spec fn sched_inserted(s0: Scheduler, s1: Scheduler, id: usize, priority: u64) -> bool {
    &&& s1.entities@.len() == s0.entities@.len() + 1
    &&& forall|i: int| 0 <= i < s0.entities@.len() ==> s1.entities@[i] == s0.entities@[i]
    &&& s1.entities@.last().id == id
    &&& s1.entities@.last().priority == priority
    &&& s1.entities@.last().stride == BIG_STRIDE as int / priority as int
    &&& s1.entities@.last().dispatches@ == 0
    &&& s0.entities@.len() > 0 ==> exists|k: int|
        #[trigger] min_at(s0.entities@, k) && s1.entities@.last().truth@
            == s0.entities@[k].truth@
    &&& s0.entities@.len() == 0 ==> s1.entities@.last().truth@ == 0
}

/// The ready queue, in FIFO arrival order.
pub struct Scheduler {
    pub entities: Vec<Entity>,
}

impl Scheduler {
    /// Every entity is well formed, ids are distinct, and the unwrapped pass
    /// values stay within `BIG_STRIDE / 2` of one another, which keeps the
    /// wrapping comparison truthful.
    pub open spec fn wf(self) -> bool {
        &&& forall|i: int| 0 <= i < self.entities@.len() ==> (#[trigger] self.entities@[i]).wf()
        &&& forall|i: int, j: int|
            0 <= i < self.entities@.len() && 0 <= j < self.entities@.len() && i != j
                ==> (#[trigger] self.entities@[i]).id != (#[trigger] self.entities@[j]).id
        &&& forall|i: int, j: int|
            0 <= i < self.entities@.len() && 0 <= j < self.entities@.len()
                ==> (#[trigger] self.entities@[i]).truth@ - (#[trigger] self.entities@[j]).truth@
                    <= 0x4000_0000_0000_0000
    }

    pub open spec fn contains_id(self, id: usize) -> bool {
        exists|i: int| 0 <= i < self.entities@.len() && (#[trigger] self.entities@[i]).id == id
    }

    pub fn new() -> (r: Scheduler)
        ensures
            r.wf(),
            r.entities@.len() == 0,
    {
        Scheduler { entities: Vec::new() }
    }

    pub fn len(&self) -> (r: usize)
        ensures
            r == self.entities@.len(),
    {
        self.entities.len()
    }

    /// True ordering test on wrapped pass values: does `a` run strictly
    /// before `b`?
    fn pass_lt(a: &Entity, b: &Entity) -> (r: bool)
        requires
            a.wf(),
            b.wf(),
            -0x4000_0000_0000_0000 <= a.truth@ - b.truth@ <= 0x4000_0000_0000_0000,
        ensures
            r == (a.truth@ < b.truth@),
    {
        let w = a.pass.wrapping_sub(b.pass);
        proof {
            lemma_wrap_cmp(b.truth@, a.truth@, b.pass, a.pass);
        }
        !(w < 0x8000_0000_0000_0000)
    }

    /// Index of the entity that dispatch would choose, without dispatching.
    fn find_min(&self) -> (r: usize)
        requires
            self.wf(),
            self.entities@.len() > 0,
        ensures
            min_at(self.entities@, r as int),
    {
        let mut best: usize = 0;
        let mut i: usize = 1;
        while i < self.entities.len()
            invariant
                self.wf(),
                0 < i <= self.entities@.len(),
                best < i,
                forall|t: int| 0 <= t < i
                    ==> self.entities@[best as int].truth@ <= #[trigger] self.entities@[t].truth@,
                forall|t: int| 0 <= t < best
                    ==> self.entities@[best as int].truth@ < #[trigger] self.entities@[t].truth@,
            decreases self.entities@.len() - i,
        {
            if Self::pass_lt(&self.entities[i], &self.entities[best]) {
                best = i;
            }
            i = i + 1;
        }
        best
    }

    /// Dispatch: picks the ready entity with least pass (FIFO among equals),
    /// advances its pass by its stride, and returns its id; `None` when no
    /// entity is ready.
    pub fn pick(&mut self) -> (r: Option<usize>)
        requires
            old(self).wf(),
        ensures
            final(self).wf(),
            (r is None) <==> old(self).entities@.len() == 0,
            old(self).entities@.len() == 0 ==> final(self).entities@ == old(self).entities@,
            old(self).entities@.len() > 0 ==> exists|k: int|
                {
                    &&& #[trigger] min_at(old(self).entities@, k)
                    &&& r == Some(old(self).entities@[k].id)
                    &&& final(self).entities@.len() == old(self).entities@.len()
                    &&& forall|i: int|
                        0 <= i < old(self).entities@.len() && i != k
                            ==> final(self).entities@[i] == old(self).entities@[i]
                    &&& advanced(old(self).entities@[k], final(self).entities@[k])
                },
    {
        if self.entities.len() == 0 {
            return None;
        }
        let best = self.find_min();
        let e = self.entities[best];
        let new_pass = e.pass.wrapping_add(e.stride);
        let e2 = Entity {
            pass: new_pass,
            dispatches: Ghost(e.dispatches@ + 1),
            truth: Ghost(e.truth@ + e.stride),
            ..e
        };
        proof {
            lemma_stride_le_half(e.priority);
            assert((e.dispatches@ + 1) * e.stride == e.dispatches@ * e.stride + e.stride)
                by (nonlinear_arith);
            let r = 0x1_0000_0000_0000_0000int;
            lemma_fundamental_div_mod(e.truth@, r);
            assert(e2.pass == e2.truth@ % r) by {
                lemma_fundamental_div_mod(e.truth@ + e.stride, r);
            }
        }
        self.entities[best] = e2;
        proof {
            assert(min_at(old(self).entities@, best as int));
            assert(advanced(old(self).entities@[best as int], self.entities@[best as int]));
        }
        Some(e.id)
    }

    /// Admits a new entity. Its pass starts at the least pass currently in
    /// the queue (zero when the queue is empty), so it cannot monopolize the
    /// processor nor fall outside the live spread.
    pub fn insert(&mut self, id: usize, priority: u64)
        requires
            old(self).wf(),
            MIN_PRIORITY <= priority,
            !old(self).contains_id(id),
        ensures
            final(self).wf(),
            sched_inserted(*old(self), *final(self), id, priority),
            final(self).entities@.len() == old(self).entities@.len() + 1,
            forall|i: int| 0 <= i < old(self).entities@.len()
                ==> final(self).entities@[i] == old(self).entities@[i],
            ({
                let e = final(self).entities@.last();
                &&& e.id == id
                &&& e.priority == priority
                &&& e.stride == BIG_STRIDE as int / priority as int
                &&& e.dispatches@ == 0
                &&& old(self).entities@.len() > 0 ==> exists|k: int|
                    #[trigger] min_at(old(self).entities@, k)
                        && e.truth@ == old(self).entities@[k].truth@
                &&& old(self).entities@.len() == 0 ==> e.truth@ == 0
            }),
            final(self).contains_id(id),
    {
        let stride = BIG_STRIDE / priority;
        let e = if self.entities.len() == 0 {
            Entity {
                id,
                priority,
                stride,
                pass: 0,
                base: Ghost(0int),
                dispatches: Ghost(0nat),
                truth: Ghost(0int),
            }
        } else {
            let k = self.find_min();
            let m = self.entities[k];
            Entity {
                id,
                priority,
                stride,
                pass: m.pass,
                base: Ghost(m.truth@),
                dispatches: Ghost(0nat),
                truth: Ghost(m.truth@),
            }
        };
        self.entities.push(e);
    }

    /// Position of `id` in the queue, when present.
    fn find_id(&self, id: usize) -> (r: Option<usize>)
        requires
            self.wf(),
        ensures
            match r {
                Some(k) => k < self.entities@.len() && self.entities@[k as int].id == id,
                None => !self.contains_id(id),
            },
    {
        let mut i: usize = 0;
        while i < self.entities.len()
            invariant
                i <= self.entities@.len(),
                forall|t: int| 0 <= t < i ==> (#[trigger] self.entities@[t]).id != id,
            decreases self.entities@.len() - i,
        {
            if self.entities[i].id == id {
                return Some(i);
            }
            i = i + 1;
        }
        None
    }

    /// Withdraws `id` from the ready queue (the entity blocked or exited).
    /// Returns whether it was present.
    pub fn remove(&mut self, id: usize) -> (r: bool)
        requires
            old(self).wf(),
        ensures
            final(self).wf(),
            !final(self).contains_id(id),
            r <==> old(self).contains_id(id),
            r ==> exists|k: int|
                0 <= k < old(self).entities@.len()
                    && (#[trigger] old(self).entities@[k]).id == id
                    && final(self).entities@
                        =~= old(self).entities@.remove(k),
            !r ==> final(self).entities@ == old(self).entities@,
    {
        match self.find_id(id) {
            Some(k) => {
                self.entities.remove(k);
                proof {
                    assert forall|i: int|
                        0 <= i < self.entities@.len() implies (#[trigger] self.entities@[i]).id
                        != id by {
                        if i < k {
                            assert(self.entities@[i] == old(self).entities@[i]);
                        } else {
                            assert(self.entities@[i] == old(self).entities@[i + 1]);
                        }
                    }
                }
                true
            },
            None => false,
        }
    }

    /// Adjusts the priority of `id` for future dispatches, recomputing its
    /// stride; past accounting stands (the fairness window restarts here).
    /// Returns `p` on success, `-1` when `p < MIN_PRIORITY` or no entity
    /// carries `id`.
    pub fn set_priority(&mut self, id: usize, p: isize) -> (r: isize)
        requires
            old(self).wf(),
        ensures
            final(self).wf(),
            p < MIN_PRIORITY ==> r == -1 && final(self).entities@ == old(self).entities@,
            p >= MIN_PRIORITY && !old(self).contains_id(id)
                ==> r == -1 && final(self).entities@ == old(self).entities@,
            final(self).entities@.len() == old(self).entities@.len(),
            p >= MIN_PRIORITY && old(self).contains_id(id) ==> (r == p && exists|k: int|
                {
                    &&& 0 <= k < old(self).entities@.len()
                    &&& (#[trigger] old(self).entities@[k]).id == id
                    &&& final(self).entities@[k].id == id
                    &&& final(self).entities@[k].pass == old(self).entities@[k].pass
                    &&& final(self).entities@[k].priority == p
                    &&& final(self).entities@[k].stride == BIG_STRIDE as int / p as int
                    &&& final(self).entities@[k].truth@ == old(self).entities@[k].truth@
                    &&& forall|i: int|
                        0 <= i < old(self).entities@.len() && i != k
                            ==> final(self).entities@[i] == old(self).entities@[i]
                }),
    {
        if p < MIN_PRIORITY as isize {
            return -1;
        }
        let pr = p as u64;
        match self.find_id(id) {
            Some(k) => {
                let e = self.entities[k];
                let e2 = Entity {
                    priority: pr,
                    stride: BIG_STRIDE / pr,
                    base: Ghost(e.truth@),
                    dispatches: Ghost(0nat),
                    ..e
                };
                self.entities[k] = e2;
                p
            },
            None => -1,
        }
    }
}

/// The live spread of unwrapped pass values never exceeds `BIG_STRIDE / 2`:
/// no ready entity can fall that far behind the processor's virtual time.
pub proof fn lemma_pass_spread(s: &Scheduler, i: int, j: int)
    requires
        s.wf(),
        0 <= i < s.entities@.len(),
        0 <= j < s.entities@.len(),
    ensures
        -(BIG_STRIDE / 2) <= s.entities@[i].truth@ - s.entities@[j].truth@ <= BIG_STRIDE / 2,
{
}

/// Stride fairness: for two entities whose fairness windows opened at the
/// same virtual time (equal ghost `base`, as at boot), the weighted dispatch
/// counts `dispatches * stride` differ by at most `BIG_STRIDE / 2`. Since
/// `stride == BIG_STRIDE / priority`, each entity's share of dispatches is
/// proportional to its priority, up to that constant slack.
pub proof fn lemma_stride_fairness(s: &Scheduler, i: int, j: int)
    requires
        s.wf(),
        0 <= i < s.entities@.len(),
        0 <= j < s.entities@.len(),
        s.entities@[i].base@ == s.entities@[j].base@,
    ensures
        -(BIG_STRIDE / 2)
            <= s.entities@[i].dispatches@ * s.entities@[i].stride
                - s.entities@[j].dispatches@ * s.entities@[j].stride
            <= BIG_STRIDE / 2,
{
    lemma_pass_spread(s, i, j);
}

} // verus!
