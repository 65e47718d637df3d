//! Banker-style deadlock detection. The state is a per-resource available
//! pool, an allocation matrix and a request matrix (thread by resource).
//! `is_safe` runs the classic relaxation: repeatedly finish any thread whose
//! whole request row fits in the pool, returning its allocation row to the
//! pool, until everyone finished (safe) or nobody can (unsafe). Its
//! contract is exact: the answer is `true` if and only if some finishing
//! order of all threads exists.

use vstd::prelude::*;
use vstd::seq_lib::group_seq_properties;
use vstd::set_lib::lemma_len_subset;
use vstd::set_lib::set_int_range;
use vstd::set_lib::lemma_int_range;

verus! {

/// The thread-by-resource matrices as mathematical rows.
pub open spec fn mat_view(m: Vec<Vec<u64>>) -> Seq<Seq<u64>> {
    Seq::new(m@.len(), |i: int| m@[i]@)
}

/// Every row has exactly `nr` columns.
pub open spec fn matrix_wf(m: Seq<Seq<u64>>, nr: int) -> bool {
    forall|t: int| 0 <= t < m.len() ==> (#[trigger] m[t]).len() == nr
}

/// Units of resource `r` released by finishing the threads listed in
/// `order`, in that order.
pub open spec fn released(m: Seq<Seq<u64>>, order: Seq<int>, r: int) -> int
    decreases order.len(),
{
    if order.len() == 0 {
        0
    } else {
        released(m, order.drop_last(), r) + m[order.last()][r]
    }
}

/// The order `0, 1, ..., n-1`.
pub open spec fn id_order(n: int) -> Seq<int> {
    Seq::new(if n < 0 { 0 } else { n as nat }, |i: int| i)
}

/// Total units of resource `r` held across all threads.
pub open spec fn col_sum(m: Seq<Seq<u64>>, r: int) -> int {
    released(m, id_order(m.len() as int), r)
}

pub open spec fn in_range(order: Seq<int>, n: int) -> bool {
    forall|k: int| 0 <= k < order.len() ==> 0 <= #[trigger] order[k] < n
}

/// The `k`-th thread of `order` can finish once its predecessors have: its
/// whole request row fits in the pool grown by their releases.
pub open spec fn step_ok(
    avail: Seq<u64>,
    alloc: Seq<Seq<u64>>,
    req: Seq<Seq<u64>>,
    order: Seq<int>,
    k: int,
) -> bool {
    forall|r: int| 0 <= r < avail.len()
        ==> #[trigger] req[order[k]][r] <= avail[r] + released(alloc, order.take(k), r)
}

/// `order` lists every thread exactly once, and each can finish in turn.
pub open spec fn safe_order(
    avail: Seq<u64>,
    alloc: Seq<Seq<u64>>,
    req: Seq<Seq<u64>>,
    order: Seq<int>,
) -> bool {
    &&& order.no_duplicates()
    &&& in_range(order, alloc.len() as int)
    &&& forall|t: int| 0 <= t < alloc.len() ==> order.contains(t)
    &&& forall|k: int| 0 <= k < order.len() ==> step_ok(avail, alloc, req, order, k)
}

/// The state is safe when some finishing order of all threads exists.
pub open spec fn safe(avail: Seq<u64>, alloc: Seq<Seq<u64>>, req: Seq<Seq<u64>>) -> bool {
    exists|order: Seq<int>| safe_order(avail, alloc, req, order)
}

proof fn lemma_released_nonneg(m: Seq<Seq<u64>>, order: Seq<int>, r: int)
    ensures
        released(m, order, r) >= 0,
    decreases order.len(),
{
    if order.len() > 0 {
        lemma_released_nonneg(m, order.drop_last(), r);
    }
}

/// `released` reads only the listed rows, at column `r`.
proof fn lemma_released_congruent(m1: Seq<Seq<u64>>, m2: Seq<Seq<u64>>, order: Seq<int>, r: int)
    requires
        forall|k: int| 0 <= k < order.len() ==> m1[#[trigger] order[k]][r] == m2[order[k]][r],
    ensures
        released(m1, order, r) == released(m2, order, r),
    decreases order.len(),
{
    if order.len() > 0 {
        lemma_released_congruent(m1, m2, order.drop_last(), r);
    }
}

proof fn lemma_released_zero(m: Seq<Seq<u64>>, order: Seq<int>, r: int)
    requires
        forall|k: int| 0 <= k < order.len() ==> m[#[trigger] order[k]][r] == 0,
    ensures
        released(m, order, r) == 0,
    decreases order.len(),
{
    if order.len() > 0 {
        lemma_released_zero(m, order.drop_last(), r);
    }
}

/// Taking one listed thread out of an order takes exactly its row out of
/// the released total.
proof fn lemma_released_remove(m: Seq<Seq<u64>>, s: Seq<int>, i: int, r: int)
    requires
        0 <= i < s.len(),
    ensures
        released(m, s, r) == released(m, s.remove(i), r) + m[s[i]][r],
    decreases s.len(),
{
    if i == s.len() - 1 {
        assert(s.remove(i) =~= s.drop_last());
    } else {
        lemma_released_remove(m, s.drop_last(), i, r);
        assert(s.remove(i).drop_last() =~= s.drop_last().remove(i));
        assert(s.remove(i).last() == s.last());
    }
}

/// Finishing fewer threads releases no more: a duplicate-free order whose
/// members all stand in another duplicate-free order releases at most as
/// much of every resource.
proof fn lemma_released_subset(m: Seq<Seq<u64>>, s1: Seq<int>, s2: Seq<int>, r: int)
    requires
        s1.no_duplicates(),
        s2.no_duplicates(),
        forall|k: int| 0 <= k < s1.len() ==> s2.contains(#[trigger] s1[k]),
    ensures
        released(m, s1, r) <= released(m, s2, r),
    decreases s1.len(),
{
    if s1.len() == 0 {
        lemma_released_nonneg(m, s2, r);
    } else {
        let x = s1.last();
        assert(s2.contains(x));
        let i = choose|i: int| 0 <= i < s2.len() && s2[i] == x;
        lemma_released_remove(m, s2, i, r);
        let s2r = s2.remove(i);
        broadcast use group_seq_properties;
        assert(s1.drop_last().no_duplicates());
        assert(s2r.no_duplicates());
        assert forall|k: int| 0 <= k < s1.drop_last().len() implies s2r.contains(
            #[trigger] s1.drop_last()[k],
        ) by {
            let y = s1.drop_last()[k];
            assert(s1[k] == y);
            assert(y != x);
            let j = choose|j: int| 0 <= j < s2.len() && s2[j] == y;
            if j < i {
                assert(s2r[j] == y);
            } else {
                assert(j > i);
                assert(s2r[j - 1] == y);
            }
        }
        lemma_released_subset(m, s1.drop_last(), s2r, r);
    }
}

/// Everything listed in the order `0..n` except `t` stays distinct from `t`.
proof fn lemma_id_order_remove(n: int, t: int)
    requires
        0 <= t < n,
    ensures
        forall|k: int| 0 <= k < id_order(n).remove(t).len()
            ==> 0 <= #[trigger] id_order(n).remove(t)[k] < n && id_order(n).remove(t)[k] != t,
        id_order(n).remove(t).no_duplicates(),
{
    broadcast use group_seq_properties;
}

/// A duplicate-free in-range order never releases more than the whole
/// allocation column.
proof fn lemma_released_le_col_sum(m: Seq<Seq<u64>>, s: Seq<int>, r: int)
    requires
        s.no_duplicates(),
        in_range(s, m.len() as int),
    ensures
        released(m, s, r) <= col_sum(m, r),
{
    let idn = id_order(m.len() as int);
    assert(idn.no_duplicates());
    assert forall|k: int| 0 <= k < s.len() implies idn.contains(#[trigger] s[k]) by {
        assert(idn[s[k]] == s[k]);
    }
    lemma_released_subset(m, s, idn, r);
}

/// One thread's holding of `r` is at most the whole column.
proof fn lemma_entry_le_col_sum(m: Seq<Seq<u64>>, t: int, r: int)
    requires
        0 <= t < m.len(),
    ensures
        m[t][r] <= col_sum(m, r),
{
    let idn = id_order(m.len() as int);
    assert(idn[t] == t);
    lemma_released_remove(m, idn, t, r);
    lemma_released_nonneg(m, idn.remove(t), r);
}

/// A duplicate-free order of values below `n` lists at most `n` of them.
pub proof fn lemma_distinct_bounded_len(s: Seq<int>, n: int)
    requires
        s.no_duplicates(),
        in_range(s, n),
        0 <= n,
    ensures
        s.len() <= n,
{
    s.unique_seq_to_set();
    assert(s.to_set().subset_of(set_int_range(0, n)));
    lemma_int_range(0, n);
    lemma_len_subset(s.to_set(), set_int_range(0, n));
}

/// First position in `sigma`, from `i` on, whose thread the relaxation did
/// not finish.
proof fn first_excluded(sigma: Seq<int>, order: Seq<int>, i: int) -> (k: int)
    requires
        0 <= i <= sigma.len(),
        exists|j: int| i <= j < sigma.len() && !order.contains(#[trigger] sigma[j]),
        forall|j: int| 0 <= j < i ==> order.contains(#[trigger] sigma[j]),
    ensures
        i <= k < sigma.len(),
        !order.contains(sigma[k]),
        forall|j: int| 0 <= j < k ==> order.contains(#[trigger] sigma[j]),
    decreases sigma.len() - i,
{
    if !order.contains(sigma[i]) {
        i
    } else {
        first_excluded(sigma, order, i + 1)
    }
}

/// When the relaxation is stuck — every unfinished thread wants more of
/// some resource than the pool plus everything already released — no
/// finishing order of all threads exists.
proof fn lemma_stuck_unsafe(
    avail: Seq<u64>,
    alloc: Seq<Seq<u64>>,
    req: Seq<Seq<u64>>,
    order: Seq<int>,
    missing: int,
)
    requires
        order.no_duplicates(),
        0 <= missing < alloc.len(),
        !order.contains(missing),
        forall|t: int|
            0 <= t < alloc.len() && !order.contains(t)
                ==> exists|r: int|
                    0 <= r < avail.len() && #[trigger] req[t][r] > avail[r] + released(
                        alloc,
                        order,
                        r,
                    ),
    ensures
        !safe(avail, alloc, req),
{
    assert forall|sigma: Seq<int>| !safe_order(avail, alloc, req, sigma) by {
        if safe_order(avail, alloc, req, sigma) {
            assert(sigma.contains(missing));
            let j0 = choose|j: int| 0 <= j < sigma.len() && sigma[j] == missing;
            assert(!order.contains(sigma[j0]));
            let k = first_excluded(sigma, order, 0);
            let t = sigma[k];
            assert(0 <= t < alloc.len());
            assert(step_ok(avail, alloc, req, sigma, k));
            let pre = sigma.take(k);
            broadcast use group_seq_properties;
            assert(pre.no_duplicates());
            assert forall|kk: int| 0 <= kk < pre.len() implies order.contains(
                #[trigger] pre[kk],
            ) by {
                assert(pre[kk] == sigma[kk]);
            }
            let r0 = choose|r: int|
                0 <= r < avail.len() && #[trigger] req[t][r] > avail[r] + released(
                    alloc,
                    order,
                    r,
                );
            lemma_released_subset(alloc, pre, order, r0);
            assert(req[t][r0] <= avail[r0] + released(alloc, pre, r0));
            assert(false);
        }
    }
}

/// Pointwise comparison of two equal-length rows.
fn row_le(a: &Vec<u64>, b: &Vec<u64>) -> (r: bool)
    requires
        a@.len() == b@.len(),
    ensures
        r == (forall|i: int| 0 <= i < a@.len() ==> a@[i] <= b@[i]),
{
    let mut i: usize = 0;
    while i < a.len()
        invariant
            i <= a@.len(),
            a@.len() == b@.len(),
            forall|j: int| 0 <= j < i ==> a@[j] <= b@[j],
        decreases a@.len() - i,
    {
        if a[i] > b[i] {
            return false;
        }
        i = i + 1;
    }
    true
}

/// The detector's bookkeeping for one process: `available[r]` free units of
/// each resource, and per-thread `allocation` and `request` rows. Mutexes
/// enter as unit-capacity resources, semaphores with their initial count.
pub struct DetectState {
    pub available: Vec<u64>,
    pub allocation: Vec<Vec<u64>>,
    pub request: Vec<Vec<u64>>,
}

impl DetectState {
    pub open spec fn nr(self) -> int {
        self.available@.len() as int
    }

    pub open spec fn nt(self) -> int {
        self.allocation@.len() as int
    }

    pub open spec fn alloc_m(self) -> Seq<Seq<u64>> {
        mat_view(self.allocation)
    }

    pub open spec fn req_m(self) -> Seq<Seq<u64>> {
        mat_view(self.request)
    }

    /// Matrices match in shape, and for every resource the free units plus
    /// everything granted stay within `u64` (the conserved total the
    /// resource was created with).
    pub open spec fn wf(self) -> bool {
        &&& self.request@.len() == self.nt()
        &&& matrix_wf(self.alloc_m(), self.nr())
        &&& matrix_wf(self.req_m(), self.nr())
        &&& forall|r: int|
            0 <= r < self.nr()
                ==> self.available@[r] + col_sum(self.alloc_m(), r) <= u64::MAX
    }

    pub fn new() -> (r: DetectState)
        ensures
            r.wf(),
            r.nt() == 0,
            r.nr() == 0,
    {
        DetectState { available: Vec::new(), allocation: Vec::new(), request: Vec::new() }
    }

    /// A fresh zero row of the current width.
    fn zero_row(&self) -> (r: Vec<u64>)
        ensures
            r@.len() == self.nr(),
            forall|i: int| 0 <= i < r@.len() ==> r@[i] == 0,
    {
        let mut row: Vec<u64> = Vec::new();
        let mut i: usize = 0;
        while i < self.available.len()
            invariant
                i <= self.available@.len(),
                row@.len() == i,
                forall|j: int| 0 <= j < i ==> row@[j] == 0,
            decreases self.available@.len() - i,
        {
            row.push(0);
            i = i + 1;
        }
        row
    }

    /// Registers a new thread: one zero allocation row and one zero request
    /// row.
    pub fn add_thread(&mut self)
        requires
            old(self).wf(),
        ensures
            final(self).wf(),
            final(self).available@ == old(self).available@,
            final(self).nt() == old(self).nt() + 1,
            forall|t: int| 0 <= t < old(self).nt()
                ==> final(self).alloc_m()[t] == old(self).alloc_m()[t]
                    && final(self).req_m()[t] == old(self).req_m()[t],
            forall|r: int| 0 <= r < old(self).nr()
                ==> final(self).alloc_m()[old(self).nt()][r] == 0
                    && final(self).req_m()[old(self).nt()][r] == 0,
    {
        let za = self.zero_row();
        let zr = self.zero_row();
        self.allocation.push(za);
        self.request.push(zr);
        proof {
            let m0 = old(self).alloc_m();
            let m1 = self.alloc_m();
            assert(self.allocation@ == old(self).allocation@.push(za));
            assert(self.request@ == old(self).request@.push(zr));
            assert(m1[m0.len() as int] == za@);
            assert(self.req_m()[m0.len() as int] == zr@);
            assert forall|tt: int| 0 <= tt < m0.len() implies m1[tt] == m0[tt] && self.req_m()[tt]
                == old(self).req_m()[tt] by {}
            assert forall|tt: int| 0 <= tt < self.req_m().len() implies (
                #[trigger] self.req_m()[tt]).len() == self.nr() by {
                if tt < m0.len() {
                    assert(self.req_m()[tt] == old(self).req_m()[tt]);
                } else {
                    assert(self.req_m()[tt] == zr@);
                }
            }
            assert forall|r: int| 0 <= r < self.nr() implies self.available@[r] + col_sum(
                m1,
                r,
            ) <= u64::MAX by {
                assert(id_order(m1.len() as int).drop_last() =~= id_order(m0.len() as int));
                assert(id_order(m1.len() as int).last() == m0.len());
                lemma_released_congruent(m1, m0, id_order(m0.len() as int), r);
                assert(col_sum(m1, r) == col_sum(m0, r) + m1[m0.len() as int][r]);
            }
        }
    }

    /// Registers a new resource class with `units` free units; no thread
    /// holds or requests any of it yet.
    pub fn add_resource(&mut self, units: u64)
        requires
            old(self).wf(),
        ensures
            final(self).wf(),
            final(self).nr() == old(self).nr() + 1,
            final(self).nt() == old(self).nt(),
            final(self).available@ == old(self).available@.push(units),
            forall|t: int, r: int|
                0 <= t < old(self).nt() && 0 <= r < old(self).nr()
                    ==> final(self).alloc_m()[t][r] == old(self).alloc_m()[t][r]
                        && final(self).req_m()[t][r] == old(self).req_m()[t][r],
            forall|t: int| 0 <= t < old(self).nt()
                ==> final(self).alloc_m()[t][old(self).nr()] == 0
                    && final(self).req_m()[t][old(self).nr()] == 0,
    {
        self.available.push(units);
        let n = self.allocation.len();
        let mut t: usize = 0;
        while t < n
            invariant
                t <= n,
                n == self.allocation@.len(),
                self.request@.len() == n,
                self.available@ == old(self).available@.push(units),
                forall|i: int| t <= i < n
                    ==> self.alloc_m()[i] == old(self).alloc_m()[i]
                        && self.req_m()[i] == old(self).req_m()[i],
                forall|i: int| 0 <= i < t
                    ==> self.alloc_m()[i] =~= old(self).alloc_m()[i].push(0)
                        && self.req_m()[i] =~= old(self).req_m()[i].push(0),
            decreases n - t,
        {
            let ghost pre_a = self.alloc_m();
            let ghost pre_r = self.req_m();
            self.allocation[t].push(0);
            self.request[t].push(0);
            proof {
                assert forall|i: int| 0 <= i < t + 1 implies self.alloc_m()[i]
                    =~= old(self).alloc_m()[i].push(0) && self.req_m()[i] =~= old(
                    self,
                ).req_m()[i].push(0) by {
                    if i < t {
                        assert(self.alloc_m()[i] == pre_a[i]);
                        assert(self.req_m()[i] == pre_r[i]);
                        assert(pre_a[i] =~= old(self).alloc_m()[i].push(0));
                        assert(pre_r[i] =~= old(self).req_m()[i].push(0));
                    } else {
                        assert(self.alloc_m()[i] =~= pre_a[i].push(0));
                        assert(self.req_m()[i] =~= pre_r[i].push(0));
                        assert(pre_a[i] == old(self).alloc_m()[i]);
                        assert(pre_r[i] == old(self).req_m()[i]);
                    }
                }
            }
            t = t + 1;
        }
        proof {
            let m0 = old(self).alloc_m();
            let m1 = self.alloc_m();
            let nr0 = old(self).nr();
            assert forall|r: int| 0 <= r < self.nr() implies self.available@[r] + col_sum(
                m1,
                r,
            ) <= u64::MAX by {
                if r < nr0 {
                    lemma_released_congruent(m1, m0, id_order(m0.len() as int), r);
                    assert(col_sum(m1, r) == col_sum(m0, r));
                } else {
                    lemma_released_zero(m1, id_order(m1.len() as int), r);
                    assert(col_sum(m1, r) == 0);
                }
            }
        }
    }

    /// Grants one free unit of `r` to thread `t`.
    pub fn grant(&mut self, t: usize, r: usize)
        requires
            old(self).wf(),
            t < old(self).nt(),
            r < old(self).nr(),
            old(self).available@[r as int] > 0,
        ensures
            final(self).wf(),
            final(self).nt() == old(self).nt(),
            final(self).nr() == old(self).nr(),
            final(self).available@ == old(self).available@.update(
                r as int,
                (old(self).available@[r as int] - 1) as u64,
            ),
            final(self).alloc_m() =~~= old(self).alloc_m().update(
                t as int,
                old(self).alloc_m()[t as int].update(
                    r as int,
                    (old(self).alloc_m()[t as int][r as int] + 1) as u64,
                ),
            ),
            final(self).req_m() == old(self).req_m(),
    {
        proof {
            lemma_entry_le_col_sum(self.alloc_m(), t as int, r as int);
            assert(self.alloc_m()[t as int] == self.allocation@[t as int]@);
            assert(self.allocation@[t as int]@.len() == self.nr());
        }
        let a = self.available[r];
        self.available[r] = a - 1;
        let v = self.allocation[t][r];
        self.allocation[t][r] = v + 1;
        proof {
            assert(self.alloc_m() =~~= old(self).alloc_m().update(
                t as int,
                old(self).alloc_m()[t as int].update(r as int, (v + 1) as u64),
            ));
            assert(self.req_m() =~~= old(self).req_m());
            self.lemma_alloc_col_update(*old(self), t as int, r as int);
        }
    }

    /// Returns one unit of `r` held by thread `t` to the pool.
    pub fn ungrant(&mut self, t: usize, r: usize)
        requires
            old(self).wf(),
            t < old(self).nt(),
            r < old(self).nr(),
            old(self).alloc_m()[t as int][r as int] > 0,
        ensures
            final(self).wf(),
            final(self).nt() == old(self).nt(),
            final(self).nr() == old(self).nr(),
            final(self).available@ == old(self).available@.update(
                r as int,
                (old(self).available@[r as int] + 1) as u64,
            ),
            final(self).alloc_m() =~~= old(self).alloc_m().update(
                t as int,
                old(self).alloc_m()[t as int].update(
                    r as int,
                    (old(self).alloc_m()[t as int][r as int] - 1) as u64,
                ),
            ),
            final(self).req_m() == old(self).req_m(),
    {
        proof {
            lemma_entry_le_col_sum(self.alloc_m(), t as int, r as int);
            lemma_released_nonneg(
                self.alloc_m(),
                id_order(self.alloc_m().len() as int).remove(t as int),
                r as int,
            );
            lemma_released_remove(
                self.alloc_m(),
                id_order(self.alloc_m().len() as int),
                t as int,
                r as int,
            );
        }
        proof {
            assert(self.alloc_m()[t as int] == self.allocation@[t as int]@);
            assert(self.allocation@[t as int]@.len() == self.nr());
        }
        let a = self.available[r];
        self.available[r] = a + 1;
        let v = self.allocation[t][r];
        self.allocation[t][r] = v - 1;
        proof {
            assert(self.alloc_m() =~~= old(self).alloc_m().update(
                t as int,
                old(self).alloc_m()[t as int].update(r as int, (v - 1) as u64),
            ));
            assert(self.req_m() =~~= old(self).req_m());
            self.lemma_alloc_col_update(*old(self), t as int, r as int);
        }
    }

    /// After an update of the allocation entry `(t, r)`, every column total
    /// moved by exactly the entry's change; re-establishes conservation
    /// when the available pool moved oppositely.
    proof fn lemma_alloc_col_update(self, prev: DetectState, t: int, r: int)
        requires
            prev.wf(),
            0 <= t < prev.nt(),
            0 <= r < prev.nr(),
            self.nt() == prev.nt(),
            self.nr() == prev.nr(),
            self.req_m() == prev.req_m(),
            self.request@.len() == prev.request@.len(),
            self.alloc_m() =~~= prev.alloc_m().update(
                t,
                prev.alloc_m()[t].update(r, self.alloc_m()[t][r]),
            ),
            self.available@[r] + self.alloc_m()[t][r] == prev.available@[r]
                + prev.alloc_m()[t][r],
            forall|i: int| 0 <= i < self.nr() && i != r
                ==> self.available@[i] == prev.available@[i],
        ensures
            self.wf(),
    {
        let m0 = prev.alloc_m();
        let m1 = self.alloc_m();
        let n = m0.len() as int;
        assert forall|i: int| 0 <= i < self.nr() implies self.available@[i] + col_sum(
            m1,
            i,
        ) <= u64::MAX by {
            lemma_id_order_remove(n, t);
            lemma_released_congruent(m1, m0, id_order(n).remove(t), i);
            lemma_released_remove(m1, id_order(n), t, i);
            lemma_released_remove(m0, id_order(n), t, i);
            if i != r {
                assert(m1[t][i] == m0[t][i]);
                assert(col_sum(m1, i) == col_sum(m0, i));
            } else {
                assert(col_sum(m1, i) - m1[t][i] == col_sum(m0, i) - m0[t][i]);
            }
        }
    }

    /// Records thread `t`'s pending single-unit request for `r`.
    pub fn request_set(&mut self, t: usize, r: usize)
        requires
            old(self).wf(),
            t < old(self).nt(),
            r < old(self).nr(),
        ensures
            final(self).wf(),
            final(self).nt() == old(self).nt(),
            final(self).nr() == old(self).nr(),
            final(self).available@ == old(self).available@,
            final(self).alloc_m() == old(self).alloc_m(),
            final(self).req_m() =~~= old(self).req_m().update(
                t as int,
                old(self).req_m()[t as int].update(r as int, 1u64),
            ),
    {
        proof {
            assert(self.req_m()[t as int] == self.request@[t as int]@);
            assert(self.request@[t as int]@.len() == self.nr());
        }
        self.request[t][r] = 1;
        proof {
            assert(self.alloc_m() =~~= old(self).alloc_m());
            assert forall|tt: int| 0 <= tt < self.req_m().len() implies (
                #[trigger] self.req_m()[tt]).len() == self.nr() by {
                if tt == t as int {
                    assert(self.req_m()[tt] =~= old(self).req_m()[tt].update(r as int, 1u64));
                } else {
                    assert(self.req_m()[tt] == old(self).req_m()[tt]);
                }
            }
        }
    }

    /// Clears thread `t`'s pending request for `r` (granted or refused).
    pub fn request_clear(&mut self, t: usize, r: usize)
        requires
            old(self).wf(),
            t < old(self).nt(),
            r < old(self).nr(),
        ensures
            final(self).wf(),
            final(self).nt() == old(self).nt(),
            final(self).nr() == old(self).nr(),
            final(self).available@ == old(self).available@,
            final(self).alloc_m() == old(self).alloc_m(),
            final(self).req_m() =~~= old(self).req_m().update(
                t as int,
                old(self).req_m()[t as int].update(r as int, 0u64),
            ),
    {
        proof {
            assert(self.req_m()[t as int] == self.request@[t as int]@);
            assert(self.request@[t as int]@.len() == self.nr());
        }
        self.request[t][r] = 0;
        proof {
            assert(self.alloc_m() =~~= old(self).alloc_m());
            assert forall|tt: int| 0 <= tt < self.req_m().len() implies (
                #[trigger] self.req_m()[tt]).len() == self.nr() by {
                if tt == t as int {
                    assert(self.req_m()[tt] =~= old(self).req_m()[tt].update(r as int, 0u64));
                } else {
                    assert(self.req_m()[tt] == old(self).req_m()[tt]);
                }
            }
        }
    }

    /// How many resource classes are registered.
    pub fn n_resources(&self) -> (r: usize)
        ensures
            r == self.nr(),
    {
        self.available.len()
    }

    /// Units of `r` currently free.
    pub fn avail_at(&self, r: usize) -> (v: u64)
        requires
            r < self.nr(),
        ensures
            v == self.available@[r as int],
    {
        self.available[r]
    }

    /// Units of `r` granted to thread `t`.
    pub fn alloc_at(&self, t: usize, r: usize) -> (v: u64)
        requires
            self.wf(),
            t < self.nt(),
            r < self.nr(),
        ensures
            v == self.alloc_m()[t as int][r as int],
    {
        proof {
            assert(self.alloc_m()[t as int] == self.allocation@[t as int]@);
            assert(self.allocation@[t as int]@.len() == self.nr());
        }
        self.allocation[t][r]
    }

    /// Total units of `r` granted across all threads.
    pub fn col_total(&self, r: usize) -> (v: u64)
        requires
            self.wf(),
            r < self.nr(),
        ensures
            v == col_sum(self.alloc_m(), r as int),
            self.available@[r as int] + v <= u64::MAX,
    {
        let ghost alloc = self.alloc_m();
        let n = self.allocation.len();
        let mut total: u64 = 0;
        let mut t: usize = 0;
        while t < n
            invariant
                t <= n,
                self.wf(),
                alloc == self.alloc_m(),
                n == alloc.len(),
                r < self.nr(),
                total == released(alloc, id_order(t as int), r as int),
            decreases n - t,
        {
            proof {
                assert(id_order(t as int + 1).drop_last() =~= id_order(t as int));
                assert(id_order(t as int + 1).last() == t as int);
                assert(id_order(t as int + 1).no_duplicates());
                assert(in_range(id_order(t as int + 1), alloc.len() as int));
                lemma_released_le_col_sum(alloc, id_order(t as int + 1), r as int);
                lemma_released_nonneg(alloc, id_order(t as int), r as int);
                assert(self.alloc_m()[t as int] == self.allocation@[t as int]@);
            }
            total = total + self.allocation[t][r];
            t = t + 1;
        }
        proof {
            assert(id_order(n as int) =~= id_order(self.alloc_m().len() as int));
        }
        total
    }

    /// Injects one fresh unit of `r` into the pool (a semaphore `up`
    /// beyond what its threads held).
    pub fn add_unit(&mut self, r: usize)
        requires
            old(self).wf(),
            r < old(self).nr(),
            old(self).available@[r as int] + col_sum(old(self).alloc_m(), r as int) < u64::MAX,
        ensures
            final(self).wf(),
            final(self).nt() == old(self).nt(),
            final(self).nr() == old(self).nr(),
            final(self).available@ == old(self).available@.update(
                r as int,
                (old(self).available@[r as int] + 1) as u64,
            ),
            final(self).alloc_m() == old(self).alloc_m(),
            final(self).req_m() == old(self).req_m(),
    {
        proof {
            lemma_released_nonneg(
                self.alloc_m(),
                id_order(self.alloc_m().len() as int),
                r as int,
            );
        }
        let a = self.available[r];
        self.available[r] = a + 1;
    }

    /// The safety check: `true` iff, starting from the available pool and
    /// repeatedly finishing threads whose request rows fit, every thread can
    /// finish — exactly when some finishing order of all threads exists.
    pub fn is_safe(&self) -> (res: bool)
        requires
            self.wf(),
        ensures
            res == safe(self.available@, self.alloc_m(), self.req_m()),
    {
        let ghost avail = self.available@;
        let ghost alloc = self.alloc_m();
        let ghost req = self.req_m();
        let nt = self.allocation.len();
        let nr = self.available.len();
        let mut work: Vec<u64> = Vec::new();
        let mut i: usize = 0;
        while i < nr
            invariant
                i <= nr,
                nr == avail.len(),
                self.available@ == avail,
                work@ =~= avail.take(i as int),
            decreases nr - i,
        {
            work.push(self.available[i]);
            i = i + 1;
        }
        let mut finish: Vec<bool> = Vec::new();
        let mut j: usize = 0;
        while j < nt
            invariant
                j <= nt,
                finish@.len() == j,
                forall|k: int| 0 <= k < j ==> !finish@[k],
            decreases nt - j,
        {
            finish.push(false);
            j = j + 1;
        }
        let ghost mut order: Seq<int> = Seq::empty();
        proof {
            assert(work@ =~= avail);
        }
        let mut progress = true;
        while progress
            invariant
                self.wf(),
                avail == self.available@,
                alloc == self.alloc_m(),
                req == self.req_m(),
                nt == alloc.len(),
                nr == avail.len(),
                work@.len() == nr,
                finish@.len() == nt,
                order.no_duplicates(),
                in_range(order, nt as int),
                order.len() <= nt,
                forall|t: int| 0 <= t < nt ==> (#[trigger] finish@[t] <==> order.contains(t)),
                forall|r: int| 0 <= r < nr
                    ==> #[trigger] work@[r] == avail[r] + released(alloc, order, r),
                forall|k: int| 0 <= k < order.len() ==> step_ok(avail, alloc, req, order, k),
                !progress ==> forall|t: int|
                    0 <= t < nt && !(#[trigger] finish@[t])
                        ==> exists|r: int| 0 <= r < nr && req[t][r] > work@[r],
            decreases 2 * (nt - order.len()) + (if progress { 1int } else { 0int }),
    {
            progress = false;
            let ghost order_at_start = order;
            let mut t: usize = 0;
            while t < nt
                invariant
                    self.wf(),
                    avail == self.available@,
                    alloc == self.alloc_m(),
                    req == self.req_m(),
                    nt == alloc.len(),
                    nr == avail.len(),
                    t <= nt,
                    work@.len() == nr,
                    finish@.len() == nt,
                    order.no_duplicates(),
                    in_range(order, nt as int),
                    order.len() <= nt,
                    forall|tt: int| 0 <= tt < nt
                        ==> (#[trigger] finish@[tt] <==> order.contains(tt)),
                    forall|r: int| 0 <= r < nr
                        ==> #[trigger] work@[r] == avail[r] + released(alloc, order, r),
                    forall|k: int| 0 <= k < order.len() ==> step_ok(avail, alloc, req, order, k),
                    progress ==> order.len() > order_at_start.len(),
                    !progress ==> order == order_at_start,
                    !progress ==> forall|tt: int|
                        0 <= tt < t && !(#[trigger] finish@[tt])
                            ==> exists|r: int| 0 <= r < nr && req[tt][r] > work@[r],
                    order_at_start.len() <= order.len(),
                decreases nt - t,
            {
                proof {
                    assert(self.req_m()[t as int] == self.request@[t as int]@);
                    assert(self.request@[t as int]@.len() == nr);
                }
                if !finish[t] && row_le(&self.request[t], &work) {
                    proof {
                        assert(req[t as int] == self.request@[t as int]@);
                        lemma_released_le_col_sum(alloc, order.push(t as int), 0);
                    }
                    finish[t] = true;
                    let ghost prev_work = work@;
                    let mut r: usize = 0;
                    while r < nr
                        invariant
                            r <= nr,
                            nr == avail.len(),
                            self.wf(),
                            alloc == self.alloc_m(),
                            avail == self.available@,
                            nt == alloc.len(),
                            t < nt,
                            in_range(order, nt as int),
                            order.no_duplicates(),
                            !order.contains(t as int),
                            work@.len() == nr,
                            prev_work.len() == nr,
                            forall|rr: int| 0 <= rr < nr
                                ==> #[trigger] prev_work[rr] == avail[rr] + released(
                                    alloc,
                                    order,
                                    rr,
                                ),
                            forall|rr: int| r <= rr < nr ==> #[trigger] work@[rr] == prev_work[rr],
                            forall|rr: int| 0 <= rr < r
                                ==> #[trigger] work@[rr] == prev_work[rr] + alloc[t as int][rr],
                        decreases nr - r,
                    {
                        proof {
                            lemma_released_le_col_sum(alloc, order.push(t as int), r as int);
                            assert(order.push(t as int).drop_last() =~= order);
                            assert(released(alloc, order.push(t as int), r as int) == released(
                                alloc,
                                order,
                                r as int,
                            ) + alloc[t as int][r as int]);
                        }
                        let w = work[r];
                        let add = self.allocation[t][r];
                        work[r] = w + add;
                        r = r + 1;
                    }
                    proof {
                        let order2 = order.push(t as int);
                        assert(order2.drop_last() =~= order);
                        assert forall|rr: int| 0 <= rr < nr implies #[trigger] work@[rr]
                            == avail[rr] + released(alloc, order2, rr) by {
                            assert(work@[rr] == prev_work[rr] + alloc[t as int][rr]);
                        }
                        assert forall|k: int| 0 <= k < order2.len() implies step_ok(
                            avail,
                            alloc,
                            req,
                            order2,
                            k,
                        ) by {
                            if k < order.len() {
                                assert(step_ok(avail, alloc, req, order, k));
                                assert(order2.take(k) =~= order.take(k));
                                assert(order2[k] == order[k]);
                            } else {
                                assert(order2.take(k) =~= order);
                                assert(order2[k] == t as int);
                                assert forall|rr: int| 0 <= rr < nr implies req[t as int][rr]
                                    <= avail[rr] + released(alloc, order, rr) by {
                                    assert(req[t as int][rr] <= prev_work[rr]);
                                }
                            }
                        }
                        assert forall|tt: int| 0 <= tt < nt implies (#[trigger] finish@[tt]
                            <==> order2.contains(tt)) by {
                            if tt == t as int {
                                assert(order2[order.len() as int] == t as int);
                            } else {
                                assert(order.contains(tt) ==> order2.contains(tt));
                                if order2.contains(tt) {
                                    let ii = choose|ii: int|
                                        0 <= ii < order2.len() && order2[ii] == tt;
                                    assert(order2[ii] == order[ii]);
                                }
                            }
                        }
                        lemma_distinct_bounded_len(order2, nt as int);
                        order = order2;
                    }
                    progress = true;
                }
                t = t + 1;
            }
        }
        let mut all = true;
        let mut t: usize = 0;
        while t < nt
            invariant
                t <= nt,
                finish@.len() == nt,
                all <==> (forall|k: int| 0 <= k < t ==> #[trigger] finish@[k]),
            decreases nt - t,
        {
            if !finish[t] {
                all = false;
            }
            t = t + 1;
        }
        proof {
            if all {
                assert forall|tt: int| 0 <= tt < alloc.len() implies order.contains(tt) by {
                    assert(finish@[tt]);
                }
                assert(safe_order(avail, alloc, req, order));
            } else {
                let missing = choose|k: int| 0 <= k < nt && !finish@[k];
                assert forall|tt: int|
                    0 <= tt < nt && !order.contains(tt) implies exists|r: int|
                    0 <= r < nr && #[trigger] req[tt][r] > avail[r] + released(
                        alloc,
                        order,
                        r,
                    ) by {
                    assert(!finish@[tt]);
                    let r0 = choose|r: int| 0 <= r < nr && req[tt][r] > work@[r];
                    assert(req[tt][r0] > avail[r0] + released(alloc, order, r0));
                }
                lemma_stuck_unsafe(avail, alloc, req, order, missing);
            }
        }
        all
    }
}

} // verus!
