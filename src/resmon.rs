//! Per-process resource monitor: Banker's-algorithm bookkeeping for the
//! synchronization primitives of one process.
use vstd::prelude::*;

verus! {

/// Sentinel returned by a lock or down operation that the monitor rejects.
pub const DEAD_LOCK: i32 = -0xDEAD;

/// The matrices of Banker's algorithm for one process.
///
/// Rows are thread ids, columns are resource ids.
pub struct ResMonitor {
    /// Declared capacity of each resource.
    cap: Vec<u32>,
    /// Units of each resource that are still available (may go negative).
    avail: Vec<i64>,
    /// `alloc[t][r]`: units of resource `r` held by thread `t`.
    alloc: Vec<Vec<u32>>,
    /// `need[t][r]`: units of resource `r` that thread `t` waits for.
    need: Vec<Vec<u32>>,
}

/// Sum of column `r` over the first `n` rows of a matrix.
pub open spec fn col_sum(m: Seq<Seq<u32>>, r: int, n: int) -> int
    decreases n,
{
    if n <= 0 {
        0
    } else {
        col_sum(m, r, n - 1) + m[n - 1][r] as int
    }
}

impl ResMonitor {
    pub closed spec fn cap_view(&self) -> Seq<u32> {
        self.cap@
    }

    pub closed spec fn avail_view(&self) -> Seq<i64> {
        self.avail@
    }

    pub closed spec fn alloc_view(&self) -> Seq<Seq<u32>> {
        self.alloc@.map_values(|row: Vec<u32>| row@)
    }

    pub closed spec fn need_view(&self) -> Seq<Seq<u32>> {
        self.need@.map_values(|row: Vec<u32>| row@)
    }

    /// Number of resources.
    pub open spec fn n_res(&self) -> nat {
        self.avail_view().len()
    }

    /// Number of thread rows.
    pub open spec fn n_threads(&self) -> nat {
        self.alloc_view().len()
    }

    /// Units of resource `r` held by all threads together.
    pub open spec fn held(&self, r: int) -> int {
        col_sum(self.alloc_view(), r, self.n_threads() as int)
    }

    /// Shape of the matrices, and conservation of every resource:
    /// what is available plus what is held equals the capacity.
    pub open spec fn wf(&self) -> bool {
        &&& self.cap_view().len() == self.n_res()
        &&& self.need_view().len() == self.n_threads()
        &&& forall|t: int| 0 <= t < self.n_threads() ==> #[trigger] self.alloc_view()[t].len() == self.n_res()
        &&& forall|t: int| 0 <= t < self.n_threads() ==> #[trigger] self.need_view()[t].len() == self.n_res()
        &&& forall|r: int| 0 <= r < self.n_res() ==>
                #[trigger] self.avail_view()[r] + self.held(r) == self.cap_view()[r] as int
        &&& forall|t: int, r: int| 0 <= t < self.n_threads() && 0 <= r < self.n_res() ==> #[trigger] self.need_view()[t][r] <= 1
    }

    /// An empty monitor: no resources, no threads.
    pub fn new() -> (r: Self)
        ensures
            r.wf(),
            r.n_res() == 0,
            r.n_threads() == 0,
    {
        ResMonitor { cap: Vec::new(), avail: Vec::new(), alloc: Vec::new(), need: Vec::new() }
    }
}

/// Column sums over the first `n` rows agree when the entries they read agree.
pub proof fn lemma_col_sum_ext(m1: Seq<Seq<u32>>, m2: Seq<Seq<u32>>, r1: int, r2: int, n: int)
    requires
        forall|k: int| 0 <= k < n ==> #[trigger] m1[k][r1] == m2[k][r2],
    ensures
        col_sum(m1, r1, n) == col_sum(m2, r2, n),
    decreases n,
{
    if n > 0 {
        lemma_col_sum_ext(m1, m2, r1, r2, n - 1);
    }
}

/// Changing one entry of a column changes its sum by the difference.
pub proof fn lemma_col_sum_update(m: Seq<Seq<u32>>, t: int, r: int, v: u32, n: int)
    requires
        0 <= t < n <= m.len(),
        0 <= r < m[t].len(),
    ensures
        col_sum(m.update(t, m[t].update(r, v)), r, n) == col_sum(m, r, n) + v - m[t][r],
    decreases n,
{
    if n - 1 > t {
        lemma_col_sum_update(m, t, r, v, n - 1);
    } else {
        lemma_col_sum_ext(m.update(t, m[t].update(r, v)), m, r, r, n - 1);
    }
}

/// Units of each resource held by the threads listed in `s`, summed.
pub open spec fn seq_sum(alloc: Seq<Seq<u32>>, s: Seq<int>, r: int) -> int
    decreases s.len(),
{
    if s.len() == 0 {
        0
    } else {
        seq_sum(alloc, s.drop_last(), r) + alloc[s.last()][r] as int
    }
}

/// Units of resource `r` held by the threads `t < n` that are marked in `fin`.
pub open spec fn fin_sum(alloc: Seq<Seq<u32>>, fin: Seq<bool>, r: int, n: int) -> int
    decreases n,
{
    if n <= 0 {
        0
    } else {
        fin_sum(alloc, fin, r, n - 1) + if fin[n - 1] { alloc[n - 1][r] as int } else { 0 }
    }
}

impl ResMonitor {
    /// Entry `(t, r)` of the allocation matrix, zero beyond the rows that exist.
    pub open spec fn alloc_at(&self, t: int, r: int) -> u32 {
        if 0 <= t < self.n_threads() { self.alloc_view()[t][r] } else { 0 }
    }

    /// Entry `(t, r)` of the need matrix, zero beyond the rows that exist.
    pub open spec fn need_at(&self, t: int, r: int) -> u32 {
        if 0 <= t < self.n_threads() { self.need_view()[t][r] } else { 0 }
    }

    /// Number of rows once thread `tid` has been seen.
    pub open spec fn rows_for(&self, tid: int) -> nat {
        if tid < self.n_threads() { self.n_threads() } else { (tid + 1) as nat }
    }

    /// `self` is `o` after thread `tid` took one unit of `rid`.
    pub open spec fn acquired(&self, o: &Self, tid: int, rid: int) -> bool {
        &&& self.cap_view() == o.cap_view()
        &&& self.avail_view() == o.avail_view().update(rid, (o.avail_view()[rid] - 1) as i64)
        &&& self.n_threads() == o.rows_for(tid)
        &&& forall|t: int, r: int| 0 <= r < o.n_res() ==> #[trigger] self.alloc_at(t, r) == if t == tid && r == rid {
            (o.alloc_at(t, r) + 1) as u32
        } else {
            o.alloc_at(t, r)
        }
        &&& forall|t: int, r: int| 0 <= r < o.n_res() ==> #[trigger] self.need_at(t, r) == if t == tid && r == rid {
            0
        } else {
            o.need_at(t, r)
        }
    }

    /// `self` is `o` after thread `tid` declared that it waits for `rid`.
    pub open spec fn needed(&self, o: &Self, tid: int, rid: int) -> bool {
        &&& self.cap_view() == o.cap_view()
        &&& self.avail_view() == o.avail_view()
        &&& self.n_threads() == o.rows_for(tid)
        &&& forall|t: int, r: int| 0 <= r < o.n_res() ==> #[trigger] self.alloc_at(t, r) == o.alloc_at(t, r)
        &&& forall|t: int, r: int| 0 <= r < o.n_res() ==> #[trigger] self.need_at(t, r) == if t == tid && r == rid {
            1
        } else {
            o.need_at(t, r)
        }
    }

    /// `self` is `o` after thread `tid` gave one unit of `rid` back.
    pub open spec fn released(&self, o: &Self, tid: int, rid: int) -> bool {
        &&& self.cap_view() == o.cap_view()
        &&& self.avail_view() == o.avail_view().update(rid, (o.avail_view()[rid] + 1) as i64)
        &&& self.n_threads() == o.n_threads()
        &&& forall|t: int, r: int| 0 <= r < o.n_res() ==> #[trigger] self.alloc_at(t, r) == if t == tid && r == rid {
            (o.alloc_at(t, r) - 1) as u32
        } else {
            o.alloc_at(t, r)
        }
        &&& forall|t: int, r: int| 0 <= r < o.n_res() ==> #[trigger] self.need_at(t, r) == o.need_at(t, r)
    }

    /// Registers a resource of capacity `num`; returns its id.
    pub fn create_res(&mut self, num: u32) -> (id: u32)
        requires
            old(self).wf(),
            old(self).n_res() < u32::MAX,
        ensures
            final(self).wf(),
            id == old(self).n_res(),
            final(self).cap_view() == old(self).cap_view().push(num),
            final(self).avail_view() == old(self).avail_view().push(num as i64),
            final(self).n_threads() == old(self).n_threads(),
            forall|t: int, r: int|
                0 <= r < old(self).n_res() ==> #[trigger] final(self).alloc_at(t, r) == old(self).alloc_at(t, r)
                    && final(self).need_at(t, r) == old(self).need_at(t, r),
            forall|t: int| #[trigger] final(self).alloc_at(t, id as int) == 0 && final(self).need_at(t, id as int) == 0,
    {
        let ghost a0 = self.alloc_view();
        let ghost n0 = self.need_view();
        let ghost nr = self.n_res();
        self.cap.push(num);
        self.avail.push(num as i64);
        let n = self.alloc.len();
        push_zero_col(&mut self.alloc);
        push_zero_col(&mut self.need);
        proof {
            assert forall|t: int| 0 <= t < n implies #[trigger] self.alloc_view()[t] == a0[t].push(0) by {}
            assert forall|t: int| 0 <= t < n implies #[trigger] self.need_view()[t] == n0[t].push(0) by {}
        }
        proof {
            assert forall|r: int| 0 <= r < self.n_res() implies #[trigger] self.avail_view()[r] + self.held(r)
                == self.cap_view()[r] as int by {
                if r < nr {
                    lemma_col_sum_ext(self.alloc_view(), a0, r, r, n as int);
                } else {
                    lemma_col_sum_ext(self.alloc_view(), Seq::new(n as nat, |k: int| seq![0u32]), r, 0, n as int);
                    lemma_col_sum_zero(n as int);
                }
            }
        }
        (self.avail.len() - 1) as u32
    }

    /// Adds zero rows until thread `tid` has one.
    pub fn grow(&mut self, tid: usize)
        requires
            old(self).wf(),
            tid < usize::MAX,
        ensures
            final(self).wf(),
            final(self).cap_view() == old(self).cap_view(),
            final(self).avail_view() == old(self).avail_view(),
            final(self).n_threads() == old(self).rows_for(tid as int),
            forall|t: int, r: int| 0 <= r < old(self).n_res() ==> #[trigger] final(self).alloc_at(t, r) == old(self).alloc_at(t, r),
            forall|t: int, r: int| 0 <= r < old(self).n_res() ==> #[trigger] final(self).need_at(t, r) == old(self).need_at(t, r),
    {
        let ghost a0 = self.alloc_view();
        let ghost n0 = self.need_view();
        let ghost nt = self.n_threads();
        let nr = self.avail.len();
        while self.alloc.len() <= tid
            invariant
                self.wf(),
                self.cap_view() == old(self).cap_view(),
                self.avail_view() == old(self).avail_view(),
                nr == self.n_res(),
                nt <= self.n_threads(),
                self.n_threads() == nt || self.n_threads() <= tid + 1,
                forall|t: int| 0 <= t < nt ==> #[trigger] self.alloc_view()[t] == a0[t],
                forall|t: int| 0 <= t < nt ==> #[trigger] self.need_view()[t] == n0[t],
                forall|t: int, r: int| nt <= t < self.n_threads() && 0 <= r < nr ==> #[trigger] self.alloc_view()[t][r] == 0,
                forall|t: int, r: int| nt <= t < self.n_threads() && 0 <= r < nr ==> #[trigger] self.need_view()[t][r] == 0,
                a0 == old(self).alloc_view(),
                n0 == old(self).need_view(),
                nt == old(self).n_threads(),
            decreases tid + 1 - self.alloc.len(),
        {
            let ghost before = self.alloc_view();
            let ghost before_n = self.need_view();
            let mut row: Vec<u32> = Vec::new();
            let mut j: usize = 0;
            while j < nr
                invariant
                    j <= nr,
                    row@.len() == j,
                    forall|k: int| 0 <= k < j ==> #[trigger] row@[k] == 0,
                decreases nr - j,
            {
                row.push(0);
                j = j + 1;
            }
            let row2 = row.clone();
            assert(row2@ =~= row@);
            self.alloc.push(row);
            self.need.push(row2);
            proof {
                assert(self.alloc_view() =~= before.push(row2@));
                assert(self.need_view() =~= before_n.push(row2@));
                let n = self.n_threads();
                assert forall|r: int| 0 <= r < self.n_res() implies #[trigger] self.avail_view()[r]
                    + self.held(r) == self.cap_view()[r] as int by {
                    lemma_col_sum_ext(self.alloc_view(), before, r, r, n - 1);
                }
            }
        }
        proof {
            assert forall|t: int, r: int| 0 <= r < nr implies #[trigger] self.alloc_at(t, r) == old(self).alloc_at(t, r) by {}
            assert forall|t: int, r: int| 0 <= r < nr implies #[trigger] self.need_at(t, r) == old(self).need_at(t, r) by {}
        }
    }
}

/// Appends a zero entry to every row of a matrix.
fn push_zero_col(m: &mut Vec<Vec<u32>>)
    ensures
        final(m)@.len() == old(m)@.len(),
        forall|t: int| 0 <= t < old(m)@.len() ==> #[trigger] final(m)@[t]@ == old(m)@[t]@.push(0),
{
    let n = m.len();
    let mut i: usize = 0;
    while i < n
        invariant
            n == m@.len(),
            n == old(m)@.len(),
            forall|t: int| 0 <= t < i ==> #[trigger] m@[t]@ == old(m)@[t]@.push(0),
            forall|t: int| i <= t < n ==> #[trigger] m@[t]@ == old(m)@[t]@,
        decreases n - i,
    {
        m[i].push(0);
        assert(m@[i as int]@ == old(m)@[i as int]@.push(0));
        i = i + 1;
    }
}

impl ResMonitor {
    /// The rows of a thread that has them, read through the views.
    proof fn lemma_rows(&self, t: int)
        requires
            self.wf(),
            0 <= t < self.n_threads(),
        ensures
            self.alloc@[t]@ == self.alloc_view()[t],
            self.need@[t]@ == self.need_view()[t],
            self.alloc@[t]@.len() == self.n_res(),
            self.need@[t]@.len() == self.n_res(),
            self.alloc@.len() == self.n_threads(),
            self.need@.len() == self.n_threads(),
    {
        assert(self.alloc_view()[t].len() == self.n_res());
        assert(self.need_view()[t].len() == self.n_res());
    }

    /// Thread `tid` takes one unit of resource `resid`: the unit leaves
    /// `avail`, enters the thread's row of `alloc`, and its need is cleared.
    pub fn acquire(&mut self, tid: usize, resid: u32)
        requires
            old(self).wf(),
            tid < usize::MAX,
            resid < old(self).n_res(),
            old(self).avail_view()[resid as int] > i64::MIN,
            old(self).alloc_at(tid as int, resid as int) < u32::MAX,
        ensures
            final(self).wf(),
            final(self).cap_view() == old(self).cap_view(),
            final(self).avail_view() == old(self).avail_view().update(
                resid as int,
                (old(self).avail_view()[resid as int] - 1) as i64,
            ),
            final(self).n_threads() == old(self).rows_for(tid as int),
            forall|t: int, r: int|
                0 <= r < old(self).n_res() ==> #[trigger] final(self).alloc_at(t, r) == if t == tid && r == resid {
                    (old(self).alloc_at(t, r) + 1) as u32
                } else {
                    old(self).alloc_at(t, r)
                },
            forall|t: int, r: int|
                0 <= r < old(self).n_res() ==> #[trigger] final(self).need_at(t, r) == if t == tid && r == resid {
                    0
                } else {
                    old(self).need_at(t, r)
                },
            final(self).acquired(old(self), tid as int, resid as int),
    {
        self.grow(tid);
        proof {
            self.lemma_rows(tid as int);
        }
        let ghost g = *self;
        let r = resid as usize;
        assert(g.alloc_at(tid as int, resid as int) == old(self).alloc_at(tid as int, resid as int));
        self.avail.set(r, self.avail[r] - 1);
        let a = self.alloc[tid][r];
        self.alloc[tid].set(r, a + 1);
        self.need[tid].set(r, 0);
        proof {
            assert(self.alloc_view() =~= g.alloc_view().update(
                tid as int,
                g.alloc_view()[tid as int].update(r as int, (a + 1) as u32),
            ));
            assert(self.need_view() =~= g.need_view().update(
                tid as int,
                g.need_view()[tid as int].update(r as int, 0),
            ));
            lemma_col_sum_update(g.alloc_view(), tid as int, r as int, (a + 1) as u32, g.n_threads() as int);
            assert forall|t: int, q: int| 0 <= q < old(self).n_res() implies #[trigger] self.alloc_at(t, q) == if t == tid && q == resid {
                (old(self).alloc_at(t, q) + 1) as u32
            } else {
                old(self).alloc_at(t, q)
            } by {
                assert(g.alloc_at(t, q) == old(self).alloc_at(t, q));
            }
            assert forall|t: int, q: int| 0 <= q < old(self).n_res() implies #[trigger] self.need_at(t, q) == if t == tid && q == resid {
                0
            } else {
                old(self).need_at(t, q)
            } by {
                assert(g.need_at(t, q) == old(self).need_at(t, q));
            }
            assert forall|q: int| 0 <= q < self.n_res() && q != r implies #[trigger] self.avail_view()[q]
                + self.held(q) == self.cap_view()[q] as int by {
                lemma_col_sum_ext(self.alloc_view(), g.alloc_view(), q, q, g.n_threads() as int);
            }
        }
    }

    /// Thread `tid` declares that it waits for one unit of `resid`: its
    /// need becomes one unless it is already positive.
    pub fn need(&mut self, tid: usize, resid: u32)
        requires
            old(self).wf(),
            tid < usize::MAX,
            resid < old(self).n_res(),
        ensures
            final(self).wf(),
            final(self).cap_view() == old(self).cap_view(),
            final(self).avail_view() == old(self).avail_view(),
            final(self).n_threads() == old(self).rows_for(tid as int),
            forall|t: int, r: int|
                0 <= r < old(self).n_res() ==> #[trigger] final(self).alloc_at(t, r) == old(self).alloc_at(t, r),
            forall|t: int, r: int|
                0 <= r < old(self).n_res() ==> #[trigger] final(self).need_at(t, r) == if t == tid && r == resid
                    && old(self).need_at(t, r) == 0 {
                    1
                } else {
                    old(self).need_at(t, r)
                },
            final(self).needed(old(self), tid as int, resid as int),
    {
        self.grow(tid);
        proof {
            self.lemma_rows(tid as int);
        }
        let r = resid as usize;
        if self.need[tid][r] > 0 {
            proof {
                assert forall|t: int, q: int| 0 <= q < old(self).n_res() implies #[trigger] self.need_at(t, q) == if t == tid && q == resid
                    && old(self).need_at(t, q) == 0 {
                    1
                } else {
                    old(self).need_at(t, q)
                } by {
                    assert(self.need_at(t, q) == old(self).need_at(t, q));
                }
            }
            return;
        }
        let ghost g = *self;
        self.need[tid].set(r, 1);
        proof {
            assert(self.need_view() =~= g.need_view().update(
                tid as int,
                g.need_view()[tid as int].update(r as int, 1),
            ));
            assert(self.alloc_view() =~= g.alloc_view());
            assert forall|t: int, q: int| 0 <= q < old(self).n_res() implies #[trigger] self.alloc_at(t, q) == old(self).alloc_at(t, q) by {
                assert(g.alloc_at(t, q) == old(self).alloc_at(t, q));
            }
            assert forall|t: int, q: int| 0 <= q < old(self).n_res() implies #[trigger] self.need_at(t, q) == if t == tid && q == resid
                && old(self).need_at(t, q) == 0 {
                1
            } else {
                old(self).need_at(t, q)
            } by {
                assert(g.need_at(t, q) == old(self).need_at(t, q));
            }
        }
    }

    /// Thread `tid` gives one unit of `resid` back.
    pub fn release(&mut self, tid: usize, resid: u32)
        requires
            old(self).wf(),
            resid < old(self).n_res(),
            old(self).alloc_at(tid as int, resid as int) > 0,
            old(self).avail_view()[resid as int] < i64::MAX,
        ensures
            final(self).wf(),
            final(self).cap_view() == old(self).cap_view(),
            final(self).avail_view() == old(self).avail_view().update(
                resid as int,
                (old(self).avail_view()[resid as int] + 1) as i64,
            ),
            final(self).n_threads() == old(self).n_threads(),
            forall|t: int, r: int|
                0 <= r < old(self).n_res() ==> #[trigger] final(self).alloc_at(t, r) == if t == tid && r == resid {
                    (old(self).alloc_at(t, r) - 1) as u32
                } else {
                    old(self).alloc_at(t, r)
                },
            forall|t: int, r: int|
                0 <= r < old(self).n_res() ==> #[trigger] final(self).need_at(t, r) == old(self).need_at(t, r),
            final(self).released(old(self), tid as int, resid as int),
    {
        proof {
            self.lemma_rows(tid as int);
        }
        let ghost g = *self;
        let r = resid as usize;
        self.avail.set(r, self.avail[r] + 1);
        let a = self.alloc[tid][r];
        self.alloc[tid].set(r, a - 1);
        proof {
            assert(self.alloc_view() =~= g.alloc_view().update(
                tid as int,
                g.alloc_view()[tid as int].update(r as int, (a - 1) as u32),
            ));
            assert(self.need_view() =~= g.need_view());
            lemma_col_sum_update(g.alloc_view(), tid as int, r as int, (a - 1) as u32, g.n_threads() as int);
            assert forall|q: int| 0 <= q < self.n_res() && q != r implies #[trigger] self.avail_view()[q]
                + self.held(q) == self.cap_view()[q] as int by {
                lemma_col_sum_ext(self.alloc_view(), g.alloc_view(), q, q, g.n_threads() as int);
            }
        }
    }
}

/// A copy of a row.
fn copy_row(v: &Vec<u32>) -> (r: Vec<u32>)
    ensures
        r@ == v@,
{
    let mut r: Vec<u32> = Vec::new();
    let mut i: usize = 0;
    while i < v.len()
        invariant
            i <= v@.len(),
            r@ == v@.subrange(0, i as int),
        decreases v@.len() - i,
    {
        r.push(v[i]);
        i = i + 1;
    }
    assert(r@ =~= v@);
    r
}

/// A copy of a matrix.
fn copy_matrix(m: &Vec<Vec<u32>>) -> (r: Vec<Vec<u32>>)
    ensures
        r@.len() == m@.len(),
        forall|t: int| 0 <= t < m@.len() ==> #[trigger] r@[t]@ == m@[t]@,
{
    let mut r: Vec<Vec<u32>> = Vec::new();
    let mut i: usize = 0;
    while i < m.len()
        invariant
            i <= m@.len(),
            r@.len() == i,
            forall|t: int| 0 <= t < i ==> #[trigger] r@[t]@ == m@[t]@,
        decreases m@.len() - i,
    {
        r.push(copy_row(&m[i]));
        i = i + 1;
    }
    r
}

impl ResMonitor {
    /// A snapshot of the matrices: `(avail, alloc, need)`.
    pub fn dump_res(&self) -> (r: (Vec<i64>, Vec<Vec<u32>>, Vec<Vec<u32>>))
        ensures
            r.0@ == self.avail_view(),
            r.1@.len() == self.n_threads(),
            r.2@.len() == self.need_view().len(),
            forall|t: int| 0 <= t < self.n_threads() ==> #[trigger] r.1@[t]@ == self.alloc_view()[t],
            forall|t: int| 0 <= t < self.need_view().len() ==> #[trigger] r.2@[t]@ == self.need_view()[t],
    {
        let mut avail: Vec<i64> = Vec::new();
        let mut i: usize = 0;
        while i < self.avail.len()
            invariant
                i <= self.avail@.len(),
                avail@ == self.avail@.subrange(0, i as int),
            decreases self.avail@.len() - i,
        {
            avail.push(self.avail[i]);
            i = i + 1;
        }
        assert(avail@ =~= self.avail@);
        (avail, copy_matrix(&self.alloc), copy_matrix(&self.need))
    }

    /// Units of `resid` that are available.
    pub fn avail_of(&self, resid: u32) -> (r: i64)
        requires
            resid < self.n_res(),
        ensures
            r == self.avail_view()[resid as int],
    {
        self.avail[resid as usize]
    }

    /// Units of `resid` held by thread `tid` (zero for a thread not seen yet).
    pub fn alloc_of(&self, tid: usize, resid: u32) -> (r: u32)
        requires
            self.wf(),
            resid < self.n_res(),
        ensures
            r == self.alloc_at(tid as int, resid as int),
    {
        if tid < self.alloc.len() {
            proof {
                self.lemma_rows(tid as int);
            }
            self.alloc[tid][resid as usize]
        } else {
            0
        }
    }

    /// Units of `resid` that thread `tid` waits for (zero for a thread not seen yet).
    pub fn need_of(&self, tid: usize, resid: u32) -> (r: u32)
        requires
            self.wf(),
            resid < self.n_res(),
        ensures
            r == self.need_at(tid as int, resid as int),
    {
        if tid < self.need.len() {
            proof {
                self.lemma_rows(tid as int);
            }
            self.need[tid][resid as usize]
        } else {
            0
        }
    }

    /// Number of thread rows.
    pub fn thread_rows(&self) -> (r: usize)
        ensures
            r == self.n_threads(),
    {
        self.alloc.len()
    }

    /// Number of resources registered.
    pub fn res_count(&self) -> (r: usize)
        ensures
            r == self.n_res(),
    {
        self.avail.len()
    }
}

/// Conservation of every resource at any point where the monitor is well
/// formed: what is available plus what all threads hold is the capacity.
pub proof fn lemma_conservation(m: &ResMonitor)
    requires
        m.wf(),
    ensures
        forall|r: int| 0 <= r < m.n_res() ==> #[trigger] m.avail_view()[r] + m.held(r) == m.cap_view()[r] as int,
{
}

/// A column of zeros sums to zero.
pub proof fn lemma_col_sum_zero(n: int)
    ensures
        col_sum(Seq::new(n as nat, |k: int| seq![0u32]), 0, n) == 0,
    decreases n,
{
    if n > 0 {
        lemma_col_sum_ext(Seq::new(n as nat, |k: int| seq![0u32]), Seq::new((n - 1) as nat, |k: int| seq![0u32]), 0, 0, n - 1);
        lemma_col_sum_zero(n - 1);
    }
}

/// The threads `t < n` that appear in `s`.
pub open spec fn members(s: Seq<int>, n: int) -> Seq<bool> {
    Seq::new(n as nat, |t: int| s.contains(t))
}

/// Marking one more thread adds what it holds.
proof fn lemma_fin_sum_mark(alloc: Seq<Seq<u32>>, fin: Seq<bool>, x: int, r: int, n: int)
    requires
        0 <= x < n <= fin.len(),
        !fin[x],
    ensures
        fin_sum(alloc, fin.update(x, true), r, n) == fin_sum(alloc, fin, r, n) + alloc[x][r],
    decreases n,
{
    if n - 1 > x {
        lemma_fin_sum_mark(alloc, fin, x, r, n - 1);
    } else {
        lemma_fin_sum_same(alloc, fin.update(x, true), fin, r, n - 1);
    }
}

/// Sums over the same marks are equal.
proof fn lemma_fin_sum_same(alloc: Seq<Seq<u32>>, f1: Seq<bool>, f2: Seq<bool>, r: int, n: int)
    requires
        forall|t: int| 0 <= t < n ==> #[trigger] f1[t] == f2[t],
    ensures
        fin_sum(alloc, f1, r, n) == fin_sum(alloc, f2, r, n),
    decreases n,
{
    if n > 0 {
        lemma_fin_sum_same(alloc, f1, f2, r, n - 1);
    }
}

/// More marks never give a smaller sum, and all marks give the column sum.
proof fn lemma_fin_sum_mono(alloc: Seq<Seq<u32>>, f1: Seq<bool>, f2: Seq<bool>, r: int, n: int)
    requires
        forall|t: int| 0 <= t < n ==> #[trigger] f1[t] ==> f2[t],
    ensures
        0 <= fin_sum(alloc, f1, r, n) <= fin_sum(alloc, f2, r, n) <= col_sum(alloc, r, n),
    decreases n,
{
    if n > 0 {
        lemma_fin_sum_mono(alloc, f1, f2, r, n - 1);
    }
}

/// The sum over a list of distinct threads is the sum over its members.
proof fn lemma_seq_sum_members(alloc: Seq<Seq<u32>>, s: Seq<int>, r: int, n: int)
    requires
        s.no_duplicates(),
        forall|k: int| 0 <= k < s.len() ==> 0 <= #[trigger] s[k] < n,
    ensures
        seq_sum(alloc, s, r) == fin_sum(alloc, members(s, n), r, n),
    decreases s.len(),
{
    if s.len() == 0 {
        lemma_fin_sum_mono(alloc, members(s, n), members(s, n), r, n);
        lemma_fin_sum_zero(alloc, members(s, n), r, n);
    } else {
        let p = s.drop_last();
        let x = s.last();
        assert forall|k: int| 0 <= k < p.len() implies 0 <= #[trigger] p[k] < n by {
            assert(p[k] == s[k]);
        }
        lemma_seq_sum_members(alloc, p, r, n);
        assert(!p.contains(x)) by {
            if p.contains(x) {
                let j = choose|j: int| 0 <= j < p.len() && p[j] == x;
                assert(s[j] == s[s.len() - 1]);
            }
        }
        assert(members(s, n) =~= members(p, n).update(x, true)) by {
            assert forall|t: int| 0 <= t < n implies members(s, n)[t] == members(p, n).update(x, true)[t] by {
                if t != x {
                    if s.contains(t) {
                        let j = choose|j: int| 0 <= j < s.len() && s[j] == t;
                        assert(p[j] == t);
                    }
                    if p.contains(t) {
                        let j = choose|j: int| 0 <= j < p.len() && p[j] == t;
                        assert(s[j] == t);
                    }
                } else {
                    assert(s[s.len() - 1] == x);
                }
            }
        }
        lemma_fin_sum_mark(alloc, members(p, n), x, r, n);
    }
}

/// With no marks the sum is zero.
proof fn lemma_fin_sum_zero(alloc: Seq<Seq<u32>>, fin: Seq<bool>, r: int, n: int)
    requires
        forall|t: int| 0 <= t < n ==> !#[trigger] fin[t],
    ensures
        fin_sum(alloc, fin, r, n) == 0,
    decreases n,
{
    if n > 0 {
        lemma_fin_sum_zero(alloc, fin, r, n - 1);
    }
}

/// A list of distinct threads below `n` has at most `n` entries.
proof fn lemma_distinct_len(s: Seq<int>, n: int)
    requires
        0 <= n,
        s.no_duplicates(),
        forall|k: int| 0 <= k < s.len() ==> 0 <= #[trigger] s[k] < n,
    ensures
        s.len() <= n,
{
    s.unique_seq_to_set();
    vstd::set_lib::lemma_int_range(0, n);
    assert(s.to_set().subset_of(vstd::set_lib::set_int_range(0, n)));
    vstd::set_lib::lemma_len_subset(s.to_set(), vstd::set_lib::set_int_range(0, n));
}

impl ResMonitor {
    /// Thread `t`'s need fits within `work`.
    pub open spec fn fits(&self, t: int, work: Seq<i64>) -> bool {
        forall|r: int| 0 <= r < self.n_res() ==> #[trigger] self.need_view()[t][r] as int <= work[r] as int
    }

    /// A pass that finished no thread rules out every schedule: the first
    /// unfinished thread of a schedule would have fitted.
    proof fn lemma_stuck_unsafe(&self, fin: Seq<bool>, order: Seq<int>, work: Seq<i64>, s: Seq<int>, k: int, j: int)
        requires
            self.wf(),
            fin.len() == self.n_threads(),
            order.no_duplicates(),
            forall|q: int| 0 <= q < order.len() ==> 0 <= #[trigger] order[q] < self.n_threads(),
            forall|t: int| 0 <= t < self.n_threads() ==> (#[trigger] fin[t] <==> order.contains(t)),
            work.len() == self.n_res(),
            forall|r: int| 0 <= r < self.n_res() ==> #[trigger] work[r] as int == self.avail_view()[r] + seq_sum(self.alloc_view(), order, r),
            forall|t: int| 0 <= t < self.n_threads() && !fin[t] ==> !#[trigger] self.fits(t, work),
            0 <= k <= j < s.len(),
            !fin[s[j]],
            forall|q: int| 0 <= q < k ==> #[trigger] fin[s[q]],
        ensures
            !self.is_partial_schedule(s),
        decreases j - k,
    {
        if !self.is_partial_schedule(s) {
        } else if fin[s[k]] {
            self.lemma_stuck_unsafe(fin, order, work, s, k + 1, j);
        } else {
            let n = self.n_threads() as int;
            let p = s.take(k);
            assert forall|q: int| 0 <= q < p.len() implies 0 <= #[trigger] p[q] < n by {
                assert(p[q] == s[q]);
            }
            assert(p.no_duplicates()) by {
                assert forall|a: int, b: int| 0 <= a < p.len() && 0 <= b < p.len() && a != b implies p[a] != p[b] by {
                    assert(p[a] == s[a] && p[b] == s[b]);
                }
            }
            assert(fin =~= members(order, n));
            assert(self.can_finish(s[k], s.take(k)));
            assert(self.fits(s[k], work)) by {
                assert forall|r: int| 0 <= r < self.n_res() implies #[trigger] self.need_view()[s[k]][r] as int <= work[r] as int by {
                    lemma_seq_sum_members(self.alloc_view(), p, r, n);
                    lemma_seq_sum_members(self.alloc_view(), order, r, n);
                    assert forall|t: int| 0 <= t < n implies #[trigger] members(p, n)[t] ==> fin[t] by {
                        if members(p, n)[t] {
                            let q = choose|q: int| 0 <= q < p.len() && p[q] == t;
                            assert(fin[s[q]]);
                        }
                    }
                    lemma_fin_sum_mono(self.alloc_view(), members(p, n), fin, r, n);
                }
            }
        }
    }

    /// Banker's safety test. With detection off it accepts everything;
    /// otherwise it accepts exactly the safe states, and on an unsafe
    /// state names a thread that no schedule can finish first.
    pub fn check(&self, detect: bool) -> (res: Option<u32>)
        requires
            self.wf(),
            self.n_threads() <= u32::MAX,
        ensures
            !detect ==> res is None,
            detect ==> (res is None <==> self.is_safe()),
            res matches Some(t) ==> t < self.n_threads() && !self.finishable(t as int)
                && forall|u: int| 0 <= u < t ==> #[trigger] self.finishable(u),
    {
        if !detect {
            return None;
        }
        let n = self.alloc.len();
        let nr = self.avail.len();
        let ghost nn = n as int;
        let mut finish: Vec<bool> = Vec::new();
        let mut i: usize = 0;
        while i < n
            invariant
                i <= n,
                finish@.len() == i,
                forall|t: int| 0 <= t < i ==> !#[trigger] finish@[t],
            decreases n - i,
        {
            finish.push(false);
            i = i + 1;
        }
        let mut work: Vec<i64> = Vec::new();
        let mut i: usize = 0;
        while i < nr
            invariant
                i <= nr,
                nr == self.n_res(),
                work@.len() == i,
                forall|r: int| 0 <= r < i ==> #[trigger] work@[r] == self.avail_view()[r],
            decreases nr - i,
        {
            work.push(self.avail[i]);
            i = i + 1;
        }
        let ghost mut order: Seq<int> = Seq::empty();
        proof {
            assert forall|r: int| 0 <= r < nr implies #[trigger] work@[r] as int == self.avail_view()[r]
                + seq_sum(self.alloc_view(), order, r) by {}
            assert forall|t: int| 0 <= t < nn implies (#[trigger] finish@[t] <==> order.contains(t)) by {}
        }
        let mut progress = true;
        while progress
            invariant
                self.wf(),
                n == self.n_threads(),
                nn == n,
                nr == self.n_res(),
                finish@.len() == n,
                work@.len() == nr,
                order.no_duplicates(),
                order.len() <= n,
                forall|q: int| 0 <= q < order.len() ==> 0 <= #[trigger] order[q] < n,
                forall|t: int| 0 <= t < n ==> (#[trigger] finish@[t] <==> order.contains(t)),
                forall|q: int| 0 <= q < order.len() ==> #[trigger] self.can_finish(order[q], order.take(q)),
                forall|r: int| 0 <= r < nr ==> #[trigger] work@[r] as int == self.avail_view()[r] + seq_sum(self.alloc_view(), order, r),
                !progress ==> forall|t: int| 0 <= t < n && !finish@[t] ==> !#[trigger] self.fits(t, work@),
            decreases n - order.len() + if progress { 1int } else { 0int },
        {
            progress = false;
            let ghost len0 = order.len();
            let mut t: usize = 0;
            while t < n
                invariant
                    self.wf(),
                    n == self.n_threads(),
                    nn == n,
                    nr == self.n_res(),
                    t <= n,
                    finish@.len() == n,
                    work@.len() == nr,
                    order.no_duplicates(),
                    order.len() <= n,
                    forall|q: int| 0 <= q < order.len() ==> 0 <= #[trigger] order[q] < n,
                    forall|s: int| 0 <= s < n ==> (#[trigger] finish@[s] <==> order.contains(s)),
                    forall|q: int| 0 <= q < order.len() ==> #[trigger] self.can_finish(order[q], order.take(q)),
                    forall|r: int| 0 <= r < nr ==> #[trigger] work@[r] as int == self.avail_view()[r] + seq_sum(self.alloc_view(), order, r),
                    !progress ==> forall|s: int| 0 <= s < t && !finish@[s] ==> !#[trigger] self.fits(s, work@),
                    !progress ==> order.len() == len0,
                    progress ==> order.len() > len0,
                    len0 <= order.len(),
                decreases n - t,
            {
                if !finish[t] {
                    proof {
                        self.lemma_rows(t as int);
                    }
                    let mut fulfil = true;
                    let mut r: usize = 0;
                    while r < nr && fulfil
                        invariant
                            self.wf(),
                            t < n == self.n_threads(),
                            nr == self.n_res(),
                            r <= nr,
                            work@.len() == nr,
                            self.need@[t as int]@ == self.need_view()[t as int],
                            self.need@[t as int]@.len() == nr,
                            fulfil ==> forall|q: int| 0 <= q < r ==> #[trigger] self.need_view()[t as int][q] as int <= work@[q] as int,
                            !fulfil ==> !self.fits(t as int, work@),
                        decreases nr - r + if fulfil { 1int } else { 0int },
                    {
                        if (self.need[t][r] as i64) > work[r] {
                            fulfil = false;
                        } else {
                            r = r + 1;
                        }
                    }
                    if fulfil {
                        let ghost new_order = order.push(t as int);
                        proof {
                            assert(!order.contains(t as int));
                            assert(new_order.take(order.len() as int) =~= order);
                            assert(self.can_finish(t as int, order)) by {
                                assert forall|q: int| 0 <= q < self.n_res() implies #[trigger] self.need_view()[t as int][q] as int
                                    <= self.avail_view()[q] + seq_sum(self.alloc_view(), order, q) by {
                                    assert(work@[q] as int == self.avail_view()[q] + seq_sum(self.alloc_view(), order, q));
                                }
                            }
                            assert forall|q: int| 0 <= q < new_order.len() implies #[trigger] self.can_finish(new_order[q], new_order.take(q)) by {
                                if q < order.len() {
                                    assert(new_order.take(q) =~= order.take(q));
                                }
                            }
                            assert(new_order.no_duplicates());
                            lemma_distinct_len(new_order, nn);
                        }
                        let mut r: usize = 0;
                        while r < nr
                            invariant
                                self.wf(),
                                t < n == self.n_threads(),
                                nn == n,
                                nr == self.n_res(),
                                r <= nr,
                                work@.len() == nr,
                                new_order == order.push(t as int),
                                new_order.no_duplicates(),
                                forall|q: int| 0 <= q < new_order.len() ==> 0 <= #[trigger] new_order[q] < n,
                                self.alloc@[t as int]@ == self.alloc_view()[t as int],
                                self.alloc@[t as int]@.len() == nr,
                                forall|q: int| 0 <= q < r ==> #[trigger] work@[q] as int == self.avail_view()[q] + seq_sum(self.alloc_view(), new_order, q),
                                forall|q: int| r <= q < nr ==> #[trigger] work@[q] as int == self.avail_view()[q] + seq_sum(self.alloc_view(), order, q),
                            decreases nr - r,
                        {
                            proof {
                                assert(new_order.drop_last() =~= order);
                                lemma_seq_sum_members(self.alloc_view(), new_order, r as int, nn);
                                lemma_fin_sum_mono(self.alloc_view(), members(new_order, nn), members(new_order, nn), r as int, nn);
                                lemma_fin_sum_mono(self.alloc_view(), members(order, nn), members(order, nn), r as int, nn);
                                lemma_seq_sum_members(self.alloc_view(), order, r as int, nn);
                            }
                            let w = work[r] + self.alloc[t][r] as i64;
                            work.set(r, w);
                            r = r + 1;
                        }
                        let ghost prev_fin = finish@;
                        finish.set(t, true);
                        proof {
                            let prev = order;
                            order = new_order;
                            assert forall|s: int| 0 <= s < n implies (#[trigger] finish@[s] <==> order.contains(s)) by {
                                if s == t {
                                    assert(order[order.len() - 1] == s);
                                } else {
                                    assert(finish@[s] == prev_fin[s]);
                                    if prev.contains(s) {
                                        let j = choose|j: int| 0 <= j < prev.len() && prev[j] == s;
                                        assert(order[j] == s);
                                    }
                                    if order.contains(s) {
                                        let j = choose|j: int| 0 <= j < order.len() && order[j] == s;
                                        assert(prev[j] == s);
                                    }
                                }
                            }
                        }
                        progress = true;
                    }
                }
                t = t + 1;
            }
        }
        let mut i: usize = 0;
        while i < n
            invariant
                i <= n,
                detect,
                self.wf(),
                n == self.n_threads(),
                self.n_threads() <= u32::MAX,
                nn == n,
                nr == self.n_res(),
                finish@.len() == n,
                work@.len() == nr,
                order.no_duplicates(),
                forall|q: int| 0 <= q < order.len() ==> 0 <= #[trigger] order[q] < n,
                forall|t: int| 0 <= t < n ==> (#[trigger] finish@[t] <==> order.contains(t)),
                forall|q: int| 0 <= q < order.len() ==> #[trigger] self.can_finish(order[q], order.take(q)),
                forall|r: int| 0 <= r < nr ==> #[trigger] work@[r] as int == self.avail_view()[r] + seq_sum(self.alloc_view(), order, r),
                forall|t: int| 0 <= t < n && !finish@[t] ==> !#[trigger] self.fits(t, work@),
                forall|t: int| 0 <= t < i ==> #[trigger] finish@[t],
            decreases n - i,
        {
            if !finish[i] {
                proof {
                    assert(self.is_partial_schedule(order));
                    assert forall|u: int| 0 <= u < i implies #[trigger] self.finishable(u) by {
                        assert(finish@[u]);
                        assert(order.contains(u));
                    }
                    if self.finishable(i as int) {
                        let s = choose|s: Seq<int>| #[trigger] self.is_partial_schedule(s) && s.contains(i as int);
                        let j = choose|j: int| 0 <= j < s.len() && s[j] == i as int;
                        self.lemma_stuck_unsafe(finish@, order, work@, s, 0, j);
                    }
                    if self.is_safe() {
                        let s = choose|s: Seq<int>| self.is_safe_schedule(s);
                        assert(s.contains(i as int));
                        let j = choose|j: int| 0 <= j < s.len() && s[j] == i as int;
                        self.lemma_stuck_unsafe(finish@, order, work@, s, 0, j);
                    }
                }
                return Some(i as u32);
            }
            i = i + 1;
        }
        proof {
            assert forall|t: int| 0 <= t < n implies #[trigger] order.contains(t) by {
                assert(finish@[t]);
            }
            assert(self.is_safe_schedule(order));
        }
        None
    }
}

impl ResMonitor {
    /// What `check` answers: with detection on, whether the state is unsafe.
    pub open spec fn check_refuses(&self, detect: bool) -> bool {
        detect && !self.is_safe()
    }

    /// Thread `t` can run to completion once the threads in `done` have
    /// finished and given back what they hold.
    pub open spec fn can_finish(&self, t: int, done: Seq<int>) -> bool {
        forall|r: int|
            0 <= r < self.n_res() ==> #[trigger] self.need_view()[t][r] as int <= self.avail_view()[r]
                + seq_sum(self.alloc_view(), done, r)
    }

    /// `s` is a terminating schedule: it lists every thread once, and each
    /// thread can finish with what its predecessors gave back.
    pub open spec fn is_safe_schedule(&self, s: Seq<int>) -> bool {
        &&& s.no_duplicates()
        &&& forall|k: int| 0 <= k < s.len() ==> 0 <= #[trigger] s[k] < self.n_threads()
        &&& forall|t: int| 0 <= t < self.n_threads() ==> #[trigger] s.contains(t)
        &&& forall|k: int| 0 <= k < s.len() ==> #[trigger] self.can_finish(s[k], s.take(k))
    }

    /// `s` lists distinct threads, each of which can finish with what its
    /// predecessors gave back.
    pub open spec fn is_partial_schedule(&self, s: Seq<int>) -> bool {
        &&& s.no_duplicates()
        &&& forall|k: int| 0 <= k < s.len() ==> 0 <= #[trigger] s[k] < self.n_threads()
        &&& forall|k: int| 0 <= k < s.len() ==> #[trigger] self.can_finish(s[k], s.take(k))
    }

    /// Thread `t` finishes in some partial schedule: step 2 of the test
    /// finishes it.
    pub open spec fn finishable(&self, t: int) -> bool {
        exists|s: Seq<int>| #[trigger] self.is_partial_schedule(s) && s.contains(t)
    }

    /// Banker's safety: some terminating schedule exists.
    pub open spec fn is_safe(&self) -> bool {
        exists|s: Seq<int>| self.is_safe_schedule(s)
    }
}

} // verus!
