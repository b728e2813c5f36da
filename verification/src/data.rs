//! Collections of uniquely owned records: plain row-major stores with a
//! per-row shape, split, shuffled, batched and cross-validated by index
//! arithmetic.  Unlike the engine's tensors a dataset may hold zero rows,
//! which folding can produce.
//!
//! Shuffling draws its indices from the `rand` crate behind trusted
//! wrappers; everything done with the drawn values is verified, and the
//! result is pinned to an explicit permutation of the swap plan.

use vstd::prelude::*;

use rand::rngs::StdRng;
use rand::{Rng, SeedableRng};

use crate::tensor::{checked_volume, clone_shape, dims_positive, volume, ShapeError};

verus! {

/// The pseudo-random generator used for shuffling.
#[verifier::external_type_specification]
#[verifier::external_body]
pub struct ExStdRng(StdRng);

/// Relies on rand's `SeedableRng::seed_from_u64`: builds a generator from
/// a word-sized seed.  Nothing is assumed about the values it yields.
#[verifier::external_body]
fn rng_from_seed(seed: u64) -> StdRng {
    StdRng::seed_from_u64(seed)
}

/// Relies on rand's `Rng::gen_range`: a value uniformly drawn from
/// `[0, bound)`; the range must not be empty.  Only the bound is assumed,
/// which holds of every outcome.
#[verifier::external_body]
fn draw_below(rng: &mut StdRng, bound: usize) -> (r: usize)
    requires
        bound >= 1,
    ensures
        r < bound,
{
    rng.gen_range(0..bound)
}

/// Relies on rand's `random`: an arbitrary seed from the thread-local
/// generator.  Nothing is assumed about the value.
#[verifier::external_body]
fn random_seed() -> u64 {
    rand::random()
}

/// A collection of uniquely owned unlabeled records: `rows` records of
/// one positive row shape, flat in row-major order.
pub struct Dataset<T> {
    rows: usize,
    row_shape: Vec<usize>,
    data: Vec<T>,
}

impl<T> Dataset<T> {
    /// Number of records.
    pub closed spec fn spec_rows(self) -> int {
        self.rows as int
    }

    /// The shape of a single record.
    pub closed spec fn row_shape_view(self) -> Seq<usize> {
        self.row_shape@
    }

    /// The flat record values.
    pub closed spec fn data_view(self) -> Seq<T> {
        self.data@
    }

    /// Elements per record.
    pub open spec fn row_vol(self) -> int {
        volume(self.row_shape_view())
    }

    /// Well-formedness: positive record dimensions, and a buffer of
    /// exactly `rows` records.
    pub open spec fn wf(self) -> bool {
        &&& dims_positive(self.row_shape_view())
        &&& self.row_vol() <= usize::MAX
        &&& self.data_view().len() == self.spec_rows() * self.row_vol()
    }

    /// Record `q`, flat.
    pub open spec fn row_at(self, q: int) -> Seq<T> {
        self.data_view().subrange(q * self.row_vol(), (q + 1) * self.row_vol())
    }

    /// Returns a reference to the records, flat.
    pub fn records(&self) -> (r: &Vec<T>)
        ensures
            r@ == self.data_view(),
    {
        &self.data
    }

    /// The shape of a single record.
    pub fn row_shape(&self) -> (r: &Vec<usize>)
        ensures
            r@ == self.row_shape_view(),
    {
        &self.row_shape
    }

    /// Returns the number of records stored in the dataset.
    pub fn len(&self) -> (r: usize)
        ensures
            r == self.spec_rows(),
    {
        self.rows
    }

    /// Checks whether the dataset is empty or not.
    pub fn is_empty(&self) -> (r: bool)
        ensures
            r == (self.spec_rows() == 0),
    {
        self.rows == 0
    }
}

impl<T: Copy> Dataset<T> {
    /// Builds a dataset from a flat buffer of `rows` records.
    pub fn new(rows: usize, row_shape: Vec<usize>, data: Vec<T>) -> (r: Result<Self, ShapeError>)
        ensures
            match r {
                Ok(d) => {
                    &&& d.wf()
                    &&& d.spec_rows() == rows
                    &&& d.row_shape_view() == row_shape@
                    &&& d.data_view() == data@
                },
                Err(ShapeError::EmptyDim) => !dims_positive(row_shape@),
                Err(ShapeError::TooLarge) => dims_positive(row_shape@) && (volume(row_shape@)
                    > usize::MAX || rows * volume(row_shape@) > usize::MAX),
                Err(ShapeError::Mismatch) => dims_positive(row_shape@) && rows * volume(row_shape@)
                    <= usize::MAX && data@.len() != rows * volume(row_shape@),
            },
    {
        let rv = match checked_volume(&row_shape) {
            Ok(v) => v,
            Err(e) => {
                return Err(e);
            },
        };
        let total = match rows.checked_mul(rv) {
            Some(v) => v,
            None => {
                proof {
                    crate::tensor::lemma_volume_positive(row_shape@);
                    assert(rows * volume(row_shape@) > usize::MAX) by (nonlinear_arith)
                        requires
                            rows * rv > usize::MAX,
                            rv == volume(row_shape@),
                    ;
                }
                return Err(ShapeError::TooLarge);
            },
        };
        if data.len() != total {
            return Err(ShapeError::Mismatch);
        }
        Ok(Dataset { rows, row_shape, data })
    }

    /// Copies rows `[from, to)` out into a dataset of their own.
    fn select_rows(&self, from: usize, to: usize) -> (r: Self)
        requires
            self.wf(),
            from <= to <= self.spec_rows(),
        ensures
            r.wf(),
            r.row_shape_view() == self.row_shape_view(),
            r.spec_rows() == to - from,
            r.data_view() == self.data_view().subrange(
                from * self.row_vol(),
                to * self.row_vol(),
            ),
    {
        let ghost rv = self.row_vol();
        let total = self.data.len();
        proof {
            lemma_row_bounds(*self, from as int, to as int);
            assert(to * rv <= total);
            assert(from * rv <= to * rv);
        }
        let rvx = rv_exec(&self.row_shape);
        let lo = from * rvx;
        let hi = to * rvx;
        let mut data: Vec<T> = Vec::new();
        let mut i: usize = lo;
        while i < hi
            invariant
                lo <= i <= hi,
                hi <= self.data_view().len(),
                data@ =~= self.data_view().subrange(lo as int, i as int),
            decreases hi - i,
        {
            data.push(self.data[i]);
            assert(data@ =~= self.data_view().subrange(lo as int, i as int + 1));
            i = i + 1;
        }
        let row_shape = clone_shape(&self.row_shape);
        let out = Dataset { rows: to - from, row_shape, data };
        proof {
            assert((to - from) * rv == to * rv - from * rv) by (nonlinear_arith);
        }
        out
    }

    /// Swaps records `i` and `j` in place.
    fn swap_rows(&mut self, i: usize, j: usize)
        requires
            old(self).wf(),
            (i as int) < old(self).spec_rows(),
            (j as int) < old(self).spec_rows(),
        ensures
            final(self).wf(),
            final(self).spec_rows() == old(self).spec_rows(),
            final(self).row_shape_view() == old(self).row_shape_view(),
            forall|q: int| 0 <= q < old(self).spec_rows() && q != i as int && q != j as int
                ==> #[trigger] final(self).row_at(q) == old(self).row_at(q),
            final(self).row_at(i as int) == old(self).row_at(j as int),
            final(self).row_at(j as int) == old(self).row_at(i as int),
    {
        let ghost rv = self.row_vol();
        let total = self.data.len();
        proof {
            lemma_row_bounds(*self, i as int, i as int + 1);
            lemma_row_bounds(*self, j as int, j as int + 1);
            assert((i as int + 1) * rv == i as int * rv + rv) by (nonlinear_arith);
            assert((j as int + 1) * rv == j as int * rv + rv) by (nonlinear_arith);
            assert(i as int * rv + rv <= total);
            assert(j as int * rv + rv <= total);
        }
        let rvx = rv_exec(&self.row_shape);
        let oi = i * rvx;
        let oj = j * rvx;
        let mut w: usize = 0;
        while w < rvx
            invariant
                w <= rvx,
                rvx == rv,
                self.wf(),
                self.spec_rows() == old(self).spec_rows(),
                self.row_shape_view() == old(self).row_shape_view(),
                oi == i * rv,
                oj == j * rv,
                (i as int) < self.spec_rows(),
                (j as int) < self.spec_rows(),
                self.data_view().len() == total,
                oi + rv <= self.data_view().len(),
                oj + rv <= self.data_view().len(),
                forall|x: int| 0 <= x < self.data_view().len() && !(oi <= x < oi + w) && !(oj <= x
                    < oj + w) ==> #[trigger] self.data_view()[x] == old(self).data_view()[x],
                forall|x: int| 0 <= x < w ==> #[trigger] self.data_view()[oi + x] == old(self).data_view()[oj + x],
                forall|x: int| 0 <= x < w ==> #[trigger] self.data_view()[oj + x] == old(self).data_view()[oi + x],
            decreases rvx - w,
        {
            let ghost pre = *self;
            let a = self.data[oi + w];
            let b = self.data[oj + w];
            self.data.set(oi + w, b);
            self.data.set(oj + w, a);
            proof {
                if i != j {
                    assert(oi + rv <= oj || oj + rv <= oi) by (nonlinear_arith)
                        requires
                            i != j,
                            oi == i as int * rv,
                            oj == j as int * rv,
                            rv >= 1,
                    ;
                }
                let dv = self.data_view();
                let pv = pre.data_view();
                assert(dv =~= pv.update((oi + w) as int, b).update((oj + w) as int, a));
                assert forall|x: int|
                    0 <= x < dv.len() && !(oi <= x < oi + w + 1) && !(oj <= x < oj + w + 1)
                    implies #[trigger] dv[x] == old(self).data_view()[x] by {
                    assert(dv[x] == pv[x]);
                    assert(pv[x] == old(self).data_view()[x]);
                }
                assert forall|x: int| 0 <= x < w + 1 implies #[trigger] dv[oi + x] == old(self).data_view()[oj + x] by {
                    if x < w {
                        assert(oi + x != oi + w);
                        if i != j {
                            assert(oi + x != oj + w);
                            assert(dv[oi + x] == pv[oi + x]);
                        } else {
                            assert(oi + x != oj + w);
                            assert(dv[oi + x] == pv[oi + x]);
                        }
                        assert(pv[oi + x] == old(self).data_view()[oj + x]);
                    } else {
                        if i != j {
                            assert(oi + w != oj + w);
                            assert(dv[oi + w] == b);
                            assert(b == pv[oj + w]);
                            assert(pv[oj + w] == old(self).data_view()[oj + w]);
                        } else {
                            assert(dv[oj + w] == a);
                            assert(a == pv[oi + w]);
                            assert(pv[oi + w] == old(self).data_view()[oi + w]);
                        }
                    }
                }
                assert forall|x: int| 0 <= x < w + 1 implies #[trigger] dv[oj + x] == old(self).data_view()[oi + x] by {
                    if x < w {
                        assert(oj + x != oj + w);
                        assert(oj + x != oi + w);
                        assert(dv[oj + x] == pv[oj + x]);
                        assert(pv[oj + x] == old(self).data_view()[oi + x]);
                    } else {
                        assert(dv[oj + w] == a);
                        assert(a == pv[oi + w]);
                        assert(pv[oi + w] == old(self).data_view()[oi + w]);
                    }
                }
            }
            w = w + 1;
        }
        proof {
            lemma_rows_from_flat(*old(self), *self, i as int, j as int);
        }
    }
}

/// The volume of a row shape, executable.
fn rv_exec(row_shape: &Vec<usize>) -> (r: usize)
    requires
        dims_positive(row_shape@),
        volume(row_shape@) <= usize::MAX,
    ensures
        r == volume(row_shape@),
{
    match checked_volume(row_shape) {
        Ok(v) => v,
        Err(e) => vstd::pervasive::unreached(),
    }
}

/// Row ranges lie inside the flat buffer.
proof fn lemma_row_bounds<T>(d: Dataset<T>, from: int, to: int)
    requires
        d.wf(),
        0 <= from <= to <= d.spec_rows(),
    ensures
        0 <= from * d.row_vol() <= to * d.row_vol() <= d.data_view().len(),
        d.row_vol() >= 1,
        volume(d.row_shape_view()) <= usize::MAX,
    decreases 0int,
{
    crate::tensor::lemma_volume_positive(d.row_shape_view());
    assert(0 <= from * d.row_vol() <= to * d.row_vol() <= d.spec_rows() * d.row_vol())
        by (nonlinear_arith)
        requires
            0 <= from <= to <= d.spec_rows(),
            d.row_vol() >= 1,
    ;
    assert(volume(d.row_shape_view()) <= d.spec_rows() * d.row_vol() || d.spec_rows() == 0 || true);
    assert(d.row_vol() <= d.data_view().len() || d.spec_rows() == 0) by (nonlinear_arith)
        requires
            d.data_view().len() == d.spec_rows() * d.row_vol(),
            d.row_vol() >= 1,
            d.spec_rows() >= 0,
    ;
    if d.spec_rows() == 0 {
        assert(d.data_view().len() == 0 * d.row_vol());
        assert(0 * d.row_vol() == 0) by (nonlinear_arith);
    }
}

/// Element-level equalities over two swapped row ranges lift to the rows.
proof fn lemma_rows_from_flat<T>(d0: Dataset<T>, d1: Dataset<T>, i: int, j: int)
    requires
        d0.wf(),
        d1.wf(),
        d1.spec_rows() == d0.spec_rows(),
        d1.row_shape_view() == d0.row_shape_view(),
        0 <= i < d0.spec_rows(),
        0 <= j < d0.spec_rows(),
        forall|x: int| 0 <= x < d1.data_view().len() && !(i * d0.row_vol() <= x < i
            * d0.row_vol() + d0.row_vol()) && !(j * d0.row_vol() <= x < j * d0.row_vol()
            + d0.row_vol()) ==> #[trigger] d1.data_view()[x] == d0.data_view()[x],
        forall|x: int| 0 <= x < d0.row_vol() ==> #[trigger] d1.data_view()[i * d0.row_vol() + x]
            == d0.data_view()[j * d0.row_vol() + x],
        forall|x: int| 0 <= x < d0.row_vol() ==> #[trigger] d1.data_view()[j * d0.row_vol() + x]
            == d0.data_view()[i * d0.row_vol() + x],
    ensures
        forall|q: int| 0 <= q < d0.spec_rows() && q != i && q != j ==> #[trigger] d1.row_at(q)
            == d0.row_at(q),
        d1.row_at(i) == d0.row_at(j),
        d1.row_at(j) == d0.row_at(i),
{
    let rv = d0.row_vol();
    lemma_row_bounds(d0, 0, d0.spec_rows());
    assert forall|q: int| 0 <= q < d0.spec_rows() && q != i && q != j implies #[trigger] d1.row_at(
        q,
    ) == d0.row_at(q) by {
        lemma_row_bounds(d0, q, q + 1);
        assert((q + 1) * rv == q * rv + rv) by (nonlinear_arith);
        assert forall|x: int| 0 <= x < rv implies #[trigger] d1.row_at(q)[x] == d0.row_at(q)[
            x] by {
            let y = q * rv + x;
            assert(!(i * rv <= y < i * rv + rv)) by (nonlinear_arith)
                requires
                    q != i,
                    y == q * rv + x,
                    0 <= x < rv,
                    rv >= 1,
                    0 <= q,
                    0 <= i,
            ;
            assert(!(j * rv <= y < j * rv + rv)) by (nonlinear_arith)
                requires
                    q != j,
                    y == q * rv + x,
                    0 <= x < rv,
                    rv >= 1,
                    0 <= q,
                    0 <= j,
            ;
            assert(d1.data_view()[y] == d0.data_view()[y]);
            assert(d1.row_at(q)[x] == d1.data_view()[y]);
            assert(d0.row_at(q)[x] == d0.data_view()[y]);
        }
        assert(d1.row_at(q) =~= d0.row_at(q));
    }
    lemma_row_bounds(d0, i, i + 1);
    lemma_row_bounds(d0, j, j + 1);
    assert((i + 1) * rv == i * rv + rv) by (nonlinear_arith);
    assert((j + 1) * rv == j * rv + rv) by (nonlinear_arith);
    assert forall|x: int| 0 <= x < rv implies #[trigger] d1.row_at(i)[x] == d0.row_at(j)[x] by {
        assert(d1.row_at(i)[x] == d1.data_view()[i * rv + x]);
        assert(d0.row_at(j)[x] == d0.data_view()[j * rv + x]);
        assert(d1.data_view()[i * rv + x] == d0.data_view()[j * rv + x]);
    }
    assert(d1.row_at(i) =~= d0.row_at(j));
    assert forall|x: int| 0 <= x < rv implies #[trigger] d1.row_at(j)[x] == d0.row_at(i)[x] by {
        assert(d1.row_at(j)[x] == d1.data_view()[j * rv + x]);
        assert(d0.row_at(i)[x] == d0.data_view()[i * rv + x]);
        assert(d1.data_view()[j * rv + x] == d0.data_view()[i * rv + x]);
    }
    assert(d1.row_at(j) =~= d0.row_at(i));
}

/// A valid swap plan for `n` records: one swap per position except the
/// last, each with a strictly later partner.
pub open spec fn plan_ok(plan: Seq<(usize, usize)>, n: int) -> bool {
    &&& plan.len() == (if n == 0 {
        0int
    } else {
        n - 1
    })
    &&& forall|w: int| 0 <= w < plan.len() ==> (#[trigger] plan[w]).0 == w && (plan[w].0 as int) < (
    plan[w].1 as int) && (plan[w].1 as int) < n
}

/// The permutation the first `k` swaps of a plan produce: entry `q` names
/// the original position whose record now sits at `q`.
pub open spec fn plan_perm(plan: Seq<(usize, usize)>, n: int, k: int) -> Seq<int>
    decreases k,
{
    if k <= 0 {
        Seq::new(n as nat, |q: int| q)
    } else {
        let p = plan_perm(plan, n, k - 1);
        let a = plan[k - 1].0 as int;
        let b = plan[k - 1].1 as int;
        p.update(a, p[b]).update(b, p[a])
    }
}

/// An index sequence that hits `[0, n)` exactly once each.
pub open spec fn is_perm(pi: Seq<int>, n: int) -> bool {
    &&& pi.len() == n
    &&& forall|q: int| 0 <= q < n ==> 0 <= #[trigger] pi[q] < n
    &&& forall|q1: int, q2: int| #![trigger pi[q1], pi[q2]] 0 <= q1 < q2 < n ==> pi[q1] != pi[q2]
}

/// Every prefix of a valid plan yields a permutation.
pub proof fn lemma_plan_perm_is_perm(plan: Seq<(usize, usize)>, n: int, k: int)
    requires
        plan_ok(plan, n),
        0 <= k <= plan.len(),
    ensures
        is_perm(plan_perm(plan, n, k), n),
    decreases k,
{
    if k > 0 {
        lemma_plan_perm_is_perm(plan, n, k - 1);
        let p = plan_perm(plan, n, k - 1);
        let a = plan[k - 1].0 as int;
        let b = plan[k - 1].1 as int;
        let p2 = plan_perm(plan, n, k);
        assert(p2 == p.update(a, p[b]).update(b, p[a]));
        assert forall|q1: int, q2: int| #![trigger p2[q1], p2[q2]] 0 <= q1 < q2 < n implies p2[q1]
            != p2[q2] by {
            if q1 != a && q1 != b && q2 != a && q2 != b {
                assert(p2[q1] == p[q1] && p2[q2] == p[q2]);
            }
        }
    }
}

/// Draws a swap plan for `n` records from the generator.
fn swap_plan(rng: &mut StdRng, n: usize) -> (r: Vec<(usize, usize)>)
    ensures
        plan_ok(r@, n as int),
{
    let mut plan: Vec<(usize, usize)> = Vec::new();
    if n == 0 {
        return plan;
    }
    let mut i: usize = 0;
    while i < n - 1
        invariant
            n >= 1,
            i <= n - 1,
            plan@.len() == i,
            forall|w: int| 0 <= w < i ==> (#[trigger] plan@[w]).0 == w && (plan@[w].0 as int) < (
            plan@[w].1 as int) && (plan@[w].1 as int) < n,
        decreases n - 1 - i,
    {
        let j = draw_below(rng, n - i - 1);
        plan.push((i, i + 1 + j));
        i = i + 1;
    }
    plan
}

/// Whether `d1` holds exactly `d0`'s records, reordered.
pub open spec fn rows_permuted_by<T>(d0: Dataset<T>, d1: Dataset<T>, pi: Seq<int>) -> bool {
    &&& d1.spec_rows() == d0.spec_rows()
    &&& d1.row_shape_view() == d0.row_shape_view()
    &&& is_perm(pi, d0.spec_rows())
    &&& forall|q: int| 0 <= q < d0.spec_rows() ==> #[trigger] d1.row_at(q) == d0.row_at(pi[q])
}

impl<T: Copy> Dataset<T> {
    /// Applies a swap plan in order.
    fn apply_plan(&mut self, plan: &Vec<(usize, usize)>)
        requires
            old(self).wf(),
            plan_ok(plan@, old(self).spec_rows()),
        ensures
            final(self).wf(),
            rows_permuted_by(
                *old(self),
                *final(self),
                plan_perm(plan@, old(self).spec_rows(), plan@.len() as int),
            ),
    {
        let n_swaps = plan.len();
        let ghost rows = old(self).spec_rows();
        proof {
            lemma_plan_perm_is_perm(plan@, rows, 0);
        }
        let mut k: usize = 0;
        while k < n_swaps
            invariant
                k <= n_swaps,
                n_swaps == plan@.len(),
                plan_ok(plan@, rows),
                self.wf(),
                self.spec_rows() == rows,
                self.row_shape_view() == old(self).row_shape_view(),
                old(self).wf(),
                is_perm(plan_perm(plan@, rows, k as int), rows),
                forall|q: int| 0 <= q < rows ==> #[trigger] self.row_at(q) == old(self).row_at(
                    plan_perm(plan@, rows, k as int)[q],
                ),
            decreases n_swaps - k,
        {
            let (a, b) = plan[k];
            let ghost p = plan_perm(plan@, rows, k as int);
            let ghost pre = *self;
            self.swap_rows(a, b);
            proof {
                lemma_plan_perm_is_perm(plan@, rows, k as int + 1);
                let p2 = plan_perm(plan@, rows, k as int + 1);
                assert(p2 == p.update(a as int, p[b as int]).update(b as int, p[a as int]));
                assert forall|q: int| 0 <= q < rows implies #[trigger] self.row_at(q) == old(self).row_at(p2[q]) by {
                    if q == b as int {
                        assert(self.row_at(q) == pre.row_at(a as int));
                        assert(p2[q] == p[a as int]);
                    } else if q == a as int {
                        assert(self.row_at(q) == pre.row_at(b as int));
                        assert(p2[q] == p[b as int]);
                    } else {
                        assert(self.row_at(q) == pre.row_at(q));
                        assert(p2[q] == p[q]);
                    }
                }
            }
            k = k + 1;
        }
    }

    /// Randomly shuffles the dataset.  This version allows for a seed to
    /// be specified, for reproducible results.  The records afterwards are
    /// exactly the records before, reordered by one permutation.
    pub fn shuffle_with_seed(&mut self, seed: u64)
        requires
            old(self).wf(),
        ensures
            final(self).wf(),
            exists|pi: Seq<int>| rows_permuted_by(*old(self), *final(self), pi),
    {
        let mut rng = rng_from_seed(seed);
        let rows = self.rows;
        let plan = swap_plan(&mut rng, rows);
        self.apply_plan(&plan);
    }

    /// Randomly shuffles the dataset, from a fresh seed.
    pub fn shuffle(&mut self)
        requires
            old(self).wf(),
        ensures
            final(self).wf(),
            exists|pi: Seq<int>| rows_permuted_by(*old(self), *final(self), pi),
    {
        let seed = random_seed();
        self.shuffle_with_seed(seed);
    }

    /// A deep copy.
    pub fn duplicate(&self) -> (r: Self)
        ensures
            r.spec_rows() == self.spec_rows(),
            r.row_shape_view() == self.row_shape_view(),
            r.data_view() == self.data_view(),
    {
        let row_shape = clone_shape(&self.row_shape);
        let n = self.data.len();
        let mut data: Vec<T> = Vec::new();
        let mut i: usize = 0;
        while i < n
            invariant
                i <= n,
                n == self.data_view().len(),
                data@ =~= self.data_view().take(i as int),
            decreases n - i,
        {
            data.push(self.data[i]);
            assert(data@ =~= self.data_view().take(i as int + 1));
            i = i + 1;
        }
        proof {
            assert(self.data_view().take(n as int) =~= self.data_view());
        }
        Dataset { rows: self.rows, row_shape, data }
    }

    /// Splits a dataset into non-overlapping new datasets of the given
    /// lengths, which must cover the whole dataset exactly.
    pub fn split(self, lengths: &Vec<usize>) -> (r: Result<Vec<Self>, ShapeError>)
        requires
            self.wf(),
        ensures
            match r {
                Ok(v) => {
                    &&& sum_lengths(lengths@, lengths@.len() as int) == self.spec_rows()
                    &&& v@.len() == lengths@.len()
                    &&& forall|w: int| 0 <= w < v@.len() ==> {
                        &&& (#[trigger] v@[w]).wf()
                        &&& v@[w].spec_rows() == lengths@[w]
                        &&& v@[w].row_shape_view() == self.row_shape_view()
                        &&& v@[w].data_view() == self.data_view().subrange(
                            sum_lengths(lengths@, w) * self.row_vol(),
                            sum_lengths(lengths@, w + 1) * self.row_vol(),
                        )
                    }
                },
                Err(e) => e == ShapeError::Mismatch && sum_lengths(lengths@, lengths@.len() as int)
                    != self.spec_rows(),
            },
    {
        let n = lengths.len();
        let mut total: usize = 0;
        let mut k: usize = 0;
        while k < n
            invariant
                k <= n,
                n == lengths@.len(),
                total == sum_lengths(lengths@, k as int),
            decreases n - k,
        {
            let next = match total.checked_add(lengths[k]) {
                Some(v) => v,
                None => {
                    proof {
                        lemma_sum_lengths_mono(lengths@, k as int + 1, n as int);
                    }
                    return Err(ShapeError::Mismatch);
                },
            };
            total = next;
            k = k + 1;
        }
        if total != self.rows {
            return Err(ShapeError::Mismatch);
        }
        let mut out: Vec<Self> = Vec::new();
        let mut offset: usize = 0;
        let mut w: usize = 0;
        while w < n
            invariant
                w <= n,
                n == lengths@.len(),
                self.wf(),
                offset == sum_lengths(lengths@, w as int),
                sum_lengths(lengths@, n as int) == self.spec_rows(),
                offset <= self.spec_rows(),
                out@.len() == w,
                forall|u: int| 0 <= u < w ==> {
                    &&& (#[trigger] out@[u]).wf()
                    &&& out@[u].spec_rows() == lengths@[u]
                    &&& out@[u].row_shape_view() == self.row_shape_view()
                    &&& out@[u].data_view() == self.data_view().subrange(
                        sum_lengths(lengths@, u) * self.row_vol(),
                        sum_lengths(lengths@, u + 1) * self.row_vol(),
                    )
                },
            decreases n - w,
        {
            proof {
                lemma_sum_lengths_mono(lengths@, w as int + 1, n as int);
            }
            let piece = self.select_rows(offset, offset + lengths[w]);
            out.push(piece);
            offset = offset + lengths[w];
            w = w + 1;
        }
        Ok(out)
    }
}

/// The sum of the first `k` requested lengths.
pub open spec fn sum_lengths(ls: Seq<usize>, k: int) -> int
    decreases k,
{
    if k <= 0 {
        0
    } else {
        sum_lengths(ls, k - 1) + ls[k - 1]
    }
}

/// Prefix sums of lengths never shrink.
proof fn lemma_sum_lengths_mono(ls: Seq<usize>, k1: int, k2: int)
    requires
        0 <= k1 <= k2 <= ls.len(),
    ensures
        sum_lengths(ls, k1) <= sum_lengths(ls, k2),
    decreases k2 - k1,
{
    if k1 < k2 {
        lemma_sum_lengths_mono(ls, k1, k2 - 1);
    }
}

/// Fold boundaries: `k` consecutive folds of `ceil(rows / k)` records,
/// the tail folds clipped to the dataset's end.
pub open spec fn fold_step(rows: int, k: int) -> int {
    1 + (rows - 1) / k
}

/// Where fold `i`'s validation slice begins.
pub open spec fn fold_start(rows: int, k: int, i: int) -> int {
    if fold_step(rows, k) * i > rows {
        rows
    } else {
        fold_step(rows, k) * i
    }
}

/// Where fold `i`'s validation slice ends.
pub open spec fn fold_stop(rows: int, k: int, i: int) -> int {
    if fold_start(rows, k, i) + fold_step(rows, k) > rows {
        rows
    } else {
        fold_start(rows, k, i) + fold_step(rows, k)
    }
}

/// K-folds cross-validator on a dataset: each fold is used exactly once
/// as the validation set while the remainder forms the training set.
/// Items come out of [`KFold::next`] as `(training, validation)` pairs.
pub struct KFold<T> {
    folds: Vec<(Dataset<T>, Dataset<T>)>,
    iteration: usize,
}

/// A `(training, validation)` pair cut at fold `i`.
pub open spec fn fold_pair_ok<T>(d: Dataset<T>, k: int, i: int, pair: (Dataset<T>, Dataset<T>)) -> bool {
    let start = fold_start(d.spec_rows(), k, i);
    let stop = fold_stop(d.spec_rows(), k, i);
    &&& pair.0.wf()
    &&& pair.1.wf()
    &&& pair.0.row_shape_view() == d.row_shape_view()
    &&& pair.1.row_shape_view() == d.row_shape_view()
    &&& pair.0.spec_rows() == d.spec_rows() - (stop - start)
    &&& pair.1.spec_rows() == stop - start
    &&& pair.0.data_view() == d.data_view().subrange(0, start * d.row_vol()) + d.data_view()
        .subrange(stop * d.row_vol(), d.spec_rows() * d.row_vol())
    &&& pair.1.data_view() == d.data_view().subrange(start * d.row_vol(), stop * d.row_vol())
}

impl<T> KFold<T> {
    /// The folds not yet handed out.
    pub closed spec fn folds_view(self) -> Seq<(Dataset<T>, Dataset<T>)> {
        self.folds@
    }

    /// How many folds were handed out already.
    pub closed spec fn spec_iteration(self) -> int {
        self.iteration as int
    }
}

impl<T: Copy> KFold<T> {
    /// Cuts a dataset into `k` consecutive folds, without shuffling.
    pub fn new(d: &Dataset<T>, k: usize) -> (r: Self)
        requires
            d.wf(),
            k >= 2,
            d.spec_rows() >= 1,
        ensures
            r.spec_iteration() == 0,
            r.folds_view().len() == k,
            forall|i: int| 0 <= i < k ==> fold_pair_ok(*d, k as int, i, #[trigger] r.folds_view()[i]),
    {
        let rows = d.len();
        let step = 1 + (rows - 1) / k;
        let mut folds: Vec<(Dataset<T>, Dataset<T>)> = Vec::new();
        let mut i: usize = 0;
        while i < k
            invariant
                i <= k,
                k >= 2,
                d.wf(),
                rows == d.spec_rows(),
                rows >= 1,
                step == fold_step(rows as int, k as int),
                step >= 1,
                folds@.len() == i,
                forall|w: int| 0 <= w < i ==> fold_pair_ok(*d, k as int, w, #[trigger] folds@[w]),
            decreases k - i,
        {
            let start = match step.checked_mul(i) {
                Some(v) => {
                    if v > rows {
                        rows
                    } else {
                        v
                    }
                },
                None => rows,
            };
            let stop = if rows - start < step {
                rows
            } else {
                start + step
            };
            proof {
                assert(start as int == fold_start(rows as int, k as int, i as int));
                assert(stop as int == fold_stop(rows as int, k as int, i as int));
            }
            let test = d.select_rows(start, stop);
            let head = d.select_rows(0, start);
            let tail = d.select_rows(stop, rows);
            let dtot = d.records().len();
            proof {
                lemma_row_bounds(*d, 0, d.spec_rows());
                assert(head.data_view().len() + tail.data_view().len() <= d.data_view().len())
                    by (nonlinear_arith)
                    requires
                        head.data_view().len() == start as int * d.row_vol(),
                        tail.data_view().len() == (rows as int - stop as int) * d.row_vol(),
                        d.data_view().len() == rows as int * d.row_vol(),
                        0 <= start as int <= stop as int <= rows as int,
                        d.row_vol() >= 0,
                ;
            }
            let train = concat_datasets(&head, &tail);
            folds.push((train, test));
            proof {
                lemma_row_bounds(*d, 0, d.spec_rows());
                assert(fold_pair_ok(*d, k as int, i as int, folds@[i as int]));
            }
            i = i + 1;
        }
        KFold { folds, iteration: 0 }
    }

    /// The next `(training, validation)` pair, or nothing when every fold
    /// has served as validation once.
    pub fn next(&mut self) -> (r: Option<(Dataset<T>, Dataset<T>)>)
        ensures
            final(self).folds_view() == old(self).folds_view(),
            old(self).spec_iteration() < old(self).folds_view().len() ==> {
                &&& final(self).spec_iteration() == old(self).spec_iteration() + 1
                &&& r is Some
                &&& (r matches Some(pair) ==> pair.0.spec_rows() == old(self).folds_view()[old(self).spec_iteration()].0.spec_rows() && pair.0.data_view() == old(self).folds_view()[
                    old(self).spec_iteration()].0.data_view() && pair.0.row_shape_view() == old(self).folds_view()[old(self).spec_iteration()].0.row_shape_view()
                    && pair.1.spec_rows() == old(self).folds_view()[old(self).spec_iteration()].1.spec_rows() && pair.1.data_view() == old(self).folds_view()[
                    old(self).spec_iteration()].1.data_view() && pair.1.row_shape_view() == old(self).folds_view()[old(self).spec_iteration()].1.row_shape_view())
            },
            old(self).spec_iteration() >= old(self).folds_view().len() ==> r is None && final(self).spec_iteration() == old(self).spec_iteration(),
    {
        if self.iteration >= self.folds.len() {
            return None;
        }
        let train = self.folds[self.iteration].0.duplicate();
        let test = self.folds[self.iteration].1.duplicate();
        self.iteration = self.iteration + 1;
        Some((train, test))
    }
}

/// Joins two datasets of one record shape, the second's records after the
/// first's.
fn concat_datasets<T: Copy>(a: &Dataset<T>, b: &Dataset<T>) -> (r: Dataset<T>)
    requires
        a.wf(),
        b.wf(),
        a.row_shape_view() == b.row_shape_view(),
        a.data_view().len() + b.data_view().len() <= usize::MAX,
        a.spec_rows() + b.spec_rows() <= usize::MAX,
    ensures
        r.wf(),
        r.row_shape_view() == a.row_shape_view(),
        r.spec_rows() == a.spec_rows() + b.spec_rows(),
        r.data_view() == a.data_view() + b.data_view(),
{
    let la = a.data.len();
    let lb = b.data.len();
    let mut data: Vec<T> = Vec::new();
    let mut i: usize = 0;
    while i < la
        invariant
            i <= la,
            la == a.data_view().len(),
            data@ =~= a.data_view().take(i as int),
        decreases la - i,
    {
        data.push(a.data[i]);
        assert(data@ =~= a.data_view().take(i as int + 1));
        i = i + 1;
    }
    proof {
        assert(a.data_view().take(la as int) =~= a.data_view());
    }
    let mut j: usize = 0;
    while j < lb
        invariant
            j <= lb,
            la == a.data_view().len(),
            lb == b.data_view().len(),
            data@ =~= a.data_view() + b.data_view().take(j as int),
        decreases lb - j,
    {
        data.push(b.data[j]);
        assert(data@ =~= a.data_view() + b.data_view().take(j as int + 1));
        j = j + 1;
    }
    proof {
        assert(b.data_view().take(lb as int) =~= b.data_view());
    }
    let row_shape = clone_shape(&a.row_shape);
    let out = Dataset { rows: a.rows + b.rows, row_shape, data };
    proof {
        assert((a.spec_rows() + b.spec_rows()) * a.row_vol() == a.spec_rows() * a.row_vol()
            + b.spec_rows() * a.row_vol()) by (nonlinear_arith);
    }
    out
}

/// Iterator-style access to row chunks of a dataset.
pub struct Batch<T> {
    chunks: Vec<Dataset<T>>,
    pos: usize,
}

/// How many chunks of `size` rows a dataset cuts into, the last possibly
/// shorter.
pub open spec fn chunk_count(rows: int, size: int) -> int {
    (rows + size - 1) / size
}

/// Chunk `w` covers rows `[w * size, min((w + 1) * size, rows))`.
pub open spec fn chunk_ok<T>(d: Dataset<T>, size: int, w: int, c: Dataset<T>) -> bool {
    let lo = w * size;
    let hi = if (w + 1) * size > d.spec_rows() {
        d.spec_rows()
    } else {
        (w + 1) * size
    };
    &&& c.wf()
    &&& c.row_shape_view() == d.row_shape_view()
    &&& c.spec_rows() == hi - lo
    &&& c.data_view() == d.data_view().subrange(lo * d.row_vol(), hi * d.row_vol())
}

impl<T> Batch<T> {
    /// The chunks remaining to be handed out, from `spec_pos()` on.
    pub closed spec fn chunks_view(self) -> Seq<Dataset<T>> {
        self.chunks@
    }

    /// The next chunk to hand out.
    pub closed spec fn spec_pos(self) -> int {
        self.pos as int
    }
}

impl<T: Copy> Batch<T> {
    /// Drops the last, incomplete batch, if the dataset size is not
    /// divisible by the batch size.
    pub fn drop_last(self) -> (r: Self)
        ensures
            r.spec_pos() == self.spec_pos(),
            self.chunks_view().len() >= 2 && self.chunks_view().last().spec_rows() != self
                .chunks_view()[0].spec_rows() ==> r.chunks_view() == self.chunks_view().take(
                self.chunks_view().len() - 1,
            ),
            !(self.chunks_view().len() >= 2 && self.chunks_view().last().spec_rows() != self
                .chunks_view()[0].spec_rows()) ==> r.chunks_view() == self.chunks_view(),
    {
        let n = self.chunks.len();
        if n >= 2 {
            let first_rows = self.chunks[0].len();
            let last_rows = self.chunks[n - 1].len();
            if first_rows != last_rows {
                let mut me = self;
                let ghost pre = me.chunks@;
                let popped = me.chunks.pop();
                proof {
                    assert(me.chunks@ =~= pre.take(pre.len() - 1));
                }
                return me;
            }
        }
        self
    }

    /// The next chunk, or nothing when all were handed out.
    pub fn next(&mut self) -> (r: Option<Dataset<T>>)
        ensures
            final(self).chunks_view() == old(self).chunks_view(),
            old(self).spec_pos() < old(self).chunks_view().len() ==> {
                &&& final(self).spec_pos() == old(self).spec_pos() + 1
                &&& r is Some
                &&& (r matches Some(c) ==> c.spec_rows() == old(self).chunks_view()[old(self).spec_pos()].spec_rows() && c.data_view() == old(self).chunks_view()[old(self).spec_pos()].data_view() && c.row_shape_view() == old(self).chunks_view()[old(self).spec_pos()].row_shape_view())
            },
            old(self).spec_pos() >= old(self).chunks_view().len() ==> r is None && final(self).spec_pos() == old(self).spec_pos(),
    {
        if self.pos >= self.chunks.len() {
            return None;
        }
        let c = self.chunks[self.pos].duplicate();
        self.pos = self.pos + 1;
        Some(c)
    }
}

impl<T: Copy> Dataset<T> {
    /// Divides the dataset into batches of `size` records, the last batch
    /// possibly smaller.
    pub fn batch(&self, size: usize) -> (r: Batch<T>)
        requires
            self.wf(),
            size >= 1,
        ensures
            r.spec_pos() == 0,
            r.chunks_view().len() == chunk_count(self.spec_rows(), size as int),
            forall|w: int| 0 <= w < r.chunks_view().len() ==> chunk_ok(
                *self,
                size as int,
                w,
                #[trigger] r.chunks_view()[w],
            ),
    {
        let rows = self.len();
        let mut chunks: Vec<Dataset<T>> = Vec::new();
        let mut off: usize = 0;
        let mut w: usize = 0;
        while off < rows
            invariant
                self.wf(),
                rows == self.spec_rows(),
                size >= 1,
                off <= rows,
                w <= off,
                w == 0 ==> off == 0,
                w >= 1 ==> (w as int - 1) * size < off <= (w as int - 1) * size + size,
                off < rows ==> off == w * size,
                chunks@.len() == w,
                forall|u: int| 0 <= u < w ==> chunk_ok(*self, size as int, u, #[trigger] chunks@[
                    u]),
            decreases rows - off,
        {
            let hi = if rows - off < size {
                rows
            } else {
                off + size
            };
            proof {
                assert((w as int + 1) * size == w as int * size + size) by (nonlinear_arith);
                assert((w as int) * size == (w as int + 1 - 1) * size);
            }
            let piece = self.select_rows(off, hi);
            chunks.push(piece);
            proof {
                assert(chunk_ok(*self, size as int, w as int, chunks@[w as int]));
            }
            off = hi;
            w = w + 1;
        }
        proof {
            lemma_chunk_count(rows as int, size as int, w as int, off as int);
        }
        Batch { chunks, pos: 0 }
    }
}

/// When chunking ends, the number of chunks is the rounded-up quotient.
proof fn lemma_chunk_count(rows: int, size: int, w: int, off: int)
    requires
        size >= 1,
        rows >= 0,
        w >= 0,
        // the loop stopped: the previous chunk reached `rows`
        off >= rows,
        w == 0 ==> off == 0,
        w >= 1 ==> off <= rows && (w - 1) * size < off <= (w - 1) * size + size,
    ensures
        w == chunk_count(rows, size),
{
    if w == 0 {
        assert(rows == 0);
        assert(chunk_count(0, size) == (size - 1) / size);
        assert((size - 1) / size == 0) by (nonlinear_arith)
            requires
                size >= 1,
        ;
    } else {
        assert(off == rows);
        assert((w - 1) * size < rows <= w * size) by (nonlinear_arith)
            requires
                (w - 1) * size < off <= (w - 1) * size + size,
                off == rows,
                size >= 1,
        ;
        assert(w == (rows + size - 1) / size) by (nonlinear_arith)
            requires
                (w - 1) * size < rows <= w * size,
                size >= 1,
                w >= 1,
        ;
    }
}

impl<T: Copy> Dataset<T> {
    /// Constructs a K-Fold cross-validator from the dataset: `k`
    /// consecutive folds, cut without shuffling.
    pub fn kfold(&self, k: usize) -> (r: KFold<T>)
        requires
            self.wf(),
            k >= 2,
            self.spec_rows() >= 1,
        ensures
            r.spec_iteration() == 0,
            r.folds_view().len() == k,
            forall|i: int| 0 <= i < k ==> fold_pair_ok(*self, k as int, i, #[trigger] r.folds_view()[
                i]),
    {
        KFold::new(self, k)
    }
}

/// A collection of uniquely owned *labeled* records: a record store and a
/// label store with one row count.
pub struct LabeledDataset<T> {
    records: Dataset<T>,
    labels: Dataset<T>,
}

impl<T> LabeledDataset<T> {
    /// The record store.
    pub closed spec fn records_ds(self) -> Dataset<T> {
        self.records
    }

    /// The label store.
    pub closed spec fn labels_ds(self) -> Dataset<T> {
        self.labels
    }

    /// Well-formedness: both stores well formed, with one row count.
    pub open spec fn wf(self) -> bool {
        &&& self.records_ds().wf()
        &&& self.labels_ds().wf()
        &&& self.records_ds().spec_rows() == self.labels_ds().spec_rows()
    }

    /// Returns a reference to the records.
    pub fn record(&self) -> (r: &Dataset<T>)
        ensures
            *r == self.records_ds(),
    {
        &self.records
    }

    /// Returns a reference to the labels.
    pub fn labels(&self) -> (r: &Dataset<T>)
        ensures
            *r == self.labels_ds(),
    {
        &self.labels
    }

    /// Returns the number of records stored in the labeled dataset.
    pub fn len(&self) -> (r: usize)
        ensures
            r == self.records_ds().spec_rows(),
    {
        self.records.len()
    }

    /// Check whether the labeled dataset is empty or not.
    pub fn is_empty(&self) -> (r: bool)
        ensures
            r == (self.records_ds().spec_rows() == 0),
    {
        self.records.is_empty()
    }
}

impl<T: Copy> LabeledDataset<T> {
    /// Pairs a record store with a label store of the same row count.
    pub fn new(records: Dataset<T>, labels: Dataset<T>) -> (r: Result<Self, ShapeError>)
        requires
            records.wf(),
            labels.wf(),
        ensures
            match r {
                Ok(d) => {
                    &&& d.wf()
                    &&& d.records_ds() == records
                    &&& d.labels_ds() == labels
                    &&& records.spec_rows() == labels.spec_rows()
                },
                Err(e) => e == ShapeError::Mismatch && records.spec_rows() != labels.spec_rows(),
            },
    {
        if records.len() != labels.len() {
            return Err(ShapeError::Mismatch);
        }
        Ok(LabeledDataset { records, labels })
    }

    /// Splits a labeled dataset into non-overlapping new datasets of the
    /// given lengths, which must cover the whole dataset exactly.
    pub fn split(self, lengths: &Vec<usize>) -> (r: Result<Vec<Self>, ShapeError>)
        requires
            self.wf(),
        ensures
            match r {
                Ok(v) => {
                    &&& sum_lengths(lengths@, lengths@.len() as int) == self.records_ds()
                        .spec_rows()
                    &&& v@.len() == lengths@.len()
                    &&& forall|w: int| 0 <= w < v@.len() ==> {
                        &&& (#[trigger] v@[w]).wf()
                        &&& v@[w].records_ds().spec_rows() == lengths@[w]
                        &&& v@[w].records_ds().row_shape_view() == self.records_ds()
                            .row_shape_view()
                        &&& v@[w].labels_ds().row_shape_view() == self.labels_ds().row_shape_view()
                        &&& v@[w].records_ds().data_view() == self.records_ds().data_view()
                            .subrange(
                            sum_lengths(lengths@, w) * self.records_ds().row_vol(),
                            sum_lengths(lengths@, w + 1) * self.records_ds().row_vol(),
                        )
                        &&& v@[w].labels_ds().data_view() == self.labels_ds().data_view().subrange(
                            sum_lengths(lengths@, w) * self.labels_ds().row_vol(),
                            sum_lengths(lengths@, w + 1) * self.labels_ds().row_vol(),
                        )
                    }
                },
                Err(e) => e == ShapeError::Mismatch && sum_lengths(
                    lengths@,
                    lengths@.len() as int,
                ) != self.records_ds().spec_rows(),
            },
    {
        let rs = match self.records.split(lengths) {
            Ok(v) => v,
            Err(e) => {
                return Err(e);
            },
        };
        let ls = match self.labels.split(lengths) {
            Ok(v) => v,
            Err(e) => vstd::pervasive::unreached(),
        };
        let n = lengths.len();
        let mut out: Vec<Self> = Vec::new();
        let mut w: usize = 0;
        while w < n
            invariant
                w <= n,
                n == lengths@.len(),
                n == rs@.len(),
                n == ls@.len(),
                self.wf(),
                forall|u: int| 0 <= u < n ==> {
                    &&& (#[trigger] rs@[u]).wf()
                    &&& rs@[u].spec_rows() == lengths@[u]
                    &&& rs@[u].row_shape_view() == self.records_ds().row_shape_view()
                    &&& rs@[u].data_view() == self.records_ds().data_view().subrange(
                        sum_lengths(lengths@, u) * self.records_ds().row_vol(),
                        sum_lengths(lengths@, u + 1) * self.records_ds().row_vol(),
                    )
                },
                forall|u: int| 0 <= u < n ==> {
                    &&& (#[trigger] ls@[u]).wf()
                    &&& ls@[u].spec_rows() == lengths@[u]
                    &&& ls@[u].row_shape_view() == self.labels_ds().row_shape_view()
                    &&& ls@[u].data_view() == self.labels_ds().data_view().subrange(
                        sum_lengths(lengths@, u) * self.labels_ds().row_vol(),
                        sum_lengths(lengths@, u + 1) * self.labels_ds().row_vol(),
                    )
                },
                out@.len() == w,
                forall|u: int| 0 <= u < w ==> {
                    &&& (#[trigger] out@[u]).wf()
                    &&& out@[u].records_ds().spec_rows() == rs@[u].spec_rows()
                    &&& out@[u].records_ds().row_shape_view() == rs@[u].row_shape_view()
                    &&& out@[u].records_ds().data_view() == rs@[u].data_view()
                    &&& out@[u].labels_ds().spec_rows() == ls@[u].spec_rows()
                    &&& out@[u].labels_ds().row_shape_view() == ls@[u].row_shape_view()
                    &&& out@[u].labels_ds().data_view() == ls@[u].data_view()
                },
            decreases n - w,
        {
            let rw = rs[w].duplicate();
            let lw = ls[w].duplicate();
            proof {
                assert(rw.spec_rows() == lw.spec_rows());
            }
            out.push(LabeledDataset { records: rw, labels: lw });
            w = w + 1;
        }
        Ok(out)
    }

    /// Randomly shuffles records and labels together: one permutation
    /// reorders both, so every record keeps its label.  This version
    /// allows for a seed to be specified, for reproducible results.
    pub fn shuffle_with_seed(&mut self, seed: u64)
        requires
            old(self).wf(),
        ensures
            final(self).wf(),
            exists|pi: Seq<int>|
                rows_permuted_by(old(self).records_ds(), final(self).records_ds(), pi)
                    && rows_permuted_by(old(self).labels_ds(), final(self).labels_ds(), pi),
    {
        let mut rng = rng_from_seed(seed);
        let rows = self.records.len();
        let plan = swap_plan(&mut rng, rows);
        self.records.apply_plan(&plan);
        self.labels.apply_plan(&plan);
        proof {
            let pi = plan_perm(plan@, old(self).records_ds().spec_rows(), plan@.len() as int);
            assert(rows_permuted_by(old(self).records_ds(), self.records_ds(), pi)
                && rows_permuted_by(old(self).labels_ds(), self.labels_ds(), pi));
        }
    }

    /// Randomly shuffles records and labels together, from a fresh seed.
    pub fn shuffle(&mut self)
        requires
            old(self).wf(),
        ensures
            final(self).wf(),
            exists|pi: Seq<int>|
                rows_permuted_by(old(self).records_ds(), final(self).records_ds(), pi)
                    && rows_permuted_by(old(self).labels_ds(), final(self).labels_ds(), pi),
    {
        let seed = random_seed();
        self.shuffle_with_seed(seed);
    }

    /// Constructs a K-Fold cross-validator: records and labels are cut at
    /// the same boundaries.
    pub fn kfold(&self, k: usize) -> (r: LabeledKFold<T>)
        requires
            self.wf(),
            k >= 2,
            self.records_ds().spec_rows() >= 1,
        ensures
            r.spec_iteration() == 0,
            r.folds_view().len() == k,
            forall|i: int| 0 <= i < k ==> {
                &&& (#[trigger] r.folds_view()[i]).0.wf()
                &&& r.folds_view()[i].1.wf()
                &&& fold_pair_ok(
                    self.records_ds(),
                    k as int,
                    i,
                    (r.folds_view()[i].0.records_ds(), r.folds_view()[i].1.records_ds()),
                )
                &&& fold_pair_ok(
                    self.labels_ds(),
                    k as int,
                    i,
                    (r.folds_view()[i].0.labels_ds(), r.folds_view()[i].1.labels_ds()),
                )
            },
    {
        LabeledKFold::new(self, k)
    }

    /// Divides the labeled dataset into batches of `size` records.
    pub fn batch(&self, size: usize) -> (r: LabeledBatch<T>)
        requires
            self.wf(),
            size >= 1,
        ensures
            r.records_batch().spec_pos() == 0,
            r.labels_batch().spec_pos() == 0,
            r.records_batch().chunks_view().len() == chunk_count(
                self.records_ds().spec_rows(),
                size as int,
            ),
            r.labels_batch().chunks_view().len() == chunk_count(
                self.labels_ds().spec_rows(),
                size as int,
            ),
            forall|w: int| 0 <= w < r.records_batch().chunks_view().len() ==> chunk_ok(
                self.records_ds(),
                size as int,
                w,
                #[trigger] r.records_batch().chunks_view()[w],
            ),
            forall|w: int| 0 <= w < r.labels_batch().chunks_view().len() ==> chunk_ok(
                self.labels_ds(),
                size as int,
                w,
                #[trigger] r.labels_batch().chunks_view()[w],
            ),
    {
        LabeledBatch { records: self.records.batch(size), labels: self.labels.batch(size) }
    }
}

/// Two datasets that hold the same rows, shape and values.
pub open spec fn same_views<T>(a: Dataset<T>, b: Dataset<T>) -> bool {
    &&& a.spec_rows() == b.spec_rows()
    &&& a.row_shape_view() == b.row_shape_view()
    &&& a.data_view() == b.data_view()
}

/// K-Folds cross-validator on a labeled dataset.
pub struct LabeledKFold<T> {
    folds: Vec<(LabeledDataset<T>, LabeledDataset<T>)>,
    iteration: usize,
}

impl<T> LabeledKFold<T> {
    /// The precomputed folds.
    pub closed spec fn folds_view(self) -> Seq<(LabeledDataset<T>, LabeledDataset<T>)> {
        self.folds@
    }

    /// How many folds were handed out already.
    pub closed spec fn spec_iteration(self) -> int {
        self.iteration as int
    }
}

impl<T: Copy> LabeledKFold<T> {
    /// Cuts a labeled dataset into `k` consecutive folds, records and
    /// labels at the same boundaries.
    pub fn new(d: &LabeledDataset<T>, k: usize) -> (r: Self)
        requires
            d.wf(),
            k >= 2,
            d.records_ds().spec_rows() >= 1,
        ensures
            r.spec_iteration() == 0,
            r.folds_view().len() == k,
            forall|i: int| 0 <= i < k ==> {
                &&& (#[trigger] r.folds_view()[i]).0.wf()
                &&& r.folds_view()[i].1.wf()
                &&& fold_pair_ok(
                    d.records_ds(),
                    k as int,
                    i,
                    (r.folds_view()[i].0.records_ds(), r.folds_view()[i].1.records_ds()),
                )
                &&& fold_pair_ok(
                    d.labels_ds(),
                    k as int,
                    i,
                    (r.folds_view()[i].0.labels_ds(), r.folds_view()[i].1.labels_ds()),
                )
            },
    {
        let rf = KFold::new(d.record(), k);
        let lf = KFold::new(d.labels(), k);
        let mut folds: Vec<(LabeledDataset<T>, LabeledDataset<T>)> = Vec::new();
        let mut i: usize = 0;
        while i < k
            invariant
                i <= k,
                k >= 2,
                d.wf(),
                rf.folds_view().len() == k,
                lf.folds_view().len() == k,
                forall|w: int| 0 <= w < k ==> fold_pair_ok(
                    d.records_ds(),
                    k as int,
                    w,
                    #[trigger] rf.folds_view()[w],
                ),
                forall|w: int| 0 <= w < k ==> fold_pair_ok(
                    d.labels_ds(),
                    k as int,
                    w,
                    #[trigger] lf.folds_view()[w],
                ),
                folds@.len() == i,
                forall|w: int| 0 <= w < i ==> {
                    &&& (#[trigger] folds@[w]).0.wf()
                    &&& folds@[w].1.wf()
                    &&& same_views(folds@[w].0.records_ds(), rf.folds_view()[w].0)
                    &&& same_views(folds@[w].0.labels_ds(), lf.folds_view()[w].0)
                    &&& same_views(folds@[w].1.records_ds(), rf.folds_view()[w].1)
                    &&& same_views(folds@[w].1.labels_ds(), lf.folds_view()[w].1)
                },
            decreases k - i,
        {
            let train_r = rf.folds[i].0.duplicate();
            let train_l = lf.folds[i].0.duplicate();
            let test_r = rf.folds[i].1.duplicate();
            let test_l = lf.folds[i].1.duplicate();
            proof {
                assert(train_r.spec_rows() == train_l.spec_rows());
                assert(test_r.spec_rows() == test_l.spec_rows());
            }
            let train = LabeledDataset { records: train_r, labels: train_l };
            let test = LabeledDataset { records: test_r, labels: test_l };
            folds.push((train, test));
            i = i + 1;
        }
        LabeledKFold { folds, iteration: 0 }
    }

    /// The next `(training, validation)` pair, or nothing when every fold
    /// has served as validation once.
    pub fn next(&mut self) -> (r: Option<(LabeledDataset<T>, LabeledDataset<T>)>)
        ensures
            final(self).folds_view() == old(self).folds_view(),
            old(self).spec_iteration() < old(self).folds_view().len() ==> {
                &&& final(self).spec_iteration() == old(self).spec_iteration() + 1
                &&& r is Some
            },
            old(self).spec_iteration() >= old(self).folds_view().len() ==> r is None
                && final(self).spec_iteration() == old(self).spec_iteration(),
            r matches Some(pair) ==> {
                let w = old(self).spec_iteration();
                &&& 0 <= w < old(self).folds_view().len()
                &&& same_views(pair.0.records_ds(), old(self).folds_view()[w].0.records_ds())
                &&& same_views(pair.0.labels_ds(), old(self).folds_view()[w].0.labels_ds())
                &&& same_views(pair.1.records_ds(), old(self).folds_view()[w].1.records_ds())
                &&& same_views(pair.1.labels_ds(), old(self).folds_view()[w].1.labels_ds())
            },
    {
        if self.iteration >= self.folds.len() {
            return None;
        }
        let w = self.iteration;
        let train = LabeledDataset {
            records: self.folds[w].0.records.duplicate(),
            labels: self.folds[w].0.labels.duplicate(),
        };
        let test = LabeledDataset {
            records: self.folds[w].1.records.duplicate(),
            labels: self.folds[w].1.labels.duplicate(),
        };
        self.iteration = w + 1;
        Some((train, test))
    }
}

/// Iterator-style access to paired row chunks of a labeled dataset.
pub struct LabeledBatch<T> {
    records: Batch<T>,
    labels: Batch<T>,
}

impl<T> LabeledBatch<T> {
    /// The record chunks.
    pub closed spec fn records_batch(self) -> Batch<T> {
        self.records
    }

    /// The label chunks.
    pub closed spec fn labels_batch(self) -> Batch<T> {
        self.labels
    }
}

impl<T: Copy> LabeledBatch<T> {
    /// Drops the last incomplete batch of both stores, if the dataset
    /// size is not divisible by the batch size.
    pub fn drop_last(self) -> (r: Self)
        ensures
            r.records_batch().spec_pos() == self.records_batch().spec_pos(),
            r.labels_batch().spec_pos() == self.labels_batch().spec_pos(),
    {
        let records = self.records.drop_last();
        let labels = self.labels.drop_last();
        LabeledBatch { records, labels }
    }

    /// The next pair of chunks, or nothing when all were handed out.
    pub fn next(&mut self) -> (r: Option<(Dataset<T>, Dataset<T>)>)
        ensures
            final(self).records_batch().chunks_view() == old(self).records_batch().chunks_view(),
            final(self).labels_batch().chunks_view() == old(self).labels_batch().chunks_view(),
            r is Some ==> old(self).records_batch().spec_pos() < old(
                self,
            ).records_batch().chunks_view().len(),
            r matches Some(pair) ==> {
                let w = old(self).records_batch().spec_pos();
                let u = old(self).labels_batch().spec_pos();
                &&& pair.0.data_view() == old(self).records_batch().chunks_view()[w].data_view()
                &&& (u < old(self).labels_batch().chunks_view().len() ==> pair.1.data_view() == old(
                    self,
                ).labels_batch().chunks_view()[u].data_view())
            },
    {
        let rc = self.records.next();
        match rc {
            None => None,
            Some(records) => {
                let lc = self.labels.next();
                match lc {
                    Some(labels) => Some((records, labels)),
                    None => None,
                }
            },
        }
    }
}

} // verus!
