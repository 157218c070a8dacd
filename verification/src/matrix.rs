//! Square matrices of unsigned 64-bit integers, with exact multiplication
//! and mathematical powers.
//!
//! The transition model stores probabilities as integer numerators over a
//! common scale, so its matrix algebra is exact: a product either fits in
//! `u64` entries and is computed precisely, or the operation reports that it
//! does not fit.

use vstd::prelude::*;
use crate::arith::{lemma_sum_ext, lemma_sum_scale, lemma_sum_swap, sum_terms};
use crate::error::Error;

verus! {

/// An `n` by `n` mathematical matrix: a sequence of `n` rows of length `n`.
pub open spec fn mat_wf(m: Seq<Seq<int>>, n: int) -> bool {
    &&& m.len() == n
    &&& forall|i: int| 0 <= i < n ==> #[trigger] m[i].len() == n
}

/// All entries are non-negative.
pub open spec fn mat_nonneg(m: Seq<Seq<int>>, n: int) -> bool {
    forall|i: int, j: int| 0 <= i < n && 0 <= j < n ==> #[trigger] m[i][j] >= 0
}

/// All entries fit in a 64-bit unsigned word.
pub open spec fn mat_fits(m: Seq<Seq<int>>, n: int) -> bool {
    forall|i: int, j: int| 0 <= i < n && 0 <= j < n ==> #[trigger] m[i][j] <= u64::MAX
}

/// The first `k` terms of entry `(i, j)` of the product of `a` and `b`:
/// `a[i][0] * b[0][j] + ... + a[i][k - 1] * b[k - 1][j]`.
pub open spec fn mul_entry_upto(
    a: Seq<Seq<int>>,
    b: Seq<Seq<int>>,
    i: int,
    j: int,
    k: int,
) -> int
    decreases k,
{
    if k <= 0 {
        0
    } else {
        mul_entry_upto(a, b, i, j, k - 1) + a[i][k - 1] * b[k - 1][j]
    }
}

/// Entry `(i, j)` of the product of two `n` by `n` matrices.
pub open spec fn mul_entry(a: Seq<Seq<int>>, b: Seq<Seq<int>>, i: int, j: int, n: int) -> int {
    mul_entry_upto(a, b, i, j, n)
}

/// The product of two `n` by `n` matrices.
pub open spec fn mat_mul(a: Seq<Seq<int>>, b: Seq<Seq<int>>, n: int) -> Seq<Seq<int>> {
    Seq::new(n as nat, |i: int| Seq::new(n as nat, |j: int| mul_entry(a, b, i, j, n)))
}

/// The `e`-th power of an `n` by `n` matrix, for `e >= 1`.
pub open spec fn mat_pow(m: Seq<Seq<int>>, e: int, n: int) -> Seq<Seq<int>>
    decreases e,
{
    if e <= 1 {
        m
    } else {
        mat_mul(mat_pow(m, e - 1, n), m, n)
    }
}

/// A product entry is the sum of any function that matches its terms.
pub proof fn lemma_mul_entry_sum(
    a: Seq<Seq<int>>,
    b: Seq<Seq<int>>,
    i: int,
    j: int,
    f: spec_fn(int) -> int,
    k: int,
)
    requires
        forall|t: int| 0 <= t < k ==> #[trigger] f(t) == a[i][t] * b[t][j],
    ensures
        mul_entry_upto(a, b, i, j, k) == sum_terms(f, k),
    decreases k,
{
    if k > 0 {
        lemma_mul_entry_sum(a, b, i, j, f, k - 1);
    }
}

/// Partial product entries of non-negative matrices are non-negative and
/// grow with the number of terms taken.
pub proof fn lemma_mul_entry_upto_bounds(
    a: Seq<Seq<int>>,
    b: Seq<Seq<int>>,
    i: int,
    j: int,
    k: int,
    n: int,
)
    requires
        mat_wf(a, n),
        mat_wf(b, n),
        mat_nonneg(a, n),
        mat_nonneg(b, n),
        0 <= i < n,
        0 <= j < n,
        0 <= k <= n,
    ensures
        mul_entry_upto(a, b, i, j, k) >= 0,
        mul_entry_upto(a, b, i, j, k) <= mul_entry(a, b, i, j, n),
    decreases n - k,
{
    lemma_mul_entry_upto_nonneg(a, b, i, j, k, n);
    if k < n {
        lemma_mul_entry_upto_bounds(a, b, i, j, k + 1, n);
        assert(a[i][k] * b[k][j] >= 0) by (nonlinear_arith)
            requires a[i][k] >= 0 && b[k][j] >= 0;
    }
}

proof fn lemma_mul_entry_upto_nonneg(
    a: Seq<Seq<int>>,
    b: Seq<Seq<int>>,
    i: int,
    j: int,
    k: int,
    n: int,
)
    requires
        mat_wf(a, n),
        mat_wf(b, n),
        mat_nonneg(a, n),
        mat_nonneg(b, n),
        0 <= i < n,
        0 <= j < n,
        k <= n,
    ensures
        mul_entry_upto(a, b, i, j, k) >= 0,
    decreases k,
{
    if k > 0 {
        lemma_mul_entry_upto_nonneg(a, b, i, j, k - 1, n);
        assert(a[i][k - 1] * b[k - 1][j] >= 0) by (nonlinear_arith)
            requires a[i][k - 1] >= 0 && b[k - 1][j] >= 0;
    }
}

/// A product of well-formed matrices is well-formed, and non-negative when
/// both factors are.
pub proof fn lemma_mat_mul_wf(a: Seq<Seq<int>>, b: Seq<Seq<int>>, n: int)
    requires
        mat_wf(a, n),
        mat_wf(b, n),
        mat_nonneg(a, n),
        mat_nonneg(b, n),
    ensures
        mat_wf(mat_mul(a, b, n), n),
        mat_nonneg(mat_mul(a, b, n), n),
{
    assert forall|i: int, j: int| 0 <= i < n && 0 <= j < n
        implies #[trigger] mat_mul(a, b, n)[i][j] >= 0 by {
        lemma_mul_entry_upto_bounds(a, b, i, j, n, n);
    }
}

/// Every power of a well-formed non-negative matrix is well-formed and
/// non-negative.
pub proof fn lemma_mat_pow_wf(m: Seq<Seq<int>>, e: int, n: int)
    requires
        mat_wf(m, n),
        mat_nonneg(m, n),
        e >= 1,
    ensures
        mat_wf(mat_pow(m, e, n), n),
        mat_nonneg(mat_pow(m, e, n), n),
    decreases e,
{
    if e > 1 {
        lemma_mat_pow_wf(m, e - 1, n);
        lemma_mat_mul_wf(mat_pow(m, e - 1, n), m, n);
    }
}

/// Matrix multiplication is associative.
pub proof fn lemma_mat_mul_assoc(a: Seq<Seq<int>>, b: Seq<Seq<int>>, c: Seq<Seq<int>>, n: int)
    requires
        mat_wf(a, n),
        mat_wf(b, n),
        mat_wf(c, n),
    ensures
        mat_mul(mat_mul(a, b, n), c, n) == mat_mul(a, mat_mul(b, c, n), n),
{
    let ab = mat_mul(a, b, n);
    let bc = mat_mul(b, c, n);
    let lhs = mat_mul(ab, c, n);
    let rhs = mat_mul(a, bc, n);
    assert forall|i: int, j: int| 0 <= i < n && 0 <= j < n
        implies #[trigger] lhs[i][j] == rhs[i][j] by {
        let f = |k: int, m: int| (a[i][m] * b[m][k]) * c[k][j];
        let left_outer = |k: int| ab[i][k] * c[k][j];
        let right_outer = |m: int| a[i][m] * bc[m][j];
        // Left side: distribute c[k][j] into each inner sum.
        assert forall|k: int| 0 <= k < n
            implies #[trigger] left_outer(k) == sum_terms(|m: int| f(k, m), n) by {
            let inner = |m: int| a[i][m] * b[m][k];
            lemma_mul_entry_sum(a, b, i, k, inner, n);
            assert forall|m: int| 0 <= m < n
                implies #[trigger] f(k, m) == c[k][j] * inner(m) by {
                assert((a[i][m] * b[m][k]) * c[k][j] == c[k][j] * (a[i][m] * b[m][k]))
                    by (nonlinear_arith);
            }
            lemma_sum_scale(inner, |m: int| f(k, m), c[k][j], n);
            assert(ab[i][k] == mul_entry(a, b, i, k, n));
            assert(ab[i][k] == sum_terms(inner, n));
            assert(left_outer(k) == ab[i][k] * c[k][j]);
            assert(sum_terms(inner, n) * c[k][j] == c[k][j] * sum_terms(inner, n))
                by (nonlinear_arith);
        }
        lemma_mul_entry_sum(ab, c, i, j, left_outer, n);
        lemma_sum_ext(left_outer, |k: int| sum_terms(|m: int| f(k, m), n), n);
        // Exchange the two sums.
        lemma_sum_swap(f, n, n);
        // Right side: factor a[i][m] out of each inner sum.
        assert forall|m: int| 0 <= m < n
            implies #[trigger] right_outer(m) == sum_terms(|k: int| f(k, m), n) by {
            let inner = |k: int| b[m][k] * c[k][j];
            lemma_mul_entry_sum(b, c, m, j, inner, n);
            assert forall|k: int| 0 <= k < n
                implies #[trigger] f(k, m) == a[i][m] * inner(k) by {
                assert((a[i][m] * b[m][k]) * c[k][j] == a[i][m] * (b[m][k] * c[k][j]))
                    by (nonlinear_arith);
            }
            lemma_sum_scale(inner, |k: int| f(k, m), a[i][m], n);
            assert(bc[m][j] == mul_entry(b, c, m, j, n));
            assert(bc[m][j] == sum_terms(inner, n));
            assert(right_outer(m) == a[i][m] * bc[m][j]);
        }
        lemma_mul_entry_sum(a, bc, i, j, right_outer, n);
        lemma_sum_ext(right_outer, |m: int| sum_terms(|k: int| f(k, m), n), n);
    }
    assert forall|i: int| 0 <= i < n implies #[trigger] lhs[i] == rhs[i] by {
        assert(lhs[i] =~= rhs[i]);
    }
    assert(lhs =~= rhs);
}

/// Powers compose additively: `m^(a + b) == m^a * m^b`.
pub proof fn lemma_mat_pow_add(m: Seq<Seq<int>>, a: int, b: int, n: int)
    requires
        mat_wf(m, n),
        mat_nonneg(m, n),
        a >= 1,
        b >= 1,
    ensures
        mat_pow(m, a + b, n) == mat_mul(mat_pow(m, a, n), mat_pow(m, b, n), n),
    decreases b,
{
    if b == 1 {
        assert(mat_pow(m, a + 1, n) == mat_mul(mat_pow(m, a, n), m, n));
    } else {
        lemma_mat_pow_add(m, a, b - 1, n);
        lemma_mat_pow_wf(m, a, n);
        lemma_mat_pow_wf(m, b - 1, n);
        lemma_mat_mul_assoc(mat_pow(m, a, n), mat_pow(m, b - 1, n), m, n);
    }
}

/// A square matrix of unsigned 64-bit integers.
#[derive(Debug)]
pub struct Matrix {
    rows: Vec<Vec<u64>>,
}

impl View for Matrix {
    type V = Seq<Seq<int>>;

    closed spec fn view(&self) -> Seq<Seq<int>> {
        Seq::new(
            self.rows@.len(),
            |i: int| Seq::new(self.rows@[i]@.len(), |j: int| self.rows@[i]@[j] as int),
        )
    }
}

impl Matrix {
    /// The matrix is square with the given dimension.
    pub open spec fn wf(&self, n: int) -> bool {
        mat_wf(self@, n)
    }

    /// The view mirrors the stored rows, entry for entry.
    proof fn lemma_view(&self)
        ensures
            self@.len() == self.rows@.len(),
            forall|i: int| 0 <= i < self.rows@.len()
                ==> #[trigger] self@[i].len() == self.rows@[i]@.len(),
            forall|i: int, j: int|
                0 <= i < self.rows@.len() && 0 <= j < self.rows@[i]@.len()
                    ==> #[trigger] self@[i][j] == self.rows@[i]@[j] as int,
    {
    }

    /// A well-formed matrix is non-negative and fits in 64-bit words.
    pub proof fn lemma_ranges(&self, n: int)
        requires
            self.wf(n),
        ensures
            mat_nonneg(self@, n),
            mat_fits(self@, n),
    {
        self.lemma_view();
        assert forall|i: int, j: int| 0 <= i < n && 0 <= j < n
            implies 0 <= #[trigger] self@[i][j] <= u64::MAX by {
            assert(self.rows@.len() == n);
            assert(self@[i].len() == self.rows@[i]@.len());
            assert(self@[i][j] == self.rows@[i]@[j] as int);
        }
    }

    /// A zero matrix of dimension `n`.
    #[verifier::loop_isolation(false)]
    pub fn zero(n: usize) -> (r: Matrix)
        ensures
            r.wf(n as int),
            forall|i: int, j: int| 0 <= i < n && 0 <= j < n ==> #[trigger] r@[i][j] == 0,
    {
        let mut rows: Vec<Vec<u64>> = Vec::new();
        let mut i: usize = 0;
        while i < n
            invariant
                i <= n,
                rows@.len() == i,
                forall|p: int| 0 <= p < i ==> #[trigger] rows@[p]@.len() == n,
                forall|p: int, q: int| 0 <= p < i && 0 <= q < n ==> #[trigger] rows@[p]@[q] == 0,
            decreases n - i,
        {
            let mut row: Vec<u64> = Vec::new();
            let mut j: usize = 0;
            while j < n
                invariant
                    j <= n,
                    row@.len() == j,
                    forall|q: int| 0 <= q < j ==> #[trigger] row@[q] == 0,
                decreases n - j,
            {
                row.push(0);
                j += 1;
            }
            rows.push(row);
            i += 1;
        }
        Matrix { rows }
    }

    /// Entry `(i, j)`.
    pub fn entry(&self, i: usize, j: usize) -> (r: u64)
        requires
            self.wf(self@.len() as int),
            i < self@.len(),
            j < self@.len(),
        ensures
            r as int == self@[i as int][j as int],
    {
        proof {
            self.lemma_view();
            assert(self@[i as int].len() == self.rows@[i as int]@.len());
            assert(self@[i as int][j as int] == self.rows@[i as int]@[j as int] as int);
        }
        self.rows[i][j]
    }

    /// The dimension.
    pub fn dim(&self) -> (r: usize)
        ensures
            r == self@.len(),
    {
        self.rows.len()
    }

    /// Add `d` to entry `(i, j)`; the caller rules out overflow.
    pub fn add_to_entry(&mut self, i: usize, j: usize, d: u64)
        requires
            old(self).wf(old(self)@.len() as int),
            i < old(self)@.len(),
            j < old(self)@.len(),
            old(self)@[i as int][j as int] + d <= u64::MAX,
        ensures
            final(self).wf(final(self)@.len() as int),
            final(self)@.len() == old(self)@.len(),
            final(self)@[i as int][j as int] == old(self)@[i as int][j as int] + d,
            forall|p: int, q: int|
                0 <= p < old(self)@.len() && 0 <= q < old(self)@.len() && !(p == i && q == j)
                    ==> #[trigger] final(self)@[p][q] == old(self)@[p][q],
    {
        proof {
            self.lemma_view();
            assert(self@[i as int].len() == self.rows@[i as int]@.len());
            assert(self@[i as int][j as int] == self.rows@[i as int]@[j as int] as int);
        }
        let v = self.rows[i][j];
        self.rows[i][j] = v + d;
        proof {
            self.lemma_view();
            let n = old(self)@.len() as int;
            assert forall|p: int| 0 <= p < n && p != i
                implies #[trigger] self@[p] == old(self)@[p] by {
                assert(self@[p] =~= old(self)@[p]);
            }
            assert(self@[i as int] =~= old(self)@[i as int].update(
                j as int,
                old(self)@[i as int][j as int] + d,
            ));
            assert forall|p: int| 0 <= p < n implies #[trigger] self@[p].len() == n by {
                assert(self@[p].len() == self.rows@[p]@.len());
            }
        }
    }

    /// An exact copy.
    #[verifier::loop_isolation(false)]
    pub fn duplicate(&self) -> (r: Matrix)
        ensures
            r@ == self@,
    {
        proof {
            self.lemma_view();
        }
        let n = self.rows.len();
        let mut rows: Vec<Vec<u64>> = Vec::new();
        let mut i: usize = 0;
        while i < n
            invariant
                i <= n,
                rows@.len() == i,
                forall|p: int| 0 <= p < i ==> #[trigger] rows@[p]@ == self.rows@[p]@,
            decreases n - i,
        {
            let src = &self.rows[i];
            let m = src.len();
            let mut row: Vec<u64> = Vec::new();
            let mut j: usize = 0;
            while j < m
                invariant
                    j <= m,
                    row@.len() == j,
                    forall|q: int| 0 <= q < j ==> #[trigger] row@[q] == src@[q],
                decreases m - j,
            {
                row.push(src[j]);
                j += 1;
            }
            assert(row@ =~= src@);
            rows.push(row);
            i += 1;
        }
        let r = Matrix { rows };
        proof {
            r.lemma_view();
            assert forall|p: int| 0 <= p < r@.len() implies #[trigger] r@[p] == self@[p] by {
                assert(r@[p] =~= self@[p]);
            }
            assert(r@ =~= self@);
        }
        r
    }

    /// The exact product of two square matrices of equal dimension.
    ///
    /// Succeeds exactly when every entry of the true product fits in `u64`;
    /// otherwise nothing is built and the caller learns that the exact
    /// arithmetic left the machine's range.
    #[verifier::loop_isolation(false)]
    pub fn mul(&self, other: &Matrix) -> (r: Result<Matrix, Error>)
        requires
            self.wf(self@.len() as int),
            other.wf(self@.len() as int),
        ensures
            r is Ok ==> {
                let p = r->Ok_0;
                &&& p.wf(self@.len() as int)
                &&& p@ == mat_mul(self@, other@, self@.len() as int)
            },
            r is Err ==> r == Err::<Matrix, Error>(Error::Overflow),
            (r is Err) <==> !mat_fits(mat_mul(self@, other@, self@.len() as int),
                self@.len() as int),
    {
        let n = self.rows.len();
        let ghost gn = n as int;
        let ghost prod = mat_mul(self@, other@, gn);
        proof {
            self.lemma_view();
            other.lemma_view();
            self.lemma_ranges(gn);
            other.lemma_ranges(gn);
            lemma_mat_mul_wf(self@, other@, gn);
            assert(self@.len() == gn);
            assert(other.rows@.len() == gn);
            assert forall|p: int| 0 <= p < gn
                implies #[trigger] self.rows@[p]@.len() == gn by {
                assert(self@[p].len() == self.rows@[p]@.len());
            }
            assert forall|p: int| 0 <= p < gn
                implies #[trigger] other.rows@[p]@.len() == gn by {
                assert(other@[p].len() == other.rows@[p]@.len());
            }
        }
        let mut rows: Vec<Vec<u64>> = Vec::new();
        let mut i: usize = 0;
        while i < n
            invariant
                i <= n,
                rows@.len() == i,
                forall|p: int| 0 <= p < i ==> #[trigger] rows@[p]@.len() == gn,
                forall|p: int, q: int| 0 <= p < i && 0 <= q < gn
                    ==> #[trigger] rows@[p]@[q] as int == prod[p][q],
            decreases n - i,
        {
            let mut row: Vec<u64> = Vec::new();
            let mut j: usize = 0;
            while j < n
                invariant
                    j <= n,
                    i < n,
                    row@.len() == j,
                    forall|q: int| 0 <= q < j ==> #[trigger] row@[q] as int == prod[i as int][q],
                decreases n - j,
            {
                let mut acc: u64 = 0;
                let mut k: usize = 0;
                while k < n
                    invariant
                        k <= n,
                        i < n,
                        j < n,
                        acc as int == mul_entry_upto(self@, other@, i as int, j as int, k as int),
                    decreases n - k,
                {
                    proof {
                        lemma_mul_entry_upto_bounds(self@, other@, i as int, j as int,
                            k as int, gn);
                        lemma_mul_entry_upto_bounds(self@, other@, i as int, j as int,
                            k as int + 1, gn);
                        assert(self@[i as int][k as int] == self.rows@[i as int]@[k as int] as int);
                        assert(other@[k as int][j as int] == other.rows@[k as int]@[j as int] as int);
                        assert(prod[i as int][j as int]
                            == mul_entry(self@, other@, i as int, j as int, gn));
                    }
                    let a = self.rows[i][k];
                    let b = other.rows[k][j];
                    let p = match a.checked_mul(b) {
                        Some(p) => p,
                        None => {
                            proof {
                                lemma_exceeds(prod, gn, i as int, j as int);
                            }
                            return Err(Error::Overflow);
                        },
                    };
                    let acc2 = match acc.checked_add(p) {
                        Some(s) => s,
                        None => {
                            proof {
                                lemma_exceeds(prod, gn, i as int, j as int);
                            }
                            return Err(Error::Overflow);
                        },
                    };
                    acc = acc2;
                    k += 1;
                }
                proof {
                    assert(prod[i as int][j as int]
                        == mul_entry(self@, other@, i as int, j as int, gn));
                }
                row.push(acc);
                j += 1;
            }
            rows.push(row);
            i += 1;
        }
        let r = Matrix { rows };
        proof {
            r.lemma_view();
            assert forall|p: int| 0 <= p < gn implies #[trigger] r@[p] == prod[p] by {
                assert forall|q: int| 0 <= q < gn implies #[trigger] r@[p][q] == prod[p][q] by {
                    assert(r@[p][q] == r.rows@[p]@[q] as int);
                }
                assert(mat_wf(prod, gn));
                assert(r@[p] =~= prod[p]);
            }
            assert(r@ =~= prod);
            assert forall|p: int, q: int| 0 <= p < gn && 0 <= q < gn
                implies #[trigger] prod[p][q] <= u64::MAX by {
                assert(r@[p][q] == r.rows@[p]@[q] as int);
            }
        }
        Ok(r)
    }
}

/// Helper: an entry above `u64::MAX` means the product does not fit.
proof fn lemma_exceeds(prod: Seq<Seq<int>>, n: int, i: int, j: int)
    requires
        0 <= i < n,
        0 <= j < n,
        prod[i][j] > u64::MAX,
    ensures
        !mat_fits(prod, n),
{
}

} // verus!
