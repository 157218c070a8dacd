//! Finite sums over integer-valued index functions, and divisibility.
//!
//! These are the mathematical tools behind the transition-matrix model:
//! column sums, matrix-product entries, and the exact scaling of counted
//! transitions into a common denominator.

use vstd::prelude::*;

verus! {

/// The sum `f(0) + f(1) + ... + f(k - 1)`.
pub open spec fn sum_terms(f: spec_fn(int) -> int, k: int) -> int
    decreases k,
{
    if k <= 0 {
        0
    } else {
        sum_terms(f, k - 1) + f(k - 1)
    }
}

/// Two functions that agree on `0..k` have the same sum there.
pub proof fn lemma_sum_ext(f: spec_fn(int) -> int, g: spec_fn(int) -> int, k: int)
    requires
        forall|t: int| 0 <= t < k ==> #[trigger] f(t) == g(t),
    ensures
        sum_terms(f, k) == sum_terms(g, k),
    decreases k,
{
    if k > 0 {
        lemma_sum_ext(f, g, k - 1);
    }
}

/// A sum splits over pointwise addition.
pub proof fn lemma_sum_add(
    f: spec_fn(int) -> int,
    g: spec_fn(int) -> int,
    h: spec_fn(int) -> int,
    k: int,
)
    requires
        forall|t: int| 0 <= t < k ==> #[trigger] h(t) == f(t) + g(t),
    ensures
        sum_terms(h, k) == sum_terms(f, k) + sum_terms(g, k),
    decreases k,
{
    if k > 0 {
        lemma_sum_add(f, g, h, k - 1);
    }
}

/// A constant factor moves out of a sum.
pub proof fn lemma_sum_scale(f: spec_fn(int) -> int, g: spec_fn(int) -> int, c: int, k: int)
    requires
        forall|t: int| 0 <= t < k ==> #[trigger] g(t) == c * f(t),
    ensures
        sum_terms(g, k) == c * sum_terms(f, k),
    decreases k,
{
    if k > 0 {
        lemma_sum_scale(f, g, c, k - 1);
        assert(c * sum_terms(f, k - 1) + c * f(k - 1) == c * (sum_terms(f, k - 1) + f(k - 1)))
            by (nonlinear_arith);
    }
}

/// Exchanging the order of a double sum.
pub proof fn lemma_sum_swap(f: spec_fn(int, int) -> int, k: int, m: int)
    ensures
        sum_terms(|i: int| sum_terms(|j: int| f(i, j), m), k)
            == sum_terms(|j: int| sum_terms(|i: int| f(i, j), k), m),
    decreases k,
{
    let row = |i: int| sum_terms(|j: int| f(i, j), m);
    let col_all = |j: int| sum_terms(|i: int| f(i, j), k);
    let col_butlast = |j: int| sum_terms(|i: int| f(i, j), k - 1);
    let last = |j: int| f(k - 1, j);
    if k <= 0 {
        assert forall|j: int| 0 <= j < m implies #[trigger] col_all(j) == 0 by {
        }
        lemma_sum_ext(col_all, |j: int| 0, m);
        lemma_sum_zero(m);
    } else {
        lemma_sum_swap(f, k - 1, m);
        assert forall|j: int| 0 <= j < m implies #[trigger] col_all(j) == col_butlast(j) + last(j)
            by {
        }
        lemma_sum_add(col_butlast, last, col_all, m);
    }
}

/// A sum of zeros is zero.
pub proof fn lemma_sum_zero(k: int)
    ensures
        sum_terms(|t: int| 0, k) == 0,
    decreases k,
{
    if k > 0 {
        lemma_sum_zero(k - 1);
    }
}

/// `d` divides `n` exactly.
pub open spec fn divides(d: int, n: int) -> bool {
    exists|q: int| n == #[trigger] (d * q)
}

/// Divisibility is transitive.
pub proof fn lemma_divides_trans(a: int, b: int, c: int)
    requires
        divides(a, b),
        divides(b, c),
    ensures
        divides(a, c),
{
    let q1 = choose|q: int| b == #[trigger] (a * q);
    let q2 = choose|q: int| c == #[trigger] (b * q);
    assert(c == a * (q1 * q2)) by (nonlinear_arith)
        requires b == a * q1 && c == b * q2;
}

/// A positive divisor of a value yields an exact quotient.
pub proof fn lemma_div_exact(d: int, n: int)
    requires
        d >= 1,
        divides(d, n),
    ensures
        (n / d) * d == n,
        n % d == 0,
{
    let q = choose|q: int| n == #[trigger] (d * q);
    assert(n / d == q && n % d == 0) by (nonlinear_arith)
        requires d >= 1 && n == d * q;
}

/// The greatest common divisor, by Euclid's recursion.
pub open spec fn gcd_spec(a: int, b: int) -> int
    decreases b,
{
    if b <= 0 {
        a
    } else {
        gcd_spec(b, a % b)
    }
}

/// The greatest common divisor divides both arguments and is positive
/// unless both are zero.
pub proof fn lemma_gcd_spec(a: int, b: int)
    requires
        a >= 0,
        b >= 0,
    ensures
        divides(gcd_spec(a, b), a),
        divides(gcd_spec(a, b), b),
        a > 0 || b > 0 ==> gcd_spec(a, b) >= 1,
    decreases b,
{
    let g = gcd_spec(a, b);
    if b <= 0 {
        assert(a == g * 1);
        assert(0int == g * 0);
    } else {
        lemma_gcd_spec(b, a % b);
        let q1 = choose|q: int| b == #[trigger] (g * q);
        let q2 = choose|q: int| (a % b) == #[trigger] (g * q);
        let k = a / b;
        assert(a == g * (q1 * k + q2)) by (nonlinear_arith)
            requires
                b > 0,
                b == g * q1,
                (a % b) == g * q2,
                k == a / b;
    }
}

/// The least common multiple.
pub open spec fn lcm_spec(a: int, b: int) -> int {
    (a / gcd_spec(a, b)) * b
}

/// For positive arguments the least common multiple is a common multiple at
/// least as large as either argument.
pub proof fn lemma_lcm_spec_bounds(a: int, b: int)
    requires
        a >= 1,
        b >= 1,
    ensures
        lcm_spec(a, b) >= a,
        lcm_spec(a, b) >= b,
        divides(a, lcm_spec(a, b)),
        divides(b, lcm_spec(a, b)),
{
    let g = gcd_spec(a, b);
    let l = lcm_spec(a, b);
    lemma_gcd_spec(a, b);
    lemma_div_exact(g, a);
    let qa = choose|q: int| a == #[trigger] (g * q);
    let qb = choose|q: int| b == #[trigger] (g * q);
    assert(a / g == qa) by (nonlinear_arith)
        requires g >= 1 && a == g * qa;
    assert(l == a * qb && l == b * qa && qa >= 1 && qb >= 1) by (nonlinear_arith)
        requires
            l == qa * b,
            a == g * qa,
            b == g * qb,
            a >= 1,
            b >= 1,
            g >= 1;
    assert(l >= a && l >= b) by (nonlinear_arith)
        requires l == a * qb && l == b * qa && qa >= 1 && qb >= 1 && a >= 1 && b >= 1;
}

/// The greatest common divisor, by Euclid's algorithm.
pub fn gcd(a: u64, b: u64) -> (g: u64)
    ensures
        g as int == gcd_spec(a as int, b as int),
    decreases b,
{
    if b == 0 {
        a
    } else {
        gcd(b, a % b)
    }
}

/// The least common multiple, or `None` exactly when it exceeds `u64::MAX`.
pub fn lcm(a: u64, b: u64) -> (r: Option<u64>)
    requires
        a >= 1,
        b >= 1,
    ensures
        r is Some <==> lcm_spec(a as int, b as int) <= u64::MAX,
        r is Some ==> r->0 as int == lcm_spec(a as int, b as int),
{
    let g = gcd(a, b);
    proof {
        lemma_gcd_spec(a as int, b as int);
        lemma_div_exact(g as int, a as int);
    }
    let a_red = a / g;
    a_red.checked_mul(b)
}

} // verus!
