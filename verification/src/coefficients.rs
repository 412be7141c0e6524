//! The 7-D `a` / `b` expansion-coefficient tables of the Hou 2016 mutual
//! potential: their flat layout and their exact (integer) entries.
//!
//! ```text
//! flat_idx = a·dim⁶ + b·dim⁵ + c·dim⁴ + d·dim³ + e·dim² + f·dim + g
//! ```
//! where `dim = n + 1` and `n` is the truncation order.

use vstd::prelude::*;
use vstd::arithmetic::power::pow;
use crate::coefficient_laws::{
    b_numerator, b_weight, fact, fact6, lemma_a_coef_multinomial, lemma_b_coef_multinomial,
    lemma_b_coef_odd_pair_zero, sign_of,
};

verus! {

/// The row-major flat position of the 7-tuple `(a, b, c, d, e, f, g)` in a
/// table whose every axis has `dim` entries.
pub open spec fn flat_index(a: int, b: int, c: int, d: int, e: int, f: int, g: int, dim: int) -> int {
    a * pow(dim, 6) + b * pow(dim, 5) + c * pow(dim, 4) + d * pow(dim, 3)
        + e * pow(dim, 2) + f * dim + g
}

/// What `t_ind` computes: the flat position, except that an index tuple whose
/// component sum exceeds `dim⁷` is mirrored (`dim - x` on the first six axes).
pub open spec fn t_ind_spec(a: int, b: int, c: int, d: int, e: int, f: int, g: int, dim: int) -> int {
    if a + b + c + d + e + f + g > pow(dim, 7) {
        flat_index(dim - a, dim - b, dim - c, dim - d, dim - e, dim - f, g, dim)
    } else {
        flat_index(a, b, c, d, e, f, g, dim)
    }
}

/// The inputs on which `t_ind` computes without leaving `usize`.
pub open spec fn t_ind_fits(a: int, b: int, c: int, d: int, e: int, f: int, g: int, dim: int) -> bool {
    &&& a + b + c + d + e + f + g <= usize::MAX
    &&& pow(dim, 7) <= usize::MAX
    &&& a + b + c + d + e + f + g > pow(dim, 7) ==> {
        &&& a <= dim && b <= dim && c <= dim && d <= dim && e <= dim && f <= dim
        &&& flat_index(dim - a, dim - b, dim - c, dim - d, dim - e, dim - f, g, dim) <= usize::MAX
    }
    &&& a + b + c + d + e + f + g <= pow(dim, 7) ==> flat_index(a, b, c, d, e, f, g, dim) <= usize::MAX
}

/// `pow(dim, k)` for k = 1..7 as plain products, each below the next.
proof fn lemma_powers(dim: int)
    requires
        dim >= 0,
    ensures
        pow(dim, 1) == dim,
        pow(dim, 2) == dim * dim,
        pow(dim, 3) == pow(dim, 2) * dim,
        pow(dim, 4) == pow(dim, 3) * dim,
        pow(dim, 5) == pow(dim, 4) * dim,
        pow(dim, 6) == pow(dim, 5) * dim,
        pow(dim, 7) == pow(dim, 6) * dim,
        0 <= dim <= pow(dim, 2) || dim == 0,
        0 <= pow(dim, 2) <= pow(dim, 3) || dim == 0,
        0 <= pow(dim, 3) <= pow(dim, 4) || dim == 0,
        0 <= pow(dim, 4) <= pow(dim, 5) || dim == 0,
        0 <= pow(dim, 5) <= pow(dim, 6) || dim == 0,
        0 <= pow(dim, 6) <= pow(dim, 7) || dim == 0,
        dim == 0 ==> pow(dim, 2) == 0 && pow(dim, 3) == 0 && pow(dim, 4) == 0 && pow(dim, 5) == 0
            && pow(dim, 6) == 0 && pow(dim, 7) == 0,
{
    reveal_with_fuel(pow, 8);
    assert(pow(dim, 1) == dim * pow(dim, 0));
    if dim > 0 {
        vstd::arithmetic::power::lemma_pow_positive(dim, 1);
        vstd::arithmetic::power::lemma_pow_positive(dim, 2);
        vstd::arithmetic::power::lemma_pow_positive(dim, 3);
        vstd::arithmetic::power::lemma_pow_positive(dim, 4);
        vstd::arithmetic::power::lemma_pow_positive(dim, 5);
        vstd::arithmetic::power::lemma_pow_positive(dim, 6);
        vstd::arithmetic::mul::lemma_mul_increases(dim, dim);
        vstd::arithmetic::mul::lemma_mul_increases(dim, pow(dim, 2));
        vstd::arithmetic::mul::lemma_mul_increases(dim, pow(dim, 3));
        vstd::arithmetic::mul::lemma_mul_increases(dim, pow(dim, 4));
        vstd::arithmetic::mul::lemma_mul_increases(dim, pow(dim, 5));
        vstd::arithmetic::mul::lemma_mul_increases(dim, pow(dim, 6));
    }
}

/// Every term of a flat index made of non-negative parts is non-negative.
proof fn lemma_flat_terms(a: int, b: int, c: int, d: int, e: int, f: int, g: int, dim: int)
    requires
        a >= 0, b >= 0, c >= 0, d >= 0, e >= 0, f >= 0, g >= 0, dim >= 0,
    ensures
        0 <= a * pow(dim, 6),
        0 <= b * pow(dim, 5),
        0 <= c * pow(dim, 4),
        0 <= d * pow(dim, 3),
        0 <= e * pow(dim, 2),
        0 <= f * dim,
{
    reveal_with_fuel(pow, 7);
    if dim > 0 {
        vstd::arithmetic::power::lemma_pow_positive(dim, 6);
        vstd::arithmetic::power::lemma_pow_positive(dim, 5);
        vstd::arithmetic::power::lemma_pow_positive(dim, 4);
        vstd::arithmetic::power::lemma_pow_positive(dim, 3);
        vstd::arithmetic::power::lemma_pow_positive(dim, 2);
    }
    lemma_powers(dim);
    vstd::arithmetic::mul::lemma_mul_nonnegative(a, pow(dim, 6));
    vstd::arithmetic::mul::lemma_mul_nonnegative(b, pow(dim, 5));
    vstd::arithmetic::mul::lemma_mul_nonnegative(c, pow(dim, 4));
    vstd::arithmetic::mul::lemma_mul_nonnegative(d, pow(dim, 3));
    vstd::arithmetic::mul::lemma_mul_nonnegative(e, pow(dim, 2));
    vstd::arithmetic::mul::lemma_mul_nonnegative(f, dim);
}

/// The weighted sum `a·p6 + … + f·p1 + g` with every part in `usize`.
fn weighted_sum(a: usize, b: usize, c: usize, d: usize, e: usize, f: usize, g: usize, dim: usize) -> (r: usize)
    requires
        pow(dim as int, 7) <= usize::MAX,
        flat_index(a as int, b as int, c as int, d as int, e as int, f as int, g as int, dim as int) <= usize::MAX,
    ensures
        r == flat_index(a as int, b as int, c as int, d as int, e as int, f as int, g as int, dim as int),
{
    proof {
        lemma_powers(dim as int);
        lemma_flat_terms(a as int, b as int, c as int, d as int, e as int, f as int, g as int, dim as int);
    }
    let d2 = dim * dim;
    let d3 = d2 * dim;
    let d4 = d3 * dim;
    let d5 = d4 * dim;
    let d6 = d5 * dim;
    a * d6 + b * d5 + c * d4 + d * d3 + e * d2 + f * dim + g
}

/// Map 7 coefficient indices (k, i1..i6) and the dimension `dim = n+1` to a
/// single flat index into the 1-D `a` or `b` table.
///
/// An index tuple whose sum exceeds `dim⁷` takes the mirrored branch; for
/// every tuple of indices below `dim` that branch is never reached.
pub fn t_ind(a: usize, b: usize, c: usize, d: usize, e: usize, f: usize, g: usize, dim: usize) -> (r: usize)
    requires
        t_ind_fits(a as int, b as int, c as int, d as int, e as int, f as int, g as int, dim as int),
    ensures
        r == t_ind_spec(a as int, b as int, c as int, d as int, e as int, f as int, g as int, dim as int),
{
    proof {
        lemma_powers(dim as int);
    }
    let sum = a + b + c + d + e + f + g;
    let dim7 = dim * dim * dim * dim * dim * dim * dim;
    if sum > dim7 {
        weighted_sum(dim - a, dim - b, dim - c, dim - d, dim - e, dim - f, g, dim)
    } else {
        weighted_sum(a, b, c, d, e, f, g, dim)
    }
}


/// The flat index written in nested (Horner) form.
pub open spec fn horner7(a: int, b: int, c: int, d: int, e: int, f: int, g: int, dim: int) -> int {
    ((((((a * dim + b) * dim + c) * dim + d) * dim + e) * dim + f) * dim + g)
}

proof fn lemma_flat_is_horner(a: int, b: int, c: int, d: int, e: int, f: int, g: int, dim: int)
    requires
        dim >= 0,
    ensures
        flat_index(a, b, c, d, e, f, g, dim) == horner7(a, b, c, d, e, f, g, dim),
{
    lemma_powers(dim);
    let p2 = pow(dim, 2);
    let p3 = pow(dim, 3);
    let p4 = pow(dim, 4);
    let p5 = pow(dim, 5);
    let p6 = pow(dim, 6);
    assert(a * p6 + b * p5 + c * p4 + d * p3 + e * p2 + f * dim + g
        == ((((((a * dim + b) * dim + c) * dim + d) * dim + e) * dim + f) * dim + g))
        by (nonlinear_arith)
        requires
            p2 == dim * dim,
            p3 == p2 * dim,
            p4 == p3 * dim,
            p5 == p4 * dim,
            p6 == p5 * dim,
    ;
}

/// One Horner step keeps a value below the next power of `dim`.
proof fn lemma_horner_step_bound(h: int, c: int, p: int, dim: int)
    requires
        0 <= h <= p - 1,
        0 <= c <= dim - 1,
        dim >= 1,
    ensures
        0 <= h * dim + c <= p * dim - 1,
{
    assert(0 <= h * dim <= (p - 1) * dim) by (nonlinear_arith)
        requires
            0 <= h <= p - 1,
            dim >= 1,
    ;
    assert((p - 1) * dim == p * dim - dim) by (nonlinear_arith);
}

/// Quotient and remainder of one Horner step are unique.
proof fn lemma_horner_step_unique(u: int, r: int, v: int, s: int, dim: int)
    requires
        dim >= 1,
        0 <= r < dim,
        0 <= s < dim,
        u * dim + r == v * dim + s,
    ensures
        u == v,
        r == s,
{
    vstd::arithmetic::div_mod::lemma_fundamental_div_mod_converse(u * dim + r, dim, u, r);
    vstd::arithmetic::div_mod::lemma_fundamental_div_mod_converse(v * dim + s, dim, v, s);
}

/// Whether every component of the 7-tuple lies in `[0, dim)`.
pub open spec fn digits_below(a: int, b: int, c: int, d: int, e: int, f: int, g: int, dim: int) -> bool {
    &&& 0 <= a < dim
    &&& 0 <= b < dim
    &&& 0 <= c < dim
    &&& 0 <= d < dim
    &&& 0 <= e < dim
    &&& 0 <= f < dim
    &&& 0 <= g < dim
}

/// A tuple of in-range indices lands inside the table, never takes the
/// mirrored branch of `t_ind`, and its component sum is at most its position.
pub proof fn lemma_flat_in_range(a: int, b: int, c: int, d: int, e: int, f: int, g: int, dim: int)
    requires
        digits_below(a, b, c, d, e, f, g, dim),
    ensures
        0 <= a + b + c + d + e + f + g <= flat_index(a, b, c, d, e, f, g, dim),
        flat_index(a, b, c, d, e, f, g, dim) < pow(dim, 7),
        t_ind_spec(a, b, c, d, e, f, g, dim) == flat_index(a, b, c, d, e, f, g, dim),
{
    lemma_powers(dim);
    lemma_flat_is_horner(a, b, c, d, e, f, g, dim);
    let h1 = a * dim + b;
    let h2 = h1 * dim + c;
    let h3 = h2 * dim + d;
    let h4 = h3 * dim + e;
    let h5 = h4 * dim + f;
    let h6 = h5 * dim + g;
    lemma_horner_step_bound(a, b, dim, dim);
    lemma_horner_step_bound(h1, c, pow(dim, 2), dim);
    lemma_horner_step_bound(h2, d, pow(dim, 3), dim);
    lemma_horner_step_bound(h3, e, pow(dim, 4), dim);
    lemma_horner_step_bound(h4, f, pow(dim, 5), dim);
    lemma_horner_step_bound(h5, g, pow(dim, 6), dim);
    // each Horner step at least keeps what came before and adds the new digit
    assert(h1 >= a + b) by (nonlinear_arith) requires a >= 0, dim >= 1, h1 == a * dim + b;
    assert(h2 >= h1 + c) by (nonlinear_arith) requires h1 >= 0, dim >= 1, h2 == h1 * dim + c;
    assert(h3 >= h2 + d) by (nonlinear_arith) requires h2 >= 0, dim >= 1, h3 == h2 * dim + d;
    assert(h4 >= h3 + e) by (nonlinear_arith) requires h3 >= 0, dim >= 1, h4 == h3 * dim + e;
    assert(h5 >= h4 + f) by (nonlinear_arith) requires h4 >= 0, dim >= 1, h5 == h4 * dim + f;
    assert(h6 >= h5 + g) by (nonlinear_arith) requires h5 >= 0, dim >= 1, h6 == h5 * dim + g;
}

/// Distinct tuples of in-range indices occupy distinct positions.
pub proof fn lemma_flat_injective(
    a: int, b: int, c: int, d: int, e: int, f: int, g: int,
    a2: int, b2: int, c2: int, d2: int, e2: int, f2: int, g2: int,
    dim: int,
)
    requires
        digits_below(a, b, c, d, e, f, g, dim),
        digits_below(a2, b2, c2, d2, e2, f2, g2, dim),
        flat_index(a, b, c, d, e, f, g, dim) == flat_index(a2, b2, c2, d2, e2, f2, g2, dim),
    ensures
        a == a2 && b == b2 && c == c2 && d == d2 && e == e2 && f == f2 && g == g2,
{
    lemma_flat_is_horner(a, b, c, d, e, f, g, dim);
    lemma_flat_is_horner(a2, b2, c2, d2, e2, f2, g2, dim);
    let h1 = a * dim + b;
    let h2 = h1 * dim + c;
    let h3 = h2 * dim + d;
    let h4 = h3 * dim + e;
    let h5 = h4 * dim + f;
    let k1 = a2 * dim + b2;
    let k2 = k1 * dim + c2;
    let k3 = k2 * dim + d2;
    let k4 = k3 * dim + e2;
    let k5 = k4 * dim + f2;
    lemma_horner_step_unique(h5, g, k5, g2, dim);
    lemma_horner_step_unique(h4, f, k4, f2, dim);
    lemma_horner_step_unique(h3, e, k3, e2, dim);
    lemma_horner_step_unique(h2, d, k2, d2, dim);
    lemma_horner_step_unique(h1, c, k1, c2, dim);
    lemma_horner_step_unique(a, b, a2, b2, dim);
}

/// One division step: `x = (x / dim) * dim + x % dim` with the remainder in range.
proof fn lemma_div_step(x: int, dim: int)
    requires
        x >= 0,
        dim >= 1,
    ensures
        x == (x / dim) * dim + x % dim,
        0 <= x % dim < dim,
        x / dim >= 0,
{
    vstd::arithmetic::div_mod::lemma_fundamental_div_mod(x, dim);
    vstd::arithmetic::mul::lemma_mul_is_commutative(dim, x / dim);
    vstd::arithmetic::div_mod::lemma_mod_bound(x, dim);
    vstd::arithmetic::div_mod::lemma_div_pos_is_pos(x, dim);
}

/// Split a position of the table into its seven indices.
fn decode_index(p: usize, dim: usize) -> (r: (usize, usize, usize, usize, usize, usize, usize))
    requires
        dim >= 1,
        p < pow(dim as int, 7),
    ensures
        digits_below(r.0 as int, r.1 as int, r.2 as int, r.3 as int, r.4 as int, r.5 as int, r.6 as int, dim as int),
        p == flat_index(r.0 as int, r.1 as int, r.2 as int, r.3 as int, r.4 as int, r.5 as int, r.6 as int, dim as int),
{
    let g = p % dim;
    let q1 = p / dim;
    let f = q1 % dim;
    let q2 = q1 / dim;
    let e = q2 % dim;
    let q3 = q2 / dim;
    let d = q3 % dim;
    let q4 = q3 / dim;
    let c = q4 % dim;
    let q5 = q4 / dim;
    let b = q5 % dim;
    let a = q5 / dim;
    proof {
        let di = dim as int;
        lemma_div_step(p as int, di);
        lemma_div_step(q1 as int, di);
        lemma_div_step(q2 as int, di);
        lemma_div_step(q3 as int, di);
        lemma_div_step(q4 as int, di);
        lemma_div_step(q5 as int, di);
        assert(p as int == horner7(a as int, b as int, c as int, d as int, e as int, f as int, g as int, di));
        lemma_flat_is_horner(a as int, b as int, c as int, d as int, e as int, f as int, g as int, di);
        // the leading index is below dim because the position is below dim⁷
        lemma_powers(di);
        if a >= dim {
            let low = flat_index(0, b as int, c as int, d as int, e as int, f as int, g as int, di);
            lemma_flat_terms(0, b as int, c as int, d as int, e as int, f as int, g as int, di);
            assert(flat_index(a as int, b as int, c as int, d as int, e as int, f as int, g as int, di)
                == a * pow(di, 6) + low);
            assert(a * pow(di, 6) >= di * pow(di, 6)) by (nonlinear_arith)
                requires
                    a >= di,
                    pow(di, 6) >= 0,
            ;
            assert(pow(di, 7) == pow(di, 6) * di);
            assert(false);
        }
    }
    (a, b, c, d, e, f, g)
}

/// The `a`/`b` table layout is a bijection between index tuples below `dim`
/// and the positions `[0, dim⁷)`: every position is reached by exactly one
/// tuple.
pub proof fn lemma_layout_onto(p: int, dim: int) -> (x: (int, int, int, int, int, int, int))
    requires
        dim >= 1,
        0 <= p < pow(dim, 7),
    ensures
        digits_below(x.0, x.1, x.2, x.3, x.4, x.5, x.6, dim),
        p == flat_index(x.0, x.1, x.2, x.3, x.4, x.5, x.6, dim),
{
    let g = p % dim;
    let q1 = p / dim;
    let f = q1 % dim;
    let q2 = q1 / dim;
    let e = q2 % dim;
    let q3 = q2 / dim;
    let d = q3 % dim;
    let q4 = q3 / dim;
    let c = q4 % dim;
    let q5 = q4 / dim;
    let b = q5 % dim;
    let a = q5 / dim;
    lemma_div_step(p, dim);
    lemma_div_step(q1, dim);
    lemma_div_step(q2, dim);
    lemma_div_step(q3, dim);
    lemma_div_step(q4, dim);
    lemma_div_step(q5, dim);
    assert(p == horner7(a, b, c, d, e, f, g, dim));
    lemma_flat_is_horner(a, b, c, d, e, f, g, dim);
    lemma_powers(dim);
    if a >= dim {
        lemma_flat_terms(0, b, c, d, e, f, g, dim);
        assert(a * pow(dim, 6) >= dim * pow(dim, 6)) by (nonlinear_arith)
            requires
                a >= dim,
                pow(dim, 6) >= 0,
        ;
        assert(false);
    }
    (a, b, c, d, e, f, g)
}

/// Length needed for the `a`/`b` coefficient tables of truncation order `n`.
pub fn coeff_vec_len(n: usize) -> (r: usize)
    requires
        pow(n + 1, 7) <= usize::MAX,
    ensures
        r == pow(n + 1, 7),
{
    proof {
        lemma_powers(n + 1);
    }
    let dim = n + 1;
    proof {
        let di = dim as int;
        let ni = n as int;
        lemma_powers(di);
        lemma_flat_in_range(ni, ni, ni, ni, ni, ni, ni, di);
        lemma_flat_is_horner(ni, ni, ni, ni, ni, ni, ni, di);
        assert(horner7(ni, ni, ni, ni, ni, ni, ni, di) == pow(di, 7) - 1) by (nonlinear_arith)
            requires
                ni == di - 1,
                pow(di, 7) == di * di * di * di * di * di * di,
        {
        }
    }
    t_ind(n, n, n, n, n, n, n, dim) + 1
}


/// Whether the coefficient tables of truncation order `n` can be built: the
/// table length `(n+1)⁷` fits in `usize`, and every coefficient, bounded by
/// `12ⁿ`, fits in `i128` (a table of order 36 would hold about 8·10¹⁰ entries,
/// beyond any memory).
pub open spec fn coeff_tables_fit(n: int) -> bool {
    &&& 0 <= n <= 35
    &&& pow(n + 1, 7) <= usize::MAX
}

/// The `a` coefficient of the mutual-potential expansion (Hou 2016):
/// `a(0; 0,…,0) = 1`, and for order `k ≥ 1` the coefficient at
/// `(i1, …, i6)` is the sum of the six coefficients of order `k − 1`
/// reached by lowering one index, with sign `+` for `i1, i2, i3` and `−` for
/// `i4, i5, i6`.  It is zero unless the indices are non-negative and sum to `k`.
pub open spec fn a_coef(k: int, i1: int, i2: int, i3: int, i4: int, i5: int, i6: int) -> int
    decreases k,
{
    if i1 < 0 || i2 < 0 || i3 < 0 || i4 < 0 || i5 < 0 || i6 < 0 || i1 + i2 + i3 + i4 + i5 + i6 != k {
        0
    } else if k == 0 {
        1
    } else {
        a_coef(k - 1, i1 - 1, i2, i3, i4, i5, i6) + a_coef(k - 1, i1, i2 - 1, i3, i4, i5, i6)
            + a_coef(k - 1, i1, i2, i3 - 1, i4, i5, i6) - a_coef(k - 1, i1, i2, i3, i4 - 1, i5, i6)
            - a_coef(k - 1, i1, i2, i3, i4, i5 - 1, i6) - a_coef(k - 1, i1, i2, i3, i4, i5, i6 - 1)
    }
}

/// `|a(k; ·)| ≤ 6ᵏ`.
pub proof fn lemma_a_coef_bound(k: int, i1: int, i2: int, i3: int, i4: int, i5: int, i6: int)
    requires
        k >= 0,
    ensures
        -pow(6, k as nat) <= a_coef(k, i1, i2, i3, i4, i5, i6) <= pow(6, k as nat),
    decreases k,
{
    vstd::arithmetic::power::lemma_pow_positive(6, k as nat);
    if i1 < 0 || i2 < 0 || i3 < 0 || i4 < 0 || i5 < 0 || i6 < 0 || i1 + i2 + i3 + i4 + i5 + i6 != k {
    } else if k == 0 {
        assert(pow(6, 0) == 1) by { reveal_with_fuel(pow, 1); }
    } else {
        lemma_a_coef_bound(k - 1, i1 - 1, i2, i3, i4, i5, i6);
        lemma_a_coef_bound(k - 1, i1, i2 - 1, i3, i4, i5, i6);
        lemma_a_coef_bound(k - 1, i1, i2, i3 - 1, i4, i5, i6);
        lemma_a_coef_bound(k - 1, i1, i2, i3, i4 - 1, i5, i6);
        lemma_a_coef_bound(k - 1, i1, i2, i3, i4, i5 - 1, i6);
        lemma_a_coef_bound(k - 1, i1, i2, i3, i4, i5, i6 - 1);
        assert(pow(6, k as nat) == 6 * pow(6, (k - 1) as nat)) by { reveal_with_fuel(pow, 1); }
    }
}

/// The `b` coefficient of the mutual-potential expansion (Hou 2016):
/// `b(0; 0,…,0) = 1`, every coefficient of order 1 is zero, and for order
/// `k ≥ 2` the coefficient at `(j1, …, j6)` combines the coefficients of order
/// `k − 2`: `−2` times each one reached by lowering a pair `(j1, j4)`,
/// `(j2, j5)` or `(j3, j6)`, plus each one reached by lowering a single index
/// by two.  It is zero unless the indices are non-negative and sum to `k`.
pub open spec fn b_coef(k: int, j1: int, j2: int, j3: int, j4: int, j5: int, j6: int) -> int
    decreases k,
{
    if j1 < 0 || j2 < 0 || j3 < 0 || j4 < 0 || j5 < 0 || j6 < 0 || j1 + j2 + j3 + j4 + j5 + j6 != k {
        0
    } else if k == 0 {
        1
    } else if k == 1 {
        0
    } else {
        -2 * (b_coef(k - 2, j1 - 1, j2, j3, j4 - 1, j5, j6) + b_coef(k - 2, j1, j2 - 1, j3, j4, j5 - 1, j6)
            + b_coef(k - 2, j1, j2, j3 - 1, j4, j5, j6 - 1))
            + b_coef(k - 2, j1 - 2, j2, j3, j4, j5, j6) + b_coef(k - 2, j1, j2 - 2, j3, j4, j5, j6)
            + b_coef(k - 2, j1, j2, j3 - 2, j4, j5, j6) + b_coef(k - 2, j1, j2, j3, j4 - 2, j5, j6)
            + b_coef(k - 2, j1, j2, j3, j4, j5 - 2, j6) + b_coef(k - 2, j1, j2, j3, j4, j5, j6 - 2)
    }
}

/// `|b(k; ·)| ≤ 12ᵏ`.
pub proof fn lemma_b_coef_bound(k: int, j1: int, j2: int, j3: int, j4: int, j5: int, j6: int)
    requires
        k >= 0,
    ensures
        -pow(12, k as nat) <= b_coef(k, j1, j2, j3, j4, j5, j6) <= pow(12, k as nat),
    decreases k,
{
    vstd::arithmetic::power::lemma_pow_positive(12, k as nat);
    if j1 < 0 || j2 < 0 || j3 < 0 || j4 < 0 || j5 < 0 || j6 < 0 || j1 + j2 + j3 + j4 + j5 + j6 != k {
    } else if k == 0 {
        assert(pow(12, 0) == 1) by { reveal_with_fuel(pow, 1); }
    } else if k == 1 {
    } else {
        lemma_b_coef_bound(k - 2, j1 - 1, j2, j3, j4 - 1, j5, j6);
        lemma_b_coef_bound(k - 2, j1, j2 - 1, j3, j4, j5 - 1, j6);
        lemma_b_coef_bound(k - 2, j1, j2, j3 - 1, j4, j5, j6 - 1);
        lemma_b_coef_bound(k - 2, j1 - 2, j2, j3, j4, j5, j6);
        lemma_b_coef_bound(k - 2, j1, j2 - 2, j3, j4, j5, j6);
        lemma_b_coef_bound(k - 2, j1, j2, j3 - 2, j4, j5, j6);
        lemma_b_coef_bound(k - 2, j1, j2, j3, j4 - 2, j5, j6);
        lemma_b_coef_bound(k - 2, j1, j2, j3, j4, j5 - 2, j6);
        lemma_b_coef_bound(k - 2, j1, j2, j3, j4, j5, j6 - 2);
        vstd::arithmetic::power::lemma_pow_positive(12, (k - 2) as nat);
        assert(pow(12, k as nat) == 144 * pow(12, (k - 2) as nat)) by { reveal_with_fuel(pow, 2); }
    }
}

/// The order-1 `a` coefficients are Hou's seeds: `+1` on the unit tuples of
/// `i1, i2, i3`, `−1` on those of `i4, i5, i6`, zero elsewhere.
pub proof fn lemma_a_order_one_seeds(i1: int, i2: int, i3: int, i4: int, i5: int, i6: int)
    ensures
        a_coef(1, i1, i2, i3, i4, i5, i6) == (
            if i1 + i2 + i3 + i4 + i5 + i6 != 1 || i1 < 0 || i2 < 0 || i3 < 0 || i4 < 0 || i5 < 0 || i6 < 0 {
                0
            } else if i1 == 1 || i2 == 1 || i3 == 1 {
                1
            } else {
                -1
            }
        ),
{
    reveal_with_fuel(a_coef, 2);
}

/// The order-2 `b` coefficients are Hou's seeds: `1` on `2·e_m`, `−2` on the
/// pairs `e1+e4`, `e2+e5`, `e3+e6`, zero elsewhere.
pub proof fn lemma_b_order_two_seeds(j1: int, j2: int, j3: int, j4: int, j5: int, j6: int)
    ensures
        b_coef(2, j1, j2, j3, j4, j5, j6) == (
            if j1 < 0 || j2 < 0 || j3 < 0 || j4 < 0 || j5 < 0 || j6 < 0 || j1 + j2 + j3 + j4 + j5 + j6 != 2 {
                0
            } else if j1 == 2 || j2 == 2 || j3 == 2 || j4 == 2 || j5 == 2 || j6 == 2 {
                1
            } else if (j1 == 1 && j4 == 1) || (j2 == 1 && j5 == 1) || (j3 == 1 && j6 == 1) {
                -2
            } else {
                0
            }
        ),
{
    reveal_with_fuel(b_coef, 2);
}

/// Every `b` coefficient of odd order is zero.
pub proof fn lemma_b_coef_odd_order_zero(k: int, j1: int, j2: int, j3: int, j4: int, j5: int, j6: int)
    requires
        k >= 0,
        k % 2 == 1,
    ensures
        b_coef(k, j1, j2, j3, j4, j5, j6) == 0,
    decreases k,
{
    if k >= 3 {
        lemma_b_coef_odd_order_zero(k - 2, j1 - 1, j2, j3, j4 - 1, j5, j6);
        lemma_b_coef_odd_order_zero(k - 2, j1, j2 - 1, j3, j4, j5 - 1, j6);
        lemma_b_coef_odd_order_zero(k - 2, j1, j2, j3 - 1, j4, j5, j6 - 1);
        lemma_b_coef_odd_order_zero(k - 2, j1 - 2, j2, j3, j4, j5, j6);
        lemma_b_coef_odd_order_zero(k - 2, j1, j2 - 2, j3, j4, j5, j6);
        lemma_b_coef_odd_order_zero(k - 2, j1, j2, j3 - 2, j4, j5, j6);
        lemma_b_coef_odd_order_zero(k - 2, j1, j2, j3, j4 - 2, j5, j6);
        lemma_b_coef_odd_order_zero(k - 2, j1, j2, j3, j4, j5 - 2, j6);
        lemma_b_coef_odd_order_zero(k - 2, j1, j2, j3, j4, j5, j6 - 2);
    }
}

/// `6³⁵ ≤ 12³⁵ < 2¹²⁷`: every coefficient of order at most 35 fits in `i128`.
proof fn lemma_i128_room(k: nat)
    requires
        k <= 35,
    ensures
        0 < pow(6, k) <= pow(12, k) <= pow(12, 35) < i128::MAX,
{
    vstd::arithmetic::power::lemma_pow_positive(6, k);
    vstd::arithmetic::power::lemma_pow_increases(12, k, 35);
    lemma_pow_base_le(6, 12, k);
    reveal_with_fuel(pow, 36);
    assert(pow(12, 35) == 59066822915424320448445358917464096768nat);
}

/// A smaller base gives a smaller power.
proof fn lemma_pow_base_le(b1: nat, b2: nat, k: nat)
    requires
        b1 <= b2,
    ensures
        0 <= pow(b1 as int, k) <= pow(b2 as int, k),
    decreases k,
{
    reveal_with_fuel(pow, 1);
    if k > 0 {
        lemma_pow_base_le(b1, b2, (k - 1) as nat);
        let p1 = pow(b1 as int, (k - 1) as nat);
        let p2 = pow(b2 as int, (k - 1) as nat);
        assert(b1 * p1 <= b2 * p2) by (nonlinear_arith)
            requires
                0 <= b1 <= b2,
                0 <= p1 <= p2,
        ;
        assert(0 <= b1 * p1) by (nonlinear_arith) requires 0 <= b1, 0 <= p1;
    }
}

/// Lowering the leading index and one more index moves a position strictly
/// toward the front of the table.
proof fn lemma_flat_pred(
    a: int, b: int, c: int, d: int, e: int, f: int, g: int,
    da: int, db: int, dc: int, dd: int, de: int, df: int, dg: int,
    dim: int,
)
    requires
        dim >= 1,
        1 <= da <= 2,
        0 <= db <= 2, 0 <= dc <= 2, 0 <= dd <= 2, 0 <= de <= 2, 0 <= df <= 2, 0 <= dg <= 2,
    ensures
        flat_index(a - da, b - db, c - dc, d - dd, e - de, f - df, g - dg, dim)
            < flat_index(a, b, c, d, e, f, g, dim),
{
    lemma_powers(dim);
    vstd::arithmetic::power::lemma_pow_positive(dim, 6);
    lemma_flat_terms(da, db, dc, dd, de, df, dg, dim);
    let p2 = pow(dim, 2);
    let p3 = pow(dim, 3);
    let p4 = pow(dim, 4);
    let p5 = pow(dim, 5);
    let p6 = pow(dim, 6);
    vstd::arithmetic::mul::lemma_mul_is_distributive_sub_other_way(p6, a, da);
    vstd::arithmetic::mul::lemma_mul_is_distributive_sub_other_way(p5, b, db);
    vstd::arithmetic::mul::lemma_mul_is_distributive_sub_other_way(p4, c, dc);
    vstd::arithmetic::mul::lemma_mul_is_distributive_sub_other_way(p3, d, dd);
    vstd::arithmetic::mul::lemma_mul_is_distributive_sub_other_way(p2, e, de);
    vstd::arithmetic::mul::lemma_mul_is_distributive_sub_other_way(dim, f, df);
    vstd::arithmetic::mul::lemma_mul_increases(da, p6);
}

/// The entry at the position of `(a, …, g)` in a table.
fn table_at(t: &Vec<i128>, a: usize, b: usize, c: usize, d: usize, e: usize, f: usize, g: usize, dim: usize) -> (r: i128)
    requires
        digits_below(a as int, b as int, c as int, d as int, e as int, f as int, g as int, dim as int),
        pow(dim as int, 7) <= usize::MAX,
        flat_index(a as int, b as int, c as int, d as int, e as int, f as int, g as int, dim as int) < t@.len(),
    ensures
        r == t@[flat_index(a as int, b as int, c as int, d as int, e as int, f as int, g as int, dim as int)],
{
    proof {
        lemma_flat_in_range(a as int, b as int, c as int, d as int, e as int, f as int, g as int, dim as int);
    }
    t[t_ind(a, b, c, d, e, f, g, dim)]
}

/// The `a` coefficient (`is_a`) or the `b` coefficient of an index tuple.
pub open spec fn table_coef(is_a: bool, k: int, i1: int, i2: int, i3: int, i4: int, i5: int, i6: int) -> int {
    if is_a {
        a_coef(k, i1, i2, i3, i4, i5, i6)
    } else {
        b_coef(k, i1, i2, i3, i4, i5, i6)
    }
}

/// Whether `t` holds, at every position before its end, the coefficient of
/// the index tuple at that position.
#[verifier::opaque]
pub open spec fn prefix_ok(t: Seq<i128>, dim: int, is_a: bool) -> bool {
    forall|k: int, i1: int, i2: int, i3: int, i4: int, i5: int, i6: int|
        #![trigger flat_index(k, i1, i2, i3, i4, i5, i6, dim)]
        digits_below(k, i1, i2, i3, i4, i5, i6, dim) && flat_index(k, i1, i2, i3, i4, i5, i6, dim) < t.len()
            ==> t[flat_index(k, i1, i2, i3, i4, i5, i6, dim)] == table_coef(is_a, k, i1, i2, i3, i4, i5, i6)
}

/// Reading a filled position of a correctly filled prefix.
proof fn lemma_prefix_read(t: Seq<i128>, dim: int, is_a: bool, k: int, i1: int, i2: int, i3: int, i4: int, i5: int, i6: int)
    requires
        prefix_ok(t, dim, is_a),
        digits_below(k, i1, i2, i3, i4, i5, i6, dim),
        flat_index(k, i1, i2, i3, i4, i5, i6, dim) < t.len(),
    ensures
        t[flat_index(k, i1, i2, i3, i4, i5, i6, dim)] == table_coef(is_a, k, i1, i2, i3, i4, i5, i6),
{
    reveal(prefix_ok);
}

/// Appending the right coefficient extends a correctly filled prefix.
proof fn lemma_prefix_push(t: Seq<i128>, v: i128, dim: int, is_a: bool, k: int, i1: int, i2: int, i3: int, i4: int, i5: int, i6: int)
    requires
        prefix_ok(t, dim, is_a),
        digits_below(k, i1, i2, i3, i4, i5, i6, dim),
        t.len() == flat_index(k, i1, i2, i3, i4, i5, i6, dim),
        v == table_coef(is_a, k, i1, i2, i3, i4, i5, i6),
    ensures
        prefix_ok(t.push(v), dim, is_a),
{
    reveal(prefix_ok);
    let t2 = t.push(v);
    assert forall|x0: int, x1: int, x2: int, x3: int, x4: int, x5: int, x6: int|
        #![trigger flat_index(x0, x1, x2, x3, x4, x5, x6, dim)]
        digits_below(x0, x1, x2, x3, x4, x5, x6, dim) && flat_index(x0, x1, x2, x3, x4, x5, x6, dim) < t2.len()
        implies t2[flat_index(x0, x1, x2, x3, x4, x5, x6, dim)] == table_coef(is_a, x0, x1, x2, x3, x4, x5, x6) by {
        lemma_flat_in_range(x0, x1, x2, x3, x4, x5, x6, dim);
        if flat_index(x0, x1, x2, x3, x4, x5, x6, dim) == t.len() {
            lemma_flat_injective(x0, x1, x2, x3, x4, x5, x6, k, i1, i2, i3, i4, i5, i6, dim);
        }
    }
}

/// The `a` coefficient at the position right after the part of the table
/// already filled.
#[verifier::rlimit(60)]
fn a_entry(t: &Vec<i128>, k: usize, i1: usize, i2: usize, i3: usize, i4: usize, i5: usize, i6: usize, dim: usize) -> (v: i128)
    requires
        1 <= dim <= 36,
        pow(dim as int, 7) <= usize::MAX,
        digits_below(k as int, i1 as int, i2 as int, i3 as int, i4 as int, i5 as int, i6 as int, dim as int),
        t@.len() == flat_index(k as int, i1 as int, i2 as int, i3 as int, i4 as int, i5 as int, i6 as int, dim as int),
        prefix_ok(t@, dim as int, true),
    ensures
        v == a_coef(k as int, i1 as int, i2 as int, i3 as int, i4 as int, i5 as int, i6 as int),
{
    let ghost (kk, j1, j2, j3, j4, j5, j6) = (k as int, i1 as int, i2 as int, i3 as int, i4 as int, i5 as int, i6 as int);
    proof {
        lemma_flat_in_range(kk, j1, j2, j3, j4, j5, j6, dim as int);
    }
    if i1 + i2 + i3 + i4 + i5 + i6 != k {
        return 0;
    }
    if k == 0 {
        return 1;
    }
    proof {
        lemma_i128_room(k as nat);
        assert(pow(6, k as nat) == 6 * pow(6, (k - 1) as nat)) by { reveal_with_fuel(pow, 1); }
        lemma_a_coef_bound(kk - 1, j1 - 1, j2, j3, j4, j5, j6);
        lemma_a_coef_bound(kk - 1, j1, j2 - 1, j3, j4, j5, j6);
        lemma_a_coef_bound(kk - 1, j1, j2, j3 - 1, j4, j5, j6);
        lemma_a_coef_bound(kk - 1, j1, j2, j3, j4 - 1, j5, j6);
        lemma_a_coef_bound(kk - 1, j1, j2, j3, j4, j5 - 1, j6);
        lemma_a_coef_bound(kk - 1, j1, j2, j3, j4, j5, j6 - 1);
    }
    let mut acc: i128 = 0;
    if i1 > 0 {
        proof {
            lemma_flat_pred(kk, j1, j2, j3, j4, j5, j6, 1, 1, 0, 0, 0, 0, 0, dim as int);
            lemma_prefix_read(t@, dim as int, true, kk - 1, j1 - 1, j2, j3, j4, j5, j6);
        }
        acc = acc + table_at(t, k - 1, i1 - 1, i2, i3, i4, i5, i6, dim);
    }
    if i2 > 0 {
        proof {
            lemma_flat_pred(kk, j1, j2, j3, j4, j5, j6, 1, 0, 1, 0, 0, 0, 0, dim as int);
            lemma_prefix_read(t@, dim as int, true, kk - 1, j1, j2 - 1, j3, j4, j5, j6);
        }
        acc = acc + table_at(t, k - 1, i1, i2 - 1, i3, i4, i5, i6, dim);
    }
    if i3 > 0 {
        proof {
            lemma_flat_pred(kk, j1, j2, j3, j4, j5, j6, 1, 0, 0, 1, 0, 0, 0, dim as int);
            lemma_prefix_read(t@, dim as int, true, kk - 1, j1, j2, j3 - 1, j4, j5, j6);
        }
        acc = acc + table_at(t, k - 1, i1, i2, i3 - 1, i4, i5, i6, dim);
    }
    if i4 > 0 {
        proof {
            lemma_flat_pred(kk, j1, j2, j3, j4, j5, j6, 1, 0, 0, 0, 1, 0, 0, dim as int);
            lemma_prefix_read(t@, dim as int, true, kk - 1, j1, j2, j3, j4 - 1, j5, j6);
        }
        acc = acc - table_at(t, k - 1, i1, i2, i3, i4 - 1, i5, i6, dim);
    }
    if i5 > 0 {
        proof {
            lemma_flat_pred(kk, j1, j2, j3, j4, j5, j6, 1, 0, 0, 0, 0, 1, 0, dim as int);
            lemma_prefix_read(t@, dim as int, true, kk - 1, j1, j2, j3, j4, j5 - 1, j6);
        }
        acc = acc - table_at(t, k - 1, i1, i2, i3, i4, i5 - 1, i6, dim);
    }
    if i6 > 0 {
        proof {
            lemma_flat_pred(kk, j1, j2, j3, j4, j5, j6, 1, 0, 0, 0, 0, 0, 1, dim as int);
            lemma_prefix_read(t@, dim as int, true, kk - 1, j1, j2, j3, j4, j5, j6 - 1);
        }
        acc = acc - table_at(t, k - 1, i1, i2, i3, i4, i5, i6 - 1, dim);
    }
    acc
}

/// The sum of the three order-`k − 2` `b` coefficients reached by lowering
/// one of the index pairs `(j1, j4)`, `(j2, j5)`, `(j3, j6)`.
#[verifier::rlimit(40)]
fn b_pair_sum(t: &Vec<i128>, k: usize, j1: usize, j2: usize, j3: usize, j4: usize, j5: usize, j6: usize, dim: usize) -> (r: i128)
    requires
        1 <= dim <= 36,
        pow(dim as int, 7) <= usize::MAX,
        digits_below(k as int, j1 as int, j2 as int, j3 as int, j4 as int, j5 as int, j6 as int, dim as int),
        t@.len() == flat_index(k as int, j1 as int, j2 as int, j3 as int, j4 as int, j5 as int, j6 as int, dim as int),
        prefix_ok(t@, dim as int, false),
        k >= 2,
        j1 + j2 + j3 + j4 + j5 + j6 == k,
    ensures
        r == b_coef(k - 2, j1 - 1, j2 as int, j3 as int, j4 - 1, j5 as int, j6 as int)
            + b_coef(k - 2, j1 as int, j2 - 1, j3 as int, j4 as int, j5 - 1, j6 as int)
            + b_coef(k - 2, j1 as int, j2 as int, j3 - 1, j4 as int, j5 as int, j6 - 1),
        -3 * pow(12, (k - 2) as nat) <= r <= 3 * pow(12, (k - 2) as nat),
{
    let ghost (kk, x1, x2, x3, x4, x5, x6) = (k as int, j1 as int, j2 as int, j3 as int, j4 as int, j5 as int, j6 as int);
    proof {
        lemma_b_coef_bound(kk - 2, x1 - 1, x2, x3, x4 - 1, x5, x6);
        lemma_b_coef_bound(kk - 2, x1, x2 - 1, x3, x4, x5 - 1, x6);
        lemma_b_coef_bound(kk - 2, x1, x2, x3 - 1, x4, x5, x6 - 1);
        lemma_i128_room(k as nat);
        vstd::arithmetic::power::lemma_pow_positive(12, (k - 2) as nat);
        assert(pow(12, k as nat) == 144 * pow(12, (k - 2) as nat)) by { reveal_with_fuel(pow, 2); }
    }
    let mut pairs: i128 = 0;
    if j1 > 0 && j4 > 0 {
        proof {
            lemma_flat_pred(kk, x1, x2, x3, x4, x5, x6, 2, 1, 0, 0, 1, 0, 0, dim as int);
            lemma_prefix_read(t@, dim as int, false, kk - 2, x1 - 1, x2, x3, x4 - 1, x5, x6);
        }
        pairs = pairs + table_at(t, k - 2, j1 - 1, j2, j3, j4 - 1, j5, j6, dim);
    }
    if j2 > 0 && j5 > 0 {
        proof {
            lemma_flat_pred(kk, x1, x2, x3, x4, x5, x6, 2, 0, 1, 0, 0, 1, 0, dim as int);
            lemma_prefix_read(t@, dim as int, false, kk - 2, x1, x2 - 1, x3, x4, x5 - 1, x6);
        }
        pairs = pairs + table_at(t, k - 2, j1, j2 - 1, j3, j4, j5 - 1, j6, dim);
    }
    if j3 > 0 && j6 > 0 {
        proof {
            lemma_flat_pred(kk, x1, x2, x3, x4, x5, x6, 2, 0, 0, 1, 0, 0, 1, dim as int);
            lemma_prefix_read(t@, dim as int, false, kk - 2, x1, x2, x3 - 1, x4, x5, x6 - 1);
        }
        pairs = pairs + table_at(t, k - 2, j1, j2, j3 - 1, j4, j5, j6 - 1, dim);
    }
    pairs
}

/// The sum of the six order-`k − 2` `b` coefficients reached by lowering a
/// single index by two.
#[verifier::rlimit(60)]
fn b_single_sum(t: &Vec<i128>, k: usize, j1: usize, j2: usize, j3: usize, j4: usize, j5: usize, j6: usize, dim: usize) -> (r: i128)
    requires
        1 <= dim <= 36,
        pow(dim as int, 7) <= usize::MAX,
        digits_below(k as int, j1 as int, j2 as int, j3 as int, j4 as int, j5 as int, j6 as int, dim as int),
        t@.len() == flat_index(k as int, j1 as int, j2 as int, j3 as int, j4 as int, j5 as int, j6 as int, dim as int),
        prefix_ok(t@, dim as int, false),
        k >= 2,
        j1 + j2 + j3 + j4 + j5 + j6 == k,
    ensures
        r == b_coef(k - 2, j1 - 2, j2 as int, j3 as int, j4 as int, j5 as int, j6 as int)
            + b_coef(k - 2, j1 as int, j2 - 2, j3 as int, j4 as int, j5 as int, j6 as int)
            + b_coef(k - 2, j1 as int, j2 as int, j3 - 2, j4 as int, j5 as int, j6 as int)
            + b_coef(k - 2, j1 as int, j2 as int, j3 as int, j4 - 2, j5 as int, j6 as int)
            + b_coef(k - 2, j1 as int, j2 as int, j3 as int, j4 as int, j5 - 2, j6 as int)
            + b_coef(k - 2, j1 as int, j2 as int, j3 as int, j4 as int, j5 as int, j6 - 2),
        -6 * pow(12, (k - 2) as nat) <= r <= 6 * pow(12, (k - 2) as nat),
{
    let ghost (kk, x1, x2, x3, x4, x5, x6) = (k as int, j1 as int, j2 as int, j3 as int, j4 as int, j5 as int, j6 as int);
    proof {
        lemma_b_coef_bound(kk - 2, x1 - 2, x2, x3, x4, x5, x6);
        lemma_b_coef_bound(kk - 2, x1, x2 - 2, x3, x4, x5, x6);
        lemma_b_coef_bound(kk - 2, x1, x2, x3 - 2, x4, x5, x6);
        lemma_b_coef_bound(kk - 2, x1, x2, x3, x4 - 2, x5, x6);
        lemma_b_coef_bound(kk - 2, x1, x2, x3, x4, x5 - 2, x6);
        lemma_b_coef_bound(kk - 2, x1, x2, x3, x4, x5, x6 - 2);
        lemma_i128_room(k as nat);
        vstd::arithmetic::power::lemma_pow_positive(12, (k - 2) as nat);
        assert(pow(12, k as nat) == 144 * pow(12, (k - 2) as nat)) by { reveal_with_fuel(pow, 2); }
    }
    let mut acc: i128 = 0;
    if j1 > 1 {
        proof {
            lemma_flat_pred(kk, x1, x2, x3, x4, x5, x6, 2, 2, 0, 0, 0, 0, 0, dim as int);
            lemma_prefix_read(t@, dim as int, false, kk - 2, x1 - 2, x2, x3, x4, x5, x6);
        }
        acc = acc + table_at(t, k - 2, j1 - 2, j2, j3, j4, j5, j6, dim);
    }
    if j2 > 1 {
        proof {
            lemma_flat_pred(kk, x1, x2, x3, x4, x5, x6, 2, 0, 2, 0, 0, 0, 0, dim as int);
            lemma_prefix_read(t@, dim as int, false, kk - 2, x1, x2 - 2, x3, x4, x5, x6);
        }
        acc = acc + table_at(t, k - 2, j1, j2 - 2, j3, j4, j5, j6, dim);
    }
    if j3 > 1 {
        proof {
            lemma_flat_pred(kk, x1, x2, x3, x4, x5, x6, 2, 0, 0, 2, 0, 0, 0, dim as int);
            lemma_prefix_read(t@, dim as int, false, kk - 2, x1, x2, x3 - 2, x4, x5, x6);
        }
        acc = acc + table_at(t, k - 2, j1, j2, j3 - 2, j4, j5, j6, dim);
    }
    if j4 > 1 {
        proof {
            lemma_flat_pred(kk, x1, x2, x3, x4, x5, x6, 2, 0, 0, 0, 2, 0, 0, dim as int);
            lemma_prefix_read(t@, dim as int, false, kk - 2, x1, x2, x3, x4 - 2, x5, x6);
        }
        acc = acc + table_at(t, k - 2, j1, j2, j3, j4 - 2, j5, j6, dim);
    }
    if j5 > 1 {
        proof {
            lemma_flat_pred(kk, x1, x2, x3, x4, x5, x6, 2, 0, 0, 0, 0, 2, 0, dim as int);
            lemma_prefix_read(t@, dim as int, false, kk - 2, x1, x2, x3, x4, x5 - 2, x6);
        }
        acc = acc + table_at(t, k - 2, j1, j2, j3, j4, j5 - 2, j6, dim);
    }
    if j6 > 1 {
        proof {
            lemma_flat_pred(kk, x1, x2, x3, x4, x5, x6, 2, 0, 0, 0, 0, 0, 2, dim as int);
            lemma_prefix_read(t@, dim as int, false, kk - 2, x1, x2, x3, x4, x5, x6 - 2);
        }
        acc = acc + table_at(t, k - 2, j1, j2, j3, j4, j5, j6 - 2, dim);
    }
    acc
}

/// The `b` coefficient at the position right after the part of the table
/// already filled.
fn b_entry(t: &Vec<i128>, k: usize, j1: usize, j2: usize, j3: usize, j4: usize, j5: usize, j6: usize, dim: usize) -> (v: i128)
    requires
        1 <= dim <= 36,
        pow(dim as int, 7) <= usize::MAX,
        digits_below(k as int, j1 as int, j2 as int, j3 as int, j4 as int, j5 as int, j6 as int, dim as int),
        t@.len() == flat_index(k as int, j1 as int, j2 as int, j3 as int, j4 as int, j5 as int, j6 as int, dim as int),
        prefix_ok(t@, dim as int, false),
    ensures
        v == b_coef(k as int, j1 as int, j2 as int, j3 as int, j4 as int, j5 as int, j6 as int),
{
    if j1 + j2 + j3 + j4 + j5 + j6 != k {
        return 0;
    }
    if k == 0 {
        return 1;
    }
    if k == 1 {
        return 0;
    }
    proof {
        lemma_i128_room(k as nat);
        vstd::arithmetic::power::lemma_pow_positive(12, (k - 2) as nat);
        assert(pow(12, k as nat) == 144 * pow(12, (k - 2) as nat)) by { reveal_with_fuel(pow, 2); }
    }
    let pairs = b_pair_sum(t, k, j1, j2, j3, j4, j5, j6, dim);
    let singles = b_single_sum(t, k, j1, j2, j3, j4, j5, j6, dim);
    -2 * pairs + singles
}

/// Fill a coefficient table of truncation order `n` position by position:
/// the `a` table when `is_a`, the `b` table otherwise.
fn fill_table(n: usize, is_a: bool) -> (t: Vec<i128>)
    requires
        coeff_tables_fit(n as int),
    ensures
        t@.len() == pow(n + 1, 7),
        forall|k: int, i1: int, i2: int, i3: int, i4: int, i5: int, i6: int|
            #![trigger flat_index(k, i1, i2, i3, i4, i5, i6, n + 1)]
            digits_below(k, i1, i2, i3, i4, i5, i6, n + 1)
                ==> t@[flat_index(k, i1, i2, i3, i4, i5, i6, n + 1)] == table_coef(is_a, k, i1, i2, i3, i4, i5, i6),
{
    let len = coeff_vec_len(n);
    let dim = n + 1;
    let mut t: Vec<i128> = Vec::new();
    let mut p: usize = 0;
    proof {
        reveal(prefix_ok);
        assert forall|k: int, i1: int, i2: int, i3: int, i4: int, i5: int, i6: int|
            #![trigger flat_index(k, i1, i2, i3, i4, i5, i6, dim as int)]
            digits_below(k, i1, i2, i3, i4, i5, i6, dim as int)
            implies flat_index(k, i1, i2, i3, i4, i5, i6, dim as int) >= 0 by {
            lemma_flat_in_range(k, i1, i2, i3, i4, i5, i6, dim as int);
        }
    }
    while p < len
        invariant
            dim == n + 1,
            n <= 35,
            len == pow(dim as int, 7),
            len <= usize::MAX,
            p <= len,
            t@.len() == p,
            prefix_ok(t@, dim as int, is_a),
        decreases len - p,
    {
        let (k, i1, i2, i3, i4, i5, i6) = decode_index(p, dim);
        let v = if is_a {
            a_entry(&t, k, i1, i2, i3, i4, i5, i6, dim)
        } else {
            b_entry(&t, k, i1, i2, i3, i4, i5, i6, dim)
        };
        proof {
            lemma_prefix_push(t@, v, dim as int, is_a, k as int, i1 as int, i2 as int, i3 as int, i4 as int, i5 as int, i6 as int);
        }
        t.push(v);
        p = p + 1;
    }
    proof {
        assert forall|k: int, i1: int, i2: int, i3: int, i4: int, i5: int, i6: int|
            #![trigger flat_index(k, i1, i2, i3, i4, i5, i6, n + 1)]
            digits_below(k, i1, i2, i3, i4, i5, i6, n + 1)
            implies t@[flat_index(k, i1, i2, i3, i4, i5, i6, n + 1)] == table_coef(is_a, k, i1, i2, i3, i4, i5, i6) by {
            lemma_flat_in_range(k, i1, i2, i3, i4, i5, i6, n + 1);
            lemma_prefix_read(t@, dim as int, is_a, k, i1, i2, i3, i4, i5, i6);
        }
    }
    t
}

/// Compute the `a` expansion coefficients for truncation order `n`.
///
/// The 7-D coefficient array is stored in a flat table indexed by `t_ind`
/// with `dim = n + 1`: the entry of `(k, i1, …, i6)` is `a(k; i1, …, i6)`,
/// the signed multinomial `(−1)^(i4+i5+i6) · k! / (i1!…i6!)` where the indices
/// sum to `k`, and 0 elsewhere.
pub fn a_calc(n: usize) -> (a: Vec<i128>)
    requires
        coeff_tables_fit(n as int),
    ensures
        a@.len() == pow(n + 1, 7),
        forall|k: int, i1: int, i2: int, i3: int, i4: int, i5: int, i6: int|
            #![trigger flat_index(k, i1, i2, i3, i4, i5, i6, n + 1)]
            digits_below(k, i1, i2, i3, i4, i5, i6, n + 1)
                ==> a@[flat_index(k, i1, i2, i3, i4, i5, i6, n + 1)] == a_coef(k, i1, i2, i3, i4, i5, i6),
        forall|k: int, i1: int, i2: int, i3: int, i4: int, i5: int, i6: int|
            #![trigger flat_index(k, i1, i2, i3, i4, i5, i6, n + 1)]
            digits_below(k, i1, i2, i3, i4, i5, i6, n + 1) && i1 + i2 + i3 + i4 + i5 + i6 == k
                ==> a@[flat_index(k, i1, i2, i3, i4, i5, i6, n + 1)] * fact6(i1, i2, i3, i4, i5, i6)
                    == sign_of(i4 + i5 + i6) * fact(k),
        forall|k: int, i1: int, i2: int, i3: int, i4: int, i5: int, i6: int|
            #![trigger flat_index(k, i1, i2, i3, i4, i5, i6, n + 1)]
            digits_below(k, i1, i2, i3, i4, i5, i6, n + 1) && i1 + i2 + i3 + i4 + i5 + i6 != k
                ==> a@[flat_index(k, i1, i2, i3, i4, i5, i6, n + 1)] == 0,
{
    let a = fill_table(n, true);
    assert forall|k: int, i1: int, i2: int, i3: int, i4: int, i5: int, i6: int|
        #![trigger flat_index(k, i1, i2, i3, i4, i5, i6, n + 1)]
        digits_below(k, i1, i2, i3, i4, i5, i6, n + 1) && i1 + i2 + i3 + i4 + i5 + i6 == k
            implies a@[flat_index(k, i1, i2, i3, i4, i5, i6, n + 1)] * fact6(i1, i2, i3, i4, i5, i6)
                == sign_of(i4 + i5 + i6) * fact(k) by {
        lemma_a_coef_multinomial(k, i1, i2, i3, i4, i5, i6);
    }
    a
}

/// Compute the `b` expansion coefficients for truncation order `n`.
///
/// Stored like the `a` table: the entry of `(k, j1, …, j6)` is
/// `b(k; j1, …, j6)`: the coefficient of `y^j` in
/// `((y1 − y4)² + (y2 − y5)² + (y3 − y6)²)^(k/2)` where the indices sum to `k`
/// and every pair sum `j_p + j_{p+3}` is even, and 0 elsewhere.
pub fn b_calc(n: usize) -> (b: Vec<i128>)
    requires
        coeff_tables_fit(n as int),
    ensures
        b@.len() == pow(n + 1, 7),
        forall|k: int, j1: int, j2: int, j3: int, j4: int, j5: int, j6: int|
            #![trigger flat_index(k, j1, j2, j3, j4, j5, j6, n + 1)]
            digits_below(k, j1, j2, j3, j4, j5, j6, n + 1)
                ==> b@[flat_index(k, j1, j2, j3, j4, j5, j6, n + 1)] == b_coef(k, j1, j2, j3, j4, j5, j6),
        forall|k: int, j1: int, j2: int, j3: int, j4: int, j5: int, j6: int|
            #![trigger flat_index(k, j1, j2, j3, j4, j5, j6, n + 1)]
            digits_below(k, j1, j2, j3, j4, j5, j6, n + 1) && j1 + j2 + j3 + j4 + j5 + j6 == k
                && (j1 + j4) % 2 == 0 && (j2 + j5) % 2 == 0 && (j3 + j6) % 2 == 0
                ==> b@[flat_index(k, j1, j2, j3, j4, j5, j6, n + 1)] * b_weight(j1, j2, j3, j4, j5, j6)
                    == b_numerator(j1, j2, j3, j4, j5, j6),
        forall|k: int, j1: int, j2: int, j3: int, j4: int, j5: int, j6: int|
            #![trigger flat_index(k, j1, j2, j3, j4, j5, j6, n + 1)]
            digits_below(k, j1, j2, j3, j4, j5, j6, n + 1) && (j1 + j2 + j3 + j4 + j5 + j6 != k
                || (j1 + j4) % 2 != 0 || (j2 + j5) % 2 != 0 || (j3 + j6) % 2 != 0)
                ==> b@[flat_index(k, j1, j2, j3, j4, j5, j6, n + 1)] == 0,
{
    let b = fill_table(n, false);
    assert forall|k: int, j1: int, j2: int, j3: int, j4: int, j5: int, j6: int|
        #![trigger flat_index(k, j1, j2, j3, j4, j5, j6, n + 1)]
        digits_below(k, j1, j2, j3, j4, j5, j6, n + 1) && j1 + j2 + j3 + j4 + j5 + j6 == k
            && (j1 + j4) % 2 == 0 && (j2 + j5) % 2 == 0 && (j3 + j6) % 2 == 0
            implies b@[flat_index(k, j1, j2, j3, j4, j5, j6, n + 1)] * b_weight(j1, j2, j3, j4, j5, j6)
                == b_numerator(j1, j2, j3, j4, j5, j6) by {
        lemma_b_coef_multinomial(k, j1, j2, j3, j4, j5, j6);
    }
    assert forall|k: int, j1: int, j2: int, j3: int, j4: int, j5: int, j6: int|
        #![trigger flat_index(k, j1, j2, j3, j4, j5, j6, n + 1)]
        digits_below(k, j1, j2, j3, j4, j5, j6, n + 1) && (j1 + j2 + j3 + j4 + j5 + j6 != k
            || (j1 + j4) % 2 != 0 || (j2 + j5) % 2 != 0 || (j3 + j6) % 2 != 0)
            implies b@[flat_index(k, j1, j2, j3, j4, j5, j6, n + 1)] == 0 by {
        if j1 + j2 + j3 + j4 + j5 + j6 == k {
            lemma_b_coef_odd_pair_zero(k, j1, j2, j3, j4, j5, j6);
        }
    }
    b
}

} // verus!
