//! Closed forms of the `a` / `b` expansion coefficients: what the
//! recursions of `coefficients` compute, stated without them.

use vstd::prelude::*;
use crate::coefficients::{a_coef, b_coef};

verus! {

/// `n!` (and 1 for `n ≤ 0`).
pub open spec fn fact(n: int) -> int
    decreases n,
{
    if n <= 0 {
        1
    } else {
        n * fact(n - 1)
    }
}

proof fn lemma_fact_pos(n: int)
    ensures
        fact(n) >= 1,
    decreases n,
{
    if n > 0 {
        lemma_fact_pos(n - 1);
        assert(n * fact(n - 1) >= 1) by (nonlinear_arith) requires n >= 1, fact(n - 1) >= 1;
    }
}

/// `(−1)^e`.
pub open spec fn sign_of(e: int) -> int {
    if e % 2 == 0 { 1 } else { -1 }
}

/// `i1! · i2! · … · i6!`.
pub open spec fn fact6(i1: int, i2: int, i3: int, i4: int, i5: int, i6: int) -> int {
    fact(i1) * fact(i2) * fact(i3) * fact(i4) * fact(i5) * fact(i6)
}

proof fn lemma_fact6_pos(i1: int, i2: int, i3: int, i4: int, i5: int, i6: int)
    ensures
        fact6(i1, i2, i3, i4, i5, i6) >= 1,
{
    lemma_fact_pos(i1);
    lemma_fact_pos(i2);
    lemma_fact_pos(i3);
    lemma_fact_pos(i4);
    lemma_fact_pos(i5);
    lemma_fact_pos(i6);
    let (f1, f2, f3, f4, f5, f6) = (fact(i1), fact(i2), fact(i3), fact(i4), fact(i5), fact(i6));
    assert(f1 * f2 * f3 * f4 * f5 * f6 >= 1) by (nonlinear_arith)
        requires f1 >= 1, f2 >= 1, f3 >= 1, f4 >= 1, f5 >= 1, f6 >= 1;
}

/// `f1·…·f6` with the factor at position `m` written as `x·g`
/// equals `x` times the product with `g` in that place.
proof fn lemma_prod6_lower(f1: int, f2: int, f3: int, f4: int, f5: int, f6: int, m: int, x: int, g: int)
    requires
        1 <= m <= 6,
        m == 1 ==> f1 == x * g,
        m == 2 ==> f2 == x * g,
        m == 3 ==> f3 == x * g,
        m == 4 ==> f4 == x * g,
        m == 5 ==> f5 == x * g,
        m == 6 ==> f6 == x * g,
    ensures
        f1 * f2 * f3 * f4 * f5 * f6 == x * ((if m == 1 { g } else { f1 }) * (if m == 2 { g } else { f2 })
            * (if m == 3 { g } else { f3 }) * (if m == 4 { g } else { f4 }) * (if m == 5 { g } else { f5 })
            * (if m == 6 { g } else { f6 })),
{
    if m == 1 {
        assert(f1 * f2 * f3 * f4 * f5 * f6 == x * (g * f2 * f3 * f4 * f5 * f6)) by (nonlinear_arith)
            requires f1 == x * g;
    } else if m == 2 {
        assert(f1 * f2 * f3 * f4 * f5 * f6 == x * (f1 * g * f3 * f4 * f5 * f6)) by (nonlinear_arith)
            requires f2 == x * g;
    } else if m == 3 {
        assert(f1 * f2 * f3 * f4 * f5 * f6 == x * (f1 * f2 * g * f4 * f5 * f6)) by (nonlinear_arith)
            requires f3 == x * g;
    } else if m == 4 {
        assert(f1 * f2 * f3 * f4 * f5 * f6 == x * (f1 * f2 * f3 * g * f5 * f6)) by (nonlinear_arith)
            requires f4 == x * g;
    } else if m == 5 {
        assert(f1 * f2 * f3 * f4 * f5 * f6 == x * (f1 * f2 * f3 * f4 * g * f6)) by (nonlinear_arith)
            requires f5 == x * g;
    } else {
        assert(f1 * f2 * f3 * f4 * f5 * f6 == x * (f1 * f2 * f3 * f4 * f5 * g)) by (nonlinear_arith)
            requires f6 == x * g;
    }
}

/// `e` lowered by one at position `m` (1-based), else unchanged.
pub open spec fn lowered(e: int, pos: int, m: int) -> int {
    if pos == m { e - 1 } else { e }
}

/// One term of the `a` recursion, scaled by `i1!…i6!`: the term that lowers
/// index `m` contributes `i_m · (±1) · (k−1)!`, with `+` for `m ≤ 3`.
proof fn lemma_a_term(k: int, i1: int, i2: int, i3: int, i4: int, i5: int, i6: int, m: int)
    requires
        k >= 1,
        1 <= m <= 6,
        i1 >= 0, i2 >= 0, i3 >= 0, i4 >= 0, i5 >= 0, i6 >= 0,
        i1 + i2 + i3 + i4 + i5 + i6 == k,
        ({
            let (l1, l2, l3, l4, l5, l6) = (lowered(i1, 1, m), lowered(i2, 2, m), lowered(i3, 3, m),
                lowered(i4, 4, m), lowered(i5, 5, m), lowered(i6, 6, m));
            l1 >= 0 && l2 >= 0 && l3 >= 0 && l4 >= 0 && l5 >= 0 && l6 >= 0 ==>
                a_coef(k - 1, l1, l2, l3, l4, l5, l6) * fact6(l1, l2, l3, l4, l5, l6)
                    == sign_of(l4 + l5 + l6) * fact(k - 1)
        }),
    ensures
        a_coef(k - 1, lowered(i1, 1, m), lowered(i2, 2, m), lowered(i3, 3, m), lowered(i4, 4, m),
            lowered(i5, 5, m), lowered(i6, 6, m)) * fact6(i1, i2, i3, i4, i5, i6)
            == ({
                let x = if m == 1 { i1 } else if m == 2 { i2 } else if m == 3 { i3 } else if m == 4 { i4 }
                    else if m == 5 { i5 } else { i6 };
                let u = sign_of(i4 + i5 + i6) * fact(k - 1);
                if m <= 3 { x * u } else { -(x * u) }
            }),
{
    let (l1, l2, l3, l4, l5, l6) = (lowered(i1, 1, m), lowered(i2, 2, m), lowered(i3, 3, m),
        lowered(i4, 4, m), lowered(i5, 5, m), lowered(i6, 6, m));
    let x = if m == 1 { i1 } else if m == 2 { i2 } else if m == 3 { i3 } else if m == 4 { i4 }
        else if m == 5 { i5 } else { i6 };
    let s = if m <= 3 { sign_of(i4 + i5 + i6) } else { -sign_of(i4 + i5 + i6) };
    let c = fact(k - 1);
    let u = sign_of(i4 + i5 + i6) * c;
    assert(x * s * c == (if m <= 3 { x * u } else { -(x * u) })) by (nonlinear_arith)
        requires u == sign_of(i4 + i5 + i6) * c, s == (if m <= 3 { sign_of(i4 + i5 + i6) } else { -sign_of(i4 + i5 + i6) });
    let t = a_coef(k - 1, l1, l2, l3, l4, l5, l6);
    let f = fact6(i1, i2, i3, i4, i5, i6);
    if x == 0 {
        assert(t == 0);
        assert(t * f == x * s * c) by (nonlinear_arith) requires t == 0, x == 0;
    } else {
        assert(sign_of(l4 + l5 + l6) == s);
        let g = fact(x - 1);
        assert(fact(x) == x * g);
        lemma_prod6_lower(fact(i1), fact(i2), fact(i3), fact(i4), fact(i5), fact(i6), m, x, g);
        let fl = fact6(l1, l2, l3, l4, l5, l6);
        assert(f == x * fl);
        assert(t * f == x * s * c) by (nonlinear_arith) requires f == x * fl, t * fl == s * c;
    }
}

/// The `a` coefficients are signed multinomial coefficients: for indices
/// `i ≥ 0` summing to `k`, `a(k; i) · i1!…i6! = (−1)^(i4+i5+i6) · k!`, the
/// coefficient of `x^i` in `(x1 + x2 + x3 − x4 − x5 − x6)^k`.
pub proof fn lemma_a_coef_multinomial(k: int, i1: int, i2: int, i3: int, i4: int, i5: int, i6: int)
    requires
        i1 >= 0, i2 >= 0, i3 >= 0, i4 >= 0, i5 >= 0, i6 >= 0,
        i1 + i2 + i3 + i4 + i5 + i6 == k,
    ensures
        a_coef(k, i1, i2, i3, i4, i5, i6) * fact6(i1, i2, i3, i4, i5, i6) == sign_of(i4 + i5 + i6) * fact(k),
    decreases k,
{
    if k == 0 {
        assert(fact6(0, 0, 0, 0, 0, 0) == 1) by { reveal_with_fuel(fact, 1); }
    } else {
        if i1 >= 1 { lemma_a_coef_multinomial(k - 1, i1 - 1, i2, i3, i4, i5, i6); }
        if i2 >= 1 { lemma_a_coef_multinomial(k - 1, i1, i2 - 1, i3, i4, i5, i6); }
        if i3 >= 1 { lemma_a_coef_multinomial(k - 1, i1, i2, i3 - 1, i4, i5, i6); }
        if i4 >= 1 { lemma_a_coef_multinomial(k - 1, i1, i2, i3, i4 - 1, i5, i6); }
        if i5 >= 1 { lemma_a_coef_multinomial(k - 1, i1, i2, i3, i4, i5 - 1, i6); }
        if i6 >= 1 { lemma_a_coef_multinomial(k - 1, i1, i2, i3, i4, i5, i6 - 1); }
        lemma_a_term(k, i1, i2, i3, i4, i5, i6, 1);
        lemma_a_term(k, i1, i2, i3, i4, i5, i6, 2);
        lemma_a_term(k, i1, i2, i3, i4, i5, i6, 3);
        lemma_a_term(k, i1, i2, i3, i4, i5, i6, 4);
        lemma_a_term(k, i1, i2, i3, i4, i5, i6, 5);
        lemma_a_term(k, i1, i2, i3, i4, i5, i6, 6);
        let t1 = a_coef(k - 1, i1 - 1, i2, i3, i4, i5, i6);
        let t2 = a_coef(k - 1, i1, i2 - 1, i3, i4, i5, i6);
        let t3 = a_coef(k - 1, i1, i2, i3 - 1, i4, i5, i6);
        let t4 = a_coef(k - 1, i1, i2, i3, i4 - 1, i5, i6);
        let t5 = a_coef(k - 1, i1, i2, i3, i4, i5 - 1, i6);
        let t6 = a_coef(k - 1, i1, i2, i3, i4, i5, i6 - 1);
        let a = a_coef(k, i1, i2, i3, i4, i5, i6);
        let f = fact6(i1, i2, i3, i4, i5, i6);
        let s = sign_of(i4 + i5 + i6);
        let c = fact(k - 1);
        assert(a == t1 + t2 + t3 - t4 - t5 - t6);
        assert(fact(k) == k * c);
        let u = s * c;
        assert(a * f == t1 * f + t2 * f + t3 * f - t4 * f - t5 * f - t6 * f) by (nonlinear_arith)
            requires a == t1 + t2 + t3 - t4 - t5 - t6;
        assert(i1 * u + i2 * u + i3 * u + i4 * u + i5 * u + i6 * u == k * u) by (nonlinear_arith)
            requires i1 + i2 + i3 + i4 + i5 + i6 == k;
        assert(s * (k * c) == k * u) by (nonlinear_arith) requires u == s * c;
    }
}

/// The same law as a value: `a(k; i) = (−1)^(i4+i5+i6) · k! / (i1!…i6!)`.
pub proof fn lemma_a_coef_closed_form(k: int, i1: int, i2: int, i3: int, i4: int, i5: int, i6: int)
    requires
        i1 >= 0, i2 >= 0, i3 >= 0, i4 >= 0, i5 >= 0, i6 >= 0,
        i1 + i2 + i3 + i4 + i5 + i6 == k,
    ensures
        a_coef(k, i1, i2, i3, i4, i5, i6) == sign_of(i4 + i5 + i6) * fact(k) / fact6(i1, i2, i3, i4, i5, i6),
{
    lemma_a_coef_multinomial(k, i1, i2, i3, i4, i5, i6);
    lemma_fact6_pos(i1, i2, i3, i4, i5, i6);
    let f = fact6(i1, i2, i3, i4, i5, i6);
    let a = a_coef(k, i1, i2, i3, i4, i5, i6);
    vstd::arithmetic::div_mod::lemma_div_multiples_vanish(a, f);
    assert(f * a == a * f) by (nonlinear_arith);
}

/// `a! · c! · ((a + c)/2)!`: the weight of one index pair `(j_p, j_{p+3})`.
pub open spec fn pair_weight(a: int, c: int) -> int {
    fact(a) * fact(c) * fact((a + c) / 2)
}

/// `j1!…j6! · h1! h2! h3!`, with `h_p = (j_p + j_{p+3}) / 2`.
pub open spec fn b_weight(j1: int, j2: int, j3: int, j4: int, j5: int, j6: int) -> int {
    pair_weight(j1, j4) * pair_weight(j2, j5) * pair_weight(j3, j6)
}

/// `(−1)^(j4+j5+j6) · h! · (2h1)! (2h2)! (2h3)!`, with `h = (j1 + … + j6) / 2`.
pub open spec fn b_numerator(j1: int, j2: int, j3: int, j4: int, j5: int, j6: int) -> int {
    sign_of(j4 + j5 + j6) * fact((j1 + j2 + j3 + j4 + j5 + j6) / 2)
        * (fact(j1 + j4) * fact(j2 + j5) * fact(j3 + j6))
}

/// `e`, lowered by one for each of the positions `m1`, `m2` that is `pos`.
pub open spec fn lowered2(e: int, pos: int, m1: int, m2: int) -> int {
    e - (if pos == m1 { 1int } else { 0int }) - (if pos == m2 { 1int } else { 0int })
}

proof fn lemma_sign_shift(e: int)
    ensures
        sign_of(e - 1) == -sign_of(e),
        sign_of(e - 2) == sign_of(e),
{
}

/// The product of three, with `x` at position `p` and `o1`, `o2` in order elsewhere.
pub open spec fn put3(x: int, o1: int, o2: int, p: int) -> int {
    if p == 1 { x * o1 * o2 } else if p == 2 { o1 * x * o2 } else { o1 * o2 * x }
}

proof fn lemma_put3(x: int, o1: int, o2: int, p: int)
    ensures
        put3(x, o1, o2, p) == x * (o1 * o2),
{
    assert(x * o1 * o2 == x * (o1 * o2)) by (nonlinear_arith);
    assert(o1 * x * o2 == x * (o1 * o2)) by (nonlinear_arith);
    assert(o1 * o2 * x == x * (o1 * o2)) by (nonlinear_arith);
}

/// `fact(n) = n · fact(n − 1)` for `n ≥ 1`, and twice over for `n ≥ 2`.
proof fn lemma_fact_steps(n: int)
    ensures
        n >= 1 ==> fact(n) == n * fact(n - 1),
        n >= 2 ==> fact(n) == n * (n - 1) * fact(n - 2),
{
    if n >= 2 {
        assert(fact(n - 1) == (n - 1) * fact(n - 2));
        let g = fact(n - 2);
        assert(n * ((n - 1) * g) == n * (n - 1) * g) by (nonlinear_arith);
    }
}

/// The three terms of the `b` recursion that belong to one pair `(a, c)`, scaled
/// by the weight: `(−2·bp + ba + bc) · w = h_p · (s · f · (2h_p)! · V)`, given the
/// scaled values of the three lowered tuples.
#[verifier::spinoff_prover]
proof fn lemma_pair_step(a: int, c: int, u: int, v: int, s: int, f: int, bp: int, ba: int, bc: int)
    requires
        a >= 0, c >= 0,
        (a + c) % 2 == 0,
        a >= 1 && c >= 1 ==> bp * (pair_weight(a - 1, c - 1) * u) == -(s * f * (fact(a + c - 2) * v)),
        !(a >= 1 && c >= 1) ==> bp == 0,
        a >= 2 ==> ba * (pair_weight(a - 2, c) * u) == s * f * (fact(a + c - 2) * v),
        a < 2 ==> ba == 0,
        c >= 2 ==> bc * (pair_weight(a, c - 2) * u) == s * f * (fact(a + c - 2) * v),
        c < 2 ==> bc == 0,
    ensures
        (-2 * bp + ba + bc) * (pair_weight(a, c) * u) == ((a + c) / 2) * (s * f * (fact(a + c) * v)),
{
    let hh = (a + c) / 2;
    let w = pair_weight(a, c) * u;
    if hh == 0 {
        assert(a == 0 && c == 0);
        assert((-2 * bp + ba + bc) * w == 0) by (nonlinear_arith) requires bp == 0, ba == 0, bc == 0;
        assert(hh * (s * f * (fact(a + c) * v)) == 0) by (nonlinear_arith) requires hh == 0;
    } else {
        let z = s * f * (fact(a + c - 2) * v);
        lemma_fact_steps(hh);
        lemma_fact_steps(a);
        lemma_fact_steps(c);
        lemma_fact_steps(a + c);
        let fh1 = fact(hh - 1);
        // the pair term
        if a >= 1 && c >= 1 {
            let pw1 = pair_weight(a - 1, c - 1);
            assert((a - 1 + c - 1) / 2 == hh - 1);
            let (fa1, fc1) = (fact(a - 1), fact(c - 1));
            assert(pair_weight(a, c) == a * fa1 * (c * fc1) * (hh * fh1));
            assert(a * fa1 * (c * fc1) * (hh * fh1) == a * c * hh * (fa1 * fc1 * fh1)) by (nonlinear_arith);
            assert(bp * w == -(a * c * hh * z)) by (nonlinear_arith)
                requires w == pair_weight(a, c) * u, pair_weight(a, c) == a * c * hh * pw1, bp * (pw1 * u) == -z;
        } else {
            assert(bp * w == -(a * c * hh * z)) by (nonlinear_arith) requires bp == 0, a == 0 || c == 0;
        }
        // the term that lowers `a` by two
        if a >= 2 {
            let pw2 = pair_weight(a - 2, c);
            assert((a - 2 + c) / 2 == hh - 1);
            let fa2 = fact(a - 2);
            assert(pair_weight(a, c) == a * (a - 1) * hh * pw2) by (nonlinear_arith)
                requires pair_weight(a, c) == fact(a) * fact(c) * fact(hh), fact(a) == a * (a - 1) * fa2,
                    fact(hh) == hh * fh1, pw2 == fa2 * fact(c) * fh1;
            assert(ba * w == a * (a - 1) * hh * z) by (nonlinear_arith)
                requires w == pair_weight(a, c) * u, pair_weight(a, c) == a * (a - 1) * hh * pw2, ba * (pw2 * u) == z;
        } else {
            assert(ba * w == a * (a - 1) * hh * z) by (nonlinear_arith) requires ba == 0, a == 0 || a == 1;
        }
        // the term that lowers `c` by two
        if c >= 2 {
            let pw3 = pair_weight(a, c - 2);
            assert((a + c - 2) / 2 == hh - 1);
            let fc2 = fact(c - 2);
            assert(pair_weight(a, c) == c * (c - 1) * hh * pw3) by (nonlinear_arith)
                requires pair_weight(a, c) == fact(a) * fact(c) * fact(hh), fact(c) == c * (c - 1) * fc2,
                    fact(hh) == hh * fh1, pw3 == fact(a) * fc2 * fh1;
            assert(bc * w == c * (c - 1) * hh * z) by (nonlinear_arith)
                requires w == pair_weight(a, c) * u, pair_weight(a, c) == c * (c - 1) * hh * pw3, bc * (pw3 * u) == z;
        } else {
            assert(bc * w == c * (c - 1) * hh * z) by (nonlinear_arith) requires bc == 0, c == 0 || c == 1;
        }
        assert((-2 * bp + ba + bc) * w == -2 * (bp * w) + ba * w + bc * w) by (nonlinear_arith);
        let q = (a + c) * (a + c - 1);
        assert(2 * (a * c) + a * (a - 1) + c * (c - 1) == q) by (nonlinear_arith) requires q == (a + c) * (a + c - 1);
        let t = hh * z;
        assert(a * c * hh * z == a * c * t && a * (a - 1) * hh * z == a * (a - 1) * t
            && c * (c - 1) * hh * z == c * (c - 1) * t) by (nonlinear_arith) requires t == hh * z;
        assert(2 * (a * c * t) + a * (a - 1) * t + c * (c - 1) * t == (2 * (a * c) + a * (a - 1) + c * (c - 1)) * t)
            by (nonlinear_arith);
        assert(q * t == hh * (q * z)) by (nonlinear_arith) requires t == hh * z;
        let fe2 = fact(a + c - 2);
        assert(s * f * (fact(a + c) * v) == (a + c) * (a + c - 1) * z) by (nonlinear_arith)
            requires fact(a + c) == (a + c) * (a + c - 1) * fe2, z == s * f * (fe2 * v);
    }
}

/// `b` at order `k` on `j` lowered at positions `m1` and `m2`.
pub open spec fn b_lowered(k: int, j1: int, j2: int, j3: int, j4: int, j5: int, j6: int, m1: int, m2: int) -> int {
    b_coef(k, lowered2(j1, 1, m1, m2), lowered2(j2, 2, m1, m2), lowered2(j3, 3, m1, m2),
        lowered2(j4, 4, m1, m2), lowered2(j5, 5, m1, m2), lowered2(j6, 6, m1, m2))
}

/// The closed form of `b`, for `j` lowered at positions `m1` and `m2` (when that
/// leaves every index non-negative).
pub open spec fn b_closed_lowered(k: int, j1: int, j2: int, j3: int, j4: int, j5: int, j6: int, m1: int, m2: int) -> bool {
    let (l1, l2, l3, l4, l5, l6) = (lowered2(j1, 1, m1, m2), lowered2(j2, 2, m1, m2), lowered2(j3, 3, m1, m2),
        lowered2(j4, 4, m1, m2), lowered2(j5, 5, m1, m2), lowered2(j6, 6, m1, m2));
    l1 >= 0 && l2 >= 0 && l3 >= 0 && l4 >= 0 && l5 >= 0 && l6 >= 0 ==>
        b_coef(k, l1, l2, l3, l4, l5, l6) * b_weight(l1, l2, l3, l4, l5, l6) == b_numerator(l1, l2, l3, l4, l5, l6)
}

/// The three terms of the `b` recursion that belong to pair `p`, scaled by the
/// weight of `j`, give `h_p · (−1)^(j4+j5+j6) · (h − 1)! · (2h1)! (2h2)! (2h3)!`.
#[verifier::spinoff_prover]
proof fn lemma_b_pair(k: int, j1: int, j2: int, j3: int, j4: int, j5: int, j6: int, p: int)
    requires
        k >= 2,
        1 <= p <= 3,
        j1 >= 0, j2 >= 0, j3 >= 0, j4 >= 0, j5 >= 0, j6 >= 0,
        j1 + j2 + j3 + j4 + j5 + j6 == k,
        (j1 + j4) % 2 == 0, (j2 + j5) % 2 == 0, (j3 + j6) % 2 == 0,
        b_closed_lowered(k - 2, j1, j2, j3, j4, j5, j6, p, p + 3),
        b_closed_lowered(k - 2, j1, j2, j3, j4, j5, j6, p, p),
        b_closed_lowered(k - 2, j1, j2, j3, j4, j5, j6, p + 3, p + 3),
    ensures
        ({
            let a = if p == 1 { j1 } else if p == 2 { j2 } else { j3 };
            let c = if p == 1 { j4 } else if p == 2 { j5 } else { j6 };
            (-2 * b_lowered(k - 2, j1, j2, j3, j4, j5, j6, p, p + 3) + b_lowered(k - 2, j1, j2, j3, j4, j5, j6, p, p)
                + b_lowered(k - 2, j1, j2, j3, j4, j5, j6, p + 3, p + 3)) * b_weight(j1, j2, j3, j4, j5, j6)
                == ((a + c) / 2) * (sign_of(j4 + j5 + j6) * fact(k / 2 - 1)
                    * (fact(j1 + j4) * fact(j2 + j5) * fact(j3 + j6)))
        }),
{
    let a = if p == 1 { j1 } else if p == 2 { j2 } else { j3 };
    let c = if p == 1 { j4 } else if p == 2 { j5 } else { j6 };
    let (w1, w2, w3) = (pair_weight(j1, j4), pair_weight(j2, j5), pair_weight(j3, j6));
    let (e1, e2, e3) = (fact(j1 + j4), fact(j2 + j5), fact(j3 + j6));
    let o1 = if p == 1 { w2 } else { w1 };
    let o2 = if p == 3 { w2 } else { w3 };
    let q1 = if p == 1 { e2 } else { e1 };
    let q2 = if p == 3 { e2 } else { e3 };
    let u = o1 * o2;
    let v = q1 * q2;
    let sg = sign_of(j4 + j5 + j6);
    let f = fact(k / 2 - 1);
    assert((k - 2) / 2 == k / 2 - 1);
    let bp = b_lowered(k - 2, j1, j2, j3, j4, j5, j6, p, p + 3);
    let ba = b_lowered(k - 2, j1, j2, j3, j4, j5, j6, p, p);
    let bc = b_lowered(k - 2, j1, j2, j3, j4, j5, j6, p + 3, p + 3);
    // weights and numerators with pair `p` taken out
    lemma_put3(pair_weight(a, c), o1, o2, p);
    lemma_put3(pair_weight(a - 1, c - 1), o1, o2, p);
    lemma_put3(pair_weight(a - 2, c), o1, o2, p);
    lemma_put3(pair_weight(a, c - 2), o1, o2, p);
    lemma_put3(fact(a + c), q1, q2, p);
    lemma_put3(fact(a + c - 2), q1, q2, p);
    assert(b_weight(j1, j2, j3, j4, j5, j6) == put3(pair_weight(a, c), o1, o2, p));
    assert(fact(j1 + j4) * fact(j2 + j5) * fact(j3 + j6) == put3(fact(a + c), q1, q2, p));
    let z = fact(a + c - 2) * v;
    lemma_sign_shift(j4 + j5 + j6);
    if a >= 1 && c >= 1 {
        assert(lowered2(j4, 4, p, p + 3) + lowered2(j5, 5, p, p + 3) + lowered2(j6, 6, p, p + 3) == j4 + j5 + j6 - 1);
        assert(b_weight(lowered2(j1, 1, p, p + 3), lowered2(j2, 2, p, p + 3), lowered2(j3, 3, p, p + 3),
            lowered2(j4, 4, p, p + 3), lowered2(j5, 5, p, p + 3), lowered2(j6, 6, p, p + 3))
            == put3(pair_weight(a - 1, c - 1), o1, o2, p));
        assert(b_numerator(lowered2(j1, 1, p, p + 3), lowered2(j2, 2, p, p + 3), lowered2(j3, 3, p, p + 3),
            lowered2(j4, 4, p, p + 3), lowered2(j5, 5, p, p + 3), lowered2(j6, 6, p, p + 3))
            == (-sg) * f * put3(fact(a + c - 2), q1, q2, p));
        assert((-sg) * f * z == -(sg * f * z)) by (nonlinear_arith);
    }
    if a >= 2 {
        assert(lowered2(j4, 4, p, p) + lowered2(j5, 5, p, p) + lowered2(j6, 6, p, p) == j4 + j5 + j6);
        assert(b_weight(lowered2(j1, 1, p, p), lowered2(j2, 2, p, p), lowered2(j3, 3, p, p),
            lowered2(j4, 4, p, p), lowered2(j5, 5, p, p), lowered2(j6, 6, p, p))
            == put3(pair_weight(a - 2, c), o1, o2, p));
        assert(b_numerator(lowered2(j1, 1, p, p), lowered2(j2, 2, p, p), lowered2(j3, 3, p, p),
            lowered2(j4, 4, p, p), lowered2(j5, 5, p, p), lowered2(j6, 6, p, p))
            == sg * f * put3(fact(a + c - 2), q1, q2, p));
    }
    if c >= 2 {
        assert(lowered2(j4, 4, p + 3, p + 3) + lowered2(j5, 5, p + 3, p + 3) + lowered2(j6, 6, p + 3, p + 3)
            == j4 + j5 + j6 - 2);
        assert(b_weight(lowered2(j1, 1, p + 3, p + 3), lowered2(j2, 2, p + 3, p + 3), lowered2(j3, 3, p + 3, p + 3),
            lowered2(j4, 4, p + 3, p + 3), lowered2(j5, 5, p + 3, p + 3), lowered2(j6, 6, p + 3, p + 3))
            == put3(pair_weight(a, c - 2), o1, o2, p));
        assert(b_numerator(lowered2(j1, 1, p + 3, p + 3), lowered2(j2, 2, p + 3, p + 3), lowered2(j3, 3, p + 3, p + 3),
            lowered2(j4, 4, p + 3, p + 3), lowered2(j5, 5, p + 3, p + 3), lowered2(j6, 6, p + 3, p + 3))
            == sg * f * put3(fact(a + c - 2), q1, q2, p));
    }
    lemma_pair_step(a, c, u, v, sg, f, bp, ba, bc);
    assert(sg * f * (fact(a + c) * v) == sg * f * (fact(j1 + j4) * fact(j2 + j5) * fact(j3 + j6)));
}

/// The `b` coefficients are those of `((y1 − y4)² + (y2 − y5)² + (y3 − y6)²)^h`:
/// for indices `j ≥ 0` summing to `k` whose three pair sums `j_p + j_{p+3} = 2h_p`
/// are even, so that `k = 2h`,
/// `b(k; j) · j1!…j6! · h1! h2! h3! = (−1)^(j4+j5+j6) · h! · (2h1)! (2h2)! (2h3)!`.
#[verifier::spinoff_prover]
#[verifier::rlimit(40)]
pub proof fn lemma_b_coef_multinomial(k: int, j1: int, j2: int, j3: int, j4: int, j5: int, j6: int)
    requires
        j1 >= 0, j2 >= 0, j3 >= 0, j4 >= 0, j5 >= 0, j6 >= 0,
        j1 + j2 + j3 + j4 + j5 + j6 == k,
        (j1 + j4) % 2 == 0, (j2 + j5) % 2 == 0, (j3 + j6) % 2 == 0,
    ensures
        b_coef(k, j1, j2, j3, j4, j5, j6) * b_weight(j1, j2, j3, j4, j5, j6) == b_numerator(j1, j2, j3, j4, j5, j6),
    decreases k,
{
    if k == 0 {
        assert(j1 == 0 && j2 == 0 && j3 == 0 && j4 == 0 && j5 == 0 && j6 == 0);
        assert(pair_weight(0, 0) == 1) by { reveal_with_fuel(fact, 1); }
        assert(fact(0) == 1) by { reveal_with_fuel(fact, 1); }
    } else {
        assert(k >= 2);
        if lowered2(j1, 1, 1, 4) >= 0 && lowered2(j2, 2, 1, 4) >= 0 && lowered2(j3, 3, 1, 4) >= 0 && lowered2(j4, 4, 1, 4) >= 0 && lowered2(j5, 5, 1, 4) >= 0 && lowered2(j6, 6, 1, 4) >= 0 {
            lemma_b_coef_multinomial(k - 2, lowered2(j1, 1, 1, 4), lowered2(j2, 2, 1, 4), lowered2(j3, 3, 1, 4), lowered2(j4, 4, 1, 4), lowered2(j5, 5, 1, 4), lowered2(j6, 6, 1, 4));
        }
        assert(b_closed_lowered(k - 2, j1, j2, j3, j4, j5, j6, 1, 4));
        if lowered2(j1, 1, 2, 5) >= 0 && lowered2(j2, 2, 2, 5) >= 0 && lowered2(j3, 3, 2, 5) >= 0 && lowered2(j4, 4, 2, 5) >= 0 && lowered2(j5, 5, 2, 5) >= 0 && lowered2(j6, 6, 2, 5) >= 0 {
            lemma_b_coef_multinomial(k - 2, lowered2(j1, 1, 2, 5), lowered2(j2, 2, 2, 5), lowered2(j3, 3, 2, 5), lowered2(j4, 4, 2, 5), lowered2(j5, 5, 2, 5), lowered2(j6, 6, 2, 5));
        }
        assert(b_closed_lowered(k - 2, j1, j2, j3, j4, j5, j6, 2, 5));
        if lowered2(j1, 1, 3, 6) >= 0 && lowered2(j2, 2, 3, 6) >= 0 && lowered2(j3, 3, 3, 6) >= 0 && lowered2(j4, 4, 3, 6) >= 0 && lowered2(j5, 5, 3, 6) >= 0 && lowered2(j6, 6, 3, 6) >= 0 {
            lemma_b_coef_multinomial(k - 2, lowered2(j1, 1, 3, 6), lowered2(j2, 2, 3, 6), lowered2(j3, 3, 3, 6), lowered2(j4, 4, 3, 6), lowered2(j5, 5, 3, 6), lowered2(j6, 6, 3, 6));
        }
        assert(b_closed_lowered(k - 2, j1, j2, j3, j4, j5, j6, 3, 6));
        if lowered2(j1, 1, 1, 1) >= 0 && lowered2(j2, 2, 1, 1) >= 0 && lowered2(j3, 3, 1, 1) >= 0 && lowered2(j4, 4, 1, 1) >= 0 && lowered2(j5, 5, 1, 1) >= 0 && lowered2(j6, 6, 1, 1) >= 0 {
            lemma_b_coef_multinomial(k - 2, lowered2(j1, 1, 1, 1), lowered2(j2, 2, 1, 1), lowered2(j3, 3, 1, 1), lowered2(j4, 4, 1, 1), lowered2(j5, 5, 1, 1), lowered2(j6, 6, 1, 1));
        }
        assert(b_closed_lowered(k - 2, j1, j2, j3, j4, j5, j6, 1, 1));
        if lowered2(j1, 1, 2, 2) >= 0 && lowered2(j2, 2, 2, 2) >= 0 && lowered2(j3, 3, 2, 2) >= 0 && lowered2(j4, 4, 2, 2) >= 0 && lowered2(j5, 5, 2, 2) >= 0 && lowered2(j6, 6, 2, 2) >= 0 {
            lemma_b_coef_multinomial(k - 2, lowered2(j1, 1, 2, 2), lowered2(j2, 2, 2, 2), lowered2(j3, 3, 2, 2), lowered2(j4, 4, 2, 2), lowered2(j5, 5, 2, 2), lowered2(j6, 6, 2, 2));
        }
        assert(b_closed_lowered(k - 2, j1, j2, j3, j4, j5, j6, 2, 2));
        if lowered2(j1, 1, 3, 3) >= 0 && lowered2(j2, 2, 3, 3) >= 0 && lowered2(j3, 3, 3, 3) >= 0 && lowered2(j4, 4, 3, 3) >= 0 && lowered2(j5, 5, 3, 3) >= 0 && lowered2(j6, 6, 3, 3) >= 0 {
            lemma_b_coef_multinomial(k - 2, lowered2(j1, 1, 3, 3), lowered2(j2, 2, 3, 3), lowered2(j3, 3, 3, 3), lowered2(j4, 4, 3, 3), lowered2(j5, 5, 3, 3), lowered2(j6, 6, 3, 3));
        }
        assert(b_closed_lowered(k - 2, j1, j2, j3, j4, j5, j6, 3, 3));
        if lowered2(j1, 1, 4, 4) >= 0 && lowered2(j2, 2, 4, 4) >= 0 && lowered2(j3, 3, 4, 4) >= 0 && lowered2(j4, 4, 4, 4) >= 0 && lowered2(j5, 5, 4, 4) >= 0 && lowered2(j6, 6, 4, 4) >= 0 {
            lemma_b_coef_multinomial(k - 2, lowered2(j1, 1, 4, 4), lowered2(j2, 2, 4, 4), lowered2(j3, 3, 4, 4), lowered2(j4, 4, 4, 4), lowered2(j5, 5, 4, 4), lowered2(j6, 6, 4, 4));
        }
        assert(b_closed_lowered(k - 2, j1, j2, j3, j4, j5, j6, 4, 4));
        if lowered2(j1, 1, 5, 5) >= 0 && lowered2(j2, 2, 5, 5) >= 0 && lowered2(j3, 3, 5, 5) >= 0 && lowered2(j4, 4, 5, 5) >= 0 && lowered2(j5, 5, 5, 5) >= 0 && lowered2(j6, 6, 5, 5) >= 0 {
            lemma_b_coef_multinomial(k - 2, lowered2(j1, 1, 5, 5), lowered2(j2, 2, 5, 5), lowered2(j3, 3, 5, 5), lowered2(j4, 4, 5, 5), lowered2(j5, 5, 5, 5), lowered2(j6, 6, 5, 5));
        }
        assert(b_closed_lowered(k - 2, j1, j2, j3, j4, j5, j6, 5, 5));
        if lowered2(j1, 1, 6, 6) >= 0 && lowered2(j2, 2, 6, 6) >= 0 && lowered2(j3, 3, 6, 6) >= 0 && lowered2(j4, 4, 6, 6) >= 0 && lowered2(j5, 5, 6, 6) >= 0 && lowered2(j6, 6, 6, 6) >= 0 {
            lemma_b_coef_multinomial(k - 2, lowered2(j1, 1, 6, 6), lowered2(j2, 2, 6, 6), lowered2(j3, 3, 6, 6), lowered2(j4, 4, 6, 6), lowered2(j5, 5, 6, 6), lowered2(j6, 6, 6, 6));
        }
        assert(b_closed_lowered(k - 2, j1, j2, j3, j4, j5, j6, 6, 6));
        lemma_b_pair(k, j1, j2, j3, j4, j5, j6, 1);
        lemma_b_pair(k, j1, j2, j3, j4, j5, j6, 2);
        lemma_b_pair(k, j1, j2, j3, j4, j5, j6, 3);
        let c1 = -2 * b_lowered(k - 2, j1, j2, j3, j4, j5, j6, 1, 4) + b_lowered(k - 2, j1, j2, j3, j4, j5, j6, 1, 1)
            + b_lowered(k - 2, j1, j2, j3, j4, j5, j6, 4, 4);
        let c2 = -2 * b_lowered(k - 2, j1, j2, j3, j4, j5, j6, 2, 5) + b_lowered(k - 2, j1, j2, j3, j4, j5, j6, 2, 2)
            + b_lowered(k - 2, j1, j2, j3, j4, j5, j6, 5, 5);
        let c3 = -2 * b_lowered(k - 2, j1, j2, j3, j4, j5, j6, 3, 6) + b_lowered(k - 2, j1, j2, j3, j4, j5, j6, 3, 3)
            + b_lowered(k - 2, j1, j2, j3, j4, j5, j6, 6, 6);
        let b = b_coef(k, j1, j2, j3, j4, j5, j6);
        let w = b_weight(j1, j2, j3, j4, j5, j6);
        assert(b == c1 + c2 + c3);
        let h = k / 2;
        let f = fact(h - 1);
        let kk = sign_of(j4 + j5 + j6) * f * (fact(j1 + j4) * fact(j2 + j5) * fact(j3 + j6));
        let (h1, h2, h3) = ((j1 + j4) / 2, (j2 + j5) / 2, (j3 + j6) / 2);
        assert(h1 + h2 + h3 == h);
        assert(b * w == c1 * w + c2 * w + c3 * w) by (nonlinear_arith) requires b == c1 + c2 + c3;
        assert(h1 * kk + h2 * kk + h3 * kk == h * kk) by (nonlinear_arith) requires h1 + h2 + h3 == h;
        assert(fact(h) == h * f);
        let sg = sign_of(j4 + j5 + j6);
        let e = fact(j1 + j4) * fact(j2 + j5) * fact(j3 + j6);
        assert(sg * (h * f) * e == h * (sg * f * e)) by (nonlinear_arith);
    }
}

/// `b(k; j) = 0` unless every pair sum `j_p + j_{p+3}` is even.
pub proof fn lemma_b_coef_odd_pair_zero(k: int, j1: int, j2: int, j3: int, j4: int, j5: int, j6: int)
    requires
        (j1 + j4) % 2 != 0 || (j2 + j5) % 2 != 0 || (j3 + j6) % 2 != 0,
    ensures
        b_coef(k, j1, j2, j3, j4, j5, j6) == 0,
    decreases k,
{
    if j1 < 0 || j2 < 0 || j3 < 0 || j4 < 0 || j5 < 0 || j6 < 0 || j1 + j2 + j3 + j4 + j5 + j6 != k {
    } else if k <= 1 {
    } else {
        lemma_b_coef_odd_pair_zero(k - 2, j1 - 1, j2, j3, j4 - 1, j5, j6);
        lemma_b_coef_odd_pair_zero(k - 2, j1, j2 - 1, j3, j4, j5 - 1, j6);
        lemma_b_coef_odd_pair_zero(k - 2, j1, j2, j3 - 1, j4, j5, j6 - 1);
        lemma_b_coef_odd_pair_zero(k - 2, j1 - 2, j2, j3, j4, j5, j6);
        lemma_b_coef_odd_pair_zero(k - 2, j1, j2 - 2, j3, j4, j5, j6);
        lemma_b_coef_odd_pair_zero(k - 2, j1, j2, j3 - 2, j4, j5, j6);
        lemma_b_coef_odd_pair_zero(k - 2, j1, j2, j3, j4 - 2, j5, j6);
        lemma_b_coef_odd_pair_zero(k - 2, j1, j2, j3, j4, j5 - 2, j6);
        lemma_b_coef_odd_pair_zero(k - 2, j1, j2, j3, j4, j5, j6 - 2);
    }
}

/// The same law as a value: `b(k; j) = (−1)^(j4+j5+j6) · h! · (2h1)! (2h2)! (2h3)!
/// / (j1!…j6! · h1! h2! h3!)` when the pair sums are even.
pub proof fn lemma_b_coef_closed_form(k: int, j1: int, j2: int, j3: int, j4: int, j5: int, j6: int)
    requires
        j1 >= 0, j2 >= 0, j3 >= 0, j4 >= 0, j5 >= 0, j6 >= 0,
        j1 + j2 + j3 + j4 + j5 + j6 == k,
        (j1 + j4) % 2 == 0, (j2 + j5) % 2 == 0, (j3 + j6) % 2 == 0,
    ensures
        b_coef(k, j1, j2, j3, j4, j5, j6) == b_numerator(j1, j2, j3, j4, j5, j6) / b_weight(j1, j2, j3, j4, j5, j6),
{
    lemma_b_coef_multinomial(k, j1, j2, j3, j4, j5, j6);
    let (w1, w2, w3) = (pair_weight(j1, j4), pair_weight(j2, j5), pair_weight(j3, j6));
    assert(w1 >= 1 && w2 >= 1 && w3 >= 1) by {
        lemma_weight_pos(j1, j4);
        lemma_weight_pos(j2, j5);
        lemma_weight_pos(j3, j6);
    }
    let w = b_weight(j1, j2, j3, j4, j5, j6);
    assert(w >= 1) by (nonlinear_arith) requires w == w1 * w2 * w3, w1 >= 1, w2 >= 1, w3 >= 1;
    let b = b_coef(k, j1, j2, j3, j4, j5, j6);
    vstd::arithmetic::div_mod::lemma_div_multiples_vanish(b, w);
    assert(w * b == b * w) by (nonlinear_arith);
}

proof fn lemma_weight_pos(a: int, c: int)
    ensures
        pair_weight(a, c) >= 1,
{
    lemma_fact_pos(a);
    lemma_fact_pos(c);
    lemma_fact_pos((a + c) / 2);
    let (x, y, z) = (fact(a), fact(c), fact((a + c) / 2));
    assert(x * y * z >= 1) by (nonlinear_arith) requires x >= 1, y >= 1, z >= 1;
}

/// `a(k; i) = 0` off the simplex: where an index is negative or the indices do
/// not sum to `k`.
pub proof fn lemma_a_coef_support(k: int, i1: int, i2: int, i3: int, i4: int, i5: int, i6: int)
    requires
        i1 < 0 || i2 < 0 || i3 < 0 || i4 < 0 || i5 < 0 || i6 < 0 || i1 + i2 + i3 + i4 + i5 + i6 != k,
    ensures
        a_coef(k, i1, i2, i3, i4, i5, i6) == 0,
{
}

/// `b(k; j) = 0` off the simplex: where an index is negative or the indices do
/// not sum to `k`.
pub proof fn lemma_b_coef_support(k: int, j1: int, j2: int, j3: int, j4: int, j5: int, j6: int)
    requires
        j1 < 0 || j2 < 0 || j3 < 0 || j4 < 0 || j5 < 0 || j6 < 0 || j1 + j2 + j3 + j4 + j5 + j6 != k,
    ensures
        b_coef(k, j1, j2, j3, j4, j5, j6) == 0,
{
}

} // verus!
