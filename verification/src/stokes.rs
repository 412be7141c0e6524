//! Index sets for the Stokes-coefficient ↔ inertia-integral map
//! (Tricarico 2008): which `T_{ijk}` enter, and in which order the
//! `C_{lm}` / `S_{lm}` rows come.

use vstd::prelude::*;

verus! {

// ── Normalization ─────────────────────────────────────────────────────────────

/// Convention for the Stokes coefficients: `C_lm` as Tricarico's Eqs. 16–17
/// give them, or fully normalized `C̄_lm = √((2l+1)(2−δ₀ₘ)(l−m)!/(l+m)!) · C_lm`.
#[derive(Clone, Copy, Debug, PartialEq, Eq, Structural)]
pub enum Normalization {
    Unnormalized,
    FullyNormalized,
}

// ── inertia_indices ───────────────────────────────────────────────────────────

/// The degree `i + j + k` of an index triple.
pub open spec fn degree(t: (usize, usize, usize)) -> int {
    t.0 + t.1 + t.2
}

/// Whether the triple `t` comes before the position `(l, i, j)` in the order
/// "degree ascending, then lexicographic".
pub open spec fn triple_before(t: (usize, usize, usize), l: int, i: int, j: int) -> bool {
    ||| degree(t) < l
    ||| degree(t) == l && t.0 < i
    ||| degree(t) == l && t.0 == i && t.1 < j
}

/// Strict order on index triples: degree ascending, then lexicographic.
pub open spec fn triple_lt(s: (usize, usize, usize), t: (usize, usize, usize)) -> bool {
    triple_before(s, degree(t), t.0 as int, t.1 as int)
}

/// Number of index triples of degree `l`: `(l+1)(l+2)/2`.
pub open spec fn triples_of_degree(l: int) -> int {
    (l + 1) * (l + 2) / 2
}

/// Number of index triples with degree in `[min_degree, max_degree]`.
pub open spec fn triples_in_range(min_degree: int, max_degree: int) -> int
    decreases max_degree - min_degree + 1,
{
    if max_degree < min_degree {
        0
    } else {
        triples_in_range(min_degree, max_degree - 1) + triples_of_degree(max_degree)
    }
}

/// Triples of degree `l` whose first index is below `i`.
spec fn triples_of_degree_prefix(l: int, i: int) -> int
    decreases i,
{
    if i <= 0 {
        0
    } else {
        triples_of_degree_prefix(l, i - 1) + (l - (i - 1) + 1)
    }
}

proof fn lemma_triples_of_degree_prefix(l: int, i: int)
    requires
        0 <= i <= l + 1,
    ensures
        2 * triples_of_degree_prefix(l, i) == i * (2 * l - i + 3),
    decreases i,
{
    if i == 0 {
        assert(i * (2 * l - i + 3) == 0) by (nonlinear_arith) requires i == 0;
    } else {
        lemma_triples_of_degree_prefix(l, i - 1);
        assert(i * (2 * l - i + 3) == (i - 1) * (2 * l - (i - 1) + 3) + 2 * (l - (i - 1) + 1))
            by (nonlinear_arith);
    }
}

/// All triples of degree `l` are counted once the first index passes `l`.
proof fn lemma_triples_of_degree_full(l: int)
    requires
        l >= 0,
    ensures
        triples_of_degree_prefix(l, l + 1) == triples_of_degree(l),
{
    lemma_triples_of_degree_prefix(l, l + 1);
    assert((l + 1) * (2 * l - (l + 1) + 3) == (l + 1) * (l + 2)) by (nonlinear_arith);
}

proof fn lemma_triples_of_degree_bound(l: int)
    requires
        l >= 0,
    ensures
        triples_of_degree(l) >= l + 1,
{
    assert((l + 1) * (l + 2) >= 2 * (l + 1)) by (nonlinear_arith) requires l >= 0;
}

proof fn lemma_triples_in_range_monotone(min_degree: int, l: int, max_degree: int)
    requires
        0 <= min_degree <= l <= max_degree,
    ensures
        triples_of_degree(l) <= triples_in_range(min_degree, l) <= triples_in_range(min_degree, max_degree),
    decreases max_degree - l,
{
    lemma_triples_in_range_nonneg(min_degree, l - 1);
    if l < max_degree {
        lemma_triples_in_range_monotone(min_degree, l, max_degree - 1);
        lemma_triples_of_degree_bound(max_degree);
    }
}

proof fn lemma_triples_in_range_nonneg(min_degree: int, max_degree: int)
    requires
        min_degree >= 0,
    ensures
        triples_in_range(min_degree, max_degree) >= 0,
    decreases max_degree - min_degree + 1,
{
    if max_degree >= min_degree {
        lemma_triples_in_range_nonneg(min_degree, max_degree - 1);
        lemma_triples_of_degree_bound(max_degree);
    }
}

/// Appending keeps everything a sequence held and adds the new element.
proof fn lemma_push_contains<A>(s: Seq<A>, x: A)
    ensures
        s.push(x).contains(x),
        forall|y: A| s.contains(y) ==> #[trigger] s.push(x).contains(y),
{
    assert(s.push(x)[s.len() as int] == x);
    assert forall|y: A| s.contains(y) implies #[trigger] s.push(x).contains(y) by {
        let q = choose|q: int| 0 <= q < s.len() && s[q] == y;
        assert(s.push(x)[q] == y);
    }
}

/// Whether `out` holds exactly the triples of degree in `[min_degree, …]`
/// that come before the position `(l, i, j)`, in strictly increasing order.
spec fn triples_so_far(out: Seq<(usize, usize, usize)>, min_degree: int, l: int, i: int, j: int) -> bool {
    &&& forall|p: int, q: int| 0 <= p < q < out.len() ==> triple_lt(#[trigger] out[p], #[trigger] out[q])
    &&& forall|p: int| 0 <= p < out.len() ==> min_degree <= degree(#[trigger] out[p])
    &&& forall|p: int| 0 <= p < out.len() ==> triple_before(#[trigger] out[p], l, i, j)
    &&& forall|a: usize, b: usize, c: usize|
        #![trigger out.contains((a, b, c))]
        min_degree <= a + b + c && triple_before((a, b, c), l, i, j) ==> out.contains((a, b, c))
}

/// Return all `(i, j, k)` index triples with `min_degree ≤ i+j+k ≤ max_degree`,
/// ordered by degree ascending, then lexicographically.
pub fn inertia_indices(min_degree: usize, max_degree: usize) -> (out: Vec<(usize, usize, usize)>)
    requires
        triples_in_range(min_degree as int, max_degree as int) <= usize::MAX,
    ensures
        out@.len() == triples_in_range(min_degree as int, max_degree as int),
        forall|p: int| 0 <= p < out@.len() ==> min_degree <= degree(#[trigger] out@[p]) <= max_degree,
        forall|a: usize, b: usize, c: usize|
            #![trigger out@.contains((a, b, c))]
            min_degree <= a + b + c <= max_degree ==> out@.contains((a, b, c)),
        forall|p: int, q: int| 0 <= p < q < out@.len() ==> triple_lt(#[trigger] out@[p], #[trigger] out@[q]),
{
    let mut out: Vec<(usize, usize, usize)> = Vec::new();
    if min_degree > max_degree {
        return out;
    }
    proof {
        lemma_triples_in_range_monotone(min_degree as int, max_degree as int, max_degree as int);
        lemma_triples_of_degree_bound(max_degree as int);
    }
    let mut l = min_degree;
    while l <= max_degree
        invariant
            min_degree <= l <= max_degree + 1,
            max_degree < usize::MAX,
            triples_in_range(min_degree as int, max_degree as int) <= usize::MAX,
            out@.len() == triples_in_range(min_degree as int, l - 1),
            triples_so_far(out@, min_degree as int, l as int, 0, 0),
        decreases max_degree + 1 - l,
    {
        proof {
            lemma_triples_in_range_monotone(min_degree as int, l as int, max_degree as int);
            lemma_triples_in_range_nonneg(min_degree as int, l - 1);
        }
        let mut i: usize = 0;
        while i <= l
            invariant
                min_degree <= l <= max_degree,
                max_degree < usize::MAX,
                i <= l + 1,
                triples_in_range(min_degree as int, l as int) <= usize::MAX,
                triples_in_range(min_degree as int, l as int)
                    == triples_in_range(min_degree as int, l - 1) + triples_of_degree(l as int),
                triples_in_range(min_degree as int, l - 1) >= 0,
                out@.len() == triples_in_range(min_degree as int, l - 1) + triples_of_degree_prefix(l as int, i as int),
                triples_so_far(out@, min_degree as int, l as int, i as int, 0),
            decreases l + 1 - i,
        {
            proof {
                lemma_triples_of_degree_prefix(l as int, i as int);
                lemma_triples_of_degree_prefix(l as int, (i + 1) as int);
                lemma_triples_of_degree_full(l as int);
                lemma_prefix_le_full(l as int, (i + 1) as int);
            }
            let mut j: usize = 0;
            while j <= l - i
                invariant
                    min_degree <= l <= max_degree,
                    max_degree < usize::MAX,
                    i <= l,
                    j <= l - i + 1,
                    triples_in_range(min_degree as int, l as int) <= usize::MAX,
                    triples_in_range(min_degree as int, l as int)
                        == triples_in_range(min_degree as int, l - 1) + triples_of_degree(l as int),
                    triples_in_range(min_degree as int, l - 1) >= 0,
                    triples_of_degree_prefix(l as int, (i + 1) as int) <= triples_of_degree(l as int),
                    triples_of_degree_prefix(l as int, (i + 1) as int)
                        == triples_of_degree_prefix(l as int, i as int) + (l - i + 1),
                    out@.len() == triples_in_range(min_degree as int, l - 1) + triples_of_degree_prefix(l as int, i as int) + j,
                    triples_so_far(out@, min_degree as int, l as int, i as int, j as int),
                decreases l - i + 1 - j,
            {
                let t = (i, j, l - i - j);
                proof {
                    lemma_push_contains(out@, t);
                    let o2 = out@.push(t);
                    assert forall|a: usize, b: usize, c: usize|
                        #![trigger o2.contains((a, b, c))]
                        min_degree <= a + b + c && triple_before((a, b, c), l as int, i as int, j + 1)
                        implies o2.contains((a, b, c)) by {
                        if !triple_before((a, b, c), l as int, i as int, j as int) {
                            assert((a, b, c) == t);
                        } else {
                            assert(out@.contains((a, b, c)));
                        }
                    }
                }
                out.push(t);
                j = j + 1;
            }
            proof {
                let o = out@;
                assert forall|a: usize, b: usize, c: usize|
                    #![trigger o.contains((a, b, c))]
                    min_degree <= a + b + c && triple_before((a, b, c), l as int, i + 1, 0)
                    implies o.contains((a, b, c)) by {
                    assert(triple_before((a, b, c), l as int, i as int, j as int));
                }
            }
            i = i + 1;
        }
        proof {
            lemma_triples_of_degree_full(l as int);
            let o = out@;
            assert forall|a: usize, b: usize, c: usize|
                #![trigger o.contains((a, b, c))]
                min_degree <= a + b + c && triple_before((a, b, c), l + 1, 0, 0)
                implies o.contains((a, b, c)) by {
                assert(triple_before((a, b, c), l as int, i as int, 0));
            }
        }
        l = l + 1;
    }
    out
}

proof fn lemma_prefix_le_full(l: int, i: int)
    requires
        0 <= i <= l + 1,
        l >= 0,
    ensures
        triples_of_degree_prefix(l, i) <= triples_of_degree(l),
        i >= 1 ==> triples_of_degree_prefix(l, i) == triples_of_degree_prefix(l, i - 1) + (l - (i - 1) + 1),
    decreases l + 1 - i,
{
    if i < l + 1 {
        lemma_prefix_le_full(l, i + 1);
    } else {
        lemma_triples_of_degree_full(l);
    }
}

// ── stokes_row_labels ─────────────────────────────────────────────────────────

/// Whether `(l, m, is_sin)` names a Stokes coefficient: `m ≤ l`, and `S_{l,0}`
/// is not one (it is zero by convention).
pub open spec fn valid_label(x: (usize, usize, bool)) -> bool {
    x.1 <= x.0 && (x.1 == 0 ==> !x.2)
}

/// Place of a label within its degree: `C_{l,0}, C_{l,1}, S_{l,1}, C_{l,2}, S_{l,2}, …`.
pub open spec fn label_rank(x: (usize, usize, bool)) -> int {
    if x.1 == 0 {
        0
    } else {
        2 * x.1 - 1 + (if x.2 { 1int } else { 0int })
    }
}

/// Whether label `x` comes before place `r` of degree `l`.
pub open spec fn label_before(x: (usize, usize, bool), l: int, r: int) -> bool {
    x.0 < l || (x.0 == l && label_rank(x) < r)
}

/// Strict order on labels: degree ascending, then by place within the degree.
pub open spec fn label_lt(x: (usize, usize, bool), y: (usize, usize, bool)) -> bool {
    label_before(x, y.0 as int, label_rank(y))
}

/// Number of Stokes coefficients of degree `l`: `C_{l,0}` and a `C`/`S` pair
/// for each `m = 1..l`.
pub open spec fn labels_of_degree(l: int) -> int {
    2 * l + 1
}

/// Number of Stokes coefficients with degree in `[min_degree, max_degree]`.
pub open spec fn labels_in_range(min_degree: int, max_degree: int) -> int
    decreases max_degree - min_degree + 1,
{
    if max_degree < min_degree {
        0
    } else {
        labels_in_range(min_degree, max_degree - 1) + labels_of_degree(max_degree)
    }
}

proof fn lemma_labels_in_range_monotone(min_degree: int, l: int, max_degree: int)
    requires
        0 <= min_degree <= l <= max_degree,
    ensures
        labels_of_degree(l) <= labels_in_range(min_degree, l) <= labels_in_range(min_degree, max_degree),
        labels_in_range(min_degree, l - 1) >= 0,
    decreases max_degree - l,
{
    lemma_labels_in_range_closed(min_degree, l - 1);
    assert(l * l >= min_degree * min_degree) by (nonlinear_arith) requires 0 <= min_degree <= l;
    if l < max_degree {
        lemma_labels_in_range_monotone(min_degree, l, max_degree - 1);
    }
}

/// `Σ_{l=min}^{max} (2l+1) = (max+1)² − min²`.
pub proof fn lemma_labels_in_range_closed(min_degree: int, max_degree: int)
    requires
        0 <= min_degree <= max_degree + 1,
    ensures
        labels_in_range(min_degree, max_degree) == (max_degree + 1) * (max_degree + 1) - min_degree * min_degree,
    decreases max_degree - min_degree + 1,
{
    if max_degree >= min_degree {
        lemma_labels_in_range_closed(min_degree, max_degree - 1);
        assert((max_degree + 1) * (max_degree + 1) == max_degree * max_degree + 2 * max_degree + 1)
            by (nonlinear_arith);
    }
}

/// Whether `out` holds exactly the valid labels of degree at least
/// `min_degree` that come before place `r` of degree `l`, in strictly
/// increasing order.
spec fn labels_so_far(out: Seq<(usize, usize, bool)>, min_degree: int, l: int, r: int) -> bool {
    &&& forall|p: int, q: int| 0 <= p < q < out.len() ==> label_lt(#[trigger] out[p], #[trigger] out[q])
    &&& forall|p: int| 0 <= p < out.len() ==> min_degree <= (#[trigger] out[p]).0 && valid_label(out[p])
    &&& forall|p: int| 0 <= p < out.len() ==> label_before(#[trigger] out[p], l, r)
    &&& forall|a: usize, b: usize, c: bool|
        #![trigger out.contains((a, b, c))]
        min_degree <= a && valid_label((a, b, c)) && label_before((a, b, c), l, r) ==> out.contains((a, b, c))
}

/// Appending the label at place `r` of degree `l` moves the frontier to `r + 1`.
proof fn lemma_labels_push(out: Seq<(usize, usize, bool)>, min_degree: int, l: int, r: int, x: (usize, usize, bool))
    requires
        labels_so_far(out, min_degree, l, r),
        x.0 == l,
        label_rank(x) == r,
        valid_label(x),
        min_degree <= l,
    ensures
        labels_so_far(out.push(x), min_degree, l, r + 1),
{
    lemma_push_contains(out, x);
    let o2 = out.push(x);
    assert forall|p: int, q: int| 0 <= p < q < o2.len() implies label_lt(#[trigger] o2[p], #[trigger] o2[q]) by {
        if q == out.len() {
            assert(label_before(out[p], l, r));
        }
    }
    assert forall|a: usize, b: usize, c: bool|
        #![trigger o2.contains((a, b, c))]
        min_degree <= a && valid_label((a, b, c)) && label_before((a, b, c), l, r + 1)
        implies o2.contains((a, b, c)) by {
        if !label_before((a, b, c), l, r) {
            assert((a, b, c) == x);
        } else {
            assert(out.contains((a, b, c)));
        }
    }
}

/// Ordered list of `(l, m, is_sin)` naming the Stokes coefficients of degree
/// `min_degree..=max_degree`: per degree `C_{l,0}, C_{l,1}, S_{l,1}, …,
/// C_{l,l}, S_{l,l}`.  `is_sin = false` → `C_{lm}`, `is_sin = true` → `S_{lm}`.
pub fn stokes_row_labels(min_degree: usize, max_degree: usize) -> (out: Vec<(usize, usize, bool)>)
    requires
        labels_in_range(min_degree as int, max_degree as int) <= usize::MAX,
    ensures
        out@.len() == labels_in_range(min_degree as int, max_degree as int),
        forall|p: int| 0 <= p < out@.len()
            ==> min_degree <= (#[trigger] out@[p]).0 <= max_degree && valid_label(out@[p]),
        forall|a: usize, b: usize, c: bool|
            #![trigger out@.contains((a, b, c))]
            min_degree <= a <= max_degree && valid_label((a, b, c)) ==> out@.contains((a, b, c)),
        forall|p: int, q: int| 0 <= p < q < out@.len() ==> label_lt(#[trigger] out@[p], #[trigger] out@[q]),
{
    let mut out: Vec<(usize, usize, bool)> = Vec::new();
    if min_degree > max_degree {
        return out;
    }
    proof {
        lemma_labels_in_range_monotone(min_degree as int, max_degree as int, max_degree as int);
    }
    let mut l = min_degree;
    while l <= max_degree
        invariant
            min_degree <= l <= max_degree + 1,
            max_degree < usize::MAX,
            labels_in_range(min_degree as int, max_degree as int) <= usize::MAX,
            out@.len() == labels_in_range(min_degree as int, l - 1),
            labels_so_far(out@, min_degree as int, l as int, 0),
        decreases max_degree + 1 - l,
    {
        proof {
            lemma_labels_in_range_monotone(min_degree as int, l as int, max_degree as int);
            lemma_labels_push(out@, min_degree as int, l as int, 0, (l, 0, false));
        }
        out.push((l, 0, false));
        let mut m: usize = 1;
        while m <= l
            invariant
                min_degree <= l <= max_degree,
                max_degree < usize::MAX,
                1 <= m <= l + 1,
                labels_in_range(min_degree as int, l as int) <= usize::MAX,
                labels_in_range(min_degree as int, l as int)
                    == labels_in_range(min_degree as int, l - 1) + labels_of_degree(l as int),
                labels_in_range(min_degree as int, l - 1) >= 0,
                out@.len() == labels_in_range(min_degree as int, l - 1) + 2 * m - 1,
                labels_so_far(out@, min_degree as int, l as int, 2 * m - 1),
            decreases l + 1 - m,
        {
            proof {
                lemma_labels_push(out@, min_degree as int, l as int, 2 * m - 1, (l, m, false));
            }
            out.push((l, m, false));
            proof {
                lemma_labels_push(out@, min_degree as int, l as int, 2 * m as int, (l, m, true));
            }
            out.push((l, m, true));
            m = m + 1;
        }
        proof {
            let o = out@;
            assert forall|a: usize, b: usize, c: bool|
                #![trigger o.contains((a, b, c))]
                min_degree <= a && valid_label((a, b, c)) && label_before((a, b, c), l + 1, 0)
                implies o.contains((a, b, c)) by {
                assert(label_before((a, b, c), l as int, 2 * m - 1));
            }
        }
        l = l + 1;
    }
    out
}

// ── counting laws ─────────────────────────────────────────────────────────────

/// `Σ_{l=min}^{max} (l+1)(l+2)/2 = T(max+1) − T(min)` with the tetrahedral
/// number `T(n) = n(n+1)(n+2)/6`.
pub proof fn lemma_triples_in_range_closed(min_degree: int, max_degree: int)
    requires
        0 <= min_degree <= max_degree + 1,
    ensures
        6 * triples_in_range(min_degree, max_degree)
            == (max_degree + 1) * (max_degree + 2) * (max_degree + 3) - min_degree * (min_degree + 1) * (min_degree + 2),
    decreases max_degree - min_degree + 1,
{
    if max_degree >= min_degree {
        lemma_triples_in_range_closed(min_degree, max_degree - 1);
        let l = max_degree;
        assert((l + 1) * (l + 2) % 2 == 0 && 2 * ((l + 1) * (l + 2) / 2) == (l + 1) * (l + 2)) by {
            lemma_consecutive_product_even(l + 1);
        }
        assert((l + 1) * (l + 2) * (l + 3) - l * (l + 1) * (l + 2) == 3 * ((l + 1) * (l + 2)))
            by (nonlinear_arith);
    }
}

proof fn lemma_consecutive_product_even(n: int)
    ensures
        n * (n + 1) % 2 == 0,
{
    let h = n / 2;
    vstd::arithmetic::div_mod::lemma_fundamental_div_mod(n, 2);
    if n % 2 == 0 {
        assert(n * (n + 1) == 2 * (h * (n + 1))) by (nonlinear_arith) requires n == 2 * h;
    } else {
        assert(n * (n + 1) == 2 * (n * (h + 1))) by (nonlinear_arith) requires n == 2 * h + 1;
    }
    vstd::arithmetic::div_mod::lemma_mod_multiples_basic(h * (n + 1), 2);
    vstd::arithmetic::div_mod::lemma_mod_multiples_basic(n * (h + 1), 2);
    vstd::arithmetic::mul::lemma_mul_is_commutative(2, h * (n + 1));
    vstd::arithmetic::mul::lemma_mul_is_commutative(2, n * (h + 1));
}

/// At every degree `l` there are `l(l−1)/2` more inertia integrals `T_{ijk}`
/// than Stokes coefficients `C_{lm}`, `S_{lm}`: the Stokes matrix of one
/// degree is never taller than wide, and its null space has dimension
/// `l(l−1)/2` (0, 0, 1, 3, 6, … for l = 0, 1, 2, 3, 4, …).
pub proof fn lemma_degree_surplus(l: int)
    requires
        l >= 0,
    ensures
        triples_of_degree(l) - labels_of_degree(l) == l * (l - 1) / 2,
        triples_of_degree(l) >= labels_of_degree(l),
{
    lemma_consecutive_product_even(l + 1);
    lemma_consecutive_product_even(l - 1);
    let t = (l + 1) * (l + 2);
    let u = (l - 1) * l;
    assert((l + 1) * (l + 2) == (l - 1) * l + 2 * (2 * l + 1)) by (nonlinear_arith);
    assert((l - 1) * l >= 0) by (nonlinear_arith) requires l >= 0;
    vstd::arithmetic::div_mod::lemma_fundamental_div_mod(t, 2);
    vstd::arithmetic::div_mod::lemma_fundamental_div_mod(u, 2);
    assert(l * (l - 1) == (l - 1) * l) by (nonlinear_arith);
}

/// Over any range of degrees there are at least as many inertia integrals as
/// Stokes coefficients, so the stacked Stokes matrix is never taller than wide.
pub proof fn lemma_range_surplus(min_degree: int, max_degree: int)
    requires
        0 <= min_degree,
    ensures
        triples_in_range(min_degree, max_degree) >= labels_in_range(min_degree, max_degree),
    decreases max_degree - min_degree + 1,
{
    if max_degree >= min_degree {
        lemma_range_surplus(min_degree, max_degree - 1);
        lemma_degree_surplus(max_degree);
    }
}

} // verus!
