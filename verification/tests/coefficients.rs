use gubas_rs::coefficients::{a_calc, b_calc, coeff_vec_len, t_ind};

fn close(a: f64, b: f64) {
    assert!((a - b).abs() < 1e-14, "expected {b:.16}, got {a:.16}");
}

// ── t_ind ────────────────────────────────────────────────────────────────────

#[test]
fn t_ind_all_zero() {
    assert_eq!(t_ind(0, 0, 0, 0, 0, 0, 0, 5), 0);
}

#[test]
fn t_ind_unit_last() {
    // g=1, dim=3 → flat index = 1
    assert_eq!(t_ind(0, 0, 0, 0, 0, 0, 1, 3), 1);
}

#[test]
fn t_ind_unit_f() {
    // f=1, g=0, dim=3 → 1*3 = 3
    assert_eq!(t_ind(0, 0, 0, 0, 0, 1, 0, 3), 3);
}

#[test]
fn t_ind_unit_a() {
    // a=1, all others=0, dim=4 → 4^6 = 4096
    assert_eq!(t_ind(1, 0, 0, 0, 0, 0, 0, 4), 4_usize.pow(6));
}

#[test]
fn t_ind_full_weighted_sum() {
    // 1·5⁶ + 2·5⁵ + 3·5⁴ + 4·5³ + 0·5² + 1·5 + 2
    assert_eq!(t_ind(1, 2, 3, 4, 0, 1, 2, 5), 15625 + 6250 + 1875 + 500 + 0 + 5 + 2);
}

#[test]
fn t_ind_mirrored_branch() {
    // dim = 1: dim⁷ = 1 < sum = 2, so the first six axes are mirrored:
    // (1-1) + (1-1) + (1-0)·4 + 0 = 4
    assert_eq!(t_ind(1, 1, 0, 0, 0, 0, 0, 1), 4);
}

#[test]
fn t_ind_distinct_positions_for_distinct_tuples() {
    // the layout is a bijection onto [0, dim⁷) for indices below dim
    let dim = 3;
    let mut seen = vec![false; 3_usize.pow(7)];
    for a in 0..dim { for b in 0..dim { for c in 0..dim { for d in 0..dim {
        for e in 0..dim { for f in 0..dim { for g in 0..dim {
            let p = t_ind(a, b, c, d, e, f, g, dim);
            assert!(p < seen.len());
            assert!(!seen[p]);
            seen[p] = true;
        }}}
    }}}}
    assert!(seen.iter().all(|&s| s));
}

// ── coeff_vec_len ────────────────────────────────────────────────────────────

#[test]
fn coeff_vec_len_zero() {
    // t_ind(0,..,0, dim=1) = 0 → length = 1
    assert_eq!(coeff_vec_len(0), 1);
}

#[test]
fn coeff_vec_len_two() {
    // t_ind(2,..,2, dim=3) = 2*(3^6+3^5+3^4+3^3+3^2+3+1) = 2*1093 = 2186 → length=2187
    assert_eq!(coeff_vec_len(2), 2187);
}

#[test]
fn coeff_vec_len_is_seventh_power() {
    for n in 0..6usize {
        assert_eq!(coeff_vec_len(n), (n + 1).pow(7));
    }
}

// ── a_calc ───────────────────────────────────────────────────────────────────

#[test]
fn a_calc_n0_monopole() {
    let a = a_calc(0);
    assert_eq!(a.len(), 1);
    close(a[0] as f64, 1.0);
}

#[test]
fn a_calc_n1_seeds() {
    // Order-1 seed values from Hou 2016 Table 1
    let dim = 2; // n+1
    let a = a_calc(1);
    close(a[t_ind(1, 1, 0, 0, 0, 0, 0, dim)] as f64, 1.0);
    close(a[t_ind(1, 0, 1, 0, 0, 0, 0, dim)] as f64, 1.0);
    close(a[t_ind(1, 0, 0, 1, 0, 0, 0, dim)] as f64, 1.0);
    close(a[t_ind(1, 0, 0, 0, 1, 0, 0, dim)] as f64, -1.0);
    close(a[t_ind(1, 0, 0, 0, 0, 1, 0, dim)] as f64, -1.0);
    close(a[t_ind(1, 0, 0, 0, 0, 0, 1, dim)] as f64, -1.0);
}

#[test]
fn a_calc_order_two_values() {
    let dim = 3;
    let a = a_calc(2);
    assert_eq!(a.len(), 2187);
    // a(2; 2e1) = a(1; e1) = 1
    assert_eq!(a[t_ind(2, 2, 0, 0, 0, 0, 0, dim)], 1);
    // a(2; e1+e2) = a(1; e2) + a(1; e1) = 2
    assert_eq!(a[t_ind(2, 1, 1, 0, 0, 0, 0, dim)], 2);
    // a(2; e1+e4) = a(1; e4) − a(1; e1) = −2
    assert_eq!(a[t_ind(2, 1, 0, 0, 1, 0, 0, dim)], -2);
    // a(2; 2e6) = −a(1; e6) = 1
    assert_eq!(a[t_ind(2, 0, 0, 0, 0, 0, 2, dim)], 1);
    // off the simplex (indices summing to 1 at order 2): zero
    assert_eq!(a[t_ind(2, 1, 0, 0, 0, 0, 0, dim)], 0);
}

#[test]
fn a_calc_lower_orders_agree_across_truncations() {
    // the coefficient of a given index tuple does not depend on the truncation order
    let a2 = a_calc(2);
    let a3 = a_calc(3);
    for a in 0..3 { for b in 0..3 { for c in 0..3 { for d in 0..3 {
        for e in 0..3 { for f in 0..3 { for g in 0..3 {
            assert_eq!(a2[t_ind(a, b, c, d, e, f, g, 3)], a3[t_ind(a, b, c, d, e, f, g, 4)]);
        }}}
    }}}}
}

// ── b_calc ───────────────────────────────────────────────────────────────────

#[test]
fn b_calc_n0_monopole() {
    let b = b_calc(0);
    assert_eq!(b.len(), 1);
    close(b[0] as f64, 1.0);
}

#[test]
fn b_calc_n2_seeds() {
    // Order-2 seed values from Hou 2016 (B tensor structure)
    let dim = 3; // n+1
    let b = b_calc(2);
    close(b[t_ind(2, 2, 0, 0, 0, 0, 0, dim)] as f64, 1.0);
    close(b[t_ind(2, 0, 2, 0, 0, 0, 0, dim)] as f64, 1.0);
    close(b[t_ind(2, 0, 0, 2, 0, 0, 0, dim)] as f64, 1.0);
    close(b[t_ind(2, 0, 0, 0, 2, 0, 0, dim)] as f64, 1.0);
    close(b[t_ind(2, 0, 0, 0, 0, 2, 0, dim)] as f64, 1.0);
    close(b[t_ind(2, 0, 0, 0, 0, 0, 2, dim)] as f64, 1.0);
    close(b[t_ind(2, 1, 0, 0, 1, 0, 0, dim)] as f64, -2.0);
    close(b[t_ind(2, 0, 1, 0, 0, 1, 0, dim)] as f64, -2.0);
    close(b[t_ind(2, 0, 0, 1, 0, 0, 1, dim)] as f64, -2.0);
}

#[test]
fn b_calc_order_two_other_entries_zero() {
    let dim = 3;
    let b = b_calc(2);
    // a mixed pair that is not (j1,j4), (j2,j5) or (j3,j6)
    assert_eq!(b[t_ind(2, 1, 1, 0, 0, 0, 0, dim)], 0);
    assert_eq!(b[t_ind(2, 0, 0, 1, 1, 0, 0, dim)], 0);
}

#[test]
fn b_calc_odd_orders_vanish() {
    let n = 3;
    let dim = n + 1;
    let b = b_calc(n);
    for j1 in 0..dim { for j2 in 0..dim { for j3 in 0..dim {
        for j4 in 0..dim { for j5 in 0..dim { for j6 in 0..dim {
            if j1 + j2 + j3 + j4 + j5 + j6 == 1 || j1 + j2 + j3 + j4 + j5 + j6 == 3 {
                let k = j1 + j2 + j3 + j4 + j5 + j6;
                assert_eq!(b[t_ind(k, j1, j2, j3, j4, j5, j6, dim)], 0);
            }
        }}}
    }}}
}

#[test]
fn b_calc_order_four_value() {
    // b(4; 2e1+2e4) = −2·b(2; e1+e4) + b(2; 2e4) + b(2; 2e1) = 4 + 1 + 1 = 6
    let b = b_calc(4);
    assert_eq!(b[t_ind(4, 2, 0, 0, 2, 0, 0, 5)], 6);
    // b(4; 4e1) = b(2; 2e1) = 1
    assert_eq!(b[t_ind(4, 4, 0, 0, 0, 0, 0, 5)], 1);
}
