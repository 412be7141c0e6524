use gubas_rs::stokes::{inertia_indices, stokes_row_labels, Normalization};

// ── inertia_indices ───────────────────────────────────────────────────────

#[test]
fn inertia_indices_degree2_count() {
    // Monomials of total degree 2: (2,0,0),(1,1,0),(1,0,1),(0,2,0),(0,1,1),(0,0,2) → 6
    let idx = inertia_indices(2, 2);
    assert_eq!(idx.len(), 6);
    // All must satisfy i+j+k = 2
    for (i, j, k) in &idx { assert_eq!(i + j + k, 2); }
}

#[test]
fn inertia_indices_cumulative_count() {
    // l=0: 1,  l=1: 3,  l=2: 6 → total 0..=2: 10
    let idx = inertia_indices(0, 2);
    assert_eq!(idx.len(), 10);
}

#[test]
fn inertia_indices_includes_pure_axes() {
    let idx = inertia_indices(2, 2);
    assert!(idx.contains(&(2, 0, 0)));
    assert!(idx.contains(&(0, 2, 0)));
    assert!(idx.contains(&(0, 0, 2)));
    assert!(idx.contains(&(1, 1, 0)));
}

#[test]
fn inertia_indices_exact_order_degree2() {
    let idx = inertia_indices(2, 2);
    assert_eq!(idx, vec![(0, 0, 2), (0, 1, 1), (0, 2, 0), (1, 0, 1), (1, 1, 0), (2, 0, 0)]);
}

#[test]
fn inertia_indices_degree_blocks_in_order() {
    let idx = inertia_indices(2, 4);
    // n_theta = 6 + 10 + 15 = 31
    assert_eq!(idx.len(), 31);
    assert!(idx[..6].iter().all(|&(i, j, k)| i + j + k == 2));
    assert!(idx[6..16].iter().all(|&(i, j, k)| i + j + k == 3));
    assert!(idx[16..].iter().all(|&(i, j, k)| i + j + k == 4));
}

#[test]
fn inertia_indices_empty_range() {
    assert!(inertia_indices(3, 2).is_empty());
}

#[test]
fn inertia_indices_count_is_tetrahedral_difference() {
    // Σ_{l=min}^{max} (l+1)(l+2)/2 = T(max+1) − T(min),  T(n) = n(n+1)(n+2)/6
    let t = |n: usize| n * (n + 1) * (n + 2) / 6;
    for min in 0..5usize {
        for max in min..7usize {
            assert_eq!(inertia_indices(min, max).len(), t(max + 1) - t(min));
        }
    }
}

// ── stokes_row_labels ─────────────────────────────────────────────────────

#[test]
fn stokes_row_labels_degree2() {
    let labels = stokes_row_labels(2, 2);
    // C20, C21, S21, C22, S22  → 5 rows
    assert_eq!(labels.len(), 5);
    assert_eq!(labels[0], (2, 0, false)); // C20
    assert_eq!(labels[1], (2, 1, false)); // C21
    assert_eq!(labels[2], (2, 1, true));  // S21
    assert_eq!(labels[3], (2, 2, false)); // C22
    assert_eq!(labels[4], (2, 2, true));  // S22
}

#[test]
fn stokes_row_labels_range_count() {
    // For l=2..=4: 5 + 7 + 9 = 21 rows
    let labels = stokes_row_labels(2, 4);
    assert_eq!(labels.len(), 21);
}

#[test]
fn stokes_row_labels_count_closed_form() {
    // Σ_{l=min}^{max} (2l+1) = (max+1)² − min²
    for min in 0..5usize {
        for max in min..7usize {
            assert_eq!(stokes_row_labels(min, max).len(), (max + 1) * (max + 1) - min * min);
        }
    }
}

#[test]
fn stokes_row_labels_no_sine_at_order_zero() {
    let labels = stokes_row_labels(0, 4);
    assert!(labels.iter().all(|&(l, m, s)| m <= l && !(m == 0 && s)));
    assert_eq!(labels[0], (0, 0, false));
}

#[test]
fn stokes_matrix_is_fat_per_degree() {
    // T_{ijk} count minus C/S count per degree: 1, 3, 6 for l = 2, 3, 4
    for (l, surplus) in [(2usize, 1usize), (3, 3), (4, 6)] {
        let n_theta = inertia_indices(l, l).len();
        let n_cs = stokes_row_labels(l, l).len();
        assert_eq!(n_theta - n_cs, surplus);
        assert_eq!(surplus, l * (l - 1) / 2);
    }
}

#[test]
fn normalization_variants_compare() {
    assert_eq!(Normalization::Unnormalized, Normalization::Unnormalized);
    assert_ne!(Normalization::Unnormalized, Normalization::FullyNormalized);
}
