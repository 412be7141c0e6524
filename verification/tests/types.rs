use gubas_rs::types::Cube;

#[test]
fn cube_new_all_zeros() {
    let c = Cube::<f64>::new(2);
    for i in 0..=2 { for j in 0..=2 { for k in 0..=2 {
        assert_eq!(c.get(i, j, k), 0.0);
    }}}
}

#[test]
fn cube_set_get_roundtrip() {
    let mut c = Cube::new(3);
    c.set(1, 2, 3, 42.0);
    assert_eq!(c.get(1, 2, 3), 42.0);
    assert_eq!(c.get(0, 0, 0), 0.0); // others unaffected
}

#[test]
fn cube_add_accumulates() {
    let mut c = Cube::new(2);
    c.set(1, 1, 1, 3.0);
    c.add(1, 1, 1, 7.0);
    assert_eq!(c.get(1, 1, 1), 10.0);
}

#[test]
fn cube_zeros_resets_all() {
    let mut c = Cube::new(2);
    c.set(0, 1, 2, 99.0);
    c.zeros();
    assert_eq!(c.get(0, 1, 2), 0.0);
}

#[test]
fn cube_extremes_addressable() {
    // Can write to and read from the [0,0,0] and [n,n,n] corners
    let n = 4;
    let mut c = Cube::new(n);
    c.set(0, 0, 0, 1.0);
    c.set(n, n, n, 2.0);
    assert_eq!(c.get(0, 0, 0), 1.0);
    assert_eq!(c.get(n, n, n), 2.0);
}

#[test]
fn cube_order_field_matches_constructor() {
    let c = Cube::<f64>::new(5);
    assert_eq!(c.order, 5);
}

#[test]
fn cube_set_touches_one_cell_only() {
    let mut c = Cube::<i64>::new(2);
    c.set(2, 1, 0, 7);
    for i in 0..=2 { for j in 0..=2 { for k in 0..=2 {
        let expected = if (i, j, k) == (2, 1, 0) { 7 } else { 0 };
        assert_eq!(c.get(i, j, k), expected);
    }}}
}

#[test]
fn cube_csv_rows_layout() {
    // row s*(order+1) + l, column m holds T[l][m][s]
    let mut c = Cube::<f64>::new(1);
    c.set(0, 1, 0, 1.5);
    c.set(1, 0, 1, -2.0);
    let rows = c.csv_rows();
    assert_eq!(rows.len(), 4);
    assert!(rows.iter().all(|r| r.len() == 2));
    assert_eq!(rows[0], vec![0.0, 1.5]);
    assert_eq!(rows[3], vec![-2.0, 0.0]);
}

#[test]
fn cube_csv_round_trip() {
    let mut c = Cube::<f64>::new(2);
    let mut v = 0.0;
    for i in 0..=2 { for j in 0..=2 { for k in 0..=2 {
        v += 1.25;
        c.set(i, j, k, v);
    }}}
    let back = Cube::from_csv_rows(&c.csv_rows());
    assert_eq!(back.order, 2);
    for i in 0..=2 { for j in 0..=2 { for k in 0..=2 {
        assert_eq!(back.get(i, j, k), c.get(i, j, k));
    }}}
}

#[test]
fn cube_from_rows_ignores_extra_rows_and_columns() {
    // order is taken from the first row; later extras are ignored
    let rows = vec![
        vec![1.0, 2.0],
        vec![3.0, 4.0, 99.0],
        vec![5.0, 6.0],
        vec![7.0, 8.0],
        vec![100.0, 100.0],
    ];
    let c = Cube::from_csv_rows(&rows);
    assert_eq!(c.order, 1);
    assert_eq!(c.get(0, 0, 0), 1.0);
    assert_eq!(c.get(0, 1, 0), 2.0);
    assert_eq!(c.get(1, 0, 0), 3.0);
    assert_eq!(c.get(1, 1, 0), 4.0);
    assert_eq!(c.get(0, 0, 1), 5.0);
    assert_eq!(c.get(1, 1, 1), 8.0);
}

use gubas_rs::types::expansion_orders;

#[test]
fn expansion_orders_raise_polyhedron_orders() {
    // polyhedral primary at order_a = 2 is raised to the global order 4
    assert_eq!(expansion_orders(4, 2, 3, 2, 1), (4, 4, 3));
    // an ellipsoid keeps its own order; the global order follows the largest
    assert_eq!(expansion_orders(2, 4, 0, 1, 0), (4, 4, 0));
    // both polyhedral
    assert_eq!(expansion_orders(3, 1, 5, 2, 2), (5, 3, 5));
}
