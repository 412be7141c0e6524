//! [`Cube`]: the 3-D array that holds inertia integrals `T_{lmn}`.

use vstd::prelude::*;
use vstd::std_specs::ops::AddSpec;

verus! {

/// Number of cells of a cube of the given order: `(order+1)³`.
pub open spec fn cube_len(order: int) -> int {
    (order + 1) * (order + 1) * (order + 1)
}

/// Row-major flat position of cell `(l, m, n)`:
/// `l·(order+1)² + m·(order+1) + n`.
pub open spec fn cell_index(order: int, l: int, m: int, n: int) -> int {
    l * (order + 1) * (order + 1) + m * (order + 1) + n
}

/// Whether `(l, m, n)` addresses a cell of a cube of the given order.
pub open spec fn in_cube(order: int, l: int, m: int, n: int) -> bool {
    0 <= l <= order && 0 <= m <= order && 0 <= n <= order
}

/// A 3-D array of size `(order+1) × (order+1) × (order+1)`, indexed
/// `(l, m, n)` with row-major flat storage.
#[derive(Clone, Debug)]
pub struct Cube<T> {
    pub order: usize,
    data: Vec<T>,
}

/// `order + 1 ≤ (order+1)² ≤ (order+1)³`, and the flat position of an
/// in-range cell lies inside the storage.
pub proof fn lemma_cube_layout(order: int, l: int, m: int, n: int)
    requires
        order >= 0,
    ensures
        0 < order + 1 <= (order + 1) * (order + 1) <= cube_len(order),
        in_cube(order, l, m, n) ==> 0 <= cell_index(order, l, m, n) < cube_len(order),
{
    let s = order + 1;
    assert(0 < s <= s * s <= s * s * s) by (nonlinear_arith) requires s >= 1;
    if in_cube(order, l, m, n) {
        assert(0 <= l * s * s + m * s + n < s * s * s) by (nonlinear_arith)
            requires
                0 <= l < s,
                0 <= m < s,
                0 <= n < s,
        {
            assert(l * s * s <= (s - 1) * s * s);
            assert(m * s <= (s - 1) * s);
        }
    }
}

/// Distinct in-range cells occupy distinct storage positions.
pub proof fn lemma_cell_index_injective(order: int, l: int, m: int, n: int, l2: int, m2: int, n2: int)
    requires
        order >= 0,
        in_cube(order, l, m, n),
        in_cube(order, l2, m2, n2),
        cell_index(order, l, m, n) == cell_index(order, l2, m2, n2),
    ensures
        l == l2 && m == m2 && n == n2,
{
    let s = order + 1;
    assert(cell_index(order, l, m, n) == (l * s + m) * s + n) by (nonlinear_arith)
        requires s == order + 1;
    assert(cell_index(order, l2, m2, n2) == (l2 * s + m2) * s + n2) by (nonlinear_arith)
        requires s == order + 1;
    vstd::arithmetic::div_mod::lemma_fundamental_div_mod_converse(cell_index(order, l, m, n), s, l * s + m, n);
    vstd::arithmetic::div_mod::lemma_fundamental_div_mod_converse(cell_index(order, l, m, n), s, l2 * s + m2, n2);
    vstd::arithmetic::div_mod::lemma_fundamental_div_mod_converse(l * s + m, s, l, m);
    vstd::arithmetic::div_mod::lemma_fundamental_div_mod_converse(l * s + m, s, l2, m2);
}

/// Every storage position of a cube is the position of an in-range cell.
pub proof fn lemma_cell_index_onto(order: int, p: int) -> (c: (int, int, int))
    requires
        order >= 0,
        0 <= p < cube_len(order),
    ensures
        in_cube(order, c.0, c.1, c.2),
        cell_index(order, c.0, c.1, c.2) == p,
        c == (p / (order + 1) / (order + 1), p / (order + 1) % (order + 1), p % (order + 1)),
{
    let s = order + 1;
    let n = p % s;
    let q = p / s;
    let m = q % s;
    let l = q / s;
    vstd::arithmetic::div_mod::lemma_fundamental_div_mod(p, s);
    vstd::arithmetic::div_mod::lemma_fundamental_div_mod(q, s);
    vstd::arithmetic::div_mod::lemma_mod_bound(p, s);
    vstd::arithmetic::div_mod::lemma_mod_bound(q, s);
    vstd::arithmetic::div_mod::lemma_div_pos_is_pos(p, s);
    vstd::arithmetic::div_mod::lemma_div_pos_is_pos(q, s);
    assert(p == (l * s + m) * s + n) by (nonlinear_arith)
        requires
            p == s * q + n,
            q == s * l + m,
    ;
    assert(cell_index(order, l, m, n) == (l * s + m) * s + n) by (nonlinear_arith)
        requires s == order + 1;
    if l >= s {
        assert((l * s + m) * s + n >= s * s * s) by (nonlinear_arith)
            requires
                l >= s,
                s >= 1,
                m >= 0,
                n >= 0,
        ;
        assert(false);
    }
    (l, m, n)
}

impl<T> Cube<T> {
    /// The cube's order (`order + 1` cells per axis).
    pub closed spec fn order_of(&self) -> int {
        self.order as int
    }

    /// Whether the storage holds exactly `(order+1)³` cells.
    pub closed spec fn wf(&self) -> bool {
        &&& self.data@.len() == cube_len(self.order as int)
        &&& cube_len(self.order as int) <= usize::MAX
    }

    /// The value in cell `(l, m, n)`: storage position `cell_index(order, l, m, n)`.
    pub closed spec fn cell(&self, l: int, m: int, n: int) -> T {
        self.data@[cell_index(self.order as int, l, m, n)]
    }
}

impl<T: Copy> Cube<T> {
    pub fn new(order: usize) -> (c: Self)
        where T: Default
        requires
            cube_len(order as int) <= usize::MAX,
        ensures
            c.wf(),
            c.order_of() == order,
            forall|l: int, m: int, n: int|
                in_cube(order as int, l, m, n) ==> #[trigger] c.cell(l, m, n) == c.cell(0, 0, 0),
            forall|l: int, m: int, n: int|
                in_cube(order as int, l, m, n) ==> call_ensures(T::default, (), #[trigger] c.cell(l, m, n)),
    {
        proof {
            lemma_cube_layout(order as int, 0, 0, 0);
            assert forall|l: int, m: int, n: int| in_cube(order as int, l, m, n)
                implies 0 <= #[trigger] cell_index(order as int, l, m, n) < cube_len(order as int) by {
                lemma_cube_layout(order as int, l, m, n);
            }
        }
        let sz = order + 1;
        let len = sz * sz * sz;
        let z = T::default();
        let mut data: Vec<T> = Vec::new();
        let mut i: usize = 0;
        while i < len
            invariant
                i <= len,
                data@.len() == i,
                forall|q: int| 0 <= q < i ==> data@[q] == z,
                call_ensures(T::default, (), z),
            decreases len - i,
        {
            data.push(z);
            i = i + 1;
        }
        Cube { order, data }
    }
}

impl<T: Copy> Cube<T> {
    /// Storage position of cell `(l, m, n)`.
    fn idx(&self, l: usize, m: usize, n: usize) -> (i: usize)
        requires
            self.wf(),
            in_cube(self.order_of(), l as int, m as int, n as int),
        ensures
            i == cell_index(self.order_of(), l as int, m as int, n as int),
            i < self.data@.len(),
    {
        proof {
            lemma_cube_layout(self.order as int, l as int, m as int, n as int);
        }
        let sz = self.order + 1;
        proof {
            let s = sz as int;
            assert(l * s * s <= l * s * s + m * s + n) by (nonlinear_arith)
                requires
                    m >= 0,
                    n >= 0,
                    s >= 0,
            ;
            assert(0 <= l * s * s) by (nonlinear_arith) requires l >= 0, s >= 0;
            assert(0 <= m * s) by (nonlinear_arith) requires m >= 0, s >= 0;
            assert(0 <= l * s <= l * s * s) by (nonlinear_arith) requires l >= 0, s >= 1;
        }
        l * sz * sz + m * sz + n
    }

    /// The value in cell `(l, m, n)`.
    pub fn get(&self, l: usize, m: usize, n: usize) -> (v: T)
        requires
            self.wf(),
            in_cube(self.order_of(), l as int, m as int, n as int),
        ensures
            v == self.cell(l as int, m as int, n as int),
    {
        let i = self.idx(l, m, n);
        self.data[i]
    }

    /// Store `val` in cell `(l, m, n)`; every other cell keeps its value.
    pub fn set(&mut self, l: usize, m: usize, n: usize, val: T)
        requires
            old(self).wf(),
            in_cube(old(self).order_of(), l as int, m as int, n as int),
        ensures
            final(self).wf(),
            final(self).order_of() == old(self).order_of(),
            final(self).cell(l as int, m as int, n as int) == val,
            forall|l2: int, m2: int, n2: int|
                in_cube(old(self).order_of(), l2, m2, n2) && !(l2 == l && m2 == m && n2 == n)
                    ==> #[trigger] final(self).cell(l2, m2, n2) == old(self).cell(l2, m2, n2),
    {
        let i = self.idx(l, m, n);
        self.data.set(i, val);
        proof {
            assert forall|l2: int, m2: int, n2: int|
                in_cube(old(self).order_of(), l2, m2, n2) && !(l2 == l && m2 == m && n2 == n)
                implies #[trigger] self.cell(l2, m2, n2) == old(self).cell(l2, m2, n2) by {
                lemma_cube_layout(self.order as int, l2, m2, n2);
                if cell_index(self.order as int, l2, m2, n2) == i {
                    lemma_cell_index_injective(self.order as int, l2, m2, n2, l as int, m as int, n as int);
                }
            }
        }
    }

    /// Add `val` to cell `(l, m, n)`; every other cell keeps its value.
    pub fn add(&mut self, l: usize, m: usize, n: usize, val: T)
        where T: core::ops::Add<Output = T>
        requires
            old(self).wf(),
            in_cube(old(self).order_of(), l as int, m as int, n as int),
            old(self).cell(l as int, m as int, n as int).add_req(val),
        ensures
            final(self).wf(),
            final(self).order_of() == old(self).order_of(),
            call_ensures(T::add, (old(self).cell(l as int, m as int, n as int), val),
                final(self).cell(l as int, m as int, n as int)),
            T::obeys_add_spec() ==> final(self).cell(l as int, m as int, n as int)
                == old(self).cell(l as int, m as int, n as int).add_spec(val),
            forall|l2: int, m2: int, n2: int|
                in_cube(old(self).order_of(), l2, m2, n2) && !(l2 == l && m2 == m && n2 == n)
                    ==> #[trigger] final(self).cell(l2, m2, n2) == old(self).cell(l2, m2, n2),
    {
        let cur = self.get(l, m, n);
        self.set(l, m, n, cur + val);
    }

    /// Reset every cell to the value `T::default()` returns (zero for numbers).
    pub fn zeros(&mut self)
        where T: Default
        requires
            old(self).wf(),
        ensures
            final(self).wf(),
            final(self).order_of() == old(self).order_of(),
            forall|l: int, m: int, n: int|
                in_cube(old(self).order_of(), l, m, n) ==> #[trigger] final(self).cell(l, m, n) == final(self).cell(0, 0, 0),
            forall|l: int, m: int, n: int|
                in_cube(old(self).order_of(), l, m, n) ==> call_ensures(T::default, (), #[trigger] final(self).cell(l, m, n)),
    {
        let z = T::default();
        let len = self.data.len();
        let mut i: usize = 0;
        while i < len
            invariant
                i <= len,
                len == self.data@.len(),
                self.wf(),
                self.order == old(self).order,
                forall|q: int| 0 <= q < i ==> self.data@[q] == z,
                call_ensures(T::default, (), z),
            decreases len - i,
        {
            self.data.set(i, z);
            i = i + 1;
        }
        proof {
            lemma_cube_layout(self.order as int, 0, 0, 0);
            assert forall|l: int, m: int, n: int|
                in_cube(old(self).order_of(), l, m, n) implies #[trigger] self.cell(l, m, n) == self.cell(0, 0, 0) by {
                lemma_cube_layout(self.order as int, l, m, n);
            }
        }
    }
}

/// Whether `rows` holds cube `c` in the CSV layout: slice `n` of the cube
/// (all `(l, m)` with fixed `n`) occupies rows `n·(order+1) .. n·(order+1)+order`,
/// row `n·(order+1) + l` holding `T[l][0..=order][n]`.
pub open spec fn rows_hold_cube<T>(rows: Seq<Vec<T>>, c: Cube<T>) -> bool {
    let s = c.order_of() + 1;
    &&& rows.len() >= s * s
    &&& forall|q: int| 0 <= q < s * s ==> (#[trigger] rows[q])@.len() >= s
    &&& forall|l: int, m: int, n: int|
        in_cube(c.order_of(), l, m, n) ==> rows[n * s + l]@[m] == #[trigger] c.cell(l, m, n)
}

/// Split a storage position into its cell `(l, m, n)`.
fn split_index(p: usize, sz: usize) -> (c: (usize, usize, usize))
    requires
        sz >= 1,
        p < cube_len(sz - 1),
    ensures
        in_cube(sz - 1, c.0 as int, c.1 as int, c.2 as int),
        cell_index(sz - 1, c.0 as int, c.1 as int, c.2 as int) == p,
{
    proof {
        lemma_cell_index_onto(sz - 1, p as int);
    }
    (p / sz / sz, p / sz % sz, p % sz)
}

impl<T: Copy> Cube<T> {
    /// The cube in CSV layout: `(order+1)²` rows of `order+1` values, slice
    /// `n` after slice `n − 1`, row `n·(order+1) + l` holding `T[l][·][n]`.
    pub fn csv_rows(&self) -> (rows: Vec<Vec<T>>)
        requires
            self.wf(),
        ensures
            rows@.len() == (self.order_of() + 1) * (self.order_of() + 1),
            forall|q: int| 0 <= q < rows@.len() ==> (#[trigger] rows@[q])@.len() == self.order_of() + 1,
            rows_hold_cube(rows@, *self),
    {
        proof {
            lemma_cube_layout(self.order as int, 0, 0, 0);
        }
        let sz = self.order + 1;
        let nrows = sz * sz;
        let ghost s = sz as int;
        let mut rows: Vec<Vec<T>> = Vec::new();
        let mut q: usize = 0;
        while q < nrows
            invariant
                self.wf(),
                sz == self.order + 1,
                s == sz,
                nrows == s * s,
                q <= nrows,
                rows@.len() == q,
                forall|r: int| 0 <= r < q ==> (#[trigger] rows@[r])@.len() == s,
                forall|l: int, m: int, n: int|
                    in_cube(self.order_of(), l, m, n) && n * s + l < q
                        ==> rows@[n * s + l]@[m] == #[trigger] self.cell(l, m, n),
            decreases nrows - q,
        {
            let n = q / sz;
            let l = q % sz;
            proof {
                vstd::arithmetic::div_mod::lemma_fundamental_div_mod(q as int, s);
                vstd::arithmetic::div_mod::lemma_mod_bound(q as int, s);
                vstd::arithmetic::mul::lemma_mul_is_commutative(s, n as int);
                if n >= sz {
                    assert(n * s >= s * s) by (nonlinear_arith) requires n >= s, s >= 1;
                }
            }
            let mut row: Vec<T> = Vec::new();
            let mut m: usize = 0;
            while m < sz
                invariant
                    self.wf(),
                    sz == self.order + 1,
                    s == sz,
                    l < sz,
                    n < sz,
                    m <= sz,
                    row@.len() == m,
                    forall|m2: int| 0 <= m2 < m ==> row@[m2] == #[trigger] self.cell(l as int, m2, n as int),
                decreases sz - m,
            {
                row.push(self.get(l, m, n));
                m = m + 1;
            }
            rows.push(row);
            proof {
                assert forall|l2: int, m2: int, n2: int|
                    in_cube(self.order_of(), l2, m2, n2) && n2 * s + l2 < q + 1
                    implies rows@[n2 * s + l2]@[m2] == #[trigger] self.cell(l2, m2, n2) by {
                    if n2 * s + l2 == q {
                        vstd::arithmetic::div_mod::lemma_fundamental_div_mod_converse(q as int, s, n2, l2);
                    }
                }
            }
            q = q + 1;
        }
        proof {
            assert forall|l: int, m: int, n: int|
                in_cube(self.order_of(), l, m, n)
                implies rows@[n * s + l]@[m] == #[trigger] self.cell(l, m, n) by {
                assert(0 <= n * s + l < s * s) by (nonlinear_arith)
                    requires
                        0 <= n < s,
                        0 <= l < s,
                {
                    assert(n * s <= (s - 1) * s);
                }
            }
        }
        rows
    }

    /// Build a cube from rows in the CSV layout written by [`Cube::csv_rows`]:
    /// the order is the length of the first row minus one; rows and columns
    /// past the cube are ignored.
    pub fn from_csv_rows(rows: &Vec<Vec<T>>) -> (c: Self)
        where T: Default
        requires
            rows@.len() >= 1,
            rows@[0]@.len() >= 1,
            cube_len(rows@[0]@.len() - 1) <= usize::MAX,
            rows@.len() >= rows@[0]@.len() * rows@[0]@.len(),
            forall|q: int| 0 <= q < rows@[0]@.len() * rows@[0]@.len() ==> (#[trigger] rows@[q])@.len() >= rows@[0]@.len(),
        ensures
            c.wf(),
            c.order_of() == rows@[0]@.len() - 1,
            rows_hold_cube(rows@, c),
    {
        let sz = rows[0].len();
        let order = sz - 1;
        let mut c: Cube<T> = Cube::new(order);
        proof {
            lemma_cube_layout(order as int, 0, 0, 0);
        }
        let len = sz * sz * sz;
        let ghost s = sz as int;
        let mut p: usize = 0;
        while p < len
            invariant
                c.wf(),
                c.order_of() == order,
                sz == order + 1,
                s == sz,
                len == cube_len(order as int),
                sz == rows@[0]@.len(),
                rows@.len() >= s * s,
                forall|q: int| 0 <= q < s * s ==> (#[trigger] rows@[q])@.len() >= s,
                p <= len,
                forall|l: int, m: int, n: int|
                    in_cube(order as int, l, m, n) && cell_index(order as int, n, l, m) < p
                        ==> rows@[n * s + l]@[m] == #[trigger] c.cell(l, m, n),
            decreases len - p,
        {
            let (n, l, m) = split_index(p, sz);
            proof {
                lemma_cube_layout(order as int, 0, 0, 0);
                assert(0 <= n * s + l < s * s) by (nonlinear_arith)
                    requires
                        0 <= n < s,
                        0 <= l < s,
                {
                    assert(n * s <= (s - 1) * s);
                }
            }
            let v = rows[n * sz + l][m];
            let ghost c_before = c;
            c.set(l, m, n, v);
            proof {
                assert forall|l2: int, m2: int, n2: int|
                    in_cube(order as int, l2, m2, n2) && cell_index(order as int, n2, l2, m2) < p + 1
                    implies rows@[n2 * s + l2]@[m2] == #[trigger] c.cell(l2, m2, n2) by {
                    if cell_index(order as int, n2, l2, m2) == p {
                        lemma_cell_index_injective(order as int, n2, l2, m2, n as int, l as int, m as int);
                    } else {
                        assert(c_before.cell(l2, m2, n2) == c.cell(l2, m2, n2));
                    }
                }
            }
            p = p + 1;
        }
        proof {
            assert forall|l: int, m: int, n: int|
                in_cube(order as int, l, m, n) implies rows@[n * s + l]@[m] == #[trigger] c.cell(l, m, n) by {
                lemma_cube_layout(order as int, n, l, m);
            }
        }
        c
    }
}

/// CSV round trip: a cube rebuilt from the rows that hold another cube of the
/// same order has the same value in every cell.
pub proof fn lemma_csv_round_trip<T>(rows: Seq<Vec<T>>, c: Cube<T>, c2: Cube<T>)
    requires
        rows_hold_cube(rows, c),
        rows_hold_cube(rows, c2),
        c.order_of() == c2.order_of(),
    ensures
        forall|l: int, m: int, n: int|
            in_cube(c.order_of(), l, m, n) ==> #[trigger] c2.cell(l, m, n) == c.cell(l, m, n),
{
}

// ── expansion orders of a run ─────────────────────────────────────────────────

/// The larger of two orders.
pub open spec fn order_max(a: int, b: int) -> int {
    if a >= b { a } else { b }
}

/// The expansion orders a run works with, from the requested global order
/// and per-body orders and the body shapes (`2` = polyhedron): a polyhedral
/// body's integrals are generated to at least the global order, and the
/// global order is raised to the largest body order.  Returns
/// `(order, order_a, order_b)`.
pub fn expansion_orders(order: usize, order_a: usize, order_b: usize, a_shape: i32, b_shape: i32)
    -> (r: (usize, usize, usize))
    ensures
        r.1 == (if a_shape == 2 { order_max(order_a as int, order as int) } else { order_a as int }),
        r.2 == (if b_shape == 2 { order_max(order_b as int, order as int) } else { order_b as int }),
        r.0 == order_max(order_max(order as int, r.1 as int), r.2 as int),
{
    let mut oa = order_a;
    let mut ob = order_b;
    if a_shape == 2 {
        oa = if order_a >= order { order_a } else { order };
    }
    if b_shape == 2 {
        ob = if order_b >= order { order_b } else { order };
    }
    let o1 = if order >= oa { order } else { oa };
    let o = if o1 >= ob { o1 } else { ob };
    (o, oa, ob)
}

/// Whatever the shapes, the run's order is the largest of the three requested
/// orders, and a polyhedral body's order is at least the requested global one.
pub proof fn lemma_expansion_order_is_max(order: int, order_a: int, order_b: int, a_shape: int, b_shape: int)
    ensures
        ({
            let oa = if a_shape == 2 { order_max(order_a, order) } else { order_a };
            let ob = if b_shape == 2 { order_max(order_b, order) } else { order_b };
            &&& order_max(order_max(order, oa), ob) == order_max(order_max(order, order_a), order_b)
            &&& a_shape == 2 ==> oa >= order
            &&& b_shape == 2 ==> ob >= order
        }),
{
}

} // verus!
