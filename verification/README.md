# gubas_rs

Binary-asteroid mutual-gravity simulator (Hou 2016 full two-body problem),
split in two:

- `src/` — the verified library (Verus):
  - `coefficients`: the flat layout `t_ind` of the 7-D expansion tables, their
    length `coeff_vec_len(n) = (n+1)⁷`, and the exact integer `a` / `b`
    coefficient tables (`a_calc`, `b_calc`) with the recursions they satisfy;
  - `stokes`: the inertia-integral index list `inertia_indices`, the Stokes
    row labels `stokes_row_labels`, the `Normalization` convention, and the
    counting laws relating them;
  - `types`: the `Cube` 3-D container (row-major cells, read/write, CSV
    layout and its round trip) and the run's expansion orders.
- `app/` — the floating-point physics (dual numbers, potential, equations of
  motion, integrators, STM), file I/O, the command-line program and the
  Python interface.
- `tests/` — tests of the library.
