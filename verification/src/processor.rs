//! Tile partitioning: the deterministic rule that maps an `r x c` matrix
//! onto an `R x C` grid of near-equal tiles, and its cover law.
//!
//! Along one axis of length `m` split across `p` workers, the first
//! `m % p` tiles have length `m / p + 1` and the rest have length `m / p`.

pub mod probe;
pub mod taurus;

use vstd::prelude::*;
use vstd::arithmetic::div_mod::lemma_fundamental_div_mod;
use crate::types::Matrix;
use crate::types::mview;
use crate::types::is_grid;

verus! {

/// Length of tile `i` along an axis of length `m` split across `p` workers.
pub open spec fn axis_len(p: int, m: int, i: int) -> int {
    if i < m % p {
        m / p + 1
    } else {
        m / p
    }
}

/// Start offset of tile `i` along an axis of length `m` split across `p`
/// workers.
pub open spec fn axis_start(p: int, m: int, i: int) -> int {
    i * (m / p) + (if i <= m % p {
        i
    } else {
        m % p
    })
}

/// Consecutive tiles along an axis are adjacent.
pub proof fn lemma_axis_step(p: int, m: int, i: int)
    requires
        p >= 1,
        m >= 0,
        i >= 0,
    ensures
        axis_start(p, m, i + 1) == axis_start(p, m, i) + axis_len(p, m, i),
{
    assert((i + 1) * (m / p) == i * (m / p) + (m / p)) by (nonlinear_arith);
}

/// The tiles of an axis exhaust it exactly: the end of the last tile is `m`.
pub proof fn lemma_axis_total(p: int, m: int)
    requires
        p >= 1,
        m >= 0,
    ensures
        axis_start(p, m, p) == m,
{
    lemma_fundamental_div_mod(m, p);
    assert(m % p < p) by (nonlinear_arith)
        requires
            p >= 1,
            m >= 0,
    ;
    assert(axis_start(p, m, p) == p * (m / p) + m % p) by (nonlinear_arith)
        requires
            m % p < p,
    ;
}

/// Tile starts are monotone in the tile index.
pub proof fn lemma_axis_mono(p: int, m: int, i: int, j: int)
    requires
        p >= 1,
        m >= 0,
        0 <= i <= j,
    ensures
        axis_start(p, m, i) <= axis_start(p, m, j),
    decreases j - i,
{
    assert(m / p >= 0) by (nonlinear_arith)
        requires
            p >= 1,
            m >= 0,
    ;
    assert(m % p >= 0) by (nonlinear_arith)
        requires
            p >= 1,
            m >= 0,
    ;
    if i < j {
        lemma_axis_step(p, m, i);
        lemma_axis_mono(p, m, i + 1, j);
    }
}

/// The tile that covers offset `x` of the axis.
pub open spec fn axis_block(p: int, m: int, x: int) -> int {
    choose|i: int|
        0 <= i < p && #[trigger] axis_start(p, m, i) <= x < axis_start(p, m, i) + axis_len(p, m, i)
}

proof fn lemma_axis_cover_from(p: int, m: int, x: int, k: int)
    requires
        p >= 1,
        0 <= x < m,
        0 <= k < p,
        axis_start(p, m, k) <= x,
    ensures
        exists|i: int|
            0 <= i < p && #[trigger] axis_start(p, m, i) <= x < axis_start(p, m, i) + axis_len(
                p,
                m,
                i,
            ),
    decreases p - k,
{
    if x < axis_start(p, m, k) + axis_len(p, m, k) {
        assert(0 <= k < p && axis_start(p, m, k) <= x < axis_start(p, m, k) + axis_len(p, m, k));
    } else {
        lemma_axis_step(p, m, k);
        if k + 1 == p {
            lemma_axis_total(p, m);
            assert(false);
        } else {
            lemma_axis_cover_from(p, m, x, k + 1);
        }
    }
}

/// Every axis offset lies in exactly one tile: the tile `axis_block` names.
pub proof fn lemma_axis_block(p: int, m: int, x: int)
    requires
        p >= 1,
        0 <= x < m,
    ensures
        0 <= axis_block(p, m, x) < p,
        axis_start(p, m, axis_block(p, m, x)) <= x < axis_start(p, m, axis_block(p, m, x))
            + axis_len(p, m, axis_block(p, m, x)),
        forall|i: int|
            0 <= i < p && #[trigger] axis_start(p, m, i) <= x < axis_start(p, m, i) + axis_len(
                p,
                m,
                i,
            ) ==> i == axis_block(p, m, x),
{
    lemma_axis_cover_from(p, m, x, 0);
    let b = axis_block(p, m, x);
    assert(0 <= b < p && axis_start(p, m, b) <= x < axis_start(p, m, b) + axis_len(p, m, b));
    assert forall|i: int|
        0 <= i < p && #[trigger] axis_start(p, m, i) <= x < axis_start(p, m, i) + axis_len(
            p,
            m,
            i,
        ) implies i == b by {
        if i < b {
            lemma_axis_step(p, m, i);
            lemma_axis_mono(p, m, i + 1, b);
        } else if b < i {
            lemma_axis_step(p, m, b);
            lemma_axis_mono(p, m, b + 1, i);
        }
    }
}

/// The tile of a matrix at grid position `(i, j)` of a `pr x pc` partition.
pub open spec fn tile_of<E>(m: Seq<Seq<E>>, pr: int, pc: int, i: int, j: int) -> Seq<Seq<E>> {
    let rows = m.len() as int;
    let cols = crate::types::cols_of(m);
    Seq::new(
        axis_len(pr, rows, i) as nat,
        |r: int|
            m[axis_start(pr, rows, i) + r].subrange(
                axis_start(pc, cols, j),
                axis_start(pc, cols, j) + axis_len(pc, cols, j),
            ),
    )
}

/// The position and size of one worker's tile inside the full matrix.
#[derive(Copy, Clone, Debug, PartialEq, Eq, Structural)]
pub struct SubmatrixDim {
    pub start_row: usize,
    pub start_col: usize,
    pub width: usize,
    pub height: usize,
}

/// `d` is the tile of grid cell `(i, j)` for a `pr x pc` grid over an
/// `mr x mc` matrix.
pub open spec fn is_dim_at(d: SubmatrixDim, pr: int, pc: int, mr: int, mc: int, i: int, j: int) -> bool {
    &&& d.start_row == axis_start(pr, mr, i)
    &&& d.start_col == axis_start(pc, mc, j)
    &&& d.height == axis_len(pr, mr, i)
    &&& d.width == axis_len(pc, mc, j)
}

/// Tile lengths along one axis: the first `matrix_length % processor_length`
/// tiles are one longer than the rest.
pub fn get_submatrices_dim_along_axis(processor_length: usize, matrix_length: usize) -> (r: Vec<
    usize,
>)
    requires
        processor_length >= 1,
    ensures
        r@.len() == processor_length,
        forall|i: int|
            0 <= i < processor_length ==> #[trigger] r@[i] == axis_len(
                processor_length as int,
                matrix_length as int,
                i,
            ),
{
    let min_len: usize = matrix_length / processor_length;
    let remaining: usize = matrix_length % processor_length;
    let mut r: Vec<usize> = Vec::new();
    let mut i: usize = 0;
    while i < processor_length
        invariant
            0 <= i <= processor_length,
            processor_length >= 1,
            min_len == matrix_length as int / processor_length as int,
            remaining == matrix_length as int % processor_length as int,
            r@.len() == i,
            forall|k: int|
                0 <= k < i ==> #[trigger] r@[k] == axis_len(
                    processor_length as int,
                    matrix_length as int,
                    k,
                ),
        decreases processor_length - i,
    {
        if i < remaining {
            proof {
                lemma_fundamental_div_mod(matrix_length as int, processor_length as int);
                assert(min_len < matrix_length) by (nonlinear_arith)
                    requires
                        processor_length >= 1,
                        matrix_length as int == processor_length as int * (
                        matrix_length as int / processor_length as int) + matrix_length as int
                            % processor_length as int,
                        min_len == matrix_length as int / processor_length as int,
                        remaining == matrix_length as int % processor_length as int,
                        remaining > 0,
                ;
            }
            r.push(min_len + 1);
        } else {
            r.push(min_len);
        }
        i = i + 1;
    }
    r
}

/// The tiles of a `pr x pc` grid over an `mr x mc` matrix, in row-major
/// order by worker index: cell `(i, j)` gets tile `i * pc + j`.
pub fn get_submatrices_dim(
    processor_rows: usize,
    processor_cols: usize,
    matrix_rows: usize,
    matrix_cols: usize,
) -> (r: Vec<SubmatrixDim>)
    requires
        processor_rows >= 1,
        processor_cols >= 1,
        processor_rows * processor_cols <= usize::MAX,
    ensures
        r@.len() == processor_rows * processor_cols,
        forall|i: int, j: int|
            0 <= i < processor_rows && 0 <= j < processor_cols ==> is_dim_at(
                #[trigger] r@[i * processor_cols + j],
                processor_rows as int,
                processor_cols as int,
                matrix_rows as int,
                matrix_cols as int,
                i,
                j,
            ),
{
    let dim_along_y = get_submatrices_dim_along_axis(processor_rows, matrix_rows);
    let dim_along_x = get_submatrices_dim_along_axis(processor_cols, matrix_cols);
    let ghost pr = processor_rows as int;
    let ghost pc = processor_cols as int;
    let ghost mr = matrix_rows as int;
    let ghost mc = matrix_cols as int;
    let mut r: Vec<SubmatrixDim> = Vec::new();
    let mut start_row: usize = 0;
    let mut i: usize = 0;
    proof {
        lemma_axis_total(pr, mr);
        lemma_axis_total(pc, mc);
    }
    while i < processor_rows
        invariant
            0 <= i <= processor_rows,
            processor_rows >= 1,
            processor_cols >= 1,
            processor_rows * processor_cols <= usize::MAX,
            dim_along_y@.len() == processor_rows,
            forall|k: int| 0 <= k < pr ==> #[trigger] dim_along_y@[k] == axis_len(pr, mr, k),
            dim_along_x@.len() == processor_cols,
            forall|k: int| 0 <= k < pc ==> #[trigger] dim_along_x@[k] == axis_len(pc, mc, k),
            pr == processor_rows as int,
            pc == processor_cols as int,
            mr == matrix_rows as int,
            mc == matrix_cols as int,
            axis_start(pr, mr, pr) == mr,
            axis_start(pc, mc, pc) == mc,
            start_row == axis_start(pr, mr, i as int),
            r@.len() == i * pc,
            forall|a: int, b: int|
                0 <= a < i && 0 <= b < pc ==> is_dim_at(#[trigger] r@[a * pc + b], pr, pc, mr, mc, a, b),
        decreases processor_rows - i,
    {
        let height = dim_along_y[i];
        let mut start_col: usize = 0;
        let mut j: usize = 0;
        proof {
            assert(r@.len() == i * pc);
            assert((i + 1) * pc == i * pc + pc) by (nonlinear_arith);
            assert(i * pc + pc <= pr * pc) by (nonlinear_arith)
                requires
                    0 <= i < pr,
                    pc >= 1,
            ;
            lemma_axis_mono(pr, mr, i as int + 1, pr);
            lemma_axis_step(pr, mr, i as int);
        }
        while j < processor_cols
            invariant
                0 <= j <= processor_cols,
                0 <= i < processor_rows,
                pr == processor_rows as int,
                pc == processor_cols as int,
                mr == matrix_rows as int,
                mc == matrix_cols as int,
                processor_rows * processor_cols <= usize::MAX,
                dim_along_x@.len() == processor_cols,
                forall|k: int| 0 <= k < pc ==> #[trigger] dim_along_x@[k] == axis_len(pc, mc, k),
                axis_start(pc, mc, pc) == mc,
                height == axis_len(pr, mr, i as int),
                start_row == axis_start(pr, mr, i as int),
                start_row + height <= mr,
                start_col == axis_start(pc, mc, j as int),
                r@.len() == i * pc + j,
                i * pc + pc <= pr * pc,
                forall|a: int, b: int|
                    0 <= a < i && 0 <= b < pc ==> is_dim_at(
                        #[trigger] r@[a * pc + b],
                        pr,
                        pc,
                        mr,
                        mc,
                        a,
                        b,
                    ),
                forall|b: int|
                    0 <= b < j ==> is_dim_at(#[trigger] r@[i as int * pc + b], pr, pc, mr, mc, i as int, b),
            decreases processor_cols - j,
        {
            let width = dim_along_x[j];
            proof {
                lemma_axis_mono(pc, mc, j as int + 1, pc);
                lemma_axis_step(pc, mc, j as int);
            }
            r.push(SubmatrixDim { start_row, start_col, width, height });
            proof {
                assert forall|a: int, b: int| 0 <= a < i && 0 <= b < pc implies is_dim_at(
                    #[trigger] r@[a * pc + b],
                    pr,
                    pc,
                    mr,
                    mc,
                    a,
                    b,
                ) by {
                    assert(a * pc + b < i * pc) by (nonlinear_arith)
                        requires
                            0 <= a < i,
                            0 <= b < pc,
                    ;
                }
            }
            start_col = start_col + width;
            j = j + 1;
        }
        start_row = start_row + height;
        i = i + 1;
    }
    proof {
        assert(r@.len() == pr * pc) by (nonlinear_arith)
            requires
                r@.len() == pr * pc,
    ;
    }
    r
}

/// Cut a matrix into the slices the given tile descriptors name.
pub fn get_matrix_slices<K: Copy>(matrix: &Matrix<K>, dims: &Vec<SubmatrixDim>) -> (r: Vec<
    Matrix<K>,
>)
    requires
        forall|d: int|
            0 <= d < dims@.len() ==> (#[trigger] dims@[d]).start_row + dims@[d].height
                <= matrix@.len() && forall|row: int|
                0 <= row < matrix@.len() ==> dims@[d].start_col + dims@[d].width
                    <= #[trigger] matrix@[row]@.len(),
    ensures
        r@.len() == dims@.len(),
        forall|d: int|
            0 <= d < dims@.len() ==> (#[trigger] r@[d])@.len() == dims@[d].height,
        forall|d: int, a: int|
            0 <= d < dims@.len() && 0 <= a < dims@[d].height ==> (#[trigger] r@[d]@[a])@.len()
                == dims@[d].width,
        forall|d: int, a: int, b: int|
            0 <= d < dims@.len() && 0 <= a < dims@[d].height && 0 <= b < dims@[d].width
                ==> #[trigger] r@[d]@[a]@[b] == matrix@[dims@[d].start_row + a]@[dims@[d].start_col
                + b],
{
    let mut r: Vec<Matrix<K>> = Vec::new();
    let mut d: usize = 0;
    while d < dims.len()
        invariant
            0 <= d <= dims@.len(),
            forall|t: int|
                0 <= t < dims@.len() ==> (#[trigger] dims@[t]).start_row + dims@[t].height
                    <= matrix@.len() && forall|row: int|
                    0 <= row < matrix@.len() ==> dims@[t].start_col + dims@[t].width
                        <= #[trigger] matrix@[row]@.len(),
            r@.len() == d,
            forall|t: int|
                0 <= t < d ==> (#[trigger] r@[t])@.len() == dims@[t].height,
            forall|t: int, a: int|
                0 <= t < d && 0 <= a < dims@[t].height ==> (#[trigger] r@[t]@[a])@.len()
                    == dims@[t].width,
            forall|t: int, a: int, b: int|
                0 <= t < d && 0 <= a < dims@[t].height && 0 <= b < dims@[t].width
                    ==> #[trigger] r@[t]@[a]@[b] == matrix@[dims@[t].start_row + a]@[dims@[t].start_col + b],
        decreases dims@.len() - d,
    {
        let dim = dims[d];
        let nrows = matrix.len();
        let mut tile: Matrix<K> = Vec::new();
        let mut a: usize = 0;
        while a < dim.height
            invariant
                0 <= a <= dim.height,
                d < dims@.len(),
                dim == dims@[d as int],
                nrows == matrix@.len(),
                dim.start_row + dim.height <= matrix@.len(),
                forall|row: int|
                    0 <= row < matrix@.len() ==> dim.start_col + dim.width <= #[trigger] matrix@[row]@.len(),
                tile@.len() == a,
                forall|t: int|
                    0 <= t < a ==> (#[trigger] tile@[t])@.len() == dim.width,
                forall|t: int, b: int|
                    0 <= t < a && 0 <= b < dim.width ==> #[trigger] tile@[t]@[b] == matrix@[dim.start_row
                        + t]@[dim.start_col + b],
            decreases dim.height - a,
        {
            let base = dim.start_row + a;
            let cap = matrix[base].len();
            let mut row: Vec<K> = Vec::new();
            let mut b: usize = 0;
            while b < dim.width
                invariant
                    0 <= b <= dim.width,
                    d < dims@.len(),
                    a < dim.height,
                    base == dim.start_row + a,
                    base < matrix@.len(),
                    cap == matrix@[base as int]@.len(),
                    dim.start_col + dim.width <= cap,
                    row@.len() == b,
                    forall|t: int|
                        0 <= t < b ==> #[trigger] row@[t] == matrix@[dim.start_row + a]@[dim.start_col + t],
                decreases dim.width - b,
            {
                row.push(matrix[base][dim.start_col + b]);
                b = b + 1;
            }
            tile.push(row);
            a = a + 1;
        }
        r.push(tile);
        d = d + 1;
    }
    r
}

/// Split a matrix into the row-major tiles of a `pr x pc` grid.
pub fn get_submatrices<K: Copy>(processor_rows: usize, processor_cols: usize, matrix: &Matrix<K>) -> (r: Vec<Matrix<K>>)
    requires
        processor_rows >= 1,
        processor_cols >= 1,
        processor_rows * processor_cols <= usize::MAX,
        crate::types::wf_mat(mview(*matrix)),
    ensures
        r@.len() == processor_rows * processor_cols,
        forall|i: int, j: int|
            0 <= i < processor_rows && 0 <= j < processor_cols ==> mview(
                #[trigger] r@[i * processor_cols + j],
            ) == tile_of(
                mview(*matrix),
                processor_rows as int,
                processor_cols as int,
                i,
                j,
            ),
{
    let matrix_rows = crate::types::mat_rows(matrix);
    let matrix_cols = crate::types::mat_cols(matrix);
    let ghost pr = processor_rows as int;
    let ghost pc = processor_cols as int;
    let ghost mr = matrix_rows as int;
    let ghost mc = matrix_cols as int;
    let ghost mv = mview(*matrix);
    proof {
        lemma_axis_total(pr, mr);
        lemma_axis_total(pc, mc);
        assert(mv.len() == matrix@.len());
        assert forall|k: int| 0 <= k < matrix@.len() implies #[trigger] matrix@[k]@.len() == mc by {
            assert(mv[k].len() == crate::types::cols_of(mv));
        }
    }
    let dims = get_submatrices_dim(processor_rows, processor_cols, matrix_rows, matrix_cols);
    proof {
        assert forall|d: int| 0 <= d < dims@.len() implies (#[trigger] dims@[d]).start_row
            + dims@[d].height <= matrix@.len() && forall|row: int|
            0 <= row < matrix@.len() ==> dims@[d].start_col + dims@[d].width
                <= #[trigger] matrix@[row]@.len() by {
            let i = d / pc;
            let j = d % pc;
            assert(0 <= j < pc) by (nonlinear_arith)
                requires
                    pc >= 1,
                    0 <= d,
                    j == d % pc,
            ;
            assert(0 <= i < pr) by (nonlinear_arith)
                requires
                    pc >= 1,
                    pr >= 1,
                    0 <= d < pr * pc,
                    i == d / pc,
            ;
            assert(d == i * pc + j) by (nonlinear_arith)
                requires
                    i == d / pc,
                    j == d % pc,
                    pc >= 1,
            ;
            assert(is_dim_at(dims@[d], pr, pc, mr, mc, i, j));
            lemma_axis_step(pr, mr, i);
            lemma_axis_mono(pr, mr, i + 1, pr);
            lemma_axis_step(pc, mc, j);
            lemma_axis_mono(pc, mc, j + 1, pc);
        }
    }
    let slices = get_matrix_slices(matrix, &dims);
    proof {
        assert forall|i: int, j: int| 0 <= i < pr && 0 <= j < pc implies mview(
            #[trigger] slices@[i * pc + j],
        ) == tile_of(mv, pr, pc, i, j) by {
            let d = i * pc + j;
            assert(0 <= d < pr * pc) by (nonlinear_arith)
                requires
                    0 <= i < pr,
                    0 <= j < pc,
                    d == i * pc + j,
            ;
            assert(is_dim_at(dims@[d], pr, pc, mr, mc, i, j));
            lemma_axis_step(pr, mr, i);
            lemma_axis_mono(pr, mr, i + 1, pr);
            lemma_axis_step(pc, mc, j);
            lemma_axis_mono(pc, mc, j + 1, pc);
            let lhs = mview(slices@[d]);
            let rhs = tile_of(mv, pr, pc, i, j);
            assert forall|a: int| 0 <= a < rhs.len() implies lhs[a] == rhs[a] by {
                assert(lhs[a] == slices@[d]@[a]@);
                assert forall|b: int| 0 <= b < rhs[a].len() implies lhs[a][b] == rhs[a][b] by {
                    assert(slices@[d]@[a]@[b] == matrix@[dims@[d].start_row + a]@[dims@[d].start_col
                        + b]);
                    assert(rhs[a][b] == mv[axis_start(pr, mr, i) + a][axis_start(pc, mc, j) + b]);
                }
                assert(lhs[a] =~= rhs[a]);
            }
            assert(lhs =~= rhs);
        }
    }
    slices
}

/// A tile of a rectangular matrix is itself rectangular, with the lengths
/// the axis rule gives it, and holds the matrix entries of its block.
pub proof fn lemma_tile_dims<E>(g: Seq<Seq<E>>, pr: int, pc: int, i: int, j: int)
    requires
        crate::types::wf_mat(g),
        pr >= 1,
        pc >= 1,
        0 <= i < pr,
        0 <= j < pc,
    ensures
        is_grid(
            tile_of(g, pr, pc, i, j),
            axis_len(pr, g.len() as int, i),
            axis_len(pc, crate::types::cols_of(g), j),
        ),
        crate::types::wf_mat(tile_of(g, pr, pc, i, j)),
        axis_len(pr, g.len() as int, i) >= 0,
        axis_len(pc, crate::types::cols_of(g), j) >= 0,
        axis_len(pr, g.len() as int, i) > 0 ==> crate::types::cols_of(tile_of(g, pr, pc, i, j))
            == axis_len(pc, crate::types::cols_of(g), j),
        forall|r: int, c: int|
            0 <= r < axis_len(pr, g.len() as int, i) && 0 <= c < axis_len(
                pc,
                crate::types::cols_of(g),
                j,
            ) ==> #[trigger] tile_of(g, pr, pc, i, j)[r][c] == g[axis_start(pr, g.len() as int, i)
                + r][axis_start(pc, crate::types::cols_of(g), j) + c],
{
    let mr = g.len() as int;
    let mc = crate::types::cols_of(g);
    lemma_axis_total(pr, mr);
    lemma_axis_total(pc, mc);
    lemma_axis_step(pr, mr, i);
    lemma_axis_mono(pr, mr, i + 1, pr);
    lemma_axis_step(pc, mc, j);
    lemma_axis_mono(pc, mc, j + 1, pc);
    lemma_axis_mono(pr, mr, 0, i);
    lemma_axis_mono(pc, mc, 0, j);
    let tile = tile_of(g, pr, pc, i, j);
    let h = axis_len(pr, mr, i);
    let w = axis_len(pc, mc, j);
    assert(axis_start(pr, mr, 0) == 0);
    assert(axis_start(pc, mc, 0) == 0);
    assert forall|r: int| 0 <= r < h implies #[trigger] tile[r].len() == w by {
        assert(g[axis_start(pr, mr, i) + r].len() == mc);
    }
    if h > 0 {
        assert(tile[0].len() == w);
    }
}

/// Tile cover: every cell `(r, c)` of an `mr x mc` matrix lies in exactly
/// one tile of the `pr x pc` partition, the one at grid position
/// `(axis_block(pr, mr, r), axis_block(pc, mc, c))`.  Tiles overlap nowhere
/// and leave no gap.
pub proof fn lemma_tile_cover(pr: int, pc: int, mr: int, mc: int, r: int, c: int)
    requires
        pr >= 1,
        pc >= 1,
        0 <= r < mr,
        0 <= c < mc,
    ensures
        ({
            let bi = axis_block(pr, mr, r);
            let bj = axis_block(pc, mc, c);
            &&& 0 <= bi < pr && 0 <= bj < pc
            &&& axis_start(pr, mr, bi) <= r < axis_start(pr, mr, bi) + axis_len(pr, mr, bi)
            &&& axis_start(pc, mc, bj) <= c < axis_start(pc, mc, bj) + axis_len(pc, mc, bj)
            &&& forall|i: int, j: int|
                0 <= i < pr && 0 <= j < pc && #[trigger] axis_start(pr, mr, i) <= r < axis_start(
                    pr,
                    mr,
                    i,
                ) + axis_len(pr, mr, i) && #[trigger] axis_start(pc, mc, j) <= c < axis_start(
                    pc,
                    mc,
                    j,
                ) + axis_len(pc, mc, j) ==> i == bi && j == bj
        }),
{
    lemma_axis_block(pr, mr, r);
    lemma_axis_block(pc, mc, c);
}

} // verus!
