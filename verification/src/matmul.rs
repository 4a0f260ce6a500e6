//! Matrix multiplication over a closed semiring: the element trait, the
//! serial reference multiplication, and the parallel drivers.

pub mod comm_method;

use vstd::prelude::*;
use crate::types::{Matrix, mview, wf_mat, is_grid, rows_of, cols_of};

verus! {

/// A semiring element: `combine_spec(a, b, c)` accumulates the product of
/// `a` and `b` into `c`.  `initial_c` seeds the accumulator matrix of a
/// multiplication and `neutral_matrix` builds the identity-like matrix of
/// the semiring.
pub trait Multiplicable: Sized + Copy {
    /// What accumulating `a (*) b` into `c` yields.
    spec fn combine_spec(a: Self, b: Self, c: Self) -> Self;

    /// Entry `(row, col)` of the semiring's neutral matrix.
    spec fn neutral_spec(row: int, col: int) -> Self;

    /// The seed accumulator of a multiplication `a * b`.
    spec fn initial_c_spec(a: Seq<Seq<Self>>, b: Seq<Seq<Self>>) -> Seq<Seq<Self>>;

    /// When the seed accumulator is defined.
    spec fn initial_c_ok(a: Seq<Seq<Self>>, b: Seq<Seq<Self>>) -> bool;

    /// The size in bytes of one element on the wire, for the cost model.
    spec fn elem_bytes_spec() -> int;

    /// The seed accumulator has one entry per entry of the product.
    proof fn initial_c_covers(a: Seq<Seq<Self>>, b: Seq<Seq<Self>>)
        requires
            wf_mat(a),
            wf_mat(b),
            Self::initial_c_ok(a, b),
        ensures
            is_grid(Self::initial_c_spec(a, b), rows_of(a), cols_of(b)),
    ;

    fn singleton_matrix(a: Self, b: Self, c: Self) -> (r: Self)
        ensures
            r == Self::combine_spec(a, b, c),
    ;

    fn initial_c(a: &Matrix<Self>, b: &Matrix<Self>) -> (r: Matrix<Self>)
        requires
            wf_mat(mview(*a)),
            wf_mat(mview(*b)),
            Self::initial_c_ok(mview(*a), mview(*b)),
        ensures
            mview(r) == Self::initial_c_spec(mview(*a), mview(*b)),
    ;

    /// Runtime test for `initial_c_ok`.
    fn initial_c_check(a: &Matrix<Self>, b: &Matrix<Self>) -> (r: bool)
        requires
            wf_mat(mview(*a)),
            wf_mat(mview(*b)),
        ensures
            r == Self::initial_c_ok(mview(*a), mview(*b)),
    ;

    fn neutral_matrix(rows: usize, cols: usize) -> (r: Matrix<Self>)
        ensures
            is_grid(mview(r), rows as int, cols as int),
            forall|i: int, j: int|
                0 <= i < rows && 0 <= j < cols ==> #[trigger] mview(r)[i][j] == Self::neutral_spec(
                    i,
                    j,
                ),
    ;

    fn elem_bytes() -> (r: usize)
        ensures
            r == Self::elem_bytes_spec(),
    ;
}

/// Left fold of the accumulate operation along a row of `a` and a column of
/// `b`: the value of one entry of the product.
pub open spec fn dot_fold<E: Multiplicable>(ar: Seq<E>, bc: Seq<E>, acc: E) -> E
    decreases ar.len(),
{
    if ar.len() == 0 || bc.len() == 0 {
        acc
    } else {
        dot_fold(ar.drop_first(), bc.drop_first(), E::combine_spec(ar[0], bc[0], acc))
    }
}

/// Column `j` of a matrix.
pub open spec fn col_of<E>(m: Seq<Seq<E>>, j: int) -> Seq<E> {
    m.map_values(|row: Seq<E>| row[j])
}

/// The serial reference product: entry `(i, j)` of the result accumulates
/// `a[i][k] (*) b[k][j]` over `k`, in increasing `k`, into `c[i][j]`.
pub open spec fn mm_spec<E: Multiplicable>(
    a: Seq<Seq<E>>,
    b: Seq<Seq<E>>,
    c: Seq<Seq<E>>,
) -> Seq<Seq<E>> {
    Seq::new(
        c.len(),
        |i: int| Seq::new(c[i].len(), |j: int| dot_fold(a[i], col_of(b, j), c[i][j])),
    )
}

/// Folding one more pair accumulates it on top of the fold so far.
pub proof fn lemma_dot_fold_push<E: Multiplicable>(ar: Seq<E>, bc: Seq<E>, acc: E, x: E, y: E)
    requires
        ar.len() == bc.len(),
    ensures
        dot_fold(ar.push(x), bc.push(y), acc) == E::combine_spec(x, y, dot_fold(ar, bc, acc)),
    decreases ar.len(),
{
    if ar.len() == 0 {
        assert(ar.push(x).drop_first() =~= Seq::<E>::empty());
        assert(bc.push(y).drop_first() =~= Seq::<E>::empty());
        assert(ar.push(x)[0] == x);
        assert(bc.push(y)[0] == y);
        assert(dot_fold(ar.push(x), bc.push(y), acc) == dot_fold(
            ar.push(x).drop_first(),
            bc.push(y).drop_first(),
            E::combine_spec(x, y, acc),
        ));
        assert(dot_fold(ar.push(x).drop_first(), bc.push(y).drop_first(), E::combine_spec(x, y, acc))
            == E::combine_spec(x, y, acc));
        assert(dot_fold(ar, bc, acc) == acc);
    } else {
        assert(ar.push(x).drop_first() =~= ar.drop_first().push(x));
        assert(bc.push(y).drop_first() =~= bc.drop_first().push(y));
        assert(ar.push(x)[0] == ar[0]);
        assert(bc.push(y)[0] == bc[0]);
        assert(dot_fold(ar.push(x), bc.push(y), acc) == dot_fold(
            ar.drop_first().push(x),
            bc.drop_first().push(y),
            E::combine_spec(ar[0], bc[0], acc),
        ));
        assert(dot_fold(ar, bc, acc) == dot_fold(
            ar.drop_first(),
            bc.drop_first(),
            E::combine_spec(ar[0], bc[0], acc),
        ));
        lemma_dot_fold_push(
            ar.drop_first(),
            bc.drop_first(),
            E::combine_spec(ar[0], bc[0], acc),
            x,
            y,
        );
    }
}

/// Entries of the longer column beyond the row's length never enter the
/// fold.
pub proof fn lemma_dot_fold_take<E: Multiplicable>(ar: Seq<E>, bc: Seq<E>, acc: E)
    requires
        ar.len() <= bc.len(),
    ensures
        dot_fold(ar, bc, acc) == dot_fold(ar, bc.take(ar.len() as int), acc),
    decreases ar.len(),
{
    if ar.len() == 0 {
        assert(bc.take(0) =~= Seq::<E>::empty());
    } else {
        assert(bc.take(ar.len() as int).drop_first() =~= bc.drop_first().take(ar.len() - 1));
        assert(bc.take(ar.len() as int)[0] == bc[0]);
        assert(ar.drop_first().len() == ar.len() - 1);
        lemma_dot_fold_take(ar.drop_first(), bc.drop_first(), E::combine_spec(ar[0], bc[0], acc));
        assert(bc.drop_first().take(ar.drop_first().len() as int) =~= bc.take(
            ar.len() as int,
        ).drop_first());
    }
}

/// Folding a concatenation folds the first part, then the second.
pub proof fn lemma_dot_fold_concat<E: Multiplicable>(
    a1: Seq<E>,
    b1: Seq<E>,
    a2: Seq<E>,
    b2: Seq<E>,
    acc: E,
)
    requires
        a1.len() == b1.len(),
        a2.len() == b2.len(),
    ensures
        dot_fold(a1 + a2, b1 + b2, acc) == dot_fold(a2, b2, dot_fold(a1, b1, acc)),
    decreases a1.len(),
{
    if a1.len() == 0 {
        assert(a1 + a2 =~= a2);
        assert(b1 + b2 =~= b2);
    } else {
        assert((a1 + a2).drop_first() =~= a1.drop_first() + a2);
        assert((b1 + b2).drop_first() =~= b1.drop_first() + b2);
        assert((a1 + a2)[0] == a1[0]);
        assert((b1 + b2)[0] == b1[0]);
        lemma_dot_fold_concat(
            a1.drop_first(),
            b1.drop_first(),
            a2,
            b2,
            E::combine_spec(a1[0], b1[0], acc),
        );
    }
}

/// Serial matrix multiplication: accumulate `a * b` into `c`, entry by
/// entry, in increasing `k`.  This is the reference the parallel kernels
/// are measured against.
pub fn serial_matmul<T: Multiplicable>(
    matrix_a: &Matrix<T>,
    matrix_b: &Matrix<T>,
    matrix_c: &Matrix<T>,
) -> (r: Matrix<T>)
    requires
        wf_mat(mview(*matrix_a)),
        wf_mat(mview(*matrix_b)),
        wf_mat(mview(*matrix_c)),
        rows_of(mview(*matrix_c)) == rows_of(mview(*matrix_a)),
        cols_of(mview(*matrix_a)) <= rows_of(mview(*matrix_b)),
        cols_of(mview(*matrix_a)) == 0 || cols_of(mview(*matrix_c)) <= cols_of(mview(*matrix_b)),
    ensures
        mview(r) == mm_spec(mview(*matrix_a), mview(*matrix_b), mview(*matrix_c)),
{
    let ghost ga = mview(*matrix_a);
    let ghost gb = mview(*matrix_b);
    let ghost gc = mview(*matrix_c);
    let rows = matrix_c.len();
    let mut out: Matrix<T> = Vec::new();
    let mut i: usize = 0;
    while i < rows
        invariant
            0 <= i <= rows,
            ga == mview(*matrix_a),
            gb == mview(*matrix_b),
            gc == mview(*matrix_c),
            wf_mat(ga),
            wf_mat(gb),
            wf_mat(gc),
            rows == gc.len(),
            rows_of(gc) == rows_of(ga),
            cols_of(ga) <= rows_of(gb),
            cols_of(ga) == 0 || cols_of(gc) <= cols_of(gb),
            out@.len() == i,
            forall|t: int| 0 <= t < i ==> #[trigger] out@[t]@ == mm_spec(ga, gb, gc)[t],
        decreases rows - i,
    {
        let cols = matrix_c[i].len();
        let width = matrix_a[i].len();
        let mut row: Vec<T> = Vec::new();
        let mut j: usize = 0;
        while j < cols
            invariant
                0 <= j <= cols,
                i < gc.len(),
                ga == mview(*matrix_a),
                gb == mview(*matrix_b),
                gc == mview(*matrix_c),
                wf_mat(ga),
                wf_mat(gb),
                wf_mat(gc),
                rows_of(gc) == rows_of(ga),
                cols_of(ga) <= rows_of(gb),
                cols_of(ga) == 0 || cols_of(gc) <= cols_of(gb),
                cols == gc[i as int].len(),
                width == ga[i as int].len(),
                row@.len() == j,
                forall|t: int|
                    0 <= t < j ==> #[trigger] row@[t] == dot_fold(
                        ga[i as int],
                        col_of(gb, t),
                        gc[i as int][t],
                    ),
            decreases cols - j,
        {
            let mut acc: T = matrix_c[i][j];
            let mut k: usize = 0;
            while k < width
                invariant
                    0 <= k <= width,
                    i < gc.len(),
                    j < gc[i as int].len(),
                    ga == mview(*matrix_a),
                    gb == mview(*matrix_b),
                    gc == mview(*matrix_c),
                    wf_mat(ga),
                    wf_mat(gb),
                    wf_mat(gc),
                    rows_of(gc) == rows_of(ga),
                    cols_of(ga) <= rows_of(gb),
                    cols_of(ga) == 0 || cols_of(gc) <= cols_of(gb),
                    width == ga[i as int].len(),
                    acc == dot_fold(
                        ga[i as int].take(k as int),
                        col_of(gb, j as int).take(k as int),
                        gc[i as int][j as int],
                    ),
                decreases width - k,
            {
                proof {
                    assert(ga[i as int].take(k + 1) =~= ga[i as int].take(k as int).push(
                        ga[i as int][k as int],
                    ));
                    assert(col_of(gb, j as int).len() == gb.len());
                    assert(col_of(gb, j as int).take(k + 1) =~= col_of(gb, j as int).take(
                        k as int,
                    ).push(gb[k as int][j as int]));
                    lemma_dot_fold_push(
                        ga[i as int].take(k as int),
                        col_of(gb, j as int).take(k as int),
                        gc[i as int][j as int],
                        ga[i as int][k as int],
                        gb[k as int][j as int],
                    );
                }
                acc = T::singleton_matrix(matrix_a[i][k], matrix_b[k][j], acc);
                k = k + 1;
            }
            proof {
                assert(ga[i as int].take(width as int) =~= ga[i as int]);
                assert(col_of(gb, j as int).len() == gb.len());
                lemma_dot_fold_take(ga[i as int], col_of(gb, j as int), gc[i as int][j as int]);
            }
            row.push(acc);
            j = j + 1;
        }
        proof {
            assert(row@ =~= mm_spec(ga, gb, gc)[i as int]);
        }
        out.push(row);
        i = i + 1;
    }
    proof {
        assert(mview(out) =~= mm_spec(ga, gb, gc));
    }
    out
}


/// The failure a driver reports before any worker runs: the operands or the
/// grid do not satisfy the dimension contract of the requested kernel.
#[derive(Clone, Copy, Debug, PartialEq, Eq, Structural)]
pub enum MatMulError {
    DimensionMismatch,
}

/// The product grid one kernel run computes: entry `(r, c)` is the entry of
/// the `C`-tile of the grid cell whose tile covers `(r, c)`, after the
/// kernel's `n` rounds seeded from the matching tile of `gc`.
pub open spec fn mult_fold_spec<E: Multiplicable, F: crate::matmul::comm_method::CommMethod<E>>(
    ga: Seq<Seq<E>>,
    gb: Seq<Seq<E>>,
    gc: Seq<Seq<E>>,
    n: int,
) -> Seq<Seq<E>> {
    Seq::new(
        rows_of(ga) as nat,
        |r: int|
            Seq::new(
                cols_of(gb) as nat,
                |c: int|
                    {
                        let bi = crate::processor::axis_block(n, rows_of(ga), r);
                        let bj = crate::processor::axis_block(n, cols_of(gb), c);
                        F::tile_run_spec(
                            ga,
                            gb,
                            crate::processor::tile_of(gc, n, n, bi, bj),
                            bi,
                            bj,
                            n,
                            0,
                        )[r - crate::processor::axis_start(n, rows_of(ga), bi)][c
                            - crate::processor::axis_start(n, cols_of(gb), bj)]
                    },
            ),
    )
}

/// What `parallel_mult` returns on valid operands: the kernel's fold seeded
/// from the element type's initial accumulator.
pub open spec fn parallel_mult_spec<E: Multiplicable, F: crate::matmul::comm_method::CommMethod<E>>(
    a: Seq<Seq<E>>,
    b: Seq<Seq<E>>,
    n: int,
) -> Seq<Seq<E>> {
    mult_fold_spec::<E, F>(a, b, E::initial_c_spec(a, b), n)
}

/// What `parallel_square` returns on valid operands: `k` squaring steps,
/// each feeding the previous result in as both operands and accumulator.
pub open spec fn parallel_square_spec<E: Multiplicable, F: crate::matmul::comm_method::CommMethod<E>>(
    a: Seq<Seq<E>>,
    c: Seq<Seq<E>>,
    k: nat,
    n: int,
) -> Seq<Seq<E>>
    decreases k,
{
    if k == 0 {
        c
    } else {
        let c1 = mult_fold_spec::<E, F>(a, a, c, n);
        parallel_square_spec::<E, F>(c1, c1, (k - 1) as nat, n)
    }
}

/// The operands and the grid admit a kernel run.
pub open spec fn mult_ok<E: Multiplicable>(
    a: Seq<Seq<E>>,
    b: Seq<Seq<E>>,
    rows: int,
    cols: int,
) -> bool {
    &&& rows == cols
    &&& rows >= 1
    &&& rows * cols <= usize::MAX
    &&& wf_mat(a)
    &&& wf_mat(b)
    &&& cols_of(a) == rows_of(b)
    &&& E::initial_c_ok(a, b)
}

/// Deep copy of a vector of tiles.
fn dup_tiles<E: Multiplicable>(tiles: &Vec<Matrix<E>>) -> (r: Vec<Matrix<E>>)
    ensures
        r@.len() == tiles@.len(),
        forall|k: int| 0 <= k < tiles@.len() ==> mview(#[trigger] r@[k]) == mview(tiles@[k]),
{
    let mut out: Vec<Matrix<E>> = Vec::new();
    let mut i: usize = 0;
    while i < tiles.len()
        invariant
            0 <= i <= tiles@.len(),
            out@.len() == i,
            forall|k: int| 0 <= k < i ==> mview(#[trigger] out@[k]) == mview(tiles@[k]),
        decreases tiles@.len() - i,
    {
        out.push(crate::types::dup_matrix(&tiles[i]));
        i = i + 1;
    }
    out
}

/// Reassemble the row-major `C`-tiles into one matrix: row `r` of the
/// result is the concatenation, block column by block column, of row
/// `r - start(bi)` of the tiles of block row `bi`.
fn collect_c<E: Multiplicable>(
    tiles: &Vec<Matrix<E>>,
    n: usize,
    out_rows: usize,
    out_cols: usize,
) -> (out: Matrix<E>)
    requires
        n >= 1,
        n * n <= usize::MAX,
        tiles@.len() == n * n,
        forall|i: int, j: int|
            0 <= i < n && 0 <= j < n ==> is_grid(
                mview(#[trigger] tiles@[i * n + j]),
                crate::processor::axis_len(n as int, out_rows as int, i),
                crate::processor::axis_len(n as int, out_cols as int, j),
            ),
    ensures
        is_grid(mview(out), out_rows as int, out_cols as int),
        wf_mat(mview(out)),
        forall|bi: int, bj: int, r2: int, c2: int|
            #![trigger mview(tiles@[bi * n + bj])[r2][c2]]
            0 <= bi < n && 0 <= bj < n && 0 <= r2 < crate::processor::axis_len(
                n as int,
                out_rows as int,
                bi,
            ) && 0 <= c2 < crate::processor::axis_len(n as int, out_cols as int, bj)
                ==> mview(out)[crate::processor::axis_start(n as int, out_rows as int, bi)
                + r2][crate::processor::axis_start(n as int, out_cols as int, bj) + c2] == mview(
                tiles@[bi * n + bj],
            )[r2][c2],
{
    let ghost nn = n as int;
    let ghost rr = out_rows as int;
    let ghost cc = out_cols as int;
    let mut out: Matrix<E> = Vec::new();
    let mut bi: usize = 0;
    proof {
        crate::processor::lemma_axis_total(nn, rr);
        crate::processor::lemma_axis_total(nn, cc);
        assert(crate::processor::axis_start(nn, rr, 0) == 0);
    }
    while bi < n
        invariant
            0 <= bi <= n,
            nn == n as int,
            rr == out_rows as int,
            cc == out_cols as int,
            n >= 1,
            n * n <= usize::MAX,
            tiles@.len() == n * n,
            forall|i: int, j: int|
                0 <= i < nn && 0 <= j < nn ==> is_grid(
                    mview(#[trigger] tiles@[i * nn + j]),
                    crate::processor::axis_len(nn, rr, i),
                    crate::processor::axis_len(nn, cc, j),
                ),
            crate::processor::axis_start(nn, rr, nn) == rr,
            crate::processor::axis_start(nn, cc, nn) == cc,
            out@.len() == crate::processor::axis_start(nn, rr, bi as int),
            forall|b2: int, r2: int|
                0 <= b2 < bi && 0 <= r2 < crate::processor::axis_len(nn, rr, b2) ==> (
                #[trigger] out@[crate::processor::axis_start(nn, rr, b2) + r2])@.len() == cc,
            forall|b2: int, bj: int, r2: int, c2: int|
                #![trigger mview(tiles@[b2 * nn + bj])[r2][c2]]
                0 <= b2 < bi && 0 <= bj < nn && 0 <= r2 < crate::processor::axis_len(nn, rr, b2)
                    && 0 <= c2 < crate::processor::axis_len(nn, cc, bj) ==> out@[
                crate::processor::axis_start(nn, rr, b2) + r2]@[crate::processor::axis_start(
                    nn,
                    cc,
                    bj,
                ) + c2] == mview(tiles@[b2 * nn + bj])[r2][c2],
        decreases n - bi,
    {
        let ghost h = crate::processor::axis_len(nn, rr, bi as int);
        proof {
            crate::processor::lemma_axis_step(nn, rr, bi as int);
            crate::processor::lemma_axis_mono(nn, rr, bi as int + 1, nn);
            lemma_cell_bound_mm(bi as int, 0, nn);
        }
        let tile0 = crate::matmul::comm_method::grid_index(bi, 0, n);
        let height = crate::types::mat_rows(&tiles[tile0]);
        proof {
            assert(is_grid(mview(tiles@[bi as int * nn + 0]), h, crate::processor::axis_len(nn, cc, 0)));
            assert(height == h);
        }
        let mut r2: usize = 0;
        while r2 < height
            invariant
                0 <= r2 <= height,
                0 <= bi < n,
                nn == n as int,
                rr == out_rows as int,
                cc == out_cols as int,
                n >= 1,
                n * n <= usize::MAX,
                tiles@.len() == n * n,
                height == crate::processor::axis_len(nn, rr, bi as int),
                forall|i: int, j: int|
                    0 <= i < nn && 0 <= j < nn ==> is_grid(
                        mview(#[trigger] tiles@[i * nn + j]),
                        crate::processor::axis_len(nn, rr, i),
                        crate::processor::axis_len(nn, cc, j),
                    ),
                crate::processor::axis_start(nn, rr, nn) == rr,
                crate::processor::axis_start(nn, cc, nn) == cc,
                out@.len() == crate::processor::axis_start(nn, rr, bi as int) + r2,
                forall|b2: int, r3: int|
                    0 <= b2 < bi && 0 <= r3 < crate::processor::axis_len(nn, rr, b2) ==> (
                    #[trigger] out@[crate::processor::axis_start(nn, rr, b2) + r3])@.len() == cc,
                forall|r3: int|
                    0 <= r3 < r2 ==> (#[trigger] out@[crate::processor::axis_start(nn, rr, bi as int)
                        + r3])@.len() == cc,
                forall|b2: int, bj: int, r3: int, c2: int|
                    #![trigger mview(tiles@[b2 * nn + bj])[r3][c2]]
                    0 <= b2 < bi && 0 <= bj < nn && 0 <= r3 < crate::processor::axis_len(nn, rr, b2)
                        && 0 <= c2 < crate::processor::axis_len(nn, cc, bj) ==> out@[
                    crate::processor::axis_start(nn, rr, b2) + r3]@[crate::processor::axis_start(
                        nn,
                        cc,
                        bj,
                    ) + c2] == mview(tiles@[b2 * nn + bj])[r3][c2],
                forall|bj: int, r3: int, c2: int|
                    #![trigger mview(tiles@[bi as int * nn + bj])[r3][c2]]
                    0 <= bj < nn && 0 <= r3 < r2 && 0 <= c2 < crate::processor::axis_len(nn, cc, bj)
                        ==> out@[crate::processor::axis_start(nn, rr, bi as int) + r3]@[
                    crate::processor::axis_start(nn, cc, bj) + c2] == mview(
                        tiles@[bi as int * nn + bj],
                    )[r3][c2],
            decreases height - r2,
        {
            let mut row: Vec<E> = Vec::new();
            let mut bj: usize = 0;
            proof {
                assert(crate::processor::axis_start(nn, cc, 0) == 0);
            }
            while bj < n
                invariant
                    0 <= bj <= n,
                    0 <= bi < n,
                    r2 < height,
                    nn == n as int,
                    rr == out_rows as int,
                    cc == out_cols as int,
                    n >= 1,
                    n * n <= usize::MAX,
                    tiles@.len() == n * n,
                    height == crate::processor::axis_len(nn, rr, bi as int),
                    forall|i: int, j: int|
                        0 <= i < nn && 0 <= j < nn ==> is_grid(
                            mview(#[trigger] tiles@[i * nn + j]),
                            crate::processor::axis_len(nn, rr, i),
                            crate::processor::axis_len(nn, cc, j),
                        ),
                    crate::processor::axis_start(nn, cc, nn) == cc,
                    row@.len() == crate::processor::axis_start(nn, cc, bj as int),
                    forall|b2: int, c2: int|
                        #![trigger mview(tiles@[bi as int * nn + b2])[r2 as int][c2]]
                        0 <= b2 < bj && 0 <= c2 < crate::processor::axis_len(nn, cc, b2)
                            ==> row@[crate::processor::axis_start(nn, cc, b2) + c2] == mview(
                            tiles@[bi as int * nn + b2],
                        )[r2 as int][c2],
                decreases n - bj,
            {
                proof {
                    crate::processor::lemma_axis_step(nn, cc, bj as int);
                    crate::processor::lemma_axis_mono(nn, cc, bj as int + 1, nn);
                }
                let tidx = crate::matmul::comm_method::grid_index(bi, bj, n);
                let tile = &tiles[tidx];
                let w = if tile.len() == 0 {
                    0
                } else {
                    tile[r2].len()
                };
                proof {
                    assert(is_grid(
                        mview(tiles@[bi as int * nn + bj as int]),
                        height as int,
                        crate::processor::axis_len(nn, cc, bj as int),
                    ));
                    assert(mview(tiles@[bi as int * nn + bj as int])[r2 as int].len()
                        == crate::processor::axis_len(nn, cc, bj as int));
                    assert(tile@[r2 as int]@.len() == crate::processor::axis_len(
                        nn,
                        cc,
                        bj as int,
                    ));
                }
                let mut c2: usize = 0;
                while c2 < w
                    invariant
                        0 <= c2 <= w,
                        0 <= bi < n,
                        0 <= bj < n,
                        r2 < height,
                        nn == n as int,
                        cc == out_cols as int,
                        n * n <= usize::MAX,
                        tiles@.len() == n * n,
                        tidx == bi as int * nn + bj as int,
                        tidx < n * n,
                        r2 < tiles@[tidx as int]@.len(),
                        w == tiles@[tidx as int]@[r2 as int]@.len(),
                        w == crate::processor::axis_len(nn, cc, bj as int),
                        row@.len() == crate::processor::axis_start(nn, cc, bj as int) + c2,
                        forall|b2: int, c3: int|
                            #![trigger mview(tiles@[bi as int * nn + b2])[r2 as int][c3]]
                            0 <= b2 < bj && 0 <= c3 < crate::processor::axis_len(nn, cc, b2)
                                ==> row@[crate::processor::axis_start(nn, cc, b2) + c3] == mview(
                                tiles@[bi as int * nn + b2],
                            )[r2 as int][c3],
                        forall|c3: int|
                            0 <= c3 < c2 ==> #[trigger] row@[crate::processor::axis_start(
                                nn,
                                cc,
                                bj as int,
                            ) + c3] == mview(tiles@[bi as int * nn + bj as int])[r2 as int][c3],
                    decreases w - c2,
                {
                    let ghost rowpre = row@;
                    row.push(tiles[tidx][r2][c2]);
                    proof {
                        assert forall|b2: int, c3: int|
                            #![trigger mview(tiles@[bi as int * nn + b2])[r2 as int][c3]]
                            0 <= b2 < bj && 0 <= c3 < crate::processor::axis_len(
                            nn,
                            cc,
                            b2,
                        ) implies row@[crate::processor::axis_start(nn, cc, b2) + c3] == mview(
                            tiles@[bi as int * nn + b2],
                        )[r2 as int][c3] by {
                            crate::processor::lemma_axis_step(nn, cc, b2);
                            crate::processor::lemma_axis_mono(nn, cc, b2 + 1, bj as int);
                            assert(crate::processor::axis_start(nn, cc, b2) + c3 < rowpre.len());
                            assert(row@[crate::processor::axis_start(nn, cc, b2) + c3] == rowpre[
                            crate::processor::axis_start(nn, cc, b2) + c3]);
                        }
                        assert(row@[crate::processor::axis_start(nn, cc, bj as int) + c2 as int]
                            == tiles@[tidx as int]@[r2 as int]@[c2 as int]);
                        assert(mview(tiles@[bi as int * nn + bj as int])[r2 as int][c2 as int]
                            == tiles@[tidx as int]@[r2 as int]@[c2 as int]);
                    }
                    c2 = c2 + 1;
                }
                bj = bj + 1;
            }
            let ghost outpre = out@;
            out.push(row);
            proof {
                crate::processor::lemma_axis_step(nn, rr, bi as int);
                assert(row@.len() == crate::processor::axis_start(nn, cc, nn));
                assert forall|b2: int, r3: int|
                    0 <= b2 < bi && 0 <= r3 < crate::processor::axis_len(nn, rr, b2) implies (
                #[trigger] out@[crate::processor::axis_start(nn, rr, b2) + r3])@.len() == cc by {
                    crate::processor::lemma_axis_step(nn, rr, b2);
                    crate::processor::lemma_axis_mono(nn, rr, b2 + 1, bi as int);
                    assert(crate::processor::axis_start(nn, rr, b2) + r3 < outpre.len());
                }
                assert forall|b2: int, bj2: int, r3: int, c2: int|
                    #![trigger mview(tiles@[b2 * nn + bj2])[r3][c2]]
                    0 <= b2 < bi && 0 <= bj2 < nn && 0 <= r3 < crate::processor::axis_len(
                    nn,
                    rr,
                    b2,
                ) && 0 <= c2 < crate::processor::axis_len(nn, cc, bj2) implies out@[
                crate::processor::axis_start(nn, rr, b2) + r3]@[crate::processor::axis_start(
                    nn,
                    cc,
                    bj2,
                ) + c2] == mview(tiles@[b2 * nn + bj2])[r3][c2] by {
                    crate::processor::lemma_axis_step(nn, rr, b2);
                    crate::processor::lemma_axis_mono(nn, rr, b2 + 1, bi as int);
                    assert(crate::processor::axis_start(nn, rr, b2) + r3 < outpre.len());
                    assert(out@[crate::processor::axis_start(nn, rr, b2) + r3] == outpre[
                    crate::processor::axis_start(nn, rr, b2) + r3]);
                }
                assert forall|r3: int|
                    0 <= r3 < r2 + 1 implies (#[trigger] out@[crate::processor::axis_start(
                    nn,
                    rr,
                    bi as int,
                ) + r3])@.len() == cc by {
                    if r3 < r2 {
                        assert(crate::processor::axis_start(nn, rr, bi as int) + r3
                            < outpre.len());
                    }
                }
            }
            r2 = r2 + 1;
        }
        proof {
            crate::processor::lemma_axis_step(nn, rr, bi as int);
        }
        bi = bi + 1;
    }
    proof {
        assert forall|r: int| 0 <= r < rr implies (#[trigger] mview(out)[r]).len() == cc by {
            crate::processor::lemma_axis_block(nn, rr, r);
            let b2 = crate::processor::axis_block(nn, rr, r);
            assert(out@[crate::processor::axis_start(nn, rr, b2) + (r - crate::processor::axis_start(
                nn,
                rr,
                b2,
            ))]@.len() == cc);
        }
        assert forall|bi2: int, bj2: int, r2: int, c2: int|
            #![trigger mview(tiles@[bi2 * nn + bj2])[r2][c2]]
            0 <= bi2 < n && 0 <= bj2 < n && 0 <= r2 < crate::processor::axis_len(nn, rr, bi2) && 0
                <= c2 < crate::processor::axis_len(nn, cc, bj2) implies mview(out)[
        crate::processor::axis_start(nn, rr, bi2) + r2][crate::processor::axis_start(nn, cc, bj2)
            + c2] == mview(tiles@[bi2 * nn + bj2])[r2][c2] by {
            crate::processor::lemma_axis_step(nn, rr, bi2);
            crate::processor::lemma_axis_mono(nn, rr, bi2 + 1, nn);
            assert(out@[crate::processor::axis_start(nn, rr, bi2) + r2]@[
            crate::processor::axis_start(nn, cc, bj2) + c2] == mview(tiles@[bi2 * nn + bj2])[r2][c2]);
            assert(mview(out)[crate::processor::axis_start(nn, rr, bi2) + r2] == out@[
            crate::processor::axis_start(nn, rr, bi2) + r2]@);
        }
    }
    out
}

/// The flat index of a grid cell is within the grid.
proof fn lemma_cell_bound_mm(i: int, j: int, n: int)
    requires
        0 <= i < n,
        0 <= j < n,
    ensures
        0 <= i * n + j < n * n,
{
    assert(0 <= i * n + j < n * n) by (nonlinear_arith)
        requires
            0 <= i < n,
            0 <= j < n,
    ;
}


/// Assembling the per-cell folds tile by tile yields exactly the grid that
/// `mult_fold_spec` describes: its tiles are the folds.
pub proof fn lemma_mult_fold_tiles<E: Multiplicable, F: crate::matmul::comm_method::CommMethod<E>>(
    ga: Seq<Seq<E>>,
    gb: Seq<Seq<E>>,
    gc: Seq<Seq<E>>,
    n: int,
)
    requires
        n >= 1,
        forall|i: int, j: int|
            0 <= i < n && 0 <= j < n ==> is_grid(
                #[trigger] F::tile_run_spec(
                    ga,
                    gb,
                    crate::processor::tile_of(gc, n, n, i, j),
                    i,
                    j,
                    n,
                    0,
                ),
                crate::processor::axis_len(n, rows_of(ga), i),
                crate::processor::axis_len(n, cols_of(gb), j),
            ),
    ensures
        is_grid(mult_fold_spec::<E, F>(ga, gb, gc, n), rows_of(ga), cols_of(gb)),
        wf_mat(mult_fold_spec::<E, F>(ga, gb, gc, n)),
        rows_of(ga) > 0 ==> rows_of(mult_fold_spec::<E, F>(ga, gb, gc, n)) == rows_of(ga)
            && cols_of(mult_fold_spec::<E, F>(ga, gb, gc, n)) == cols_of(gb),
        forall|i: int, j: int|
            0 <= i < n && 0 <= j < n ==> #[trigger] crate::processor::tile_of(
                mult_fold_spec::<E, F>(ga, gb, gc, n),
                n,
                n,
                i,
                j,
            ) == F::tile_run_spec(
                ga,
                gb,
                crate::processor::tile_of(gc, n, n, i, j),
                i,
                j,
                n,
                0,
            ),
{
    let m = mult_fold_spec::<E, F>(ga, gb, gc, n);
    let rr = rows_of(ga);
    let cc = cols_of(gb);
    assert(m.len() == rr);
    if rr > 0 && cc >= 0 {
        assert(m[0].len() == cc);
    }
    crate::processor::lemma_axis_total(n, rr);
    crate::processor::lemma_axis_total(n, cc);
    assert forall|i: int, j: int| 0 <= i < n && 0 <= j < n implies #[trigger] crate::processor::tile_of(
        m,
        n,
        n,
        i,
        j,
    ) == F::tile_run_spec(ga, gb, crate::processor::tile_of(gc, n, n, i, j), i, j, n, 0) by {
        let lhs = crate::processor::tile_of(m, n, n, i, j);
        let rhs = F::tile_run_spec(ga, gb, crate::processor::tile_of(gc, n, n, i, j), i, j, n, 0);
        let h = crate::processor::axis_len(n, rr, i);
        let w = crate::processor::axis_len(n, cc, j);
        let si = crate::processor::axis_start(n, rr, i);
        let sj = crate::processor::axis_start(n, cc, j);
        crate::processor::lemma_axis_step(n, rr, i);
        crate::processor::lemma_axis_mono(n, rr, i + 1, n);
        crate::processor::lemma_axis_mono(n, rr, 0, i);
        crate::processor::lemma_axis_step(n, cc, j);
        crate::processor::lemma_axis_mono(n, cc, j + 1, n);
        crate::processor::lemma_axis_mono(n, cc, 0, j);
        assert(lhs.len() == h);
        assert(rhs.len() == h);
        assert forall|r2: int| 0 <= r2 < h implies #[trigger] lhs[r2] == rhs[r2] by {
            crate::processor::lemma_axis_block(n, rr, si + r2);
            assert(crate::processor::axis_block(n, rr, si + r2) == i);
            assert(lhs[r2].len() == w);
            assert(rhs[r2].len() == w);
            assert forall|c2: int| 0 <= c2 < w implies lhs[r2][c2] == rhs[r2][c2] by {
                crate::processor::lemma_axis_block(n, cc, sj + c2);
                assert(crate::processor::axis_block(n, cc, sj + c2) == j);
                assert(lhs[r2][c2] == m[si + r2][sj + c2]);
                assert(m[si + r2][sj + c2] == rhs[r2][c2]);
            }
            assert(lhs[r2] =~= rhs[r2]);
        }
        assert(lhs =~= rhs);
    }
    assert forall|r: int| 0 <= r < rr implies #[trigger] m[r].len() == cc by {
        crate::processor::lemma_axis_block(n, rr, r);
    }
}

/// One kernel run over the whole grid: split, run the rounds, reassemble,
/// and harvest the virtual clocks.  The shared core of the two drivers.
fn run_kernel<E: Multiplicable, F: crate::matmul::comm_method::CommMethod<E>>(
    rows: usize,
    cols: usize,
    matrix_a: &Matrix<E>,
    matrix_b: &Matrix<E>,
    cost: crate::processor::taurus::TimeTaurusNetworkBuilder,
    enabled: bool,
) -> (r: Result<(Matrix<E>, Vec<crate::processor::probe::CoreDebug>), MatMulError>)
    ensures
        r is Ok <==> mult_ok::<E>(mview(*matrix_a), mview(*matrix_b), rows as int, cols as int),
        r is Err ==> r == Result::<(Matrix<E>, Vec<crate::processor::probe::CoreDebug>),
            MatMulError,
        >::Err(MatMulError::DimensionMismatch),
        r is Ok ==> mview(r->Ok_0.0) == parallel_mult_spec::<E, F>(
            mview(*matrix_a),
            mview(*matrix_b),
            rows as int,
        ) && is_grid(
            mview(r->Ok_0.0),
            rows_of(mview(*matrix_a)),
            cols_of(mview(*matrix_b)),
        ) && r->Ok_0.1@.len() == rows * cols,
{
    let ghost ga = mview(*matrix_a);
    let ghost gb = mview(*matrix_b);
    if rows != cols || rows == 0 {
        return Err(MatMulError::DimensionMismatch);
    }
    let n = rows;
    let ghost nn = n as int;
    match n.checked_mul(n) {
        None => {
            return Err(MatMulError::DimensionMismatch);
        },
        Some(_) => {},
    }
    if !crate::types::is_rectangular(matrix_a) || !crate::types::is_rectangular(matrix_b) {
        return Err(MatMulError::DimensionMismatch);
    }
    if crate::types::mat_cols(matrix_a) != crate::types::mat_rows(matrix_b) {
        return Err(MatMulError::DimensionMismatch);
    }
    if !E::initial_c_check(matrix_a, matrix_b) {
        return Err(MatMulError::DimensionMismatch);
    }
    let out_rows = crate::types::mat_rows(matrix_a);
    let out_cols = crate::types::mat_cols(matrix_b);
    let c0full = E::initial_c(matrix_a, matrix_b);
    let ghost gc0 = mview(c0full);
    proof {
        E::initial_c_covers(ga, gb);
        assert(is_grid(gc0, out_rows as int, out_cols as int));
        assert(wf_mat(gc0)) by {
            if gc0.len() > 0 {
                assert(gc0[0].len() == out_cols as int);
            }
        }
    }
    let mut ta = F::outer_setup_a(n, n, matrix_a);
    let mut tb = F::outer_setup_b(n, n, matrix_b);
    let mut tc = F::outer_setup_c(n, n, &c0full);
    let builder = crate::processor::taurus::TaurusNetworkBuilder;
    let mut net = builder.build(n, n);
    let mut probe = crate::processor::probe::ThreadTimeProber::new(n, n, cost, enabled);
    proof {
        lemma_fresh_network_is_quiet::<E>(net, nn);
        assert forall|i: int, j: int| 0 <= i < nn && 0 <= j < nn implies
            #[trigger] crate::matmul::comm_method::c_grid_at(tc@, ga, gb, nn, i, j) by {
            lemma_cell_bound_mm(i, j, nn);
            assert(mview(tc@[i * nn + j]) == crate::processor::tile_of(gc0, nn, nn, i, j));
            crate::processor::lemma_tile_dims(gc0, nn, nn, i, j);
        }
    }
    let ghost tc0 = tc@;
    F::matrix_mult(&mut ta, &mut tb, &mut tc, n, &mut net, &mut probe, Ghost(ga), Ghost(gb));
    proof {
        assert forall|i: int, j: int| 0 <= i < nn && 0 <= j < nn implies is_grid(
            mview(#[trigger] tc@[i * nn + j]),
            crate::processor::axis_len(nn, out_rows as int, i),
            crate::processor::axis_len(nn, out_cols as int, j),
        ) by {
            assert(crate::matmul::comm_method::c_grid_at(tc@, ga, gb, nn, i, j));
        }
    }
    let out = collect_c(&tc, n, out_rows, out_cols);
    proof {
        let spec = parallel_mult_spec::<E, F>(ga, gb, nn);
        assert forall|r: int, c: int| 0 <= r < out_rows && 0 <= c < out_cols implies mview(out)[r][c]
            == spec[r][c] by {
            crate::processor::lemma_axis_block(nn, out_rows as int, r);
            crate::processor::lemma_axis_block(nn, out_cols as int, c);
            let bi = crate::processor::axis_block(nn, out_rows as int, r);
            let bj = crate::processor::axis_block(nn, out_cols as int, c);
            let r2 = r - crate::processor::axis_start(nn, out_rows as int, bi);
            let c2 = c - crate::processor::axis_start(nn, out_cols as int, bj);
            lemma_cell_bound_mm(bi, bj, nn);
            assert(mview(out)[crate::processor::axis_start(nn, out_rows as int, bi) + r2][
            crate::processor::axis_start(nn, out_cols as int, bj) + c2] == mview(
                tc@[bi * nn + bj],
            )[r2][c2]);
            assert(mview(tc@[bi * nn + bj]) == F::tile_run_spec(
                ga,
                gb,
                mview(tc0[bi * nn + bj]),
                bi,
                bj,
                nn,
                0,
            ));
            assert(mview(tc0[bi * nn + bj]) == crate::processor::tile_of(gc0, nn, nn, bi, bj));
        }
        assert forall|r: int| 0 <= r < out_rows implies #[trigger] mview(out)[r] == parallel_mult_spec::<
            E,
            F,
        >(ga, gb, nn)[r] by {
            assert(mview(out)[r] =~= parallel_mult_spec::<E, F>(ga, gb, nn)[r]);
        }
        assert(mview(out) =~= parallel_mult_spec::<E, F>(ga, gb, nn));
    }
    let debugs = probe.extract_stats();
    Ok((out, debugs))
}

/// A freshly built network has nothing queued.
proof fn lemma_fresh_network_is_quiet<E: Multiplicable>(
    net: crate::processor::taurus::TaurusNetwork<crate::matmul::comm_method::TilePayload<E>>,
    n: int,
)
    requires
        crate::processor::taurus::fresh_network(net),
        net.rows == n,
        net.cols == n,
    ensures
        crate::matmul::comm_method::quiet(net),
{
    assert forall|r: int, c: int| 0 <= r < net.rows && 0 <= c < net.cols implies (
    #[trigger] net.core_at(r, c)).left.contents().len() == 0 && net.core_at(
        r,
        c,
    ).right.contents().len() == 0 && net.core_at(r, c).up.contents().len() == 0 && net.core_at(
        r,
        c,
    ).down.contents().len() == 0 by {
        assert(crate::processor::taurus::fresh_core(net.core_at(r, c), r, c));
    }
    assert forall|g: int, m: int| 0 <= g < net.rows && 0 <= m < net.cols implies (
    #[trigger] net.row_group(g).member(m)).contents().len() == 0 by {
        assert(crate::processor::taurus::fresh_group(net.row_group(g), net.cols as int));
    }
    assert forall|g: int, m: int| 0 <= g < net.cols && 0 <= m < net.rows implies (
    #[trigger] net.col_group(g).member(m)).contents().len() == 0 by {
        assert(crate::processor::taurus::fresh_group(net.col_group(g), net.rows as int));
    }
}


/// The operand and the grid admit a squaring run.
pub open spec fn square_ok<E: Multiplicable>(a: Seq<Seq<E>>, rows: int, cols: int) -> bool {
    &&& rows == cols
    &&& rows >= 1
    &&& rows * cols <= usize::MAX
    &&& wf_mat(a)
    &&& rows_of(a) == cols_of(a)
    &&& E::initial_c_ok(a, a)
}

/// Repeated squaring over the grid: the shared core of the two drivers.
fn run_square<E: Multiplicable, F: crate::matmul::comm_method::CommMethod<E>>(
    rows: usize,
    cols: usize,
    matrix_a: &Matrix<E>,
    outer_iterations: usize,
    cost: crate::processor::taurus::TimeTaurusNetworkBuilder,
    enabled: bool,
) -> (r: Result<(Matrix<E>, Vec<crate::processor::probe::CoreDebug>), MatMulError>)
    ensures
        r is Ok <==> square_ok::<E>(mview(*matrix_a), rows as int, cols as int),
        r is Err ==> r == Result::<(Matrix<E>, Vec<crate::processor::probe::CoreDebug>),
            MatMulError,
        >::Err(MatMulError::DimensionMismatch),
        r is Ok ==> mview(r->Ok_0.0) == parallel_square_spec::<E, F>(
            mview(*matrix_a),
            E::initial_c_spec(mview(*matrix_a), mview(*matrix_a)),
            outer_iterations as nat,
            rows as int,
        ) && r->Ok_0.1@.len() == rows * cols,
{
    let ghost ga0 = mview(*matrix_a);
    if rows != cols || rows == 0 {
        return Err(MatMulError::DimensionMismatch);
    }
    let n = rows;
    let ghost nn = n as int;
    match n.checked_mul(n) {
        None => {
            return Err(MatMulError::DimensionMismatch);
        },
        Some(_) => {},
    }
    if !crate::types::is_rectangular(matrix_a) {
        return Err(MatMulError::DimensionMismatch);
    }
    if crate::types::mat_cols(matrix_a) != crate::types::mat_rows(matrix_a) {
        return Err(MatMulError::DimensionMismatch);
    }
    if !E::initial_c_check(matrix_a, matrix_a) {
        return Err(MatMulError::DimensionMismatch);
    }
    let side = crate::types::mat_rows(matrix_a);
    let ghost ss = side as int;
    let c0full = E::initial_c(matrix_a, matrix_a);
    proof {
        E::initial_c_covers(ga0, ga0);
        assert(is_grid(mview(c0full), ss, ss));
        assert(wf_mat(mview(c0full))) by {
            if mview(c0full).len() > 0 {
                assert(mview(c0full)[0].len() == ss);
            }
        }
    }
    let mut ta = F::outer_setup_a(n, n, matrix_a);
    let mut tb = F::outer_setup_b(n, n, matrix_a);
    let mut tc = F::outer_setup_c(n, n, &c0full);
    let builder = crate::processor::taurus::TaurusNetworkBuilder;
    let mut net = builder.build(n, n);
    let mut probe = crate::processor::probe::ThreadTimeProber::new(n, n, cost, enabled);
    let ghost probe0 = probe;
    let ghost gav: Seq<Seq<E>> = ga0;
    let ghost gcv: Seq<Seq<E>> = mview(c0full);
    proof {
        lemma_fresh_network_is_quiet::<E>(net, nn);
    }
    let mut it: usize = 0;
    while it < outer_iterations
        invariant
            net.wf(),
            crate::matmul::comm_method::quiet(net),
            net.rows == n,
            net.cols == n,
            nn == n as int,
            ss == side as int,
            n >= 1,
            n * n <= usize::MAX,
            probe.count() == n * n,
            crate::processor::probe::ThreadTimeProber::advanced_from(&probe, &probe0),
            0 <= it <= outer_iterations,
            wf_mat(gav),
            rows_of(gav) == ss,
            cols_of(gav) == ss,
            wf_mat(gcv),
            is_grid(gcv, ss, ss),
            ta@.len() == n * n,
            tb@.len() == n * n,
            tc@.len() == n * n,
            crate::matmul::comm_method::placed_tiles(
                ta@,
                gav,
                nn,
                nn,
                (|i: int, j: int| F::a_src(i, j, nn, nn)),
            ),
            crate::matmul::comm_method::placed_tiles(
                tb@,
                gav,
                nn,
                nn,
                (|i: int, j: int| F::b_src(i, j, nn, nn)),
            ),
            crate::matmul::comm_method::placed_tiles(tc@, gcv, nn, nn, (|i: int, j: int| (i, j))),
            parallel_square_spec::<E, F>(ga0, E::initial_c_spec(ga0, ga0), outer_iterations as nat, nn)
                == parallel_square_spec::<E, F>(gav, gcv, (outer_iterations - it) as nat, nn),
        decreases outer_iterations - it,
    {
        proof {
            assert forall|i: int, j: int| 0 <= i < nn && 0 <= j < nn implies
                #[trigger] crate::matmul::comm_method::c_grid_at(tc@, gav, gav, nn, i, j) by {
                lemma_cell_bound_mm(i, j, nn);
                assert(mview(tc@[i * nn + j]) == crate::processor::tile_of(gcv, nn, nn, i, j));
                crate::processor::lemma_tile_dims(gcv, nn, nn, i, j);
            }
        }
        let ghost tcpre = tc@;
        let ghost probepre1 = probe;
        F::matrix_mult(&mut ta, &mut tb, &mut tc, n, &mut net, &mut probe, Ghost(gav), Ghost(gav));
        let ghost gcnext = mult_fold_spec::<E, F>(gav, gav, gcv, nn);
        proof {
            crate::processor::probe::lemma_advanced_trans(probe0, probepre1, probe);
            assert forall|i: int, j: int| 0 <= i < nn && 0 <= j < nn implies is_grid(
                #[trigger] F::tile_run_spec(
                    gav,
                    gav,
                    crate::processor::tile_of(gcv, nn, nn, i, j),
                    i,
                    j,
                    nn,
                    0,
                ),
                crate::processor::axis_len(nn, rows_of(gav), i),
                crate::processor::axis_len(nn, cols_of(gav), j),
            ) by {
                lemma_cell_bound_mm(i, j, nn);
                assert(crate::matmul::comm_method::c_grid_at(tc@, gav, gav, nn, i, j));
                assert(mview(tc@[i * nn + j]) == F::tile_run_spec(
                    gav,
                    gav,
                    mview(tcpre[i * nn + j]),
                    i,
                    j,
                    nn,
                    0,
                ));
                assert(mview(tcpre[i * nn + j]) == crate::processor::tile_of(gcv, nn, nn, i, j));
            }
            lemma_mult_fold_tiles::<E, F>(gav, gav, gcv, nn);
            assert forall|i: int, j: int| 0 <= i < nn && 0 <= j < nn implies mview(
                #[trigger] tc@[i * nn + j],
            ) == crate::processor::tile_of(gcnext, nn, nn, i, j) by {
                lemma_cell_bound_mm(i, j, nn);
                assert(mview(tc@[i * nn + j]) == F::tile_run_spec(
                    gav,
                    gav,
                    mview(tcpre[i * nn + j]),
                    i,
                    j,
                    nn,
                    0,
                ));
                assert(mview(tcpre[i * nn + j]) == crate::processor::tile_of(gcv, nn, nn, i, j));
            }
            assert(rows_of(gcnext) == ss && cols_of(gcnext) == ss) by {
                assert(is_grid(gcnext, rows_of(gav), cols_of(gav)));
                if ss > 0 {
                    assert(gcnext[0].len() == ss);
                }
            }
            assert(is_grid(gcnext, ss, ss));
        }
        let mut ta2 = dup_tiles(&tc);
        proof {
            assert forall|i: int, j: int| 0 <= i < nn && 0 <= j < nn implies mview(
                #[trigger] ta2@[i * nn + j],
            ) == crate::processor::tile_of(gcnext, nn, nn, i, j) by {
                lemma_cell_bound_mm(i, j, nn);
                assert(mview(ta2@[i * nn + j]) == mview(tc@[i * nn + j]));
            }
            assert(crate::matmul::comm_method::placed_tiles(
                ta2@,
                gcnext,
                nn,
                nn,
                (|i: int, j: int| (i, j)),
            ));
        }
        let ghost probepre2 = probe;
        F::inner_setup_a(&mut ta2, n, &mut net, &mut probe, Ghost(gcnext));
        ta = ta2;
        let mut tb2 = dup_tiles(&tc);
        proof {
            assert forall|i: int, j: int| 0 <= i < nn && 0 <= j < nn implies mview(
                #[trigger] tb2@[i * nn + j],
            ) == crate::processor::tile_of(gcnext, nn, nn, i, j) by {
                lemma_cell_bound_mm(i, j, nn);
                assert(mview(tb2@[i * nn + j]) == mview(tc@[i * nn + j]));
            }
            assert(crate::matmul::comm_method::placed_tiles(
                tb2@,
                gcnext,
                nn,
                nn,
                (|i: int, j: int| (i, j)),
            ));
        }
        let ghost probepre3 = probe;
        F::inner_setup_b(&mut tb2, n, &mut net, &mut probe, Ghost(gcnext));
        tb = tb2;
        proof {
            crate::processor::probe::lemma_advanced_trans(probe0, probepre2, probe);
            crate::processor::probe::lemma_advanced_trans(probe0, probepre3, probe);
        }
        let ghost gav_next = gcnext;
        proof {
            assert(parallel_square_spec::<E, F>(gav, gcv, (outer_iterations - it) as nat, nn)
                == parallel_square_spec::<E, F>(
                gcnext,
                gcnext,
                (outer_iterations - it - 1) as nat,
                nn,
            ));
            assert(wf_mat(gcnext));
        }
        proof {
            gav = gav_next;
            gcv = gcnext;
        }
        it = it + 1;
    }
    proof {
        assert forall|i: int, j: int| 0 <= i < nn && 0 <= j < nn implies is_grid(
            mview(#[trigger] tc@[i * nn + j]),
            crate::processor::axis_len(nn, side as int, i),
            crate::processor::axis_len(nn, side as int, j),
        ) by {
            lemma_cell_bound_mm(i, j, nn);
            assert(mview(tc@[i * nn + j]) == crate::processor::tile_of(gcv, nn, nn, i, j));
            crate::processor::lemma_tile_dims(gcv, nn, nn, i, j);
        }
    }
    let out = collect_c(&tc, n, side, side);
    proof {
        assert forall|r: int, c: int| 0 <= r < ss && 0 <= c < ss implies mview(out)[r][c] == gcv[r][c]
            by {
            crate::processor::lemma_axis_block(nn, ss, r);
            crate::processor::lemma_axis_block(nn, ss, c);
            let bi = crate::processor::axis_block(nn, ss, r);
            let bj = crate::processor::axis_block(nn, ss, c);
            let r2 = r - crate::processor::axis_start(nn, ss, bi);
            let c2 = c - crate::processor::axis_start(nn, ss, bj);
            lemma_cell_bound_mm(bi, bj, nn);
            assert(mview(out)[crate::processor::axis_start(nn, ss, bi) + r2][
            crate::processor::axis_start(nn, ss, bj) + c2] == mview(tc@[bi * nn + bj])[r2][c2]);
            assert(mview(tc@[bi * nn + bj]) == crate::processor::tile_of(gcv, nn, nn, bi, bj));
            crate::processor::lemma_tile_dims(gcv, nn, nn, bi, bj);
        }
        assert forall|r: int| 0 <= r < ss implies #[trigger] mview(out)[r] == gcv[r] by {
            assert(mview(out)[r] =~= gcv[r]);
        }
        assert(mview(out) =~= gcv);
    }
    let debugs = probe.extract_stats();
    Ok((out, debugs))
}

/// The driver of a plain run: it owns the grid dimensions and runs a chosen
/// kernel over them, without virtual-time accounting.
pub struct MatMul {
    pub rows: usize,
    pub cols: usize,
}

impl MatMul {
    pub fn new(p_height: usize, p_width: usize) -> (r: MatMul)
        ensures
            r.rows == p_height,
            r.cols == p_width,
    {
        MatMul { rows: p_height, cols: p_width }
    }

    /// Multiply two matrices with kernel `F`.  Returns the product exactly
    /// when the operands and the grid satisfy the dimension contract;
    /// otherwise no worker runs and the mismatch is reported.
    pub fn parallel_mult<E: Multiplicable, F: crate::matmul::comm_method::CommMethod<E>>(
        &mut self,
        matrix_a: Matrix<E>,
        matrix_b: Matrix<E>,
    ) -> (r: Result<Matrix<E>, MatMulError>)
        ensures
            *final(self) == *old(self),
            r is Ok <==> mult_ok::<E>(
                mview(matrix_a),
                mview(matrix_b),
                old(self).rows as int,
                old(self).cols as int,
            ),
            r is Err ==> r == Result::<Matrix<E>, MatMulError>::Err(MatMulError::DimensionMismatch),
            r is Ok ==> mview(r->Ok_0) == parallel_mult_spec::<E, F>(
                mview(matrix_a),
                mview(matrix_b),
                old(self).rows as int,
            ),
    {
        let cost = crate::processor::taurus::TimeTaurusNetworkBuilder::new(0, 1, 0);
        match run_kernel::<E, F>(self.rows, self.cols, &matrix_a, &matrix_b, cost, false) {
            Ok(pair) => Ok(pair.0),
            Err(e) => Err(e),
        }
    }

    /// Square a matrix `outer_iterations` times with kernel `F`: each step
    /// multiplies the previous result with itself, accumulating into it.
    pub fn parallel_square<E: Multiplicable, F: crate::matmul::comm_method::CommMethod<E>>(
        &mut self,
        matrix_a: Matrix<E>,
        outer_iterations: usize,
    ) -> (r: Result<Matrix<E>, MatMulError>)
        ensures
            *final(self) == *old(self),
            r is Ok <==> square_ok::<E>(
                mview(matrix_a),
                old(self).rows as int,
                old(self).cols as int,
            ),
            r is Err ==> r == Result::<Matrix<E>, MatMulError>::Err(MatMulError::DimensionMismatch),
            r is Ok ==> mview(r->Ok_0) == parallel_square_spec::<E, F>(
                mview(matrix_a),
                E::initial_c_spec(mview(matrix_a), mview(matrix_a)),
                outer_iterations as nat,
                old(self).rows as int,
            ),
    {
        let cost = crate::processor::taurus::TimeTaurusNetworkBuilder::new(0, 1, 0);
        match run_square::<E, F>(self.rows, self.cols, &matrix_a, outer_iterations, cost, false) {
            Ok(pair) => Ok(pair.0),
            Err(e) => Err(e),
        }
    }
}

/// The probe-mode driver: the same runs as `MatMul`, with one virtual clock
/// per worker advanced by attributed CPU time and by the cost model, and
/// harvested after each run.
pub struct ProbeMatMul {
    pub rows: usize,
    pub cols: usize,
    pub cost: crate::processor::taurus::TimeTaurusNetworkBuilder,
    pub debugs: Vec<crate::processor::probe::CoreDebug>,
}

impl ProbeMatMul {
    pub fn new(
        rows: usize,
        cols: usize,
        cost: crate::processor::taurus::TimeTaurusNetworkBuilder,
    ) -> (r: ProbeMatMul)
        ensures
            r.rows == rows,
            r.cols == cols,
            r.cost == cost,
            r.debugs@.len() == 0,
    {
        ProbeMatMul { rows, cols, cost, debugs: Vec::new() }
    }

    /// Multiply in probe mode; on success the harvested per-worker clocks
    /// replace the stored statistics.
    pub fn parallel_mult<E: Multiplicable, F: crate::matmul::comm_method::CommMethod<E>>(
        &mut self,
        matrix_a: Matrix<E>,
        matrix_b: Matrix<E>,
    ) -> (r: Result<Matrix<E>, MatMulError>)
        ensures
            final(self).rows == old(self).rows,
            final(self).cols == old(self).cols,
            final(self).cost == old(self).cost,
            r is Ok <==> mult_ok::<E>(
                mview(matrix_a),
                mview(matrix_b),
                old(self).rows as int,
                old(self).cols as int,
            ),
            r is Err ==> r == Result::<Matrix<E>, MatMulError>::Err(MatMulError::DimensionMismatch)
                && final(self).debugs == old(self).debugs,
            r is Ok ==> mview(r->Ok_0) == parallel_mult_spec::<E, F>(
                mview(matrix_a),
                mview(matrix_b),
                old(self).rows as int,
            ) && final(self).debugs@.len() == old(self).rows * old(self).cols,
    {
        match run_kernel::<E, F>(self.rows, self.cols, &matrix_a, &matrix_b, self.cost, true) {
            Ok(pair) => {
                self.debugs = pair.1;
                Ok(pair.0)
            },
            Err(e) => Err(e),
        }
    }

    /// Square in probe mode; on success the harvested per-worker clocks
    /// replace the stored statistics.
    pub fn parallel_square<E: Multiplicable, F: crate::matmul::comm_method::CommMethod<E>>(
        &mut self,
        matrix_a: Matrix<E>,
        outer_iterations: usize,
    ) -> (r: Result<Matrix<E>, MatMulError>)
        ensures
            final(self).rows == old(self).rows,
            final(self).cols == old(self).cols,
            final(self).cost == old(self).cost,
            r is Ok <==> square_ok::<E>(
                mview(matrix_a),
                old(self).rows as int,
                old(self).cols as int,
            ),
            r is Err ==> r == Result::<Matrix<E>, MatMulError>::Err(MatMulError::DimensionMismatch)
                && final(self).debugs == old(self).debugs,
            r is Ok ==> mview(r->Ok_0) == parallel_square_spec::<E, F>(
                mview(matrix_a),
                E::initial_c_spec(mview(matrix_a), mview(matrix_a)),
                outer_iterations as nat,
                old(self).rows as int,
            ) && final(self).debugs@.len() == old(self).rows * old(self).cols,
    {
        match run_square::<E, F>(
            self.rows,
            self.cols,
            &matrix_a,
            outer_iterations,
            self.cost,
            true,
        ) {
            Ok(pair) => {
                self.debugs = pair.1;
                Ok(pair.0)
            },
            Err(e) => Err(e),
        }
    }

    /// The harvested per-worker clocks of the last successful run.
    pub fn debug_stats(&self) -> (r: &Vec<crate::processor::probe::CoreDebug>)
        ensures
            r == &self.debugs,
    {
        &self.debugs
    }

    /// The slowest worker of the last run: the figure of merit of a
    /// synchronous processor array.
    pub fn max_debug_time(&self) -> (r: Option<u64>)
        ensures
            self.debugs@.len() == 0 <==> r is None,
            r is Some ==> exists|i: int|
                0 <= i < self.debugs@.len() && (#[trigger] self.debugs@[i]).stat == r->Some_0,
            r is Some ==> forall|i: int|
                0 <= i < self.debugs@.len() ==> (#[trigger] self.debugs@[i]).stat <= r->Some_0,
    {
        crate::processor::probe::max_debug_time(&self.debugs)
    }
}


/// One entry of a partial broadcast-schedule fold: the rounds `t .. n`
/// accumulate, entry by entry, exactly the tail of the serial dot fold that
/// starts at block `t`'s inner offset.
proof fn lemma_hash_tile_entry<E: Multiplicable>(
    ga: Seq<Seq<E>>,
    gb: Seq<Seq<E>>,
    acc: Seq<Seq<E>>,
    bi: int,
    bj: int,
    n: int,
    t: int,
    r2: int,
    c2: int,
)
    requires
        wf_mat(ga),
        wf_mat(gb),
        cols_of(ga) == rows_of(gb),
        n >= 1,
        0 <= bi < n,
        0 <= bj < n,
        0 <= t <= n,
        is_grid(
            acc,
            crate::processor::axis_len(n, rows_of(ga), bi),
            crate::processor::axis_len(n, cols_of(gb), bj),
        ),
        0 <= r2 < crate::processor::axis_len(n, rows_of(ga), bi),
        0 <= c2 < crate::processor::axis_len(n, cols_of(gb), bj),
    ensures
        <crate::matmul::comm_method::Hash as crate::matmul::comm_method::CommMethod<E>>::tile_run_spec(
            ga,
            gb,
            acc,
            bi,
            bj,
            n,
            t,
        )[r2][c2] == dot_fold(
            ga[crate::processor::axis_start(n, rows_of(ga), bi) + r2].skip(
                crate::processor::axis_start(n, cols_of(ga), t),
            ),
            col_of(gb, crate::processor::axis_start(n, cols_of(gb), bj) + c2).skip(
                crate::processor::axis_start(n, rows_of(gb), t),
            ),
            acc[r2][c2],
        ),
    decreases n - t,
{
    let si = crate::processor::axis_start(n, rows_of(ga), bi);
    let sj = crate::processor::axis_start(n, cols_of(gb), bj);
    let cs = crate::processor::axis_start(n, cols_of(ga), t);
    let arow = ga[si + r2];
    let bcol = col_of(gb, sj + c2);
    crate::processor::lemma_axis_step(n, rows_of(ga), bi);
    crate::processor::lemma_axis_mono(n, rows_of(ga), bi + 1, n);
    crate::processor::lemma_axis_mono(n, rows_of(ga), 0, bi);
    crate::processor::lemma_axis_total(n, rows_of(ga));
    crate::processor::lemma_axis_step(n, cols_of(gb), bj);
    crate::processor::lemma_axis_mono(n, cols_of(gb), bj + 1, n);
    crate::processor::lemma_axis_mono(n, cols_of(gb), 0, bj);
    crate::processor::lemma_axis_total(n, cols_of(gb));
    crate::processor::lemma_axis_total(n, cols_of(ga));
    assert(arow.len() == cols_of(ga));
    assert(bcol.len() == rows_of(gb));
    if t == n {
        assert(arow.skip(cols_of(ga)) =~= Seq::<E>::empty());
        assert(bcol.skip(rows_of(gb)) =~= Seq::<E>::empty());
    } else {
        crate::processor::lemma_axis_step(n, cols_of(ga), t);
        crate::processor::lemma_axis_mono(n, cols_of(ga), t + 1, n);
        crate::processor::lemma_axis_mono(n, cols_of(ga), 0, t);
        let cs1 = crate::processor::axis_start(n, cols_of(ga), t + 1);
        let ta = crate::processor::tile_of(ga, n, n, bi, t);
        let tb = crate::processor::tile_of(gb, n, n, t, bj);
        let acc1 = mm_spec(ta, tb, acc);
        crate::matmul::comm_method::lemma_mult_tiles_ok::<E>(ga, gb, acc, n, bi, t, bj);
        lemma_hash_tile_entry(ga, gb, acc1, bi, bj, n, t + 1, r2, c2);
        crate::processor::lemma_tile_dims(ga, n, n, bi, t);
        crate::processor::lemma_tile_dims(gb, n, n, t, bj);
        // The received tiles are the block-t slices of the global row and
        // column.
        assert(ta[r2] =~= arow.subrange(cs, cs1)) by {
            assert(ta[r2] == ga[si + r2].subrange(cs, cs + crate::processor::axis_len(n, cols_of(ga), t)));
        }
        let tbcol = col_of(tb, c2);
        assert(tbcol =~= bcol.subrange(cs, cs1)) by {
            assert(tbcol.len() == tb.len());
            assert(tb.len() == crate::processor::axis_len(n, rows_of(gb), t));
            assert forall|k: int| 0 <= k < tbcol.len() implies tbcol[k] == bcol.subrange(
                cs,
                cs1,
            )[k] by {
                assert(tbcol[k] == tb[k][c2]);
                assert(tb[k] == gb[cs + k].subrange(sj, sj + crate::processor::axis_len(n, cols_of(gb), bj)));
                assert(tb[k][c2] == gb[cs + k][sj + c2]);
                assert(bcol[cs + k] == gb[cs + k][sj + c2]);
            }
        }
        assert(acc1[r2][c2] == dot_fold(ta[r2], tbcol, acc[r2][c2]));
        assert(arow.skip(cs) =~= arow.subrange(cs, cs1) + arow.skip(cs1));
        assert(bcol.skip(cs) =~= bcol.subrange(cs, cs1) + bcol.skip(cs1));
        lemma_dot_fold_concat(
            arow.subrange(cs, cs1),
            bcol.subrange(cs, cs1),
            arow.skip(cs1),
            bcol.skip(cs1),
            acc[r2][c2],
        );
        assert(dot_fold(arow.skip(cs1), bcol.skip(cs1), acc1[r2][c2])
            == <crate::matmul::comm_method::Hash as crate::matmul::comm_method::CommMethod<
            E,
        >>::tile_run_spec(ga, gb, acc1, bi, bj, n, t + 1)[r2][c2]);
    }
}

/// Kernel equivalence for the broadcast schedule: on every valid operand
/// pair and grid, the parallel product of the broadcast kernel is the
/// serial reference product, entry for entry.
pub proof fn lemma_hash_equals_serial<E: Multiplicable>(a: Seq<Seq<E>>, b: Seq<Seq<E>>, n: int)
    requires
        wf_mat(a),
        wf_mat(b),
        cols_of(a) == rows_of(b),
        E::initial_c_ok(a, b),
        n >= 1,
    ensures
        parallel_mult_spec::<E, crate::matmul::comm_method::Hash>(a, b, n) == mm_spec(
            a,
            b,
            E::initial_c_spec(a, b),
        ),
{
    E::initial_c_covers(a, b);
    lemma_hash_fold_equals_serial::<E>(a, b, E::initial_c_spec(a, b), n);
}

/// The broadcast schedule's fold from any accumulator grid is the serial
/// product from that accumulator.
pub proof fn lemma_hash_fold_equals_serial<E: Multiplicable>(
    a: Seq<Seq<E>>,
    b: Seq<Seq<E>>,
    c0: Seq<Seq<E>>,
    n: int,
)
    requires
        wf_mat(a),
        wf_mat(b),
        cols_of(a) == rows_of(b),
        is_grid(c0, rows_of(a), cols_of(b)),
        n >= 1,
    ensures
        mult_fold_spec::<E, crate::matmul::comm_method::Hash>(a, b, c0, n) == mm_spec(a, b, c0),
{
    let lhs = mult_fold_spec::<E, crate::matmul::comm_method::Hash>(a, b, c0, n);
    let rhs = mm_spec(a, b, c0);
    assert(lhs.len() == rows_of(a));
    assert(rhs.len() == rows_of(a));
    assert forall|r: int| 0 <= r < rows_of(a) implies #[trigger] lhs[r] == rhs[r] by {
        assert(lhs[r].len() == cols_of(b));
        assert(rhs[r].len() == cols_of(b));
        assert forall|c: int| 0 <= c < cols_of(b) implies lhs[r][c] == rhs[r][c] by {
            crate::processor::lemma_axis_block(n, rows_of(a), r);
            crate::processor::lemma_axis_block(n, cols_of(b), c);
            let bi = crate::processor::axis_block(n, rows_of(a), r);
            let bj = crate::processor::axis_block(n, cols_of(b), c);
            let si = crate::processor::axis_start(n, rows_of(a), bi);
            let sj = crate::processor::axis_start(n, cols_of(b), bj);
            let r2 = r - si;
            let c2 = c - sj;
            crate::processor::lemma_tile_dims(c0, n, n, bi, bj);
            lemma_hash_tile_entry::<E>(
                a,
                b,
                crate::processor::tile_of(c0, n, n, bi, bj),
                bi,
                bj,
                n,
                0,
                r2,
                c2,
            );
            assert(crate::processor::axis_start(n, cols_of(a), 0) == 0);
            assert(crate::processor::axis_start(n, rows_of(b), 0) == 0);
            assert(a[r].skip(0) =~= a[r]);
            assert(col_of(b, c).skip(0) =~= col_of(b, c));
            assert(crate::processor::tile_of(c0, n, n, bi, bj)[r2][c2] == c0[r][c]);
        }
        assert(lhs[r] =~= rhs[r]);
    }
    assert(lhs =~= rhs);
}


/// Accumulation steps commute: folding two products in either order gives
/// the same accumulator.
pub open spec fn steps_commute<E: Multiplicable>() -> bool {
    forall|a: E, b: E, x: E, y: E, c: E|
        #[trigger] E::combine_spec(a, b, E::combine_spec(x, y, c)) == E::combine_spec(
            x,
            y,
            E::combine_spec(a, b, c),
        )
}

/// With commuting steps, one accumulation step moves through a whole fold.
proof fn lemma_fold_step_commutes<E: Multiplicable>(ar: Seq<E>, bc: Seq<E>, acc: E, x: E, y: E)
    requires
        steps_commute::<E>(),
    ensures
        dot_fold(ar, bc, E::combine_spec(x, y, acc)) == E::combine_spec(
            x,
            y,
            dot_fold(ar, bc, acc),
        ),
    decreases ar.len(),
{
    if ar.len() == 0 || bc.len() == 0 {
    } else {
        lemma_fold_step_commutes(
            ar.drop_first(),
            bc.drop_first(),
            E::combine_spec(ar[0], bc[0], acc),
            x,
            y,
        );
        assert(E::combine_spec(ar[0], bc[0], E::combine_spec(x, y, acc)) == E::combine_spec(
            x,
            y,
            E::combine_spec(ar[0], bc[0], acc),
        ));
    }
}

/// With commuting steps, two whole folds commute.
proof fn lemma_folds_commute<E: Multiplicable>(
    a1: Seq<E>,
    b1: Seq<E>,
    a2: Seq<E>,
    b2: Seq<E>,
    acc: E,
)
    requires
        steps_commute::<E>(),
        a1.len() == b1.len(),
    ensures
        dot_fold(a2, b2, dot_fold(a1, b1, acc)) == dot_fold(a1, b1, dot_fold(a2, b2, acc)),
    decreases a1.len(),
{
    if a1.len() == 0 {
    } else {
        let acc1 = E::combine_spec(a1[0], b1[0], acc);
        lemma_folds_commute(a1.drop_first(), b1.drop_first(), a2, b2, acc1);
        lemma_fold_step_commutes(a2, b2, acc, a1[0], b1[0]);
        lemma_fold_step_commutes(
            a2,
            b2,
            dot_fold(a1.drop_first(), b1.drop_first(), acc1),
            a1[0],
            b1[0],
        );
        assert(dot_fold(a1, b1, dot_fold(a2, b2, acc)) == dot_fold(
            a1.drop_first(),
            b1.drop_first(),
            E::combine_spec(a1[0], b1[0], dot_fold(a2, b2, acc)),
        ));
        assert(E::combine_spec(a1[0], b1[0], dot_fold(a2, b2, acc)) == dot_fold(
            a2,
            b2,
            acc1,
        ));
    }
}

/// With commuting steps, a fold over a rotated pairing equals the fold over
/// the unrotated one.
proof fn lemma_fold_rotation<E: Multiplicable>(ar: Seq<E>, bc: Seq<E>, acc: E, cut: int)
    requires
        steps_commute::<E>(),
        ar.len() == bc.len(),
        0 <= cut <= ar.len(),
    ensures
        dot_fold(ar.skip(cut) + ar.take(cut), bc.skip(cut) + bc.take(cut), acc) == dot_fold(
            ar,
            bc,
            acc,
        ),
{
    lemma_dot_fold_concat(ar.skip(cut), bc.skip(cut), ar.take(cut), bc.take(cut), acc);
    lemma_dot_fold_concat(ar.take(cut), bc.take(cut), ar.skip(cut), bc.skip(cut), acc);
    lemma_folds_commute(ar.take(cut), bc.take(cut), ar.skip(cut), bc.skip(cut), acc);
    assert(ar.take(cut) + ar.skip(cut) =~= ar);
    assert(bc.take(cut) + bc.skip(cut) =~= bc);
}

/// One entry of a partial rotated-schedule fold: the rounds `t .. n` of a
/// schedule that visits block `(t + s) % n` at round `t` accumulate the
/// rotated tail of the serial dot fold, split at the wrap-around.
proof fn lemma_rot_tile_entry<E: Multiplicable, F: crate::matmul::comm_method::CommMethod<E>>(
    ga: Seq<Seq<E>>,
    gb: Seq<Seq<E>>,
    acc: Seq<Seq<E>>,
    bi: int,
    bj: int,
    n: int,
    t: int,
    s: int,
    r2: int,
    c2: int,
)
    requires
        wf_mat(ga),
        wf_mat(gb),
        cols_of(ga) == rows_of(gb),
        n >= 1,
        0 <= bi < n,
        0 <= bj < n,
        0 <= t <= n,
        0 <= s < n,
        forall|t2: int| 0 <= t2 < n ==> #[trigger] F::schedule(bi, bj, t2, n) == (t2 + s) % n,
        is_grid(
            acc,
            crate::processor::axis_len(n, rows_of(ga), bi),
            crate::processor::axis_len(n, cols_of(gb), bj),
        ),
        0 <= r2 < crate::processor::axis_len(n, rows_of(ga), bi),
        0 <= c2 < crate::processor::axis_len(n, cols_of(gb), bj),
    ensures
        ({
            let arow = ga[crate::processor::axis_start(n, rows_of(ga), bi) + r2];
            let bcol = col_of(gb, crate::processor::axis_start(n, cols_of(gb), bj) + c2);
            let cs = |k: int| crate::processor::axis_start(n, cols_of(ga), k);
            F::tile_run_spec(ga, gb, acc, bi, bj, n, t)[r2][c2] == (if t + s <= n {
                dot_fold(
                    arow.skip(cs(t + s)) + arow.take(cs(s)),
                    bcol.skip(cs(t + s)) + bcol.take(cs(s)),
                    acc[r2][c2],
                )
            } else {
                dot_fold(
                    arow.subrange(cs(t + s - n), cs(s)),
                    bcol.subrange(cs(t + s - n), cs(s)),
                    acc[r2][c2],
                )
            })
        }),
    decreases n - t,
{
    let ra = rows_of(ga);
    let ca = cols_of(ga);
    let cb = cols_of(gb);
    let si = crate::processor::axis_start(n, ra, bi);
    let sj = crate::processor::axis_start(n, cb, bj);
    let arow = ga[si + r2];
    let bcol = col_of(gb, sj + c2);
    crate::processor::lemma_axis_step(n, ra, bi);
    crate::processor::lemma_axis_mono(n, ra, bi + 1, n);
    crate::processor::lemma_axis_mono(n, ra, 0, bi);
    crate::processor::lemma_axis_total(n, ra);
    crate::processor::lemma_axis_step(n, cb, bj);
    crate::processor::lemma_axis_mono(n, cb, bj + 1, n);
    crate::processor::lemma_axis_mono(n, cb, 0, bj);
    crate::processor::lemma_axis_total(n, cb);
    crate::processor::lemma_axis_total(n, ca);
    assert(arow.len() == ca);
    assert(bcol.len() == rows_of(gb));
    F::tile_run_spec_unfold(ga, gb, acc, bi, bj, n, t);
    if t == n {
        crate::processor::lemma_axis_mono(n, ca, 0, s);
        crate::processor::lemma_axis_mono(n, ca, s, n);
        if s == 0 {
            assert(arow.skip(crate::processor::axis_start(n, ca, n)) + arow.take(
                crate::processor::axis_start(n, ca, 0),
            ) =~= Seq::<E>::empty());
            assert(bcol.skip(crate::processor::axis_start(n, ca, n)) + bcol.take(
                crate::processor::axis_start(n, ca, 0),
            ) =~= Seq::<E>::empty());
        } else {
            assert(arow.subrange(
                crate::processor::axis_start(n, ca, s),
                crate::processor::axis_start(n, ca, s),
            ) =~= Seq::<E>::empty());
            assert(bcol.subrange(
                crate::processor::axis_start(n, ca, s),
                crate::processor::axis_start(n, ca, s),
            ) =~= Seq::<E>::empty());
        }
    } else {
        let k = (t + s) % n;
        assert(F::schedule(bi, bj, t, n) == k);
        vstd::arithmetic::div_mod::lemma_mod_bound(t + s, n);
        let csk = crate::processor::axis_start(n, ca, k);
        let csk1 = crate::processor::axis_start(n, ca, k + 1);
        crate::processor::lemma_axis_step(n, ca, k);
        crate::processor::lemma_axis_mono(n, ca, k + 1, n);
        crate::processor::lemma_axis_mono(n, ca, 0, k);
        let ta = crate::processor::tile_of(ga, n, n, bi, k);
        let tb = crate::processor::tile_of(gb, n, n, k, bj);
        let acc1 = mm_spec(ta, tb, acc);
        crate::matmul::comm_method::lemma_mult_tiles_ok::<E>(ga, gb, acc, n, bi, k, bj);
        lemma_rot_tile_entry::<E, F>(ga, gb, acc1, bi, bj, n, t + 1, s, r2, c2);
        crate::processor::lemma_tile_dims(ga, n, n, bi, k);
        crate::processor::lemma_tile_dims(gb, n, n, k, bj);
        assert(ta[r2] =~= arow.subrange(csk, csk1)) by {
            assert(ta[r2] == ga[si + r2].subrange(
                csk,
                csk + crate::processor::axis_len(n, ca, k),
            ));
        }
        let tbcol = col_of(tb, c2);
        assert(tbcol =~= bcol.subrange(csk, csk1)) by {
            assert(tbcol.len() == tb.len());
            assert(tb.len() == crate::processor::axis_len(n, rows_of(gb), k));
            assert forall|q: int| 0 <= q < tbcol.len() implies tbcol[q] == bcol.subrange(
                csk,
                csk1,
            )[q] by {
                assert(tbcol[q] == tb[q][c2]);
                assert(tb[q] == gb[csk + q].subrange(
                    sj,
                    sj + crate::processor::axis_len(n, cb, bj),
                ));
                assert(tb[q][c2] == gb[csk + q][sj + c2]);
                assert(bcol[csk + q] == gb[csk + q][sj + c2]);
            }
        }
        assert(acc1[r2][c2] == dot_fold(ta[r2], tbcol, acc[r2][c2]));
        let cs_s = crate::processor::axis_start(n, ca, s);
        if t + s < n {
            // No wrap yet: this round consumes the slice at the head of the
            // rotated tail.
            assert(k == t + s) by {
                vstd::arithmetic::div_mod::lemma_small_mod((t + s) as nat, n as nat);
            }
            crate::processor::lemma_axis_mono(n, ca, 0, s);
            crate::processor::lemma_axis_mono(n, ca, s, k);
            crate::processor::lemma_axis_mono(n, ca, s, n);
            if t + 1 + s <= n {
                assert(arow.skip(csk) + arow.take(cs_s) =~= (arow.subrange(csk, csk1)) + (
                arow.skip(csk1) + arow.take(cs_s)));
                assert(bcol.skip(csk) + bcol.take(cs_s) =~= (bcol.subrange(csk, csk1)) + (
                bcol.skip(csk1) + bcol.take(cs_s)));
                lemma_dot_fold_concat(
                    arow.subrange(csk, csk1),
                    bcol.subrange(csk, csk1),
                    arow.skip(csk1) + arow.take(cs_s),
                    bcol.skip(csk1) + bcol.take(cs_s),
                    acc[r2][c2],
                );
            }
        } else {
            // Wrapped: this round consumes a slice before the cut.
            assert(k == t + s - n) by {
                vstd::arithmetic::div_mod::lemma_mod_add_multiples_vanish((t + s - n), n);
                vstd::arithmetic::div_mod::lemma_small_mod((t + s - n) as nat, n as nat);
            }
            crate::processor::lemma_axis_mono(n, ca, k + 1, s);
            crate::processor::lemma_axis_mono(n, ca, s, n);
            if t + s == n {
                // The first wrapped round: the rotated tail becomes the
                // leading prefix.
                assert(k == 0);
                assert(csk == 0);
                assert(arow.skip(crate::processor::axis_start(n, ca, n)) =~= Seq::<E>::empty());
                assert(bcol.skip(crate::processor::axis_start(n, ca, n)) =~= Seq::<E>::empty());
                assert(arow.skip(crate::processor::axis_start(n, ca, n)) + arow.take(cs_s)
                    =~= (arow.subrange(0, csk1)) + (arow.subrange(csk1, cs_s)));
                assert(bcol.skip(crate::processor::axis_start(n, ca, n)) + bcol.take(cs_s)
                    =~= (bcol.subrange(0, csk1)) + (bcol.subrange(csk1, cs_s)));
                lemma_dot_fold_concat(
                    arow.subrange(0, csk1),
                    bcol.subrange(0, csk1),
                    arow.subrange(csk1, cs_s),
                    bcol.subrange(csk1, cs_s),
                    acc[r2][c2],
                );
            } else {
                assert(arow.subrange(csk, cs_s) =~= (arow.subrange(csk, csk1)) + (arow.subrange(
                    csk1,
                    cs_s,
                )));
                assert(bcol.subrange(csk, cs_s) =~= (bcol.subrange(csk, csk1)) + (bcol.subrange(
                    csk1,
                    cs_s,
                )));
                lemma_dot_fold_concat(
                    arow.subrange(csk, csk1),
                    bcol.subrange(csk, csk1),
                    arow.subrange(csk1, cs_s),
                    bcol.subrange(csk1, cs_s),
                    acc[r2][c2],
                );
            }
        }
    }
}

/// Kernel equivalence for a rotated schedule with commuting accumulation:
/// if the kernel's schedule at each cell is a rotation of the block order,
/// its parallel product is the serial reference product.
proof fn lemma_rot_equals_serial<E: Multiplicable, F: crate::matmul::comm_method::CommMethod<E>>(
    a: Seq<Seq<E>>,
    b: Seq<Seq<E>>,
    n: int,
    shift: spec_fn(int, int) -> int,
)
    requires
        steps_commute::<E>(),
        wf_mat(a),
        wf_mat(b),
        cols_of(a) == rows_of(b),
        E::initial_c_ok(a, b),
        n >= 1,
        forall|i: int, j: int|
            0 <= i < n && 0 <= j < n ==> 0 <= #[trigger] shift(i, j) < n,
        forall|i: int, j: int, t: int|
            0 <= i < n && 0 <= j < n && 0 <= t < n ==> #[trigger] F::schedule(i, j, t, n) == (t
                + shift(i, j)) % n,
    ensures
        parallel_mult_spec::<E, F>(a, b, n) == mm_spec(a, b, E::initial_c_spec(a, b)),
{
    E::initial_c_covers(a, b);
    lemma_rot_fold_equals_serial::<E, F>(a, b, E::initial_c_spec(a, b), n, shift);
}

/// A rotated schedule's fold from any accumulator grid is the serial
/// product from that accumulator, for commuting accumulation.
proof fn lemma_rot_fold_equals_serial<E: Multiplicable, F: crate::matmul::comm_method::CommMethod<E>>(
    a: Seq<Seq<E>>,
    b: Seq<Seq<E>>,
    c0: Seq<Seq<E>>,
    n: int,
    shift: spec_fn(int, int) -> int,
)
    requires
        steps_commute::<E>(),
        wf_mat(a),
        wf_mat(b),
        cols_of(a) == rows_of(b),
        is_grid(c0, rows_of(a), cols_of(b)),
        n >= 1,
        forall|i: int, j: int|
            0 <= i < n && 0 <= j < n ==> 0 <= #[trigger] shift(i, j) < n,
        forall|i: int, j: int, t: int|
            0 <= i < n && 0 <= j < n && 0 <= t < n ==> #[trigger] F::schedule(i, j, t, n) == (t
                + shift(i, j)) % n,
    ensures
        mult_fold_spec::<E, F>(a, b, c0, n) == mm_spec(a, b, c0),
{
    let lhs = mult_fold_spec::<E, F>(a, b, c0, n);
    let rhs = mm_spec(a, b, c0);
    assert(lhs.len() == rows_of(a));
    assert(rhs.len() == rows_of(a));
    assert forall|r: int| 0 <= r < rows_of(a) implies #[trigger] lhs[r] == rhs[r] by {
        assert(lhs[r].len() == cols_of(b));
        assert(rhs[r].len() == cols_of(b));
        assert forall|c: int| 0 <= c < cols_of(b) implies lhs[r][c] == rhs[r][c] by {
            crate::processor::lemma_axis_block(n, rows_of(a), r);
            crate::processor::lemma_axis_block(n, cols_of(b), c);
            let bi = crate::processor::axis_block(n, rows_of(a), r);
            let bj = crate::processor::axis_block(n, cols_of(b), c);
            let si = crate::processor::axis_start(n, rows_of(a), bi);
            let sj = crate::processor::axis_start(n, cols_of(b), bj);
            let r2 = r - si;
            let c2 = c - sj;
            let s = shift(bi, bj);
            crate::processor::lemma_tile_dims(c0, n, n, bi, bj);
            lemma_rot_tile_entry::<E, F>(
                a,
                b,
                crate::processor::tile_of(c0, n, n, bi, bj),
                bi,
                bj,
                n,
                0,
                s,
                r2,
                c2,
            );
            let arow = a[r];
            let bcol = col_of(b, c);
            let cs_s = crate::processor::axis_start(n, cols_of(a), s);
            crate::processor::lemma_axis_mono(n, cols_of(a), 0, s);
            crate::processor::lemma_axis_mono(n, cols_of(a), s, n);
            crate::processor::lemma_axis_total(n, cols_of(a));
            lemma_fold_rotation(arow, bcol, crate::processor::tile_of(c0, n, n, bi, bj)[r2][c2], cs_s);
            assert(crate::processor::tile_of(c0, n, n, bi, bj)[r2][c2] == c0[r][c]);
            assert(bcol.len() == rows_of(b));
        }
        assert(lhs[r] =~= rhs[r]);
    }
    assert(lhs =~= rhs);
}

/// Integer accumulation commutes: two wrapped products fold in either
/// order.
proof fn lemma_i64_steps_commute()
    ensures
        steps_commute::<i64>(),
{
    assert forall|x: i64, y: i64, p: i64, q: i64, c: i64|
        #[trigger] <i64 as Multiplicable>::combine_spec(
            x,
            y,
            <i64 as Multiplicable>::combine_spec(p, q, c),
        ) == <i64 as Multiplicable>::combine_spec(
        p,
        q,
        <i64 as Multiplicable>::combine_spec(x, y, c),
    ) by {
        let m1 = vstd::wrapping::i64_specs::wrapping_mul(x, y);
        let m2 = vstd::wrapping::i64_specs::wrapping_mul(p, q);
        assert(vstd::wrapping::i64_specs::wrapping_add(
            vstd::wrapping::i64_specs::wrapping_add(c, m2),
            m1,
        ) == vstd::wrapping::i64_specs::wrapping_add(
            vstd::wrapping::i64_specs::wrapping_add(c, m1),
            m2,
        ));
    }
}

/// Unsigned accumulation commutes likewise.
proof fn lemma_usize_steps_commute()
    ensures
        steps_commute::<usize>(),
{
    assert forall|x: usize, y: usize, p: usize, q: usize, c: usize|
        #[trigger] <usize as Multiplicable>::combine_spec(
            x,
            y,
            <usize as Multiplicable>::combine_spec(p, q, c),
        ) == <usize as Multiplicable>::combine_spec(
        p,
        q,
        <usize as Multiplicable>::combine_spec(x, y, c),
    ) by {
        let m1 = vstd::wrapping::usize_specs::wrapping_mul(x, y);
        let m2 = vstd::wrapping::usize_specs::wrapping_mul(p, q);
        assert(vstd::wrapping::usize_specs::wrapping_add(
            vstd::wrapping::usize_specs::wrapping_add(c, m2),
            m1,
        ) == vstd::wrapping::usize_specs::wrapping_add(
            vstd::wrapping::usize_specs::wrapping_add(c, m1),
            m2,
        ));
    }
}

/// Kernel equivalence over the integer ring: every one of the four
/// schedules computes the serial reference product.  The broadcast schedule
/// does so for every element type; the three migrating schedules
/// accumulate each cell's blocks in a rotated order, which the commuting
/// integer accumulation cannot observe.
pub proof fn lemma_kernels_equal_serial_i64(a: Seq<Seq<i64>>, b: Seq<Seq<i64>>, n: int)
    requires
        wf_mat(a),
        wf_mat(b),
        cols_of(a) == rows_of(b),
        n >= 1,
    ensures
        parallel_mult_spec::<i64, crate::matmul::comm_method::Hash>(a, b, n) == mm_spec(
            a,
            b,
            <i64 as Multiplicable>::initial_c_spec(a, b),
        ),
        parallel_mult_spec::<i64, crate::matmul::comm_method::FoxOtto>(a, b, n) == mm_spec(
            a,
            b,
            <i64 as Multiplicable>::initial_c_spec(a, b),
        ),
        parallel_mult_spec::<i64, crate::matmul::comm_method::PipeFoxOtto>(a, b, n) == mm_spec(
            a,
            b,
            <i64 as Multiplicable>::initial_c_spec(a, b),
        ),
        parallel_mult_spec::<i64, crate::matmul::comm_method::Cannon>(a, b, n) == mm_spec(
            a,
            b,
            <i64 as Multiplicable>::initial_c_spec(a, b),
        ),
{
    lemma_i64_steps_commute();
    lemma_hash_equals_serial::<i64>(a, b, n);
    assert forall|i: int, j: int, t: int| 0 <= i < n && 0 <= j < n && 0 <= t < n implies
        #[trigger] <crate::matmul::comm_method::PipeFoxOtto as crate::matmul::comm_method::CommMethod<
        i64,
    >>::schedule(i, j, t, n) == (t + (i + 1) % n) % n by {
        vstd::arithmetic::div_mod::lemma_add_mod_noop_right(t, i + 1, n);
    }
    assert forall|i: int, j: int, t: int| 0 <= i < n && 0 <= j < n && 0 <= t < n implies
        #[trigger] <crate::matmul::comm_method::Cannon as crate::matmul::comm_method::CommMethod<
        i64,
    >>::schedule(i, j, t, n) == (t + (i + j) % n) % n by {
        vstd::arithmetic::div_mod::lemma_add_mod_noop_right(t, i + j, n);
        assert((i + j + t) % n == (t + (i + j)) % n);
    }
    lemma_rot_equals_serial::<i64, crate::matmul::comm_method::FoxOtto>(
        a,
        b,
        n,
        (|i: int, j: int| i),
    );
    lemma_rot_equals_serial::<i64, crate::matmul::comm_method::PipeFoxOtto>(
        a,
        b,
        n,
        (|i: int, j: int| (i + 1) % n),
    );
    lemma_rot_equals_serial::<i64, crate::matmul::comm_method::Cannon>(
        a,
        b,
        n,
        (|i: int, j: int| (i + j) % n),
    );
}

/// Kernel equivalence over the unsigned ring, as for the signed one.
pub proof fn lemma_kernels_equal_serial_usize(a: Seq<Seq<usize>>, b: Seq<Seq<usize>>, n: int)
    requires
        wf_mat(a),
        wf_mat(b),
        cols_of(a) == rows_of(b),
        n >= 1,
    ensures
        parallel_mult_spec::<usize, crate::matmul::comm_method::Hash>(a, b, n) == mm_spec(
            a,
            b,
            <usize as Multiplicable>::initial_c_spec(a, b),
        ),
        parallel_mult_spec::<usize, crate::matmul::comm_method::FoxOtto>(a, b, n) == mm_spec(
            a,
            b,
            <usize as Multiplicable>::initial_c_spec(a, b),
        ),
        parallel_mult_spec::<usize, crate::matmul::comm_method::PipeFoxOtto>(a, b, n) == mm_spec(
            a,
            b,
            <usize as Multiplicable>::initial_c_spec(a, b),
        ),
        parallel_mult_spec::<usize, crate::matmul::comm_method::Cannon>(a, b, n) == mm_spec(
            a,
            b,
            <usize as Multiplicable>::initial_c_spec(a, b),
        ),
{
    lemma_usize_steps_commute();
    lemma_hash_equals_serial::<usize>(a, b, n);
    assert forall|i: int, j: int, t: int| 0 <= i < n && 0 <= j < n && 0 <= t < n implies
        #[trigger] <crate::matmul::comm_method::PipeFoxOtto as crate::matmul::comm_method::CommMethod<
        usize,
    >>::schedule(i, j, t, n) == (t + (i + 1) % n) % n by {
        vstd::arithmetic::div_mod::lemma_add_mod_noop_right(t, i + 1, n);
    }
    assert forall|i: int, j: int, t: int| 0 <= i < n && 0 <= j < n && 0 <= t < n implies
        #[trigger] <crate::matmul::comm_method::Cannon as crate::matmul::comm_method::CommMethod<
        usize,
    >>::schedule(i, j, t, n) == (t + (i + j) % n) % n by {
        vstd::arithmetic::div_mod::lemma_add_mod_noop_right(t, i + j, n);
        assert((i + j + t) % n == (t + (i + j)) % n);
    }
    lemma_rot_equals_serial::<usize, crate::matmul::comm_method::FoxOtto>(
        a,
        b,
        n,
        (|i: int, j: int| i),
    );
    lemma_rot_equals_serial::<usize, crate::matmul::comm_method::PipeFoxOtto>(
        a,
        b,
        n,
        (|i: int, j: int| (i + 1) % n),
    );
    lemma_rot_equals_serial::<usize, crate::matmul::comm_method::Cannon>(
        a,
        b,
        n,
        (|i: int, j: int| (i + j) % n),
    );
}


/// Repeated serial squaring: each step multiplies the previous result with
/// itself, accumulating into it.
pub open spec fn serial_square_spec<E: Multiplicable>(
    a: Seq<Seq<E>>,
    c: Seq<Seq<E>>,
    k: nat,
) -> Seq<Seq<E>>
    decreases k,
{
    if k == 0 {
        c
    } else {
        let c1 = mm_spec(a, a, c);
        serial_square_spec::<E>(c1, c1, (k - 1) as nat)
    }
}

/// The serial product of two square grids is a square grid.
proof fn lemma_mm_spec_grid<E: Multiplicable>(a: Seq<Seq<E>>, c: Seq<Seq<E>>, side: int)
    requires
        is_grid(a, side, side),
        is_grid(c, side, side),
        side >= 0,
    ensures
        is_grid(mm_spec(a, a, c), side, side),
{
    let m = mm_spec(a, a, c);
    assert(m.len() == side);
    assert forall|i: int| 0 <= i < side implies #[trigger] m[i].len() == side by {
        assert(c[i].len() == side);
    }
}

/// One rotated schedule's squaring chain equals the serial chain, by
/// induction over the steps.
proof fn lemma_square_steps_i64<F: crate::matmul::comm_method::CommMethod<i64>>(
    a: Seq<Seq<i64>>,
    c: Seq<Seq<i64>>,
    k: nat,
    n: int,
    side: int,
    shift: spec_fn(int, int) -> int,
)
    requires
        n >= 1,
        side >= 0,
        is_grid(a, side, side),
        is_grid(c, side, side),
        forall|i: int, j: int| 0 <= i < n && 0 <= j < n ==> 0 <= #[trigger] shift(i, j) < n,
        forall|i: int, j: int, t: int|
            0 <= i < n && 0 <= j < n && 0 <= t < n ==> #[trigger] F::schedule(i, j, t, n) == (t
                + shift(i, j)) % n,
    ensures
        parallel_square_spec::<i64, F>(a, c, k, n) == serial_square_spec::<i64>(a, c, k),
    decreases k,
{
    if k > 0 {
        assert(wf_mat(a) && cols_of(a) == rows_of(a) && rows_of(a) == side) by {
            if side > 0 {
                assert(a[0].len() == side);
            }
        }
        lemma_i64_steps_commute();
        lemma_rot_fold_equals_serial::<i64, F>(a, a, c, n, shift);
        let c1 = mm_spec(a, a, c);
        assert(mult_fold_spec::<i64, F>(a, a, c, n) == c1);
        lemma_mm_spec_grid::<i64>(a, c, side);
        lemma_square_steps_i64::<F>(c1, c1, (k - 1) as nat, n, side, shift);
    }
}

/// Square-by-doubling, computational half, over the integer ring: for each
/// of the four schedules, every squaring step of the parallel driver equals
/// a serial squaring step, so the whole run equals repeated serial
/// squaring.  That enough such steps reach the transitive closure under the
/// min-plus semiring is a graph-theoretic fact beyond this statement.
pub proof fn lemma_square_equals_serial_i64(a: Seq<Seq<i64>>, k: nat, n: int)
    requires
        wf_mat(a),
        rows_of(a) == cols_of(a),
        n >= 1,
    ensures
        parallel_square_spec::<i64, crate::matmul::comm_method::Hash>(
            a,
            <i64 as Multiplicable>::initial_c_spec(a, a),
            k,
            n,
        ) == serial_square_spec::<i64>(a, <i64 as Multiplicable>::initial_c_spec(a, a), k),
        parallel_square_spec::<i64, crate::matmul::comm_method::FoxOtto>(
            a,
            <i64 as Multiplicable>::initial_c_spec(a, a),
            k,
            n,
        ) == serial_square_spec::<i64>(a, <i64 as Multiplicable>::initial_c_spec(a, a), k),
        parallel_square_spec::<i64, crate::matmul::comm_method::PipeFoxOtto>(
            a,
            <i64 as Multiplicable>::initial_c_spec(a, a),
            k,
            n,
        ) == serial_square_spec::<i64>(a, <i64 as Multiplicable>::initial_c_spec(a, a), k),
        parallel_square_spec::<i64, crate::matmul::comm_method::Cannon>(
            a,
            <i64 as Multiplicable>::initial_c_spec(a, a),
            k,
            n,
        ) == serial_square_spec::<i64>(a, <i64 as Multiplicable>::initial_c_spec(a, a), k),
{
    let c0 = <i64 as Multiplicable>::initial_c_spec(a, a);
    <i64 as Multiplicable>::initial_c_covers(a, a);
    let side = rows_of(a);
    assert(is_grid(c0, side, side)) by {
        assert(is_grid(c0, rows_of(a), cols_of(a)));
    }
    assert forall|i: int, j: int, t: int| 0 <= i < n && 0 <= j < n && 0 <= t < n implies
        #[trigger] <crate::matmul::comm_method::Hash as crate::matmul::comm_method::CommMethod<
        i64,
    >>::schedule(i, j, t, n) == (t + 0) % n by {
        vstd::arithmetic::div_mod::lemma_small_mod(t as nat, n as nat);
    }
    assert forall|i: int, j: int, t: int| 0 <= i < n && 0 <= j < n && 0 <= t < n implies
        #[trigger] <crate::matmul::comm_method::PipeFoxOtto as crate::matmul::comm_method::CommMethod<
        i64,
    >>::schedule(i, j, t, n) == (t + (i + 1) % n) % n by {
        vstd::arithmetic::div_mod::lemma_add_mod_noop_right(t, i + 1, n);
    }
    assert forall|i: int, j: int, t: int| 0 <= i < n && 0 <= j < n && 0 <= t < n implies
        #[trigger] <crate::matmul::comm_method::Cannon as crate::matmul::comm_method::CommMethod<
        i64,
    >>::schedule(i, j, t, n) == (t + (i + j) % n) % n by {
        vstd::arithmetic::div_mod::lemma_add_mod_noop_right(t, i + j, n);
        assert((i + j + t) % n == (t + (i + j)) % n);
    }
    lemma_square_steps_i64::<crate::matmul::comm_method::Hash>(
        a,
        c0,
        k,
        n,
        side,
        (|i: int, j: int| 0),
    );
    lemma_square_steps_i64::<crate::matmul::comm_method::FoxOtto>(
        a,
        c0,
        k,
        n,
        side,
        (|i: int, j: int| i),
    );
    lemma_square_steps_i64::<crate::matmul::comm_method::PipeFoxOtto>(
        a,
        c0,
        k,
        n,
        side,
        (|i: int, j: int| (i + 1) % n),
    );
    lemma_square_steps_i64::<crate::matmul::comm_method::Cannon>(
        a,
        c0,
        k,
        n,
        side,
        (|i: int, j: int| (i + j) % n),
    );
}

} // verus!
