//! The four communication schedules: broadcast ("Hash"), Fox-Otto,
//! pipelined Fox-Otto and Cannon.  Each runs the whole grid for `n` rounds
//! in lockstep over the torus network; in round `t` the cell at `(i, j)`
//! multiplies the `A`-tile of block row `i` and the `B`-tile of block
//! column `j` at the block index `schedule(i, j, t, n)` and accumulates the
//! product into its `C`-tile.  Over the `n` rounds each cell sees every
//! block index exactly once, in its own order.

use vstd::prelude::*;
use vstd::pervasive::VecAdditionalExecFns;
use crate::types::{Matrix, mview, wf_mat, is_grid, rows_of, cols_of, dup_matrix};
use crate::matmul::{Multiplicable, mm_spec, serial_matmul};
use crate::processor::{tile_of, axis_len, lemma_tile_dims};
use crate::processor::taurus::{TaurusNetwork, TaurusOption, inc_wrap, dec_wrap};
use crate::processor::probe::ThreadTimeProber;
use crate::broadcast::{svals, Sendable};

verus! {

/// The payload of one message: a tile, together with the virtual time at
/// which it arrives (zero outside probe mode).
pub type TilePayload<E> = (Matrix<E>, u64);

/// All queues of the network, direct and broadcast, are empty.
pub open spec fn quiet<E: Multiplicable>(net: TaurusNetwork<TilePayload<E>>) -> bool {
    &&& forall|r: int, c: int|
        0 <= r < net.rows && 0 <= c < net.cols ==> (#[trigger] net.core_at(
            r,
            c,
        )).left.contents().len() == 0 && net.core_at(r, c).right.contents().len() == 0
            && net.core_at(r, c).up.contents().len() == 0 && net.core_at(
            r,
            c,
        ).down.contents().len() == 0
    &&& forall|g: int, m: int|
        0 <= g < net.rows && 0 <= m < net.cols ==> (#[trigger] net.row_group(g).member(
            m,
        )).contents().len() == 0
    &&& forall|g: int, m: int|
        0 <= g < net.cols && 0 <= m < net.rows ==> (#[trigger] net.col_group(g).member(
            m,
        )).contents().len() == 0
}

/// The views of a vector of tiles.
pub open spec fn tviews<E>(tiles: Seq<Matrix<E>>) -> Seq<Seq<Seq<E>>> {
    tiles.map_values(|m: Matrix<E>| mview(m))
}

/// Cell `(i, j)` of the row-major tile vector holds the tile that `src`
/// names for it.
pub open spec fn placed_tiles<E>(
    tiles: Seq<Matrix<E>>,
    g: Seq<Seq<E>>,
    rows: int,
    cols: int,
    src: spec_fn(int, int) -> (int, int),
) -> bool {
    forall|i: int, j: int|
        0 <= i < rows && 0 <= j < cols ==> mview(#[trigger] tiles[i * cols + j]) == tile_of(
            g,
            rows,
            cols,
            src(i, j).0,
            src(i, j).1,
        )
}

/// The accumulator tile of cell `(i, j)` has the block dimensions of the
/// product of `ga` and `gb`.
pub open spec fn c_grid_at<E>(
    tiles: Seq<Matrix<E>>,
    ga: Seq<Seq<E>>,
    gb: Seq<Seq<E>>,
    n: int,
    i: int,
    j: int,
) -> bool {
    is_grid(
        mview(tiles[i * n + j]),
        axis_len(n, rows_of(ga), i),
        axis_len(n, cols_of(gb), j),
    )
}

/// Every accumulator tile has its block dimensions.
pub open spec fn c_grids_ok<E>(tiles: Seq<Matrix<E>>, ga: Seq<Seq<E>>, gb: Seq<Seq<E>>, n: int) -> bool {
    forall|i: int, j: int| 0 <= i < n && 0 <= j < n ==> #[trigger] c_grid_at(tiles, ga, gb, n, i, j)
}

/// Each tile of `post` is `run` applied to the matching tile of `pre`.
pub open spec fn folded_tiles<E>(
    post: Seq<Matrix<E>>,
    pre: Seq<Matrix<E>>,
    n: int,
    run: spec_fn(Seq<Seq<E>>, int, int) -> Seq<Seq<E>>,
) -> bool {
    forall|i: int, j: int|
        0 <= i < n && 0 <= j < n ==> mview(#[trigger] post[i * n + j]) == run(
            mview(pre[i * n + j]),
            i,
            j,
        )
}

/// The flat index of a grid cell is within the grid.
pub proof fn lemma_cell_bound(i: int, j: int, n: int)
    requires
        0 <= i < n,
        0 <= j < n,
    ensures
        0 <= i * n + j < n * n,
{
    assert(0 <= i * n + j < n * n) by (nonlinear_arith)
        requires
            0 <= i < n,
            0 <= j < n,
    ;
}

/// The number of bytes one tile occupies on the wire.
fn tile_bytes<E: Multiplicable>(m: &Matrix<E>) -> usize {
    let h = crate::types::mat_rows(m);
    let w = crate::types::mat_cols(m);
    let hw = match h.checked_mul(w) {
        Some(v) => v,
        None => usize::MAX,
    };
    match hw.checked_mul(E::elem_bytes()) {
        Some(v) => v,
        None => usize::MAX,
    }
}

/// A communication schedule for `parallel_mult` and `parallel_square` on an
/// `n x n` grid.
///
/// `outer_setup_a` and `outer_setup_b` place the row-major tiles of the
/// input matrices onto the grid, possibly skewed; `a_src` and `b_src` say
/// which tile each cell receives.  `matrix_mult` runs the `n` communication
/// rounds for the whole grid; `inner_setup_a` and `inner_setup_b` re-place
/// identity-placed tiles between the squaring steps of `parallel_square`.
pub trait CommMethod<E: Multiplicable>: Sized {
    /// The block index cell `(i, j)` accumulates at round `t`.
    spec fn schedule(i: int, j: int, t: int, n: int) -> int;

    /// The grid position whose row-major tile cell `(i, j)` holds in `a`
    /// after the outer setup.
    spec fn a_src(i: int, j: int, rows: int, cols: int) -> (int, int);

    /// The grid position whose row-major tile cell `(i, j)` holds in `b`
    /// after the outer setup.
    spec fn b_src(i: int, j: int, rows: int, cols: int) -> (int, int);

    /// The `C`-tile of cell `(i, j)` after the rounds `t .. n` of this
    /// schedule: round `t` accumulates the block product at index
    /// `schedule(i, j, t, n)`.
    spec fn tile_run_spec(
        ga: Seq<Seq<E>>,
        gb: Seq<Seq<E>>,
        acc: Seq<Seq<E>>,
        i: int,
        j: int,
        n: int,
        t: int,
    ) -> Seq<Seq<E>>;

    /// `tile_run_spec` folds one block product per round, in round order.
    proof fn tile_run_spec_unfold(
        ga: Seq<Seq<E>>,
        gb: Seq<Seq<E>>,
        acc: Seq<Seq<E>>,
        i: int,
        j: int,
        n: int,
        t: int,
    )
        ensures
            t < 0 || t >= n ==> Self::tile_run_spec(ga, gb, acc, i, j, n, t) == acc,
            0 <= t < n ==> Self::tile_run_spec(ga, gb, acc, i, j, n, t) == Self::tile_run_spec(
                ga,
                gb,
                mm_spec(
                    tile_of(ga, n, n, i, Self::schedule(i, j, t, n)),
                    tile_of(gb, n, n, Self::schedule(i, j, t, n), j),
                    acc,
                ),
                i,
                j,
                n,
                t + 1,
            ),
    ;

    proof fn schedule_in_range(i: int, j: int, t: int, n: int)
        requires
            0 <= i < n,
            0 <= j < n,
            0 <= t < n,
        ensures
            0 <= Self::schedule(i, j, t, n) < n,
    ;

    proof fn src_in_range(i: int, j: int, rows: int, cols: int)
        requires
            0 <= i < rows,
            0 <= j < cols,
        ensures
            0 <= Self::a_src(i, j, rows, cols).0 < rows,
            0 <= Self::a_src(i, j, rows, cols).1 < cols,
            0 <= Self::b_src(i, j, rows, cols).0 < rows,
            0 <= Self::b_src(i, j, rows, cols).1 < cols,
    ;

    fn outer_setup_a(rows: usize, cols: usize, matrix_a: &Matrix<E>) -> (tiles: Vec<Matrix<E>>)
        requires
            rows >= 1,
            cols >= 1,
            rows * cols <= usize::MAX,
            wf_mat(mview(*matrix_a)),
        ensures
            tiles@.len() == rows * cols,
            placed_tiles(
                tiles@,
                mview(*matrix_a),
                rows as int,
                cols as int,
                (|i: int, j: int| Self::a_src(i, j, rows as int, cols as int)),
            ),
    ;

    fn outer_setup_b(rows: usize, cols: usize, matrix_b: &Matrix<E>) -> (tiles: Vec<Matrix<E>>)
        requires
            rows >= 1,
            cols >= 1,
            rows * cols <= usize::MAX,
            wf_mat(mview(*matrix_b)),
        ensures
            tiles@.len() == rows * cols,
            placed_tiles(
                tiles@,
                mview(*matrix_b),
                rows as int,
                cols as int,
                (|i: int, j: int| Self::b_src(i, j, rows as int, cols as int)),
            ),
    ;

    fn outer_setup_c(rows: usize, cols: usize, matrix_c: &Matrix<E>) -> (tiles: Vec<Matrix<E>>)
        requires
            rows >= 1,
            cols >= 1,
            rows * cols <= usize::MAX,
            wf_mat(mview(*matrix_c)),
        ensures
            tiles@.len() == rows * cols,
            placed_tiles(
                tiles@,
                mview(*matrix_c),
                rows as int,
                cols as int,
                (|i: int, j: int| (i, j)),
            ),
    ;

    /// Run the `iterations` communication rounds of this schedule over the
    /// whole grid.  On entry the `a` and `b` tiles sit at this schedule's
    /// placement for the ghost matrices `ga` and `gb`, and every queue is
    /// empty; on exit every queue is empty again and each `C`-tile has
    /// accumulated its `n` block products in schedule order.
    fn matrix_mult(
        a: &mut Vec<Matrix<E>>,
        b: &mut Vec<Matrix<E>>,
        c: &mut Vec<Matrix<E>>,
        iterations: usize,
        net: &mut TaurusNetwork<TilePayload<E>>,
        probe: &mut ThreadTimeProber,
        Ghost(ga): Ghost<Seq<Seq<E>>>,
        Ghost(gb): Ghost<Seq<Seq<E>>>,
    )
        requires
            old(net).wf(),
            quiet(*old(net)),
            old(net).rows == iterations,
            old(net).cols == iterations,
            iterations >= 1,
            old(probe).count() == iterations * iterations,
            wf_mat(ga),
            wf_mat(gb),
            cols_of(ga) == rows_of(gb),
            old(a)@.len() == iterations * iterations,
            old(b)@.len() == iterations * iterations,
            old(c)@.len() == iterations * iterations,
            placed_tiles(
                old(a)@,
                ga,
                iterations as int,
                iterations as int,
                (|i: int, j: int| Self::a_src(i, j, iterations as int, iterations as int)),
            ),
            placed_tiles(
                old(b)@,
                gb,
                iterations as int,
                iterations as int,
                (|i: int, j: int| Self::b_src(i, j, iterations as int, iterations as int)),
            ),
            c_grids_ok(old(c)@, ga, gb, iterations as int),
        ensures
            final(net).wf(),
            quiet(*final(net)),
            final(net).rows == old(net).rows,
            final(net).cols == old(net).cols,
            ThreadTimeProber::advanced_from(final(probe), old(probe)),
            final(c)@.len() == iterations * iterations,
            folded_tiles(
                final(c)@,
                old(c)@,
                iterations as int,
                (|acc: Seq<Seq<E>>, i: int, j: int| Self::tile_run_spec(
                    ga,
                    gb,
                    acc,
                    i,
                    j,
                    iterations as int,
                    0,
                )),
            ),
            c_grids_ok(final(c)@, ga, gb, iterations as int),
    ;

    /// Re-place identity-placed tiles at this schedule's `a` placement, for
    /// the next squaring step.
    fn inner_setup_a(
        a: &mut Vec<Matrix<E>>,
        n: usize,
        net: &mut TaurusNetwork<TilePayload<E>>,
        probe: &mut ThreadTimeProber,
        Ghost(g): Ghost<Seq<Seq<E>>>,
    )
        requires
            old(net).wf(),
            quiet(*old(net)),
            old(net).rows == n,
            old(net).cols == n,
            n >= 1,
            old(probe).count() == n * n,
            wf_mat(g),
            old(a)@.len() == n * n,
            placed_tiles(old(a)@, g, n as int, n as int, (|i: int, j: int| (i, j))),
        ensures
            final(net).wf(),
            quiet(*final(net)),
            final(net).rows == old(net).rows,
            final(net).cols == old(net).cols,
            ThreadTimeProber::advanced_from(final(probe), old(probe)),
            final(a)@.len() == n * n,
            placed_tiles(
                final(a)@,
                g,
                n as int,
                n as int,
                (|i: int, j: int| Self::a_src(i, j, n as int, n as int)),
            ),
    ;

    /// Re-place identity-placed tiles at this schedule's `b` placement.
    fn inner_setup_b(
        b: &mut Vec<Matrix<E>>,
        n: usize,
        net: &mut TaurusNetwork<TilePayload<E>>,
        probe: &mut ThreadTimeProber,
        Ghost(g): Ghost<Seq<Seq<E>>>,
    )
        requires
            old(net).wf(),
            quiet(*old(net)),
            old(net).rows == n,
            old(net).cols == n,
            n >= 1,
            old(probe).count() == n * n,
            wf_mat(g),
            old(b)@.len() == n * n,
            placed_tiles(old(b)@, g, n as int, n as int, (|i: int, j: int| (i, j))),
        ensures
            final(net).wf(),
            quiet(*final(net)),
            final(net).rows == old(net).rows,
            final(net).cols == old(net).cols,
            ThreadTimeProber::advanced_from(final(probe), old(probe)),
            final(b)@.len() == n * n,
            placed_tiles(
                final(b)@,
                g,
                n as int,
                n as int,
                (|i: int, j: int| Self::b_src(i, j, n as int, n as int)),
            ),
    ;
}

/// Row-major tiling without any skew: the shared `outer_setup` of the
/// schedules that do not pre-shift their operands.
fn plain_tiles<E: Multiplicable>(rows: usize, cols: usize, m: &Matrix<E>) -> (tiles: Vec<
    Matrix<E>,
>)
    requires
        rows >= 1,
        cols >= 1,
        rows * cols <= usize::MAX,
        wf_mat(mview(*m)),
    ensures
        tiles@.len() == rows * cols,
        placed_tiles(tiles@, mview(*m), rows as int, cols as int, (|i: int, j: int| (i, j))),
{
    let tiles = crate::processor::get_submatrices(rows, cols, m);
    proof {
        assert forall|i: int, j: int| 0 <= i < rows && 0 <= j < cols implies mview(
            #[trigger] tiles@[i * (cols as int) + j],
        ) == tile_of(mview(*m), rows as int, cols as int, i, j) by {
            assert(mview(tiles@[i * (cols as int) + j]) == tile_of(
                mview(*m),
                rows as int,
                cols as int,
                i,
                j,
            ));
        }
    }
    tiles
}

/// The broadcast-based schedule: in round `t`, the cell in column `t` of
/// each row broadcasts its `A`-tile along the row, the cell in row `t` of
/// each column broadcasts its `B`-tile along the column, and every cell
/// multiplies the two tiles it received.
pub struct Hash;

impl<E: Multiplicable> CommMethod<E> for Hash {
    open spec fn schedule(i: int, j: int, t: int, n: int) -> int {
        t
    }

    open spec fn a_src(i: int, j: int, rows: int, cols: int) -> (int, int) {
        (i, j)
    }

    open spec fn b_src(i: int, j: int, rows: int, cols: int) -> (int, int) {
        (i, j)
    }

    open spec fn tile_run_spec(
        ga: Seq<Seq<E>>,
        gb: Seq<Seq<E>>,
        acc: Seq<Seq<E>>,
        i: int,
        j: int,
        n: int,
        t: int,
    ) -> Seq<Seq<E>>
        decreases n - t,
    {
        if t < 0 || t >= n {
            acc
        } else {
            Self::tile_run_spec(
                ga,
                gb,
                mm_spec(tile_of(ga, n, n, i, t), tile_of(gb, n, n, t, j), acc),
                i,
                j,
                n,
                t + 1,
            )
        }
    }

    proof fn tile_run_spec_unfold(
        ga: Seq<Seq<E>>,
        gb: Seq<Seq<E>>,
        acc: Seq<Seq<E>>,
        i: int,
        j: int,
        n: int,
        t: int,
    ) {
    }

    proof fn schedule_in_range(i: int, j: int, t: int, n: int) {
    }

    proof fn src_in_range(i: int, j: int, rows: int, cols: int) {
    }

    fn outer_setup_a(rows: usize, cols: usize, matrix_a: &Matrix<E>) -> (tiles: Vec<Matrix<E>>) {
        plain_tiles(rows, cols, matrix_a)
    }

    fn outer_setup_b(rows: usize, cols: usize, matrix_b: &Matrix<E>) -> (tiles: Vec<Matrix<E>>) {
        plain_tiles(rows, cols, matrix_b)
    }

    fn outer_setup_c(rows: usize, cols: usize, matrix_c: &Matrix<E>) -> (tiles: Vec<Matrix<E>>) {
        plain_tiles(rows, cols, matrix_c)
    }

    fn matrix_mult(
        a: &mut Vec<Matrix<E>>,
        b: &mut Vec<Matrix<E>>,
        c: &mut Vec<Matrix<E>>,
        iterations: usize,
        net: &mut TaurusNetwork<TilePayload<E>>,
        probe: &mut ThreadTimeProber,
        Ghost(ga): Ghost<Seq<Seq<E>>>,
        Ghost(gb): Ghost<Seq<Seq<E>>>,
    ) {
        let n = iterations;
        let ghost nn = n as int;
        let ghost gc0 = tviews(c@);
        let ghost a0 = a@;
        let ghost b0 = b@;
        let ghost probe0 = *probe;
        proof {
            assert forall|i: int, j: int| 0 <= i < nn && 0 <= j < nn implies mview(
                #[trigger] a@[i * nn + j],
            ) == tile_of(ga, nn, nn, i, j) by {
                assert(mview(a@[i * nn + j]) == tile_of(
                    ga,
                    nn,
                    nn,
                    <Hash as CommMethod<E>>::a_src(i, j, nn, nn).0,
                    <Hash as CommMethod<E>>::a_src(i, j, nn, nn).1,
                ));
            }
            assert forall|i: int, j: int| 0 <= i < nn && 0 <= j < nn implies mview(
                #[trigger] b@[i * nn + j],
            ) == tile_of(gb, nn, nn, i, j) by {
                assert(mview(b@[i * nn + j]) == tile_of(
                    gb,
                    nn,
                    nn,
                    <Hash as CommMethod<E>>::b_src(i, j, nn, nn).0,
                    <Hash as CommMethod<E>>::b_src(i, j, nn, nn).1,
                ));
            }
            assert forall|i: int, j: int| 0 <= i < nn && 0 <= j < nn implies is_grid(
                mview(#[trigger] c@[i * nn + j]),
                axis_len(nn, rows_of(ga), i),
                axis_len(nn, cols_of(gb), j),
            ) by {
                assert(c_grid_at(c@, ga, gb, nn, i, j));
            }
            assert forall|i: int, j: int| 0 <= i < nn && 0 <= j < nn implies gc0[i * nn + j]
                == mview(#[trigger] c@[i * nn + j]) by {
                lemma_cell_bound(i, j, nn);
                assert(gc0[i * nn + j] == tviews(c@)[i * nn + j]);
            }
        }
        let mut t: usize = 0;
        while t < n
            invariant
                net.wf(),
                quiet(*net),
                net.rows == n,
                net.cols == n,
                nn == n as int,
                n >= 1,
                n * n <= usize::MAX,
                probe.count() == n * n,
                ThreadTimeProber::advanced_from(probe, &probe0),
                wf_mat(ga),
                wf_mat(gb),
                cols_of(ga) == rows_of(gb),
                a@ == a0,
                b@ == b0,
                a@.len() == n * n,
                b@.len() == n * n,
                c@.len() == n * n,
                gc0.len() == n * n,
                0 <= t <= n,
                forall|i: int, j: int|
                    0 <= i < nn && 0 <= j < nn ==> mview(#[trigger] a@[i * nn + j]) == tile_of(
                        ga,
                        nn,
                        nn,
                        i,
                        j,
                    ),
                forall|i: int, j: int|
                    0 <= i < nn && 0 <= j < nn ==> mview(#[trigger] b@[i * nn + j]) == tile_of(
                        gb,
                        nn,
                        nn,
                        i,
                        j,
                    ),
                forall|i: int, j: int|
                    0 <= i < nn && 0 <= j < nn ==> is_grid(
                        mview(#[trigger] c@[i * nn + j]),
                        axis_len(nn, rows_of(ga), i),
                        axis_len(nn, cols_of(gb), j),
                    ),
                forall|i: int, j: int|
                    0 <= i < nn && 0 <= j < nn ==> <Hash as CommMethod<E>>::tile_run_spec(
                        ga,
                        gb,
                        gc0[i * nn + j],
                        i,
                        j,
                        nn,
                        0,
                    ) == <Hash as CommMethod<E>>::tile_run_spec(
                        ga,
                        gb,
                        mview(#[trigger] c@[i * nn + j]),
                        i,
                        j,
                        nn,
                        t as int,
                    ),
            decreases n - t,
        {
            // Row broadcasts: the cell in column t of row i sends its A-tile
            // along its row.
            let mut i: usize = 0;
            while i < n
                invariant
                    net.wf(),
                    net.rows == n,
                    net.cols == n,
                    nn == n as int,
                    n >= 1,
                    n * n <= usize::MAX,
                    t < n,
                    0 <= i <= n,
                    probe.count() == n * n,
                    ThreadTimeProber::advanced_from(probe, &probe0),
                    a@ == a0,
                    a@.len() == n * n,
                    forall|i2: int, j2: int|
                        0 <= i2 < nn && 0 <= j2 < nn ==> mview(#[trigger] a@[i2 * nn + j2])
                            == tile_of(ga, nn, nn, i2, j2),
                    forall|r: int, c2: int|
                        0 <= r < nn && 0 <= c2 < nn ==> (#[trigger] net.core_at(
                            r,
                            c2,
                        )).left.contents().len() == 0 && net.core_at(r, c2).right.contents().len()
                            == 0 && net.core_at(r, c2).up.contents().len() == 0 && net.core_at(
                            r,
                            c2,
                        ).down.contents().len() == 0,
                    forall|g: int, m: int|
                        0 <= g < nn && 0 <= m < nn ==> (#[trigger] net.col_group(g).member(
                            m,
                        )).contents().len() == 0,
                    forall|g: int, m: int|
                        i <= g < nn && 0 <= m < nn ==> (#[trigger] net.row_group(g).member(
                            m,
                        )).contents().len() == 0,
                    forall|g: int, m: int|
                        0 <= g < i && 0 <= m < nn ==> (#[trigger] net.row_group(g).member(
                            m,
                        )).contents().len() == 1 && mview(
                            net.row_group(g).member(m).contents()[0].0,
                        ) == tile_of(ga, nn, nn, g, t as int),
                decreases n - i,
            {
                let idx = grid_index(i, t, n);
                let bytes = tile_bytes::<E>(&a[idx]);
                let ghost probepre = *probe;
                let arrival = probe.charge_send(idx, bytes, true, n);
                proof {
                    crate::processor::probe::lemma_advanced_trans(probe0, probepre, *probe);
                }
                let payload = (dup_matrix(&a[idx]), arrival);
                let ghost netpre = *net;
                net.send(i, t, &TaurusOption::ROW, payload);
                proof {
                    assert(net.row_send_shape(netpre, i as int, payload));
                    assert forall|g: int, m: int| 0 <= g < i + 1 && 0 <= m < nn implies (
                    #[trigger] net.row_group(g).member(m)).contents().len() == 1 && mview(
                        net.row_group(g).member(m).contents()[0].0,
                    ) == tile_of(ga, nn, nn, g, t as int) by {
                        if g == i as int {
                            let pre = netpre.row_group(g).member(m);
                            let post = net.row_group(g).member(m);
                            assert(svals(post.contents()) == svals(pre.contents()).push(
                                payload.sval(),
                            ));
                            assert(svals(pre.contents()) =~= Seq::<
                                <TilePayload<E> as crate::broadcast::Sendable>::Sval,
                            >::empty());
                            assert(svals(post.contents()).len() == post.contents().len());
                            assert(svals(post.contents())[0] == post.contents()[0].sval());
                            assert(post.contents()[0].sval() == payload.sval());
                            assert(mview(post.contents()[0].0) == mview(payload.0));
                            assert(mview(a@[i as int * nn + t as int]) == tile_of(
                                ga,
                                nn,
                                nn,
                                i as int,
                                t as int,
                            ));
                        } else {
                            assert(net.row_group(g) == netpre.row_group(g));
                        }
                    }
                }
                i = i + 1;
            }
            // Column broadcasts: the cell in row t of column j sends its
            // B-tile along its column.
            let mut j: usize = 0;
            while j < n
                invariant
                    net.wf(),
                    net.rows == n,
                    net.cols == n,
                    nn == n as int,
                    n >= 1,
                    n * n <= usize::MAX,
                    t < n,
                    0 <= j <= n,
                    probe.count() == n * n,
                    ThreadTimeProber::advanced_from(probe, &probe0),
                    b@ == b0,
                    b@.len() == n * n,
                    forall|i2: int, j2: int|
                        0 <= i2 < nn && 0 <= j2 < nn ==> mview(#[trigger] b@[i2 * nn + j2])
                            == tile_of(gb, nn, nn, i2, j2),
                    forall|r: int, c2: int|
                        0 <= r < nn && 0 <= c2 < nn ==> (#[trigger] net.core_at(
                            r,
                            c2,
                        )).left.contents().len() == 0 && net.core_at(r, c2).right.contents().len()
                            == 0 && net.core_at(r, c2).up.contents().len() == 0 && net.core_at(
                            r,
                            c2,
                        ).down.contents().len() == 0,
                    forall|g: int, m: int|
                        0 <= g < nn && 0 <= m < nn ==> (#[trigger] net.row_group(g).member(
                            m,
                        )).contents().len() == 1 && mview(
                            net.row_group(g).member(m).contents()[0].0,
                        ) == tile_of(ga, nn, nn, g, t as int),
                    forall|g: int, m: int|
                        j <= g < nn && 0 <= m < nn ==> (#[trigger] net.col_group(g).member(
                            m,
                        )).contents().len() == 0,
                    forall|g: int, m: int|
                        0 <= g < j && 0 <= m < nn ==> (#[trigger] net.col_group(g).member(
                            m,
                        )).contents().len() == 1 && mview(
                            net.col_group(g).member(m).contents()[0].0,
                        ) == tile_of(gb, nn, nn, t as int, g),
                decreases n - j,
            {
                let idx = grid_index(t, j, n);
                let bytes = tile_bytes::<E>(&b[idx]);
                let ghost probepre = *probe;
                let arrival = probe.charge_send(idx, bytes, true, n);
                proof {
                    crate::processor::probe::lemma_advanced_trans(probe0, probepre, *probe);
                }
                let payload = (dup_matrix(&b[idx]), arrival);
                let ghost netpre = *net;
                net.send(t, j, &TaurusOption::COL, payload);
                proof {
                    assert(net.col_send_shape(netpre, j as int, payload));
                    assert forall|g: int, m: int| 0 <= g < j + 1 && 0 <= m < nn implies (
                    #[trigger] net.col_group(g).member(m)).contents().len() == 1 && mview(
                        net.col_group(g).member(m).contents()[0].0,
                    ) == tile_of(gb, nn, nn, t as int, g) by {
                        if g == j as int {
                            let pre = netpre.col_group(g).member(m);
                            let post = net.col_group(g).member(m);
                            assert(svals(post.contents()) == svals(pre.contents()).push(
                                payload.sval(),
                            ));
                            assert(svals(pre.contents()) =~= Seq::<
                                <TilePayload<E> as crate::broadcast::Sendable>::Sval,
                            >::empty());
                            assert(svals(post.contents()).len() == post.contents().len());
                            assert(svals(post.contents())[0] == post.contents()[0].sval());
                            assert(mview(post.contents()[0].0) == mview(payload.0));
                            assert(mview(b@[t as int * nn + j as int]) == tile_of(
                                gb,
                                nn,
                                nn,
                                t as int,
                                j as int,
                            ));
                        } else {
                            assert(net.col_group(g) == netpre.col_group(g));
                        }
                    }
                }
                j = j + 1;
            }
            // Every cell receives one A-tile from its row and one B-tile
            // from its column, and accumulates their product.
            let mut i: usize = 0;
            while i < n
                invariant
                    net.wf(),
                    net.rows == n,
                    net.cols == n,
                    nn == n as int,
                    n >= 1,
                    n * n <= usize::MAX,
                    t < n,
                    0 <= i <= n,
                    probe.count() == n * n,
                    ThreadTimeProber::advanced_from(probe, &probe0),
                    wf_mat(ga),
                    wf_mat(gb),
                    cols_of(ga) == rows_of(gb),
                    c@.len() == n * n,
                    gc0.len() == n * n,
                    forall|r: int, c2: int|
                        0 <= r < nn && 0 <= c2 < nn ==> (#[trigger] net.core_at(
                            r,
                            c2,
                        )).left.contents().len() == 0 && net.core_at(r, c2).right.contents().len()
                            == 0 && net.core_at(r, c2).up.contents().len() == 0 && net.core_at(
                            r,
                            c2,
                        ).down.contents().len() == 0,
                    forall|g: int, m: int|
                        0 <= g < i && 0 <= m < nn ==> (#[trigger] net.row_group(g).member(
                            m,
                        )).contents().len() == 0,
                    forall|g: int, m: int|
                        i <= g < nn && 0 <= m < nn ==> (#[trigger] net.row_group(g).member(
                            m,
                        )).contents().len() == 1 && mview(
                            net.row_group(g).member(m).contents()[0].0,
                        ) == tile_of(ga, nn, nn, g, t as int),
                    forall|g: int, m: int|
                        0 <= g < nn && 0 <= m < i ==> (#[trigger] net.col_group(g).member(
                            m,
                        )).contents().len() == 0,
                    forall|g: int, m: int|
                        0 <= g < nn && i <= m < nn ==> (#[trigger] net.col_group(g).member(
                            m,
                        )).contents().len() == 1 && mview(
                            net.col_group(g).member(m).contents()[0].0,
                        ) == tile_of(gb, nn, nn, t as int, g),
                    forall|i2: int, j2: int|
                        0 <= i2 < nn && 0 <= j2 < nn ==> is_grid(
                            mview(#[trigger] c@[i2 * nn + j2]),
                            axis_len(nn, rows_of(ga), i2),
                            axis_len(nn, cols_of(gb), j2),
                        ),
                    forall|i2: int, j2: int|
                        0 <= i2 < i && 0 <= j2 < nn ==> <Hash as CommMethod<E>>::tile_run_spec(
                            ga,
                            gb,
                            gc0[i2 * nn + j2],
                            i2,
                            j2,
                            nn,
                            0,
                        ) == <Hash as CommMethod<E>>::tile_run_spec(
                            ga,
                            gb,
                            mview(#[trigger] c@[i2 * nn + j2]),
                            i2,
                            j2,
                            nn,
                            t + 1,
                        ),
                    forall|i2: int, j2: int|
                        i <= i2 < nn && 0 <= j2 < nn ==> <Hash as CommMethod<E>>::tile_run_spec(
                            ga,
                            gb,
                            gc0[i2 * nn + j2],
                            i2,
                            j2,
                            nn,
                            0,
                        ) == <Hash as CommMethod<E>>::tile_run_spec(
                            ga,
                            gb,
                            mview(#[trigger] c@[i2 * nn + j2]),
                            i2,
                            j2,
                            nn,
                            t as int,
                        ),
                decreases n - i,
            {
                let mut j: usize = 0;
                while j < n
                    invariant
                        net.wf(),
                        net.rows == n,
                        net.cols == n,
                        nn == n as int,
                        n >= 1,
                        n * n <= usize::MAX,
                        t < n,
                        i < n,
                        0 <= j <= n,
                        probe.count() == n * n,
                        ThreadTimeProber::advanced_from(probe, &probe0),
                        wf_mat(ga),
                        wf_mat(gb),
                        cols_of(ga) == rows_of(gb),
                        c@.len() == n * n,
                        gc0.len() == n * n,
                        forall|r: int, c2: int|
                            0 <= r < nn && 0 <= c2 < nn ==> (#[trigger] net.core_at(
                                r,
                                c2,
                            )).left.contents().len() == 0 && net.core_at(
                                r,
                                c2,
                            ).right.contents().len() == 0 && net.core_at(r, c2).up.contents().len()
                                == 0 && net.core_at(r, c2).down.contents().len() == 0,
                        forall|g: int, m: int|
                            0 <= g < i && 0 <= m < nn ==> (#[trigger] net.row_group(g).member(
                                m,
                            )).contents().len() == 0,
                        forall|m: int|
                            0 <= m < j ==> (#[trigger] net.row_group(i as int).member(
                                m,
                            )).contents().len() == 0,
                        forall|m: int|
                            j <= m < nn ==> (#[trigger] net.row_group(i as int).member(
                                m,
                            )).contents().len() == 1 && mview(
                                net.row_group(i as int).member(m).contents()[0].0,
                            ) == tile_of(ga, nn, nn, i as int, t as int),
                        forall|g: int, m: int|
                            i < g < nn && 0 <= m < nn ==> (#[trigger] net.row_group(g).member(
                                m,
                            )).contents().len() == 1 && mview(
                                net.row_group(g).member(m).contents()[0].0,
                            ) == tile_of(ga, nn, nn, g, t as int),
                        forall|g: int, m: int|
                            0 <= g < nn && 0 <= m < i ==> (#[trigger] net.col_group(g).member(
                                m,
                            )).contents().len() == 0,
                        forall|g: int|
                            0 <= g < j ==> (#[trigger] net.col_group(g).member(
                                i as int,
                            )).contents().len() == 0,
                        forall|g: int|
                            j <= g < nn ==> (#[trigger] net.col_group(g).member(
                                i as int,
                            )).contents().len() == 1 && mview(
                                net.col_group(g).member(i as int).contents()[0].0,
                            ) == tile_of(gb, nn, nn, t as int, g),
                        forall|g: int, m: int|
                            0 <= g < nn && i < m < nn ==> (#[trigger] net.col_group(g).member(
                                m,
                            )).contents().len() == 1 && mview(
                                net.col_group(g).member(m).contents()[0].0,
                            ) == tile_of(gb, nn, nn, t as int, g),
                        forall|i2: int, j2: int|
                            0 <= i2 < nn && 0 <= j2 < nn ==> is_grid(
                                mview(#[trigger] c@[i2 * nn + j2]),
                                axis_len(nn, rows_of(ga), i2),
                                axis_len(nn, cols_of(gb), j2),
                            ),
                        forall|i2: int, j2: int|
                            (0 <= i2 < i && 0 <= j2 < nn) || (i2 == i && 0 <= j2 < j)
                                ==> <Hash as CommMethod<E>>::tile_run_spec(ga, gb, gc0[i2 * nn + j2], i2, j2, nn, 0)
                                == <Hash as CommMethod<E>>::tile_run_spec(
                                ga,
                                gb,
                                mview(#[trigger] c@[i2 * nn + j2]),
                                i2,
                                j2,
                                nn,
                                t + 1,
                            ),
                        forall|i2: int, j2: int|
                            (i < i2 < nn && 0 <= j2 < nn) || (i2 == i && j <= j2 < nn)
                                ==> <Hash as CommMethod<E>>::tile_run_spec(ga, gb, gc0[i2 * nn + j2], i2, j2, nn, 0)
                                == <Hash as CommMethod<E>>::tile_run_spec(
                                ga,
                                gb,
                                mview(#[trigger] c@[i2 * nn + j2]),
                                i2,
                                j2,
                                nn,
                                t as int,
                            ),
                    decreases n - j,
                {
                    let idx = grid_index(i, j, n);
                    let ghost netpre1 = *net;
                    let pa = net.recv(i, j, &TaurusOption::ROW);
                    proof {
                        assert(net.row_recv_shape(netpre1, i as int, j as int, pa));
                        assert(pa == netpre1.row_group(i as int).member(j as int).contents()[0]);
                    }
                    let ghost probepre1 = *probe;
                    probe.observe_arrival(idx, pa.1);
                    proof {
                        crate::processor::probe::lemma_advanced_trans(probe0, probepre1, *probe);
                    }
                    let ghost netpre2 = *net;
                    let pb = net.recv(i, j, &TaurusOption::COL);
                    proof {
                        assert(net.col_recv_shape(netpre2, i as int, j as int, pb));
                        assert(pb == netpre2.col_group(j as int).member(i as int).contents()[0]);
                        assert(netpre2.col_group(j as int).member(i as int)
                            == netpre1.col_group(j as int).member(i as int));
                    }
                    let ghost probepre2 = *probe;
                    probe.observe_arrival(idx, pb.1);
                    proof {
                        crate::processor::probe::lemma_advanced_trans(probe0, probepre2, *probe);
                    }
                    let ra = pa.0;
                    let rb = pb.0;
                    proof {
                        assert(mview(ra) == tile_of(ga, nn, nn, i as int, t as int));
                        assert(mview(rb) == tile_of(gb, nn, nn, t as int, j as int));
                        lemma_mult_tiles_ok::<E>(
                            ga,
                            gb,
                            mview(c@[idx as int]),
                            nn,
                            i as int,
                            t as int,
                            j as int,
                        );
                    }
                    let ghost probepre3 = *probe;
                    probe.begin_work();
                    proof {
                        crate::processor::probe::lemma_advanced_trans(probe0, probepre3, *probe);
                    }
                    let ghost prevview = mview(c@[idx as int]);
                    let ghost cpre = c@;
                    let newc = serial_matmul(&ra, &rb, &c[idx]);
                    c.set(idx, newc);
                    let ghost probepre4 = *probe;
                    probe.end_work(idx);
                    proof {
                        crate::processor::probe::lemma_advanced_trans(probe0, probepre4, *probe);
                        assert forall|i2: int, j2: int|
                            0 <= i2 < nn && 0 <= j2 < nn && !(i2 == i && j2 == j) implies
                            #[trigger] c@[i2 * nn + j2] == cpre[i2 * nn + j2] by {
                            lemma_cell_bound(i2, j2, nn);
                            assert(i2 * nn + j2 != i as int * nn + j as int) by (nonlinear_arith)
                                requires
                                    0 <= i2 < nn,
                                    0 <= j2 < nn,
                                    0 <= (i as int) < nn,
                                    0 <= (j as int) < nn,
                                    !(i2 == i && j2 == j),
                            ;
                            assert(c@ == cpre.update(idx as int, newc));
                        }
                        assert(<Hash as CommMethod<E>>::schedule(i as int, j as int, t as int, nn)
                            == t as int);
                        assert(mview(c@[idx as int]) == mm_spec(
                            tile_of(ga, nn, nn, i as int, t as int),
                            tile_of(gb, nn, nn, t as int, j as int),
                            prevview,
                        ));
                        assert(<Hash as CommMethod<E>>::tile_run_spec(ga, gb, prevview, i as int, j as int, nn, t as int)
                            == <Hash as CommMethod<E>>::tile_run_spec(
                            ga,
                            gb,
                            mm_spec(
                                tile_of(ga, nn, nn, i as int, t as int),
                                tile_of(gb, nn, nn, t as int, j as int),
                                prevview,
                            ),
                            i as int,
                            j as int,
                            nn,
                            t + 1,
                        ));
                    }
                    j = j + 1;
                }
                i = i + 1;
            }
            t = t + 1;
        }
        proof {
            assert forall|i: int, j: int| 0 <= i < nn && 0 <= j < nn implies mview(
                #[trigger] c@[i * nn + j],
            ) == <Hash as CommMethod<E>>::tile_run_spec(ga, gb, gc0[i * nn + j], i, j, nn, 0) by {
                lemma_cell_bound(i, j, nn);
                assert(<Hash as CommMethod<E>>::tile_run_spec(ga, gb, mview(c@[i * nn + j]), i, j, nn, nn) == mview(
                    c@[i * nn + j],
                ));
            }
            assert forall|i: int, j: int| 0 <= i < nn && 0 <= j < nn implies gc0[i * nn + j]
                == mview(#[trigger] old(c)@[i * nn + j]) by {
                lemma_cell_bound(i, j, nn);
                assert(gc0[i * nn + j] == tviews(old(c)@)[i * nn + j]);
            }
            assert(folded_tiles(
                c@,
                old(c)@,
                nn,
                (|acc: Seq<Seq<E>>, i: int, j: int| <Hash as CommMethod<E>>::tile_run_spec(
                    ga,
                    gb,
                    acc,
                    i,
                    j,
                    nn,
                    0,
                )),
            ));
            assert(c_grids_ok(c@, ga, gb, nn));
        }
    }

    fn inner_setup_a(
        a: &mut Vec<Matrix<E>>,
        n: usize,
        net: &mut TaurusNetwork<TilePayload<E>>,
        probe: &mut ThreadTimeProber,
        Ghost(g): Ghost<Seq<Seq<E>>>,
    ) {
    }

    fn inner_setup_b(
        b: &mut Vec<Matrix<E>>,
        n: usize,
        net: &mut TaurusNetwork<TilePayload<E>>,
        probe: &mut ThreadTimeProber,
        Ghost(g): Ghost<Seq<Seq<E>>>,
    ) {
    }
}


/// All direct queues of the network are empty.
pub open spec fn direct_quiet<E: Multiplicable>(net: TaurusNetwork<TilePayload<E>>) -> bool {
    forall|r: int, c: int|
        0 <= r < net.rows && 0 <= c < net.cols ==> (#[trigger] net.core_at(
            r,
            c,
        )).left.contents().len() == 0 && net.core_at(r, c).right.contents().len() == 0
            && net.core_at(r, c).up.contents().len() == 0 && net.core_at(
            r,
            c,
        ).down.contents().len() == 0
}

/// All column broadcast groups of the network are empty.
pub open spec fn col_groups_quiet<E: Multiplicable>(net: TaurusNetwork<TilePayload<E>>) -> bool {
    forall|g: int, m: int|
        0 <= g < net.cols && 0 <= m < net.rows ==> (#[trigger] net.col_group(g).member(
            m,
        )).contents().len() == 0
}

/// All row broadcast groups of the network are empty.
pub open spec fn row_groups_quiet<E: Multiplicable>(net: TaurusNetwork<TilePayload<E>>) -> bool {
    forall|g: int, m: int|
        0 <= g < net.rows && 0 <= m < net.cols ==> (#[trigger] net.row_group(g).member(
            m,
        )).contents().len() == 0
}

/// Every row group holds exactly one undelivered broadcast for each member:
/// the `A`-tile of its row's broadcaster, the cell at column `src_cols[g]`.
pub open spec fn row_groups_loaded<E: Multiplicable>(
    net: TaurusNetwork<TilePayload<E>>,
    ga: Seq<Seq<E>>,
    n: int,
    src: spec_fn(int) -> int,
) -> bool {
    forall|g: int, m: int|
        0 <= g < n && 0 <= m < n ==> (#[trigger] net.row_group(g).member(m)).contents().len() == 1
            && mview(net.row_group(g).member(m).contents()[0].0) == tile_of(ga, n, n, g, src(g))
}

/// One broadcast per row: the cell at column `src_cols[i]` of row `i` sends
/// its `A`-tile along its row group.
fn bcast_pass<E: Multiplicable>(
    net: &mut TaurusNetwork<TilePayload<E>>,
    probe: &mut ThreadTimeProber,
    a: &Vec<Matrix<E>>,
    n: usize,
    src_cols: &Vec<usize>,
    Ghost(ga): Ghost<Seq<Seq<E>>>,
)
    requires
        old(net).wf(),
        quiet(*old(net)),
        old(net).rows == n,
        old(net).cols == n,
        n >= 1,
        n * n <= usize::MAX,
        old(probe).count() == n * n,
        a@.len() == n * n,
        placed_tiles(a@, ga, n as int, n as int, (|i: int, j: int| (i, j))),
        src_cols@.len() == n,
        forall|i: int| 0 <= i < n ==> #[trigger] src_cols@[i] < n,
    ensures
        final(net).wf(),
        final(net).rows == n,
        final(net).cols == n,
        direct_quiet(*final(net)),
        col_groups_quiet(*final(net)),
        row_groups_loaded(
            *final(net),
            ga,
            n as int,
            (|g: int| src_cols@[g] as int),
        ),
        ThreadTimeProber::advanced_from(final(probe), old(probe)),
{
    let ghost nn = n as int;
    let ghost probe0 = *probe;
    let mut i: usize = 0;
    while i < n
        invariant
            net.wf(),
            net.rows == n,
            net.cols == n,
            nn == n as int,
            n >= 1,
            n * n <= usize::MAX,
            0 <= i <= n,
            probe.count() == n * n,
            ThreadTimeProber::advanced_from(probe, &probe0),
            a@.len() == n * n,
            placed_tiles(a@, ga, nn, nn, (|i2: int, j2: int| (i2, j2))),
            src_cols@.len() == n,
            forall|k: int| 0 <= k < n ==> #[trigger] src_cols@[k] < n,
            direct_quiet(*net),
            col_groups_quiet(*net),
            forall|g: int, m: int|
                i <= g < nn && 0 <= m < nn ==> (#[trigger] net.row_group(g).member(
                    m,
                )).contents().len() == 0,
            forall|g: int, m: int|
                0 <= g < i && 0 <= m < nn ==> (#[trigger] net.row_group(g).member(
                    m,
                )).contents().len() == 1 && mview(net.row_group(g).member(m).contents()[0].0)
                    == tile_of(ga, nn, nn, g, src_cols@[g] as int),
        decreases n - i,
    {
        let sc = src_cols[i];
        let idx = grid_index(i, sc, n);
        proof {
            lemma_cell_bound(i as int, sc as int, nn);
            assert(mview(a@[i as int * nn + sc as int]) == tile_of(
                ga,
                nn,
                nn,
                i as int,
                sc as int,
            ));
        }
        let bytes = tile_bytes::<E>(&a[idx]);
        let ghost probepre = *probe;
        let arrival = probe.charge_send(idx, bytes, true, n);
        proof {
            crate::processor::probe::lemma_advanced_trans(probe0, probepre, *probe);
        }
        let payload = (dup_matrix(&a[idx]), arrival);
        let ghost netpre = *net;
        net.send(i, sc, &TaurusOption::ROW, payload);
        proof {
            assert(net.row_send_shape(netpre, i as int, payload));
            assert forall|g: int, m: int| 0 <= g < i + 1 && 0 <= m < nn implies (
            #[trigger] net.row_group(g).member(m)).contents().len() == 1 && mview(
                net.row_group(g).member(m).contents()[0].0,
            ) == tile_of(ga, nn, nn, g, src_cols@[g] as int) by {
                if g == i as int {
                    let pre = netpre.row_group(g).member(m);
                    let post = net.row_group(g).member(m);
                    assert(svals(post.contents()) == svals(pre.contents()).push(payload.sval()));
                    assert(svals(pre.contents()).len() == 0);
                    assert(svals(post.contents()).len() == post.contents().len());
                    assert(svals(post.contents())[0] == post.contents()[0].sval());
                    assert(mview(post.contents()[0].0) == mview(payload.0));
                } else {
                    assert(net.row_group(g) == netpre.row_group(g));
                }
            }
        }
        i = i + 1;
    }
}

/// Every cell receives the broadcast of its row and accumulates the product
/// of the received `A`-tile and its resident `B`-tile into its `C`-tile.
/// The resident `B`-tiles sit at block row `kof(i)`, the same block index
/// the received `A`-tile has, so the round accumulates block `kof(i)`.
fn recv_mult_pass<E: Multiplicable>(
    net: &mut TaurusNetwork<TilePayload<E>>,
    probe: &mut ThreadTimeProber,
    b: &Vec<Matrix<E>>,
    c: &mut Vec<Matrix<E>>,
    n: usize,
    Ghost(ga): Ghost<Seq<Seq<E>>>,
    Ghost(gb): Ghost<Seq<Seq<E>>>,
    Ghost(kof): Ghost<spec_fn(int) -> int>,
)
    requires
        old(net).wf(),
        old(net).rows == n,
        old(net).cols == n,
        n >= 1,
        n * n <= usize::MAX,
        direct_quiet(*old(net)),
        col_groups_quiet(*old(net)),
        row_groups_loaded(*old(net), ga, n as int, kof),
        old(probe).count() == n * n,
        wf_mat(ga),
        wf_mat(gb),
        cols_of(ga) == rows_of(gb),
        forall|i: int| 0 <= i < n ==> 0 <= #[trigger] kof(i) < n,
        b@.len() == n * n,
        placed_tiles(b@, gb, n as int, n as int, (|i: int, j: int| (kof(i), j))),
        old(c)@.len() == n * n,
        c_grids_ok(old(c)@, ga, gb, n as int),
    ensures
        final(net).wf(),
        final(net).rows == n,
        final(net).cols == n,
        quiet(*final(net)),
        ThreadTimeProber::advanced_from(final(probe), old(probe)),
        final(c)@.len() == n * n,
        c_grids_ok(final(c)@, ga, gb, n as int),
        forall|i: int, j: int|
            0 <= i < n && 0 <= j < n ==> mview(#[trigger] final(c)@[i * n + j]) == mm_spec(
                tile_of(ga, n as int, n as int, i, kof(i)),
                tile_of(gb, n as int, n as int, kof(i), j),
                mview(old(c)@[i * n + j]),
            ),
{
    let ghost nn = n as int;
    let ghost probe0 = *probe;
    let ghost c0 = c@;
    let mut i: usize = 0;
    while i < n
        invariant
            net.wf(),
            net.rows == n,
            net.cols == n,
            nn == n as int,
            n >= 1,
            n * n <= usize::MAX,
            0 <= i <= n,
            probe.count() == n * n,
            ThreadTimeProber::advanced_from(probe, &probe0),
            wf_mat(ga),
            wf_mat(gb),
            cols_of(ga) == rows_of(gb),
            forall|k: int| 0 <= k < nn ==> 0 <= #[trigger] kof(k) < nn,
            b@.len() == n * n,
            placed_tiles(b@, gb, nn, nn, (|i2: int, j2: int| (kof(i2), j2))),
            c@.len() == n * n,
            c0.len() == n * n,
            direct_quiet(*net),
            col_groups_quiet(*net),
            forall|g: int, m: int|
                0 <= g < i && 0 <= m < nn ==> (#[trigger] net.row_group(g).member(
                    m,
                )).contents().len() == 0,
            forall|g: int, m: int|
                i <= g < nn && 0 <= m < nn ==> (#[trigger] net.row_group(g).member(
                    m,
                )).contents().len() == 1 && mview(net.row_group(g).member(m).contents()[0].0)
                    == tile_of(ga, nn, nn, g, kof(g)),
            c_grids_ok(c@, ga, gb, nn),
            forall|i2: int, j2: int|
                0 <= i2 < i && 0 <= j2 < nn ==> mview(#[trigger] c@[i2 * nn + j2]) == mm_spec(
                    tile_of(ga, nn, nn, i2, kof(i2)),
                    tile_of(gb, nn, nn, kof(i2), j2),
                    mview(c0[i2 * nn + j2]),
                ),
            forall|i2: int, j2: int|
                i <= i2 < nn && 0 <= j2 < nn ==> #[trigger] c@[i2 * nn + j2] == c0[i2 * nn + j2],
        decreases n - i,
    {
        let mut j: usize = 0;
        while j < n
            invariant
                net.wf(),
                net.rows == n,
                net.cols == n,
                nn == n as int,
                n >= 1,
                n * n <= usize::MAX,
                i < n,
                0 <= j <= n,
                probe.count() == n * n,
                ThreadTimeProber::advanced_from(probe, &probe0),
                wf_mat(ga),
                wf_mat(gb),
                cols_of(ga) == rows_of(gb),
                forall|k: int| 0 <= k < nn ==> 0 <= #[trigger] kof(k) < nn,
                b@.len() == n * n,
                placed_tiles(b@, gb, nn, nn, (|i2: int, j2: int| (kof(i2), j2))),
                c@.len() == n * n,
                c0.len() == n * n,
                direct_quiet(*net),
                col_groups_quiet(*net),
                forall|g: int, m: int|
                    0 <= g < i && 0 <= m < nn ==> (#[trigger] net.row_group(g).member(
                        m,
                    )).contents().len() == 0,
                forall|m: int|
                    0 <= m < j ==> (#[trigger] net.row_group(i as int).member(
                        m,
                    )).contents().len() == 0,
                forall|m: int|
                    j <= m < nn ==> (#[trigger] net.row_group(i as int).member(
                        m,
                    )).contents().len() == 1 && mview(
                        net.row_group(i as int).member(m).contents()[0].0,
                    ) == tile_of(ga, nn, nn, i as int, kof(i as int)),
                forall|g: int, m: int|
                    i < g < nn && 0 <= m < nn ==> (#[trigger] net.row_group(g).member(
                        m,
                    )).contents().len() == 1 && mview(net.row_group(g).member(m).contents()[0].0)
                        == tile_of(ga, nn, nn, g, kof(g)),
                c_grids_ok(c@, ga, gb, nn),
                forall|i2: int, j2: int|
                    (0 <= i2 < i && 0 <= j2 < nn) || (i2 == i && 0 <= j2 < j) ==> mview(
                        #[trigger] c@[i2 * nn + j2],
                    ) == mm_spec(
                        tile_of(ga, nn, nn, i2, kof(i2)),
                        tile_of(gb, nn, nn, kof(i2), j2),
                        mview(c0[i2 * nn + j2]),
                    ),
                forall|i2: int, j2: int|
                    (i < i2 < nn && 0 <= j2 < nn) || (i2 == i && j <= j2 < nn)
                        ==> #[trigger] c@[i2 * nn + j2] == c0[i2 * nn + j2],
            decreases n - j,
        {
            let idx = grid_index(i, j, n);
            let ghost netpre = *net;
            let pa = net.recv(i, j, &TaurusOption::ROW);
            proof {
                assert(net.row_recv_shape(netpre, i as int, j as int, pa));
                assert(pa == netpre.row_group(i as int).member(j as int).contents()[0]);
            }
            let ghost probepre1 = *probe;
            probe.observe_arrival(idx, pa.1);
            proof {
                crate::processor::probe::lemma_advanced_trans(probe0, probepre1, *probe);
            }
            let ra = pa.0;
            proof {
                lemma_cell_bound(i as int, j as int, nn);
                assert(mview(ra) == tile_of(ga, nn, nn, i as int, kof(i as int)));
                assert(mview(b@[i as int * nn + j as int]) == tile_of(
                    gb,
                    nn,
                    nn,
                    kof(i as int),
                    j as int,
                ));
                assert(c_grid_at(c@, ga, gb, nn, i as int, j as int));
                lemma_mult_tiles_ok::<E>(
                    ga,
                    gb,
                    mview(c@[idx as int]),
                    nn,
                    i as int,
                    kof(i as int),
                    j as int,
                );
            }
            let ghost probepre3 = *probe;
            probe.begin_work();
            proof {
                crate::processor::probe::lemma_advanced_trans(probe0, probepre3, *probe);
            }
            let ghost cpre = c@;
            let newc = serial_matmul(&ra, &b[idx], &c[idx]);
            c.set(idx, newc);
            let ghost probepre4 = *probe;
            probe.end_work(idx);
            proof {
                crate::processor::probe::lemma_advanced_trans(probe0, probepre4, *probe);
                assert forall|i2: int, j2: int|
                    0 <= i2 < nn && 0 <= j2 < nn && !(i2 == i && j2 == j) implies
                    #[trigger] c@[i2 * nn + j2] == cpre[i2 * nn + j2] by {
                    lemma_cell_bound(i2, j2, nn);
                    assert(i2 * nn + j2 != i as int * nn + j as int) by (nonlinear_arith)
                        requires
                            0 <= i2 < nn,
                            0 <= j2 < nn,
                            0 <= (i as int) < nn,
                            0 <= (j as int) < nn,
                            !(i2 == i && j2 == j),
                    ;
                    assert(c@ == cpre.update(idx as int, newc));
                }
                assert forall|i2: int, j2: int| 0 <= i2 < nn && 0 <= j2 < nn implies
                    #[trigger] c_grid_at(c@, ga, gb, nn, i2, j2) by {
                    if i2 == i as int && j2 == j as int {
                        assert(mview(c@[idx as int]) == mm_spec(
                            tile_of(ga, nn, nn, i as int, kof(i as int)),
                            tile_of(gb, nn, nn, kof(i as int), j as int),
                            mview(cpre[idx as int]),
                        ));
                    } else {
                        assert(c_grid_at(cpre, ga, gb, nn, i2, j2));
                    }
                }
            }
            j = j + 1;
        }
        i = i + 1;
    }
}

/// Shift the resident tiles of the columns `from ..` one cell upward around
/// the torus: every cell of those columns sends its tile up and adopts the
/// tile of the cell below it.  Tiles sit at block row `rowof(i, j)`, so the
/// new resident of `(i, j)` is the tile at block row `rowof(i + 1, j)`.
fn shift_up_pass<E: Multiplicable>(
    tiles: &mut Vec<Matrix<E>>,
    n: usize,
    from: usize,
    net: &mut TaurusNetwork<TilePayload<E>>,
    probe: &mut ThreadTimeProber,
    Ghost(g): Ghost<Seq<Seq<E>>>,
    Ghost(srcpos): Ghost<spec_fn(int, int) -> (int, int)>,
)
    requires
        old(net).wf(),
        quiet(*old(net)),
        old(net).rows == n,
        old(net).cols == n,
        n >= 1,
        n * n <= usize::MAX,
        from <= n,
        old(probe).count() == n * n,
        old(tiles)@.len() == n * n,
        placed_tiles(old(tiles)@, g, n as int, n as int, srcpos),
    ensures
        final(net).wf(),
        quiet(*final(net)),
        final(net).rows == n,
        final(net).cols == n,
        ThreadTimeProber::advanced_from(final(probe), old(probe)),
        final(tiles)@.len() == n * n,
        placed_tiles(
            final(tiles)@,
            g,
            n as int,
            n as int,
            (|i: int, j: int|
                if j >= from {
                    srcpos(inc_wrap(i, n as int), j)
                } else {
                    srcpos(i, j)
                }),
        ),
{
    let ghost nn = n as int;
    let ghost probe0 = *probe;
    let ghost tiles0 = tiles@;
    // Sending sweep: every participating cell sends its tile upward.
    let mut j: usize = from;
    while j < n
        invariant
            net.wf(),
            net.rows == n,
            net.cols == n,
            nn == n as int,
            n >= 1,
            n * n <= usize::MAX,
            from <= j <= n,
            probe.count() == n * n,
            ThreadTimeProber::advanced_from(probe, &probe0),
            tiles@.len() == n * n,
            tiles0.len() == n * n,
            row_groups_quiet(*net),
            col_groups_quiet(*net),
            forall|r: int, c: int|
                0 <= r < nn && 0 <= c < nn ==> (#[trigger] net.core_at(r, c)).left.contents().len()
                    == 0 && net.core_at(r, c).right.contents().len() == 0 && net.core_at(
                    r,
                    c,
                ).up.contents().len() == 0,
            forall|r: int, c: int|
                0 <= r < nn && (from <= c < j) ==> (#[trigger] net.core_at(
                    r,
                    c,
                )).down.contents().len() == 1 && mview(net.core_at(r, c).down.contents()[0].0)
                    == mview(tiles0[inc_wrap(r, nn) * nn + c]),
            forall|r: int, c: int|
                0 <= r < nn && (0 <= c < from || j <= c < nn) ==> (#[trigger] net.core_at(
                    r,
                    c,
                )).down.contents().len() == 0,
            tiles@ == tiles0,
            placed_tiles(tiles0, g, nn, nn, srcpos),
        decreases n - j,
    {
        let mut i: usize = 0;
        while i < n
            invariant
                net.wf(),
                net.rows == n,
                net.cols == n,
                nn == n as int,
                n >= 1,
                n * n <= usize::MAX,
                from <= j < n,
                0 <= i <= n,
                probe.count() == n * n,
                ThreadTimeProber::advanced_from(probe, &probe0),
                tiles@.len() == n * n,
                tiles0.len() == n * n,
                tiles@ == tiles0,
                row_groups_quiet(*net),
                col_groups_quiet(*net),
                placed_tiles(tiles0, g, nn, nn, srcpos),
                forall|r: int, c: int|
                    0 <= r < nn && 0 <= c < nn ==> (#[trigger] net.core_at(
                        r,
                        c,
                    )).left.contents().len() == 0 && net.core_at(r, c).right.contents().len() == 0
                        && net.core_at(r, c).up.contents().len() == 0,
                forall|r: int, c: int|
                    0 <= r < nn && (from <= c < j) ==> (#[trigger] net.core_at(
                        r,
                        c,
                    )).down.contents().len() == 1 && mview(net.core_at(r, c).down.contents()[0].0)
                        == mview(tiles0[inc_wrap(r, nn) * nn + c]),
                forall|r: int|
                    0 <= r < nn && inc_wrap(r, nn) < i ==> (#[trigger] net.core_at(
                        r,
                        j as int,
                    )).down.contents().len() == 1 && mview(
                        net.core_at(r, j as int).down.contents()[0].0,
                    ) == mview(tiles0[inc_wrap(r, nn) * nn + j as int]),
                forall|r: int|
                    0 <= r < nn && inc_wrap(r, nn) >= i ==> (#[trigger] net.core_at(
                        r,
                        j as int,
                    )).down.contents().len() == 0,
                forall|r: int, c: int|
                    0 <= r < nn && (0 <= c < from || j < c < nn) ==> (#[trigger] net.core_at(
                        r,
                        c,
                    )).down.contents().len() == 0,
            decreases n - i,
        {
            let idx = grid_index(i, j, n);
            proof {
                lemma_cell_bound(i as int, j as int, nn);
            }
            let bytes = tile_bytes::<E>(&tiles[idx]);
            let ghost probepre = *probe;
            let arrival = probe.charge_send(idx, bytes, false, 0);
            proof {
                crate::processor::probe::lemma_advanced_trans(probe0, probepre, *probe);
            }
            let payload = (dup_matrix(&tiles[idx]), arrival);
            let ghost netpre = *net;
            net.send(i, j, &TaurusOption::UP, payload);
            proof {
                let tr = dec_wrap(i as int, nn);
                assert(net.direct_send_shape(netpre, tr, j as int, TaurusOption::DOWN, payload));
                assert(inc_wrap(tr, nn) == i as int);
                assert forall|r: int|
                    0 <= r < nn && inc_wrap(r, nn) < i + 1 implies (#[trigger] net.core_at(
                    r,
                    j as int,
                )).down.contents().len() == 1 && mview(
                    net.core_at(r, j as int).down.contents()[0].0,
                ) == mview(tiles0[inc_wrap(r, nn) * nn + j as int]) by {
                    if r == tr {
                        assert(mview(payload.0) == mview(tiles@[i as int * nn + j as int]));
                    } else {
                        assert(net.core_at(r, j as int) == netpre.core_at(r, j as int));
                    }
                }
            }
            i = i + 1;
        }
        proof {
            assert forall|r: int|
                0 <= r < nn implies (#[trigger] net.core_at(r, j as int)).down.contents().len()
                == 1 && mview(net.core_at(r, j as int).down.contents()[0].0) == mview(
                tiles0[inc_wrap(r, nn) * nn + j as int],
            ) by {
                assert(inc_wrap(r, nn) < n);
            }
        }
        j = j + 1;
    }
    // Receiving sweep: every participating cell adopts the tile from below.
    let mut j2: usize = from;
    while j2 < n
        invariant
            net.wf(),
            net.rows == n,
            net.cols == n,
            nn == n as int,
            n >= 1,
            n * n <= usize::MAX,
            from <= j2 <= n,
            probe.count() == n * n,
            ThreadTimeProber::advanced_from(probe, &probe0),
            tiles@.len() == n * n,
            tiles0.len() == n * n,
            row_groups_quiet(*net),
            col_groups_quiet(*net),
            placed_tiles(tiles0, g, nn, nn, srcpos),
            forall|r: int, c: int|
                0 <= r < nn && 0 <= c < nn ==> (#[trigger] net.core_at(r, c)).left.contents().len()
                    == 0 && net.core_at(r, c).right.contents().len() == 0 && net.core_at(
                    r,
                    c,
                ).up.contents().len() == 0,
            forall|r: int, c: int|
                0 <= r < nn && (j2 <= c < nn && from <= c) ==> (#[trigger] net.core_at(
                    r,
                    c,
                )).down.contents().len() == 1 && mview(net.core_at(r, c).down.contents()[0].0)
                    == mview(tiles0[inc_wrap(r, nn) * nn + c]),
            forall|r: int, c: int|
                0 <= r < nn && (0 <= c < from || (from <= c < j2)) ==> (#[trigger] net.core_at(
                    r,
                    c,
                )).down.contents().len() == 0,
            forall|r: int, c: int|
                0 <= r < nn && from <= c < j2 ==> mview(#[trigger] tiles@[r * nn + c]) == mview(
                    tiles0[inc_wrap(r, nn) * nn + c],
                ),
            forall|r: int, c: int|
                0 <= r < nn && (0 <= c < from || j2 <= c < nn) ==> #[trigger] tiles@[r * nn + c]
                    == tiles0[r * nn + c],
        decreases n - j2,
    {
        let mut i: usize = 0;
        while i < n
            invariant
                net.wf(),
                net.rows == n,
                net.cols == n,
                nn == n as int,
                n >= 1,
                n * n <= usize::MAX,
                from <= j2 < n,
                0 <= i <= n,
                probe.count() == n * n,
                ThreadTimeProber::advanced_from(probe, &probe0),
                tiles@.len() == n * n,
                tiles0.len() == n * n,
                row_groups_quiet(*net),
                col_groups_quiet(*net),
                placed_tiles(tiles0, g, nn, nn, srcpos),
                forall|r: int, c: int|
                    0 <= r < nn && 0 <= c < nn ==> (#[trigger] net.core_at(
                        r,
                        c,
                    )).left.contents().len() == 0 && net.core_at(r, c).right.contents().len() == 0
                        && net.core_at(r, c).up.contents().len() == 0,
                forall|r: int, c: int|
                    0 <= r < nn && (j2 < c < nn && from <= c) ==> (#[trigger] net.core_at(
                        r,
                        c,
                    )).down.contents().len() == 1 && mview(net.core_at(r, c).down.contents()[0].0)
                        == mview(tiles0[inc_wrap(r, nn) * nn + c]),
                forall|r: int|
                    i <= r < nn ==> (#[trigger] net.core_at(r, j2 as int)).down.contents().len()
                        == 1 && mview(net.core_at(r, j2 as int).down.contents()[0].0) == mview(
                        tiles0[inc_wrap(r, nn) * nn + j2 as int],
                    ),
                forall|r: int|
                    0 <= r < i ==> (#[trigger] net.core_at(r, j2 as int)).down.contents().len()
                        == 0,
                forall|r: int, c: int|
                    0 <= r < nn && (0 <= c < from || (from <= c < j2)) ==> (#[trigger] net.core_at(
                        r,
                        c,
                    )).down.contents().len() == 0,
                forall|r: int, c: int|
                    0 <= r < nn && from <= c < j2 ==> mview(#[trigger] tiles@[r * nn + c]) == mview(
                        tiles0[inc_wrap(r, nn) * nn + c],
                    ),
                forall|r: int|
                    0 <= r < i ==> mview(#[trigger] tiles@[r * nn + j2 as int]) == mview(
                        tiles0[inc_wrap(r, nn) * nn + j2 as int],
                    ),
                forall|r: int|
                    i <= r < nn ==> #[trigger] tiles@[r * nn + j2 as int] == tiles0[r * nn
                        + j2 as int],
                forall|r: int, c: int|
                    0 <= r < nn && (0 <= c < from || j2 < c < nn) ==> #[trigger] tiles@[r * nn + c]
                        == tiles0[r * nn + c],
            decreases n - i,
        {
            let idx = grid_index(i, j2, n);
            proof {
                lemma_cell_bound(i as int, j2 as int, nn);
            }
            let ghost netpre = *net;
            let pb = net.recv(i, j2, &TaurusOption::DOWN);
            proof {
                assert(net.direct_recv_shape(
                    netpre,
                    i as int,
                    j2 as int,
                    TaurusOption::DOWN,
                    pb,
                ));
            }
            let ghost probepre = *probe;
            probe.observe_arrival(idx, pb.1);
            proof {
                crate::processor::probe::lemma_advanced_trans(probe0, probepre, *probe);
            }
            let ghost tilespre = tiles@;
            tiles.set(idx, pb.0);
            proof {
                assert(mview(tiles@[idx as int]) == mview(
                    tiles0[inc_wrap(i as int, nn) * nn + j2 as int],
                ));
                assert forall|r: int, c: int|
                    0 <= r < nn && 0 <= c < nn && !(r == i && c == j2) implies #[trigger] tiles@[r
                    * nn + c] == tilespre[r * nn + c] by {
                    lemma_cell_bound(r, c, nn);
                    assert(r * nn + c != i as int * nn + j2 as int) by (nonlinear_arith)
                        requires
                            0 <= r < nn,
                            0 <= c < nn,
                            0 <= (i as int) < nn,
                            0 <= (j2 as int) < nn,
                            !(r == i && c == j2),
                    ;
                    assert(tiles@ == tilespre.update(idx as int, tiles@[idx as int]));
                }
            }
            i = i + 1;
        }
        j2 = j2 + 1;
    }
    proof {
        assert forall|i: int, j: int| 0 <= i < nn && 0 <= j < nn implies mview(
            #[trigger] tiles@[i * nn + j],
        ) == tile_of(
            g,
            nn,
            nn,
            (if j >= from {
                srcpos(inc_wrap(i, nn), j)
            } else {
                srcpos(i, j)
            }).0,
            (if j >= from {
                srcpos(inc_wrap(i, nn), j)
            } else {
                srcpos(i, j)
            }).1,
        ) by {
            lemma_cell_bound(i, j, nn);
            if j >= from {
                assert(mview(tiles@[i * nn + j]) == mview(tiles0[inc_wrap(i, nn) * nn + j]));
                lemma_cell_bound(inc_wrap(i, nn), j, nn);
                assert(mview(tiles0[inc_wrap(i, nn) * nn + j]) == tile_of(
                    g,
                    nn,
                    nn,
                    srcpos(inc_wrap(i, nn), j).0,
                    srcpos(inc_wrap(i, nn), j).1,
                ));
            } else {
                assert(tiles@[i * nn + j] == tiles0[i * nn + j]);
            }
        }
    }
}


/// Shift the resident tiles of the rows `from ..` one cell leftward around
/// the torus: every cell of those rows sends its tile left and adopts the
/// tile of the cell to its right.
fn shift_left_pass<E: Multiplicable>(
    tiles: &mut Vec<Matrix<E>>,
    n: usize,
    from: usize,
    net: &mut TaurusNetwork<TilePayload<E>>,
    probe: &mut ThreadTimeProber,
    Ghost(g): Ghost<Seq<Seq<E>>>,
    Ghost(srcpos): Ghost<spec_fn(int, int) -> (int, int)>,
)
    requires
        old(net).wf(),
        quiet(*old(net)),
        old(net).rows == n,
        old(net).cols == n,
        n >= 1,
        n * n <= usize::MAX,
        from <= n,
        old(probe).count() == n * n,
        old(tiles)@.len() == n * n,
        placed_tiles(old(tiles)@, g, n as int, n as int, srcpos),
    ensures
        final(net).wf(),
        quiet(*final(net)),
        final(net).rows == n,
        final(net).cols == n,
        ThreadTimeProber::advanced_from(final(probe), old(probe)),
        final(tiles)@.len() == n * n,
        placed_tiles(
            final(tiles)@,
            g,
            n as int,
            n as int,
            (|i: int, j: int|
                if i >= from {
                    srcpos(i, inc_wrap(j, n as int))
                } else {
                    srcpos(i, j)
                }),
        ),
{
    let ghost nn = n as int;
    let ghost probe0 = *probe;
    let ghost tiles0 = tiles@;
    // Sending sweep: every participating cell sends its tile leftward.
    let mut i: usize = from;
    while i < n
        invariant
            net.wf(),
            net.rows == n,
            net.cols == n,
            nn == n as int,
            n >= 1,
            n * n <= usize::MAX,
            from <= i <= n,
            probe.count() == n * n,
            ThreadTimeProber::advanced_from(probe, &probe0),
            tiles@.len() == n * n,
            tiles0.len() == n * n,
            tiles@ == tiles0,
            row_groups_quiet(*net),
            col_groups_quiet(*net),
            placed_tiles(tiles0, g, nn, nn, srcpos),
            forall|r: int, c: int|
                0 <= r < nn && 0 <= c < nn ==> (#[trigger] net.core_at(r, c)).left.contents().len()
                    == 0 && net.core_at(r, c).up.contents().len() == 0 && net.core_at(
                    r,
                    c,
                ).down.contents().len() == 0,
            forall|r: int, c: int|
                (from <= r < i) && 0 <= c < nn ==> (#[trigger] net.core_at(
                    r,
                    c,
                )).right.contents().len() == 1 && mview(net.core_at(r, c).right.contents()[0].0)
                    == mview(tiles0[r * nn + inc_wrap(c, nn)]),
            forall|r: int, c: int|
                (0 <= r < from || i <= r < nn) && 0 <= c < nn ==> (#[trigger] net.core_at(
                    r,
                    c,
                )).right.contents().len() == 0,
        decreases n - i,
    {
        let mut j: usize = 0;
        while j < n
            invariant
                net.wf(),
                net.rows == n,
                net.cols == n,
                nn == n as int,
                n >= 1,
                n * n <= usize::MAX,
                from <= i < n,
                0 <= j <= n,
                probe.count() == n * n,
                ThreadTimeProber::advanced_from(probe, &probe0),
                tiles@.len() == n * n,
                tiles0.len() == n * n,
                tiles@ == tiles0,
                row_groups_quiet(*net),
                col_groups_quiet(*net),
                placed_tiles(tiles0, g, nn, nn, srcpos),
                forall|r: int, c: int|
                    0 <= r < nn && 0 <= c < nn ==> (#[trigger] net.core_at(
                        r,
                        c,
                    )).left.contents().len() == 0 && net.core_at(r, c).up.contents().len() == 0
                        && net.core_at(r, c).down.contents().len() == 0,
                forall|r: int, c: int|
                    (from <= r < i) && 0 <= c < nn ==> (#[trigger] net.core_at(
                        r,
                        c,
                    )).right.contents().len() == 1 && mview(net.core_at(r, c).right.contents()[0].0)
                        == mview(tiles0[r * nn + inc_wrap(c, nn)]),
                forall|c: int|
                    0 <= c < nn && inc_wrap(c, nn) < j ==> (#[trigger] net.core_at(
                        i as int,
                        c,
                    )).right.contents().len() == 1 && mview(
                        net.core_at(i as int, c).right.contents()[0].0,
                    ) == mview(tiles0[i as int * nn + inc_wrap(c, nn)]),
                forall|c: int|
                    0 <= c < nn && inc_wrap(c, nn) >= j ==> (#[trigger] net.core_at(
                        i as int,
                        c,
                    )).right.contents().len() == 0,
                forall|r: int, c: int|
                    (0 <= r < from || i < r < nn) && 0 <= c < nn ==> (#[trigger] net.core_at(
                        r,
                        c,
                    )).right.contents().len() == 0,
            decreases n - j,
        {
            let idx = grid_index(i, j, n);
            proof {
                lemma_cell_bound(i as int, j as int, nn);
            }
            let bytes = tile_bytes::<E>(&tiles[idx]);
            let ghost probepre = *probe;
            let arrival = probe.charge_send(idx, bytes, false, 0);
            proof {
                crate::processor::probe::lemma_advanced_trans(probe0, probepre, *probe);
            }
            let payload = (dup_matrix(&tiles[idx]), arrival);
            let ghost netpre = *net;
            net.send(i, j, &TaurusOption::LEFT, payload);
            proof {
                let tc = dec_wrap(j as int, nn);
                assert(net.direct_send_shape(netpre, i as int, tc, TaurusOption::RIGHT, payload));
                assert(inc_wrap(tc, nn) == j as int);
                assert forall|c: int|
                    0 <= c < nn && inc_wrap(c, nn) < j + 1 implies (#[trigger] net.core_at(
                    i as int,
                    c,
                )).right.contents().len() == 1 && mview(
                    net.core_at(i as int, c).right.contents()[0].0,
                ) == mview(tiles0[i as int * nn + inc_wrap(c, nn)]) by {
                    if c == tc {
                        assert(mview(payload.0) == mview(tiles@[i as int * nn + j as int]));
                    } else {
                        assert(net.core_at(i as int, c) == netpre.core_at(i as int, c));
                    }
                }
            }
            j = j + 1;
        }
        proof {
            assert forall|c: int|
                0 <= c < nn implies (#[trigger] net.core_at(i as int, c)).right.contents().len()
                == 1 && mview(net.core_at(i as int, c).right.contents()[0].0) == mview(
                tiles0[i as int * nn + inc_wrap(c, nn)],
            ) by {
                assert(inc_wrap(c, nn) < n);
            }
        }
        i = i + 1;
    }
    // Receiving sweep: every participating cell adopts the tile to its right.
    let mut i2: usize = from;
    while i2 < n
        invariant
            net.wf(),
            net.rows == n,
            net.cols == n,
            nn == n as int,
            n >= 1,
            n * n <= usize::MAX,
            from <= i2 <= n,
            probe.count() == n * n,
            ThreadTimeProber::advanced_from(probe, &probe0),
            tiles@.len() == n * n,
            tiles0.len() == n * n,
            row_groups_quiet(*net),
            col_groups_quiet(*net),
            placed_tiles(tiles0, g, nn, nn, srcpos),
            forall|r: int, c: int|
                0 <= r < nn && 0 <= c < nn ==> (#[trigger] net.core_at(r, c)).left.contents().len()
                    == 0 && net.core_at(r, c).up.contents().len() == 0 && net.core_at(
                    r,
                    c,
                ).down.contents().len() == 0,
            forall|r: int, c: int|
                (i2 <= r < nn && from <= r) && 0 <= c < nn ==> (#[trigger] net.core_at(
                    r,
                    c,
                )).right.contents().len() == 1 && mview(net.core_at(r, c).right.contents()[0].0)
                    == mview(tiles0[r * nn + inc_wrap(c, nn)]),
            forall|r: int, c: int|
                (0 <= r < from || (from <= r < i2)) && 0 <= c < nn ==> (#[trigger] net.core_at(
                    r,
                    c,
                )).right.contents().len() == 0,
            forall|r: int, c: int|
                from <= r < i2 && 0 <= c < nn ==> mview(#[trigger] tiles@[r * nn + c]) == mview(
                    tiles0[r * nn + inc_wrap(c, nn)],
                ),
            forall|r: int, c: int|
                (0 <= r < from || i2 <= r < nn) && 0 <= c < nn ==> #[trigger] tiles@[r * nn + c]
                    == tiles0[r * nn + c],
        decreases n - i2,
    {
        let mut j: usize = 0;
        while j < n
            invariant
                net.wf(),
                net.rows == n,
                net.cols == n,
                nn == n as int,
                n >= 1,
                n * n <= usize::MAX,
                from <= i2 < n,
                0 <= j <= n,
                probe.count() == n * n,
                ThreadTimeProber::advanced_from(probe, &probe0),
                tiles@.len() == n * n,
                tiles0.len() == n * n,
                row_groups_quiet(*net),
                col_groups_quiet(*net),
                placed_tiles(tiles0, g, nn, nn, srcpos),
                forall|r: int, c: int|
                    0 <= r < nn && 0 <= c < nn ==> (#[trigger] net.core_at(
                        r,
                        c,
                    )).left.contents().len() == 0 && net.core_at(r, c).up.contents().len() == 0
                        && net.core_at(r, c).down.contents().len() == 0,
                forall|r: int, c: int|
                    (i2 < r < nn && from <= r) && 0 <= c < nn ==> (#[trigger] net.core_at(
                        r,
                        c,
                    )).right.contents().len() == 1 && mview(net.core_at(r, c).right.contents()[0].0)
                        == mview(tiles0[r * nn + inc_wrap(c, nn)]),
                forall|c: int|
                    j <= c < nn ==> (#[trigger] net.core_at(i2 as int, c)).right.contents().len()
                        == 1 && mview(net.core_at(i2 as int, c).right.contents()[0].0) == mview(
                        tiles0[i2 as int * nn + inc_wrap(c, nn)],
                    ),
                forall|c: int|
                    0 <= c < j ==> (#[trigger] net.core_at(i2 as int, c)).right.contents().len()
                        == 0,
                forall|r: int, c: int|
                    (0 <= r < from || (from <= r < i2)) && 0 <= c < nn ==> (#[trigger] net.core_at(
                        r,
                        c,
                    )).right.contents().len() == 0,
                forall|r: int, c: int|
                    from <= r < i2 && 0 <= c < nn ==> mview(#[trigger] tiles@[r * nn + c]) == mview(
                        tiles0[r * nn + inc_wrap(c, nn)],
                    ),
                forall|c: int|
                    0 <= c < j ==> mview(#[trigger] tiles@[i2 as int * nn + c]) == mview(
                        tiles0[i2 as int * nn + inc_wrap(c, nn)],
                    ),
                forall|c: int|
                    j <= c < nn ==> #[trigger] tiles@[i2 as int * nn + c] == tiles0[i2 as int * nn
                        + c],
                forall|r: int, c: int|
                    (0 <= r < from || i2 < r < nn) && 0 <= c < nn ==> #[trigger] tiles@[r * nn + c]
                        == tiles0[r * nn + c],
            decreases n - j,
        {
            let idx = grid_index(i2, j, n);
            proof {
                lemma_cell_bound(i2 as int, j as int, nn);
            }
            let ghost netpre = *net;
            let pb = net.recv(i2, j, &TaurusOption::RIGHT);
            proof {
                assert(net.direct_recv_shape(
                    netpre,
                    i2 as int,
                    j as int,
                    TaurusOption::RIGHT,
                    pb,
                ));
            }
            let ghost probepre = *probe;
            probe.observe_arrival(idx, pb.1);
            proof {
                crate::processor::probe::lemma_advanced_trans(probe0, probepre, *probe);
            }
            let ghost tilespre = tiles@;
            tiles.set(idx, pb.0);
            proof {
                assert(mview(tiles@[idx as int]) == mview(
                    tiles0[i2 as int * nn + inc_wrap(j as int, nn)],
                ));
                assert forall|r: int, c: int|
                    0 <= r < nn && 0 <= c < nn && !(r == i2 && c == j) implies #[trigger] tiles@[r
                    * nn + c] == tilespre[r * nn + c] by {
                    lemma_cell_bound(r, c, nn);
                    assert(r * nn + c != i2 as int * nn + j as int) by (nonlinear_arith)
                        requires
                            0 <= r < nn,
                            0 <= c < nn,
                            0 <= (i2 as int) < nn,
                            0 <= (j as int) < nn,
                            !(r == i2 && c == j),
                    ;
                    assert(tiles@ == tilespre.update(idx as int, tiles@[idx as int]));
                }
            }
            j = j + 1;
        }
        i2 = i2 + 1;
    }
    proof {
        assert forall|i: int, j: int| 0 <= i < nn && 0 <= j < nn implies mview(
            #[trigger] tiles@[i * nn + j],
        ) == tile_of(
            g,
            nn,
            nn,
            (if i >= from {
                srcpos(i, inc_wrap(j, nn))
            } else {
                srcpos(i, j)
            }).0,
            (if i >= from {
                srcpos(i, inc_wrap(j, nn))
            } else {
                srcpos(i, j)
            }).1,
        ) by {
            lemma_cell_bound(i, j, nn);
            if i >= from {
                assert(mview(tiles@[i * nn + j]) == mview(tiles0[i * nn + inc_wrap(j, nn)]));
                lemma_cell_bound(i, inc_wrap(j, nn), nn);
                assert(mview(tiles0[i * nn + inc_wrap(j, nn)]) == tile_of(
                    g,
                    nn,
                    nn,
                    srcpos(i, inc_wrap(j, nn)).0,
                    srcpos(i, inc_wrap(j, nn)).1,
                ));
            } else {
                assert(tiles@[i * nn + j] == tiles0[i * nn + j]);
            }
        }
    }
}

/// Multiply in place: every cell accumulates the product of its resident
/// `A`- and `B`-tiles into its `C`-tile.  The residents sit at the common
/// block index `kof(i, j)`, so cell `(i, j)` accumulates that block.
fn local_mult_pass<E: Multiplicable>(
    a: &Vec<Matrix<E>>,
    b: &Vec<Matrix<E>>,
    c: &mut Vec<Matrix<E>>,
    n: usize,
    probe: &mut ThreadTimeProber,
    Ghost(ga): Ghost<Seq<Seq<E>>>,
    Ghost(gb): Ghost<Seq<Seq<E>>>,
    Ghost(kof): Ghost<spec_fn(int, int) -> int>,
)
    requires
        n >= 1,
        n * n <= usize::MAX,
        old(probe).count() == n * n,
        wf_mat(ga),
        wf_mat(gb),
        cols_of(ga) == rows_of(gb),
        forall|i: int, j: int| 0 <= i < n && 0 <= j < n ==> 0 <= #[trigger] kof(i, j) < n,
        a@.len() == n * n,
        b@.len() == n * n,
        placed_tiles(a@, ga, n as int, n as int, (|i: int, j: int| (i, kof(i, j)))),
        placed_tiles(b@, gb, n as int, n as int, (|i: int, j: int| (kof(i, j), j))),
        old(c)@.len() == n * n,
        c_grids_ok(old(c)@, ga, gb, n as int),
    ensures
        ThreadTimeProber::advanced_from(final(probe), old(probe)),
        final(c)@.len() == n * n,
        c_grids_ok(final(c)@, ga, gb, n as int),
        forall|i: int, j: int|
            0 <= i < n && 0 <= j < n ==> mview(#[trigger] final(c)@[i * n + j]) == mm_spec(
                tile_of(ga, n as int, n as int, i, kof(i, j)),
                tile_of(gb, n as int, n as int, kof(i, j), j),
                mview(old(c)@[i * n + j]),
            ),
{
    let ghost nn = n as int;
    let ghost probe0 = *probe;
    let ghost c0 = c@;
    let mut i: usize = 0;
    while i < n
        invariant
            nn == n as int,
            n >= 1,
            n * n <= usize::MAX,
            0 <= i <= n,
            probe.count() == n * n,
            ThreadTimeProber::advanced_from(probe, &probe0),
            wf_mat(ga),
            wf_mat(gb),
            cols_of(ga) == rows_of(gb),
            forall|i2: int, j2: int| 0 <= i2 < nn && 0 <= j2 < nn ==> 0 <= #[trigger] kof(i2, j2) < nn,
            a@.len() == n * n,
            b@.len() == n * n,
            placed_tiles(a@, ga, nn, nn, (|i2: int, j2: int| (i2, kof(i2, j2)))),
            placed_tiles(b@, gb, nn, nn, (|i2: int, j2: int| (kof(i2, j2), j2))),
            c@.len() == n * n,
            c0.len() == n * n,
            c_grids_ok(c@, ga, gb, nn),
            forall|i2: int, j2: int|
                (0 <= i2 < i && 0 <= j2 < nn) ==> mview(#[trigger] c@[i2 * nn + j2]) == mm_spec(
                    tile_of(ga, nn, nn, i2, kof(i2, j2)),
                    tile_of(gb, nn, nn, kof(i2, j2), j2),
                    mview(c0[i2 * nn + j2]),
                ),
            forall|i2: int, j2: int|
                (i <= i2 < nn && 0 <= j2 < nn) ==> #[trigger] c@[i2 * nn + j2] == c0[i2 * nn + j2],
        decreases n - i,
    {
        let mut j: usize = 0;
        while j < n
            invariant
                nn == n as int,
                n >= 1,
                n * n <= usize::MAX,
                i < n,
                0 <= j <= n,
                probe.count() == n * n,
                ThreadTimeProber::advanced_from(probe, &probe0),
                wf_mat(ga),
                wf_mat(gb),
                cols_of(ga) == rows_of(gb),
                forall|i2: int, j2: int|
                    0 <= i2 < nn && 0 <= j2 < nn ==> 0 <= #[trigger] kof(i2, j2) < nn,
                a@.len() == n * n,
                b@.len() == n * n,
                placed_tiles(a@, ga, nn, nn, (|i2: int, j2: int| (i2, kof(i2, j2)))),
                placed_tiles(b@, gb, nn, nn, (|i2: int, j2: int| (kof(i2, j2), j2))),
                c@.len() == n * n,
                c0.len() == n * n,
                c_grids_ok(c@, ga, gb, nn),
                forall|i2: int, j2: int|
                    (0 <= i2 < i && 0 <= j2 < nn) || (i2 == i && 0 <= j2 < j) ==> mview(
                        #[trigger] c@[i2 * nn + j2],
                    ) == mm_spec(
                        tile_of(ga, nn, nn, i2, kof(i2, j2)),
                        tile_of(gb, nn, nn, kof(i2, j2), j2),
                        mview(c0[i2 * nn + j2]),
                    ),
                forall|i2: int, j2: int|
                    (i < i2 < nn && 0 <= j2 < nn) || (i2 == i && j <= j2 < nn)
                        ==> #[trigger] c@[i2 * nn + j2] == c0[i2 * nn + j2],
            decreases n - j,
        {
            let idx = grid_index(i, j, n);
            proof {
                lemma_cell_bound(i as int, j as int, nn);
                assert(mview(a@[i as int * nn + j as int]) == tile_of(
                    ga,
                    nn,
                    nn,
                    i as int,
                    kof(i as int, j as int),
                ));
                assert(mview(b@[i as int * nn + j as int]) == tile_of(
                    gb,
                    nn,
                    nn,
                    kof(i as int, j as int),
                    j as int,
                ));
                assert(c_grid_at(c@, ga, gb, nn, i as int, j as int));
                lemma_mult_tiles_ok::<E>(
                    ga,
                    gb,
                    mview(c@[idx as int]),
                    nn,
                    i as int,
                    kof(i as int, j as int),
                    j as int,
                );
            }
            let ghost probepre3 = *probe;
            probe.begin_work();
            proof {
                crate::processor::probe::lemma_advanced_trans(probe0, probepre3, *probe);
            }
            let ghost cpre = c@;
            let newc = serial_matmul(&a[idx], &b[idx], &c[idx]);
            c.set(idx, newc);
            let ghost probepre4 = *probe;
            probe.end_work(idx);
            proof {
                crate::processor::probe::lemma_advanced_trans(probe0, probepre4, *probe);
                assert forall|i2: int, j2: int|
                    0 <= i2 < nn && 0 <= j2 < nn && !(i2 == i && j2 == j) implies
                    #[trigger] c@[i2 * nn + j2] == cpre[i2 * nn + j2] by {
                    lemma_cell_bound(i2, j2, nn);
                    assert(i2 * nn + j2 != i as int * nn + j as int) by (nonlinear_arith)
                        requires
                            0 <= i2 < nn,
                            0 <= j2 < nn,
                            0 <= (i as int) < nn,
                            0 <= (j as int) < nn,
                            !(i2 == i && j2 == j),
                    ;
                    assert(c@ == cpre.update(idx as int, newc));
                }
                assert forall|i2: int, j2: int| 0 <= i2 < nn && 0 <= j2 < nn implies
                    #[trigger] c_grid_at(c@, ga, gb, nn, i2, j2) by {
                    if i2 == i as int && j2 == j as int {
                        assert(mview(c@[idx as int]) == mm_spec(
                            tile_of(ga, nn, nn, i as int, kof(i as int, j as int)),
                            tile_of(gb, nn, nn, kof(i as int, j as int), j as int),
                            mview(cpre[idx as int]),
                        ));
                    } else {
                        assert(c_grid_at(cpre, ga, gb, nn, i2, j2));
                    }
                }
            }
            j = j + 1;
        }
        i = i + 1;
    }
}


/// Offsets modulo the grid size: entry `i` is `(off + i) % n`.
fn offset_cols(n: usize, off: usize) -> (r: Vec<usize>)
    requires
        n >= 1,
        n * n <= usize::MAX,
        off < 2 * n,
    ensures
        r@.len() == n,
        forall|i: int| 0 <= i < n ==> #[trigger] r@[i] < n,
        forall|i: int| 0 <= i < n ==> #[trigger] r@[i] as int == (off + i) % (n as int),
{
    let mut r: Vec<usize> = Vec::new();
    let mut i: usize = 0;
    proof {
        assert(3 * n - 2 <= n * n) by (nonlinear_arith)
            requires
                n >= 1,
        ;
    }
    while i < n
        invariant
            0 <= i <= n,
            n >= 1,
            off < 2 * n,
            3 * n - 2 <= usize::MAX,
            r@.len() == i,
            forall|k: int| 0 <= k < i ==> #[trigger] r@[k] < n,
            forall|k: int| 0 <= k < i ==> #[trigger] r@[k] as int == (off + k) % (n as int),
        decreases n - i,
    {
        r.push((off + i) % n);
        i = i + 1;
    }
    r
}

/// Around the torus, the next row after `i`, then `t` more steps, is the
/// same as `t + 1` steps from `i`.
proof fn lemma_inc_mod(i: int, t: int, n: int)
    requires
        n >= 1,
        0 <= i < n,
        0 <= t,
    ensures
        (inc_wrap(i, n) + t) % n == (i + 1 + t) % n,
{
    if i == n - 1 {
        vstd::arithmetic::div_mod::lemma_mod_add_multiples_vanish(t, n);
    }
}

/// The Fox-Otto schedule: every round the diagonal broadcaster of each row
/// sends its `A`-tile along the row, every cell multiplies it with its
/// resident `B`-tile, and the `B`-tiles migrate one cell upward.  Cell
/// `(i, j)` sees block `(t + i) % n` at round `t`.
pub struct FoxOtto;

impl<E: Multiplicable> CommMethod<E> for FoxOtto {
    open spec fn schedule(i: int, j: int, t: int, n: int) -> int {
        (t + i) % n
    }

    open spec fn a_src(i: int, j: int, rows: int, cols: int) -> (int, int) {
        (i, j)
    }

    open spec fn b_src(i: int, j: int, rows: int, cols: int) -> (int, int) {
        (i, j)
    }

    open spec fn tile_run_spec(
        ga: Seq<Seq<E>>,
        gb: Seq<Seq<E>>,
        acc: Seq<Seq<E>>,
        i: int,
        j: int,
        n: int,
        t: int,
    ) -> Seq<Seq<E>>
        decreases n - t,
    {
        if t < 0 || t >= n {
            acc
        } else {
            Self::tile_run_spec(
                ga,
                gb,
                mm_spec(
                    tile_of(ga, n, n, i, (t + i) % n),
                    tile_of(gb, n, n, (t + i) % n, j),
                    acc,
                ),
                i,
                j,
                n,
                t + 1,
            )
        }
    }

    proof fn tile_run_spec_unfold(
        ga: Seq<Seq<E>>,
        gb: Seq<Seq<E>>,
        acc: Seq<Seq<E>>,
        i: int,
        j: int,
        n: int,
        t: int,
    ) {
    }

    proof fn schedule_in_range(i: int, j: int, t: int, n: int) {
        vstd::arithmetic::div_mod::lemma_mod_bound(t + i, n);
    }

    proof fn src_in_range(i: int, j: int, rows: int, cols: int) {
    }

    fn outer_setup_a(rows: usize, cols: usize, matrix_a: &Matrix<E>) -> (tiles: Vec<Matrix<E>>) {
        plain_tiles(rows, cols, matrix_a)
    }

    fn outer_setup_b(rows: usize, cols: usize, matrix_b: &Matrix<E>) -> (tiles: Vec<Matrix<E>>) {
        plain_tiles(rows, cols, matrix_b)
    }

    fn outer_setup_c(rows: usize, cols: usize, matrix_c: &Matrix<E>) -> (tiles: Vec<Matrix<E>>) {
        plain_tiles(rows, cols, matrix_c)
    }

    fn matrix_mult(
        a: &mut Vec<Matrix<E>>,
        b: &mut Vec<Matrix<E>>,
        c: &mut Vec<Matrix<E>>,
        iterations: usize,
        net: &mut TaurusNetwork<TilePayload<E>>,
        probe: &mut ThreadTimeProber,
        Ghost(ga): Ghost<Seq<Seq<E>>>,
        Ghost(gb): Ghost<Seq<Seq<E>>>,
    ) {
        let n = iterations;
        let ghost nn = n as int;
        let ghost gc0 = tviews(c@);
        let ghost a0 = a@;
        let ghost probe0 = *probe;
        proof {
            assert forall|i: int, j: int| 0 <= i < nn && 0 <= j < nn implies mview(
                #[trigger] b@[i * nn + j],
            ) == tile_of(gb, nn, nn, (i + 0) % nn, j) by {
                assert(mview(b@[i * nn + j]) == tile_of(
                    gb,
                    nn,
                    nn,
                    <FoxOtto as CommMethod<E>>::b_src(i, j, nn, nn).0,
                    <FoxOtto as CommMethod<E>>::b_src(i, j, nn, nn).1,
                ));
                vstd::arithmetic::div_mod::lemma_small_mod(i as nat, nn as nat);
            }
            assert forall|i: int, j: int| 0 <= i < nn && 0 <= j < nn implies gc0[i * nn + j]
                == mview(#[trigger] c@[i * nn + j]) by {
                lemma_cell_bound(i, j, nn);
                assert(gc0[i * nn + j] == tviews(c@)[i * nn + j]);
            }
            assert forall|i: int, j: int| 0 <= i < nn && 0 <= j < nn implies is_grid(
                mview(#[trigger] c@[i * nn + j]),
                axis_len(nn, rows_of(ga), i),
                axis_len(nn, cols_of(gb), j),
            ) by {
                assert(c_grid_at(c@, ga, gb, nn, i, j));
            }
        }
        let mut t: usize = 0;
        while t < n
            invariant
                net.wf(),
                quiet(*net),
                net.rows == n,
                net.cols == n,
                nn == n as int,
                n >= 1,
                n * n <= usize::MAX,
                probe.count() == n * n,
                ThreadTimeProber::advanced_from(probe, &probe0),
                wf_mat(ga),
                wf_mat(gb),
                cols_of(ga) == rows_of(gb),
                a@ == a0,
                a@.len() == n * n,
                b@.len() == n * n,
                c@.len() == n * n,
                gc0.len() == n * n,
                0 <= t <= n,
                placed_tiles(a@, ga, nn, nn, (|i: int, j: int| (i, j))),
                forall|i: int, j: int|
                    0 <= i < nn && 0 <= j < nn ==> mview(#[trigger] b@[i * nn + j]) == tile_of(
                        gb,
                        nn,
                        nn,
                        (i + t) % nn,
                        j,
                    ),
                forall|i: int, j: int|
                    0 <= i < nn && 0 <= j < nn ==> is_grid(
                        mview(#[trigger] c@[i * nn + j]),
                        axis_len(nn, rows_of(ga), i),
                        axis_len(nn, cols_of(gb), j),
                    ),
                forall|i: int, j: int|
                    0 <= i < nn && 0 <= j < nn ==> <FoxOtto as CommMethod<E>>::tile_run_spec(
                        ga,
                        gb,
                        gc0[i * nn + j],
                        i,
                        j,
                        nn,
                        0,
                    ) == <FoxOtto as CommMethod<E>>::tile_run_spec(
                        ga,
                        gb,
                        mview(#[trigger] c@[i * nn + j]),
                        i,
                        j,
                        nn,
                        t as int,
                    ),
            decreases n - t,
        {
            proof {
                assert(t + 0 < 2 * n);
            }
            let src_cols = offset_cols(n, t);
            let ghost kof = |i2: int| (t as int + i2) % nn;
            proof {
                assert forall|i2: int| 0 <= i2 < nn implies 0 <= #[trigger] kof(i2) < nn by {
                    vstd::arithmetic::div_mod::lemma_mod_bound(t as int + i2, nn);
                }
            }
            let ghost probepre1 = *probe;
            bcast_pass(net, probe, a, n, &src_cols, Ghost(ga));
            proof {
                crate::processor::probe::lemma_advanced_trans(probe0, probepre1, *probe);
                assert forall|g: int, m: int| 0 <= g < nn && 0 <= m < nn implies (
                #[trigger] net.row_group(g).member(m)).contents().len() == 1 && mview(
                    net.row_group(g).member(m).contents()[0].0,
                ) == tile_of(ga, nn, nn, g, kof(g)) by {
                    assert(mview(net.row_group(g).member(m).contents()[0].0) == tile_of(
                        ga,
                        nn,
                        nn,
                        g,
                        src_cols@[g] as int,
                    ));
                    assert(src_cols@[g] as int == kof(g));
                }
                assert(row_groups_loaded(*net, ga, nn, kof));
                assert forall|i2: int, j2: int| 0 <= i2 < nn && 0 <= j2 < nn implies mview(
                    #[trigger] b@[i2 * nn + j2],
                ) == tile_of(gb, nn, nn, kof(i2), j2) by {
                    assert((i2 + t) % nn == kof(i2));
                }
                assert(placed_tiles(b@, gb, nn, nn, (|i2: int, j2: int| (kof(i2), j2))));
                assert(c_grids_ok(c@, ga, gb, nn));
            }
            let ghost cround = c@;
            let ghost probepre2 = *probe;
            recv_mult_pass(net, probe, b, c, n, Ghost(ga), Ghost(gb), Ghost(kof));
            proof {
                crate::processor::probe::lemma_advanced_trans(probe0, probepre2, *probe);
                assert forall|i2: int, j2: int| 0 <= i2 < nn && 0 <= j2 < nn implies
                    <FoxOtto as CommMethod<E>>::tile_run_spec(ga, gb, gc0[i2 * nn + j2], i2, j2, nn, 0)
                    == <FoxOtto as CommMethod<E>>::tile_run_spec(
                    ga,
                    gb,
                    mview(#[trigger] c@[i2 * nn + j2]),
                    i2,
                    j2,
                    nn,
                    t + 1,
                ) by {
                    lemma_cell_bound(i2, j2, nn);
                    assert(<FoxOtto as CommMethod<E>>::schedule(i2, j2, t as int, nn) == kof(i2));
                    assert(mview(c@[i2 * nn + j2]) == mm_spec(
                        tile_of(ga, nn, nn, i2, kof(i2)),
                        tile_of(gb, nn, nn, kof(i2), j2),
                        mview(cround[i2 * nn + j2]),
                    ));
                    assert(<FoxOtto as CommMethod<E>>::tile_run_spec(
                        ga,
                        gb,
                        mview(cround[i2 * nn + j2]),
                        i2,
                        j2,
                        nn,
                        t as int,
                    ) == <FoxOtto as CommMethod<E>>::tile_run_spec(
                        ga,
                        gb,
                        mm_spec(
                            tile_of(ga, nn, nn, i2, (t as int + i2) % nn),
                            tile_of(gb, nn, nn, (t as int + i2) % nn, j2),
                            mview(cround[i2 * nn + j2]),
                        ),
                        i2,
                        j2,
                        nn,
                        t + 1,
                    ));
                }
            }
            let ghost srcpos = |i2: int, j2: int| ((i2 + t) % nn, j2);
            proof {
                assert forall|i2: int, j2: int| 0 <= i2 < nn && 0 <= j2 < nn implies mview(
                    #[trigger] b@[i2 * nn + j2],
                ) == tile_of(gb, nn, nn, srcpos(i2, j2).0, srcpos(i2, j2).1) by {
                    assert(mview(b@[i2 * nn + j2]) == tile_of(gb, nn, nn, kof(i2), j2));
                    assert(kof(i2) == (i2 + t) % nn);
                }
                assert(placed_tiles(b@, gb, nn, nn, srcpos));
            }
            let ghost probepre3 = *probe;
            shift_up_pass(b, n, 0, net, probe, Ghost(gb), Ghost(srcpos));
            proof {
                crate::processor::probe::lemma_advanced_trans(probe0, probepre3, *probe);
                assert forall|i2: int, j2: int| 0 <= i2 < nn && 0 <= j2 < nn implies mview(
                    #[trigger] b@[i2 * nn + j2],
                ) == tile_of(gb, nn, nn, (i2 + t + 1) % nn, j2) by {
                    assert(mview(b@[i2 * nn + j2]) == tile_of(
                        gb,
                        nn,
                        nn,
                        srcpos(inc_wrap(i2, nn), j2).0,
                        srcpos(inc_wrap(i2, nn), j2).1,
                    ));
                    lemma_inc_mod(i2, t as int, nn);
                }
            }
            t = t + 1;
        }
        proof {
            assert forall|i: int, j: int| 0 <= i < nn && 0 <= j < nn implies mview(
                #[trigger] c@[i * nn + j],
            ) == <FoxOtto as CommMethod<E>>::tile_run_spec(ga, gb, gc0[i * nn + j], i, j, nn, 0) by {
                lemma_cell_bound(i, j, nn);
                assert(<FoxOtto as CommMethod<E>>::tile_run_spec(
                    ga,
                    gb,
                    mview(c@[i * nn + j]),
                    i,
                    j,
                    nn,
                    nn,
                ) == mview(c@[i * nn + j]));
            }
            assert forall|i: int, j: int| 0 <= i < nn && 0 <= j < nn implies gc0[i * nn + j]
                == mview(#[trigger] old(c)@[i * nn + j]) by {
                lemma_cell_bound(i, j, nn);
                assert(gc0[i * nn + j] == tviews(old(c)@)[i * nn + j]);
            }
            assert(folded_tiles(
                c@,
                old(c)@,
                nn,
                (|acc: Seq<Seq<E>>, i: int, j: int| <FoxOtto as CommMethod<E>>::tile_run_spec(
                    ga,
                    gb,
                    acc,
                    i,
                    j,
                    nn,
                    0,
                )),
            ));
            assert(c_grids_ok(c@, ga, gb, nn));
        }
    }

    fn inner_setup_a(
        a: &mut Vec<Matrix<E>>,
        n: usize,
        net: &mut TaurusNetwork<TilePayload<E>>,
        probe: &mut ThreadTimeProber,
        Ghost(g): Ghost<Seq<Seq<E>>>,
    ) {
    }

    fn inner_setup_b(
        b: &mut Vec<Matrix<E>>,
        n: usize,
        net: &mut TaurusNetwork<TilePayload<E>>,
        probe: &mut ThreadTimeProber,
        Ghost(g): Ghost<Seq<Seq<E>>>,
    ) {
    }
}


/// The pipelined Fox-Otto schedule: the `B`-shift is issued before the
/// multiply of the round it prepares, so cell `(i, j)` multiplies the
/// broadcast `A`-tile with the `B`-tile it has just received from below.
/// Cell `(i, j)` sees block `(t + i + 1) % n` at round `t`.
pub struct PipeFoxOtto;

impl<E: Multiplicable> CommMethod<E> for PipeFoxOtto {
    open spec fn schedule(i: int, j: int, t: int, n: int) -> int {
        (t + i + 1) % n
    }

    open spec fn a_src(i: int, j: int, rows: int, cols: int) -> (int, int) {
        (i, j)
    }

    open spec fn b_src(i: int, j: int, rows: int, cols: int) -> (int, int) {
        (i, j)
    }

    open spec fn tile_run_spec(
        ga: Seq<Seq<E>>,
        gb: Seq<Seq<E>>,
        acc: Seq<Seq<E>>,
        i: int,
        j: int,
        n: int,
        t: int,
    ) -> Seq<Seq<E>>
        decreases n - t,
    {
        if t < 0 || t >= n {
            acc
        } else {
            Self::tile_run_spec(
                ga,
                gb,
                mm_spec(
                    tile_of(ga, n, n, i, (t + i + 1) % n),
                    tile_of(gb, n, n, (t + i + 1) % n, j),
                    acc,
                ),
                i,
                j,
                n,
                t + 1,
            )
        }
    }

    proof fn tile_run_spec_unfold(
        ga: Seq<Seq<E>>,
        gb: Seq<Seq<E>>,
        acc: Seq<Seq<E>>,
        i: int,
        j: int,
        n: int,
        t: int,
    ) {
    }

    proof fn schedule_in_range(i: int, j: int, t: int, n: int) {
        vstd::arithmetic::div_mod::lemma_mod_bound(t + i + 1, n);
    }

    proof fn src_in_range(i: int, j: int, rows: int, cols: int) {
    }

    fn outer_setup_a(rows: usize, cols: usize, matrix_a: &Matrix<E>) -> (tiles: Vec<Matrix<E>>) {
        plain_tiles(rows, cols, matrix_a)
    }

    fn outer_setup_b(rows: usize, cols: usize, matrix_b: &Matrix<E>) -> (tiles: Vec<Matrix<E>>) {
        plain_tiles(rows, cols, matrix_b)
    }

    fn outer_setup_c(rows: usize, cols: usize, matrix_c: &Matrix<E>) -> (tiles: Vec<Matrix<E>>) {
        plain_tiles(rows, cols, matrix_c)
    }

    fn matrix_mult(
        a: &mut Vec<Matrix<E>>,
        b: &mut Vec<Matrix<E>>,
        c: &mut Vec<Matrix<E>>,
        iterations: usize,
        net: &mut TaurusNetwork<TilePayload<E>>,
        probe: &mut ThreadTimeProber,
        Ghost(ga): Ghost<Seq<Seq<E>>>,
        Ghost(gb): Ghost<Seq<Seq<E>>>,
    ) {
        let n = iterations;
        let ghost nn = n as int;
        let ghost gc0 = tviews(c@);
        let ghost a0 = a@;
        let ghost probe0 = *probe;
        proof {
            assert forall|i: int, j: int| 0 <= i < nn && 0 <= j < nn implies mview(
                #[trigger] b@[i * nn + j],
            ) == tile_of(gb, nn, nn, (i + 0) % nn, j) by {
                assert(mview(b@[i * nn + j]) == tile_of(
                    gb,
                    nn,
                    nn,
                    <PipeFoxOtto as CommMethod<E>>::b_src(i, j, nn, nn).0,
                    <PipeFoxOtto as CommMethod<E>>::b_src(i, j, nn, nn).1,
                ));
                vstd::arithmetic::div_mod::lemma_small_mod(i as nat, nn as nat);
            }
            assert forall|i: int, j: int| 0 <= i < nn && 0 <= j < nn implies gc0[i * nn + j]
                == mview(#[trigger] c@[i * nn + j]) by {
                lemma_cell_bound(i, j, nn);
                assert(gc0[i * nn + j] == tviews(c@)[i * nn + j]);
            }
            assert forall|i: int, j: int| 0 <= i < nn && 0 <= j < nn implies is_grid(
                mview(#[trigger] c@[i * nn + j]),
                axis_len(nn, rows_of(ga), i),
                axis_len(nn, cols_of(gb), j),
            ) by {
                assert(c_grid_at(c@, ga, gb, nn, i, j));
            }
        }
        let mut t: usize = 0;
        while t < n
            invariant
                net.wf(),
                quiet(*net),
                net.rows == n,
                net.cols == n,
                nn == n as int,
                n >= 1,
                n * n <= usize::MAX,
                probe.count() == n * n,
                ThreadTimeProber::advanced_from(probe, &probe0),
                wf_mat(ga),
                wf_mat(gb),
                cols_of(ga) == rows_of(gb),
                a@ == a0,
                a@.len() == n * n,
                b@.len() == n * n,
                c@.len() == n * n,
                gc0.len() == n * n,
                0 <= t <= n,
                placed_tiles(a@, ga, nn, nn, (|i: int, j: int| (i, j))),
                forall|i: int, j: int|
                    0 <= i < nn && 0 <= j < nn ==> mview(#[trigger] b@[i * nn + j]) == tile_of(
                        gb,
                        nn,
                        nn,
                        (i + t) % nn,
                        j,
                    ),
                forall|i: int, j: int|
                    0 <= i < nn && 0 <= j < nn ==> is_grid(
                        mview(#[trigger] c@[i * nn + j]),
                        axis_len(nn, rows_of(ga), i),
                        axis_len(nn, cols_of(gb), j),
                    ),
                forall|i: int, j: int|
                    0 <= i < nn && 0 <= j < nn ==> <PipeFoxOtto as CommMethod<E>>::tile_run_spec(
                        ga,
                        gb,
                        gc0[i * nn + j],
                        i,
                        j,
                        nn,
                        0,
                    ) == <PipeFoxOtto as CommMethod<E>>::tile_run_spec(
                        ga,
                        gb,
                        mview(#[trigger] c@[i * nn + j]),
                        i,
                        j,
                        nn,
                        t as int,
                    ),
            decreases n - t,
        {
            // The B-tiles move up first: the multiply of this round uses the
            // tile each cell has just received from below.
            let ghost srcpos = |i2: int, j2: int| ((i2 + t) % nn, j2);
            proof {
                assert forall|i2: int, j2: int| 0 <= i2 < nn && 0 <= j2 < nn implies mview(
                    #[trigger] b@[i2 * nn + j2],
                ) == tile_of(gb, nn, nn, srcpos(i2, j2).0, srcpos(i2, j2).1) by {
                    assert(mview(b@[i2 * nn + j2]) == tile_of(gb, nn, nn, (i2 + t) % nn, j2));
                }
                assert(placed_tiles(b@, gb, nn, nn, srcpos));
            }
            let ghost probepre1 = *probe;
            shift_up_pass(b, n, 0, net, probe, Ghost(gb), Ghost(srcpos));
            let ghost kof = |i2: int| (t as int + i2 + 1) % nn;
            proof {
                crate::processor::probe::lemma_advanced_trans(probe0, probepre1, *probe);
                assert forall|i2: int| 0 <= i2 < nn implies 0 <= #[trigger] kof(i2) < nn by {
                    vstd::arithmetic::div_mod::lemma_mod_bound(t as int + i2 + 1, nn);
                }
                assert forall|i2: int, j2: int| 0 <= i2 < nn && 0 <= j2 < nn implies mview(
                    #[trigger] b@[i2 * nn + j2],
                ) == tile_of(gb, nn, nn, kof(i2), j2) by {
                    assert(mview(b@[i2 * nn + j2]) == tile_of(
                        gb,
                        nn,
                        nn,
                        srcpos(inc_wrap(i2, nn), j2).0,
                        srcpos(inc_wrap(i2, nn), j2).1,
                    ));
                    lemma_inc_mod(i2, t as int, nn);
                }
                assert(placed_tiles(b@, gb, nn, nn, (|i2: int, j2: int| (kof(i2), j2))));
            }
            proof {
                assert(t + 1 < 2 * n);
            }
            let src_cols = offset_cols(n, t + 1);
            let ghost probepre2 = *probe;
            bcast_pass(net, probe, a, n, &src_cols, Ghost(ga));
            proof {
                crate::processor::probe::lemma_advanced_trans(probe0, probepre2, *probe);
                assert forall|g: int, m: int| 0 <= g < nn && 0 <= m < nn implies (
                #[trigger] net.row_group(g).member(m)).contents().len() == 1 && mview(
                    net.row_group(g).member(m).contents()[0].0,
                ) == tile_of(ga, nn, nn, g, kof(g)) by {
                    assert(mview(net.row_group(g).member(m).contents()[0].0) == tile_of(
                        ga,
                        nn,
                        nn,
                        g,
                        src_cols@[g] as int,
                    ));
                    assert(src_cols@[g] as int == kof(g));
                }
                assert(row_groups_loaded(*net, ga, nn, kof));
                assert(c_grids_ok(c@, ga, gb, nn));
            }
            let ghost cround = c@;
            let ghost probepre3 = *probe;
            recv_mult_pass(net, probe, b, c, n, Ghost(ga), Ghost(gb), Ghost(kof));
            proof {
                crate::processor::probe::lemma_advanced_trans(probe0, probepre3, *probe);
                assert forall|i2: int, j2: int| 0 <= i2 < nn && 0 <= j2 < nn implies
                    <PipeFoxOtto as CommMethod<E>>::tile_run_spec(
                    ga,
                    gb,
                    gc0[i2 * nn + j2],
                    i2,
                    j2,
                    nn,
                    0,
                ) == <PipeFoxOtto as CommMethod<E>>::tile_run_spec(
                    ga,
                    gb,
                    mview(#[trigger] c@[i2 * nn + j2]),
                    i2,
                    j2,
                    nn,
                    t + 1,
                ) by {
                    lemma_cell_bound(i2, j2, nn);
                    assert(<PipeFoxOtto as CommMethod<E>>::schedule(i2, j2, t as int, nn) == kof(
                        i2,
                    ));
                    assert(mview(c@[i2 * nn + j2]) == mm_spec(
                        tile_of(ga, nn, nn, i2, kof(i2)),
                        tile_of(gb, nn, nn, kof(i2), j2),
                        mview(cround[i2 * nn + j2]),
                    ));
                    assert(<PipeFoxOtto as CommMethod<E>>::tile_run_spec(
                        ga,
                        gb,
                        mview(cround[i2 * nn + j2]),
                        i2,
                        j2,
                        nn,
                        t as int,
                    ) == <PipeFoxOtto as CommMethod<E>>::tile_run_spec(
                        ga,
                        gb,
                        mm_spec(
                            tile_of(ga, nn, nn, i2, (t as int + i2 + 1) % nn),
                            tile_of(gb, nn, nn, (t as int + i2 + 1) % nn, j2),
                            mview(cround[i2 * nn + j2]),
                        ),
                        i2,
                        j2,
                        nn,
                        t + 1,
                    ));
                }
                assert forall|i2: int, j2: int| 0 <= i2 < nn && 0 <= j2 < nn implies mview(
                    #[trigger] b@[i2 * nn + j2],
                ) == tile_of(gb, nn, nn, (i2 + t + 1) % nn, j2) by {
                    assert(mview(b@[i2 * nn + j2]) == tile_of(gb, nn, nn, kof(i2), j2));
                }
            }
            t = t + 1;
        }
        proof {
            assert forall|i: int, j: int| 0 <= i < nn && 0 <= j < nn implies mview(
                #[trigger] c@[i * nn + j],
            ) == <PipeFoxOtto as CommMethod<E>>::tile_run_spec(
                ga,
                gb,
                gc0[i * nn + j],
                i,
                j,
                nn,
                0,
            ) by {
                lemma_cell_bound(i, j, nn);
                assert(<PipeFoxOtto as CommMethod<E>>::tile_run_spec(
                    ga,
                    gb,
                    mview(c@[i * nn + j]),
                    i,
                    j,
                    nn,
                    nn,
                ) == mview(c@[i * nn + j]));
            }
            assert forall|i: int, j: int| 0 <= i < nn && 0 <= j < nn implies gc0[i * nn + j]
                == mview(#[trigger] old(c)@[i * nn + j]) by {
                lemma_cell_bound(i, j, nn);
                assert(gc0[i * nn + j] == tviews(old(c)@)[i * nn + j]);
            }
            assert(folded_tiles(
                c@,
                old(c)@,
                nn,
                (|acc: Seq<Seq<E>>, i: int, j: int| <PipeFoxOtto as CommMethod<E>>::tile_run_spec(
                    ga,
                    gb,
                    acc,
                    i,
                    j,
                    nn,
                    0,
                )),
            ));
            assert(c_grids_ok(c@, ga, gb, nn));
        }
    }

    fn inner_setup_a(
        a: &mut Vec<Matrix<E>>,
        n: usize,
        net: &mut TaurusNetwork<TilePayload<E>>,
        probe: &mut ThreadTimeProber,
        Ghost(g): Ghost<Seq<Seq<E>>>,
    ) {
    }

    fn inner_setup_b(
        b: &mut Vec<Matrix<E>>,
        n: usize,
        net: &mut TaurusNetwork<TilePayload<E>>,
        probe: &mut ThreadTimeProber,
        Ghost(g): Ghost<Seq<Seq<E>>>,
    ) {
    }
}


/// Skewed placement: move each row-major tile left within its row by its
/// row index, wrapping around.
fn skew_rows<E: Multiplicable>(rows: usize, cols: usize, m: &Matrix<E>) -> (tiles: Vec<Matrix<E>>)
    requires
        rows >= 1,
        cols >= 1,
        rows * cols <= usize::MAX,
        wf_mat(mview(*m)),
    ensures
        tiles@.len() == rows * cols,
        placed_tiles(
            tiles@,
            mview(*m),
            rows as int,
            cols as int,
            (|i: int, j: int| (i, (i + j) % (cols as int))),
        ),
{
    let plain = plain_tiles(rows, cols, m);
    let ghost rr = rows as int;
    let ghost cc = cols as int;
    let mut tiles: Vec<Matrix<E>> = Vec::new();
    let mut i: usize = 0;
    proof {
        assert(rows + cols - 2 <= rows * cols) by (nonlinear_arith)
            requires
                rows >= 1,
                cols >= 1,
        ;
    }
    while i < rows
        invariant
            0 <= i <= rows,
            rr == rows as int,
            cc == cols as int,
            rows >= 1,
            cols >= 1,
            rows * cols <= usize::MAX,
            rows + cols - 2 <= rows * cols,
            plain@.len() == rows * cols,
            placed_tiles(plain@, mview(*m), rr, cc, (|i2: int, j2: int| (i2, j2))),
            tiles@.len() == i * cols,
            forall|i2: int, j2: int|
                0 <= i2 < i && 0 <= j2 < cc ==> mview(#[trigger] tiles@[i2 * cc + j2]) == tile_of(
                    mview(*m),
                    rr,
                    cc,
                    i2,
                    (i2 + j2) % cc,
                ),
        decreases rows - i,
    {
        let mut j: usize = 0;
        proof {
            assert(i * cols + cols <= rows * cols) by (nonlinear_arith)
                requires
                    0 <= i < rows,
                    cols >= 1,
            ;
            assert((i + 1) * cols == i * cols + cols) by (nonlinear_arith);
        }
        while j < cols
            invariant
                0 <= j <= cols,
                0 <= i < rows,
                rr == rows as int,
                cc == cols as int,
                rows >= 1,
                cols >= 1,
                rows * cols <= usize::MAX,
                rows + cols - 2 <= rows * cols,
                i * cols + cols <= rows * cols,
                plain@.len() == rows * cols,
                placed_tiles(plain@, mview(*m), rr, cc, (|i2: int, j2: int| (i2, j2))),
                tiles@.len() == i * cols + j,
                forall|i2: int, j2: int|
                    0 <= i2 < i && 0 <= j2 < cc ==> mview(#[trigger] tiles@[i2 * cc + j2])
                        == tile_of(mview(*m), rr, cc, i2, (i2 + j2) % cc),
                forall|j2: int|
                    0 <= j2 < j ==> mview(#[trigger] tiles@[i as int * cc + j2]) == tile_of(
                        mview(*m),
                        rr,
                        cc,
                        i as int,
                        (i as int + j2) % cc,
                    ),
            decreases cols - j,
        {
            let src = (i + j) % cols;
            let sidx = grid_index2(i, src, rows, cols);
            proof {
                vstd::arithmetic::div_mod::lemma_mod_bound(i as int + j as int, cc);
                assert(mview(plain@[i as int * cc + src as int]) == tile_of(
                    mview(*m),
                    rr,
                    cc,
                    i as int,
                    src as int,
                ));
            }
            let tile = dup_matrix(&plain[sidx]);
            tiles.push(tile);
            proof {
                assert forall|i2: int, j2: int| 0 <= i2 < i && 0 <= j2 < cc implies mview(
                    #[trigger] tiles@[i2 * cc + j2],
                ) == tile_of(mview(*m), rr, cc, i2, (i2 + j2) % cc) by {
                    assert(i2 * cc + j2 < i as int * cc) by (nonlinear_arith)
                        requires
                            0 <= i2 < i,
                            0 <= j2 < cc,
                    ;
                }
            }
            j = j + 1;
        }
        i = i + 1;
    }
    tiles
}

/// Skewed placement: move each row-major tile up within its column by its
/// column index, wrapping around.
fn skew_cols<E: Multiplicable>(rows: usize, cols: usize, m: &Matrix<E>) -> (tiles: Vec<Matrix<E>>)
    requires
        rows >= 1,
        cols >= 1,
        rows * cols <= usize::MAX,
        wf_mat(mview(*m)),
    ensures
        tiles@.len() == rows * cols,
        placed_tiles(
            tiles@,
            mview(*m),
            rows as int,
            cols as int,
            (|i: int, j: int| ((i + j) % (rows as int), j)),
        ),
{
    let plain = plain_tiles(rows, cols, m);
    let ghost rr = rows as int;
    let ghost cc = cols as int;
    let mut tiles: Vec<Matrix<E>> = Vec::new();
    let mut i: usize = 0;
    proof {
        assert(rows + cols - 2 <= rows * cols) by (nonlinear_arith)
            requires
                rows >= 1,
                cols >= 1,
        ;
    }
    while i < rows
        invariant
            0 <= i <= rows,
            rr == rows as int,
            cc == cols as int,
            rows >= 1,
            cols >= 1,
            rows * cols <= usize::MAX,
            rows + cols - 2 <= rows * cols,
            plain@.len() == rows * cols,
            placed_tiles(plain@, mview(*m), rr, cc, (|i2: int, j2: int| (i2, j2))),
            tiles@.len() == i * cols,
            forall|i2: int, j2: int|
                0 <= i2 < i && 0 <= j2 < cc ==> mview(#[trigger] tiles@[i2 * cc + j2]) == tile_of(
                    mview(*m),
                    rr,
                    cc,
                    (i2 + j2) % rr,
                    j2,
                ),
        decreases rows - i,
    {
        let mut j: usize = 0;
        proof {
            assert(i * cols + cols <= rows * cols) by (nonlinear_arith)
                requires
                    0 <= i < rows,
                    cols >= 1,
            ;
            assert((i + 1) * cols == i * cols + cols) by (nonlinear_arith);
        }
        while j < cols
            invariant
                0 <= j <= cols,
                0 <= i < rows,
                rr == rows as int,
                cc == cols as int,
                rows >= 1,
                cols >= 1,
                rows * cols <= usize::MAX,
                rows + cols - 2 <= rows * cols,
                i * cols + cols <= rows * cols,
                plain@.len() == rows * cols,
                placed_tiles(plain@, mview(*m), rr, cc, (|i2: int, j2: int| (i2, j2))),
                tiles@.len() == i * cols + j,
                forall|i2: int, j2: int|
                    0 <= i2 < i && 0 <= j2 < cc ==> mview(#[trigger] tiles@[i2 * cc + j2])
                        == tile_of(mview(*m), rr, cc, (i2 + j2) % rr, j2),
                forall|j2: int|
                    0 <= j2 < j ==> mview(#[trigger] tiles@[i as int * cc + j2]) == tile_of(
                        mview(*m),
                        rr,
                        cc,
                        (i as int + j2) % rr,
                        j2,
                    ),
            decreases cols - j,
        {
            let src = (i + j) % rows;
            let sidx = grid_index2(src, j, rows, cols);
            proof {
                vstd::arithmetic::div_mod::lemma_mod_bound(i as int + j as int, rr);
                assert(mview(plain@[src as int * cc + j as int]) == tile_of(
                    mview(*m),
                    rr,
                    cc,
                    src as int,
                    j as int,
                ));
            }
            let tile = dup_matrix(&plain[sidx]);
            tiles.push(tile);
            proof {
                assert forall|i2: int, j2: int| 0 <= i2 < i && 0 <= j2 < cc implies mview(
                    #[trigger] tiles@[i2 * cc + j2],
                ) == tile_of(mview(*m), rr, cc, (i2 + j2) % rr, j2) by {
                    assert(i2 * cc + j2 < i as int * cc) by (nonlinear_arith)
                        requires
                            0 <= i2 < i,
                            0 <= j2 < cc,
                    ;
                }
            }
            j = j + 1;
        }
        i = i + 1;
    }
    tiles
}

/// The flat index of cell `(i, j)` on a `rows x cols` grid.
fn grid_index2(i: usize, j: usize, rows: usize, cols: usize) -> (r: usize)
    requires
        i < rows,
        j < cols,
        rows * cols <= usize::MAX,
    ensures
        r == i * cols + j,
        r < rows * cols,
{
    proof {
        assert(i * cols + j < rows * cols) by (nonlinear_arith)
            requires
                0 <= i < rows,
                0 <= j < cols,
        ;
    }
    i * cols + j
}

/// Cannon's schedule: both operands are pre-skewed so that co-located tiles
/// multiply, and each round shifts the `A`-tiles left and the `B`-tiles up.
/// No broadcasts are used.  Cell `(i, j)` sees block `(i + j + t) % n` at
/// round `t`.
pub struct Cannon;

impl<E: Multiplicable> CommMethod<E> for Cannon {
    open spec fn schedule(i: int, j: int, t: int, n: int) -> int {
        (i + j + t) % n
    }

    open spec fn a_src(i: int, j: int, rows: int, cols: int) -> (int, int) {
        (i, (i + j) % cols)
    }

    open spec fn b_src(i: int, j: int, rows: int, cols: int) -> (int, int) {
        ((i + j) % rows, j)
    }

    open spec fn tile_run_spec(
        ga: Seq<Seq<E>>,
        gb: Seq<Seq<E>>,
        acc: Seq<Seq<E>>,
        i: int,
        j: int,
        n: int,
        t: int,
    ) -> Seq<Seq<E>>
        decreases n - t,
    {
        if t < 0 || t >= n {
            acc
        } else {
            Self::tile_run_spec(
                ga,
                gb,
                mm_spec(
                    tile_of(ga, n, n, i, (i + j + t) % n),
                    tile_of(gb, n, n, (i + j + t) % n, j),
                    acc,
                ),
                i,
                j,
                n,
                t + 1,
            )
        }
    }

    proof fn tile_run_spec_unfold(
        ga: Seq<Seq<E>>,
        gb: Seq<Seq<E>>,
        acc: Seq<Seq<E>>,
        i: int,
        j: int,
        n: int,
        t: int,
    ) {
    }

    proof fn schedule_in_range(i: int, j: int, t: int, n: int) {
        vstd::arithmetic::div_mod::lemma_mod_bound(i + j + t, n);
    }

    proof fn src_in_range(i: int, j: int, rows: int, cols: int) {
        vstd::arithmetic::div_mod::lemma_mod_bound(i + j, cols);
        vstd::arithmetic::div_mod::lemma_mod_bound(i + j, rows);
    }

    fn outer_setup_a(rows: usize, cols: usize, matrix_a: &Matrix<E>) -> (tiles: Vec<Matrix<E>>) {
        skew_rows(rows, cols, matrix_a)
    }

    fn outer_setup_b(rows: usize, cols: usize, matrix_b: &Matrix<E>) -> (tiles: Vec<Matrix<E>>) {
        skew_cols(rows, cols, matrix_b)
    }

    fn outer_setup_c(rows: usize, cols: usize, matrix_c: &Matrix<E>) -> (tiles: Vec<Matrix<E>>) {
        plain_tiles(rows, cols, matrix_c)
    }

    fn matrix_mult(
        a: &mut Vec<Matrix<E>>,
        b: &mut Vec<Matrix<E>>,
        c: &mut Vec<Matrix<E>>,
        iterations: usize,
        net: &mut TaurusNetwork<TilePayload<E>>,
        probe: &mut ThreadTimeProber,
        Ghost(ga): Ghost<Seq<Seq<E>>>,
        Ghost(gb): Ghost<Seq<Seq<E>>>,
    ) {
        let n = iterations;
        let ghost nn = n as int;
        let ghost gc0 = tviews(c@);
        let ghost probe0 = *probe;
        proof {
            assert forall|i: int, j: int| 0 <= i < nn && 0 <= j < nn implies mview(
                #[trigger] a@[i * nn + j],
            ) == tile_of(ga, nn, nn, i, (i + j + 0) % nn) && mview(b@[i * nn + j]) == tile_of(
                gb,
                nn,
                nn,
                (i + j + 0) % nn,
                j,
            ) by {
                lemma_cell_bound(i, j, nn);
                assert(mview(a@[i * nn + j]) == tile_of(
                    ga,
                    nn,
                    nn,
                    <Cannon as CommMethod<E>>::a_src(i, j, nn, nn).0,
                    <Cannon as CommMethod<E>>::a_src(i, j, nn, nn).1,
                ));
                assert(mview(b@[i * nn + j]) == tile_of(
                    gb,
                    nn,
                    nn,
                    <Cannon as CommMethod<E>>::b_src(i, j, nn, nn).0,
                    <Cannon as CommMethod<E>>::b_src(i, j, nn, nn).1,
                ));
            }
            assert forall|i: int, j: int| 0 <= i < nn && 0 <= j < nn implies gc0[i * nn + j]
                == mview(#[trigger] c@[i * nn + j]) by {
                lemma_cell_bound(i, j, nn);
                assert(gc0[i * nn + j] == tviews(c@)[i * nn + j]);
            }
        }
        let mut t: usize = 0;
        while t < n
            invariant
                net.wf(),
                quiet(*net),
                net.rows == n,
                net.cols == n,
                nn == n as int,
                n >= 1,
                n * n <= usize::MAX,
                probe.count() == n * n,
                ThreadTimeProber::advanced_from(probe, &probe0),
                wf_mat(ga),
                wf_mat(gb),
                cols_of(ga) == rows_of(gb),
                a@.len() == n * n,
                b@.len() == n * n,
                c@.len() == n * n,
                gc0.len() == n * n,
                0 <= t <= n,
                forall|i: int, j: int|
                    0 <= i < nn && 0 <= j < nn ==> mview(#[trigger] a@[i * nn + j]) == tile_of(
                        ga,
                        nn,
                        nn,
                        i,
                        (i + j + t) % nn,
                    ),
                forall|i: int, j: int|
                    0 <= i < nn && 0 <= j < nn ==> mview(#[trigger] b@[i * nn + j]) == tile_of(
                        gb,
                        nn,
                        nn,
                        (i + j + t) % nn,
                        j,
                    ),
                c_grids_ok(c@, ga, gb, nn),
                forall|i: int, j: int|
                    0 <= i < nn && 0 <= j < nn ==> <Cannon as CommMethod<E>>::tile_run_spec(
                        ga,
                        gb,
                        gc0[i * nn + j],
                        i,
                        j,
                        nn,
                        0,
                    ) == <Cannon as CommMethod<E>>::tile_run_spec(
                        ga,
                        gb,
                        mview(#[trigger] c@[i * nn + j]),
                        i,
                        j,
                        nn,
                        t as int,
                    ),
            decreases n - t,
        {
            let ghost kof2 = |i2: int, j2: int| (i2 + j2 + t) % nn;
            proof {
                assert forall|i2: int, j2: int| 0 <= i2 < nn && 0 <= j2 < nn implies 0
                    <= #[trigger] kof2(i2, j2) < nn by {
                    vstd::arithmetic::div_mod::lemma_mod_bound(i2 + j2 + t, nn);
                }
                assert forall|i2: int, j2: int| 0 <= i2 < nn && 0 <= j2 < nn implies mview(
                    #[trigger] a@[i2 * nn + j2],
                ) == tile_of(ga, nn, nn, i2, kof2(i2, j2)) && mview(b@[i2 * nn + j2]) == tile_of(
                    gb,
                    nn,
                    nn,
                    kof2(i2, j2),
                    j2,
                ) by {
                    assert((i2 + j2 + t) % nn == kof2(i2, j2));
                }
                assert(placed_tiles(a@, ga, nn, nn, (|i2: int, j2: int| (i2, kof2(i2, j2)))));
                assert(placed_tiles(b@, gb, nn, nn, (|i2: int, j2: int| (kof2(i2, j2), j2))));
            }
            let ghost cround = c@;
            let ghost probepre1 = *probe;
            local_mult_pass(a, b, c, n, probe, Ghost(ga), Ghost(gb), Ghost(kof2));
            proof {
                crate::processor::probe::lemma_advanced_trans(probe0, probepre1, *probe);
                assert forall|i2: int, j2: int| 0 <= i2 < nn && 0 <= j2 < nn implies
                    <Cannon as CommMethod<E>>::tile_run_spec(ga, gb, gc0[i2 * nn + j2], i2, j2, nn, 0)
                    == <Cannon as CommMethod<E>>::tile_run_spec(
                    ga,
                    gb,
                    mview(#[trigger] c@[i2 * nn + j2]),
                    i2,
                    j2,
                    nn,
                    t + 1,
                ) by {
                    lemma_cell_bound(i2, j2, nn);
                    assert(<Cannon as CommMethod<E>>::schedule(i2, j2, t as int, nn) == kof2(
                        i2,
                        j2,
                    ));
                    assert(mview(c@[i2 * nn + j2]) == mm_spec(
                        tile_of(ga, nn, nn, i2, kof2(i2, j2)),
                        tile_of(gb, nn, nn, kof2(i2, j2), j2),
                        mview(cround[i2 * nn + j2]),
                    ));
                    assert(<Cannon as CommMethod<E>>::tile_run_spec(
                        ga,
                        gb,
                        mview(cround[i2 * nn + j2]),
                        i2,
                        j2,
                        nn,
                        t as int,
                    ) == <Cannon as CommMethod<E>>::tile_run_spec(
                        ga,
                        gb,
                        mm_spec(
                            tile_of(ga, nn, nn, i2, (i2 + j2 + t) % nn),
                            tile_of(gb, nn, nn, (i2 + j2 + t) % nn, j2),
                            mview(cround[i2 * nn + j2]),
                        ),
                        i2,
                        j2,
                        nn,
                        t + 1,
                    ));
                }
            }
            let ghost srcpos_a = |i2: int, j2: int| (i2, (i2 + j2 + t) % nn);
            proof {
                assert forall|i2: int, j2: int| 0 <= i2 < nn && 0 <= j2 < nn implies mview(
                    #[trigger] a@[i2 * nn + j2],
                ) == tile_of(ga, nn, nn, srcpos_a(i2, j2).0, srcpos_a(i2, j2).1) by {
                    assert(mview(a@[i2 * nn + j2]) == tile_of(ga, nn, nn, i2, kof2(i2, j2)));
                }
                assert(placed_tiles(a@, ga, nn, nn, srcpos_a));
            }
            let ghost probepre2 = *probe;
            shift_left_pass(a, n, 0, net, probe, Ghost(ga), Ghost(srcpos_a));
            proof {
                crate::processor::probe::lemma_advanced_trans(probe0, probepre2, *probe);
                assert forall|i2: int, j2: int| 0 <= i2 < nn && 0 <= j2 < nn implies mview(
                    #[trigger] a@[i2 * nn + j2],
                ) == tile_of(ga, nn, nn, i2, (i2 + j2 + t + 1) % nn) by {
                    assert(mview(a@[i2 * nn + j2]) == tile_of(
                        ga,
                        nn,
                        nn,
                        srcpos_a(i2, inc_wrap(j2, nn)).0,
                        srcpos_a(i2, inc_wrap(j2, nn)).1,
                    ));
                    lemma_inc_mod(j2, i2 + t, nn);
                    assert((inc_wrap(j2, nn) + (i2 + t)) % nn == (j2 + 1 + i2 + t) % nn);
                    assert((i2 + inc_wrap(j2, nn) + t) % nn == (inc_wrap(j2, nn) + (i2 + t)) % nn);
                }
            }
            let ghost srcpos_b = |i2: int, j2: int| ((i2 + j2 + t) % nn, j2);
            proof {
                assert forall|i2: int, j2: int| 0 <= i2 < nn && 0 <= j2 < nn implies mview(
                    #[trigger] b@[i2 * nn + j2],
                ) == tile_of(gb, nn, nn, srcpos_b(i2, j2).0, srcpos_b(i2, j2).1) by {
                    assert(mview(b@[i2 * nn + j2]) == tile_of(gb, nn, nn, kof2(i2, j2), j2));
                }
                assert(placed_tiles(b@, gb, nn, nn, srcpos_b));
            }
            let ghost probepre3 = *probe;
            shift_up_pass(b, n, 0, net, probe, Ghost(gb), Ghost(srcpos_b));
            proof {
                crate::processor::probe::lemma_advanced_trans(probe0, probepre3, *probe);
                assert forall|i2: int, j2: int| 0 <= i2 < nn && 0 <= j2 < nn implies mview(
                    #[trigger] b@[i2 * nn + j2],
                ) == tile_of(gb, nn, nn, (i2 + j2 + t + 1) % nn, j2) by {
                    assert(mview(b@[i2 * nn + j2]) == tile_of(
                        gb,
                        nn,
                        nn,
                        srcpos_b(inc_wrap(i2, nn), j2).0,
                        srcpos_b(inc_wrap(i2, nn), j2).1,
                    ));
                    lemma_inc_mod(i2, j2 + t, nn);
                    assert((inc_wrap(i2, nn) + (j2 + t)) % nn == (i2 + 1 + j2 + t) % nn);
                    assert((inc_wrap(i2, nn) + j2 + t) % nn == (inc_wrap(i2, nn) + (j2 + t)) % nn);
                }
            }
            t = t + 1;
        }
        proof {
            assert forall|i: int, j: int| 0 <= i < nn && 0 <= j < nn implies mview(
                #[trigger] c@[i * nn + j],
            ) == <Cannon as CommMethod<E>>::tile_run_spec(ga, gb, gc0[i * nn + j], i, j, nn, 0) by {
                lemma_cell_bound(i, j, nn);
                assert(<Cannon as CommMethod<E>>::tile_run_spec(
                    ga,
                    gb,
                    mview(c@[i * nn + j]),
                    i,
                    j,
                    nn,
                    nn,
                ) == mview(c@[i * nn + j]));
            }
            assert forall|i: int, j: int| 0 <= i < nn && 0 <= j < nn implies gc0[i * nn + j]
                == mview(#[trigger] old(c)@[i * nn + j]) by {
                lemma_cell_bound(i, j, nn);
                assert(gc0[i * nn + j] == tviews(old(c)@)[i * nn + j]);
            }
            assert(folded_tiles(
                c@,
                old(c)@,
                nn,
                (|acc: Seq<Seq<E>>, i: int, j: int| <Cannon as CommMethod<E>>::tile_run_spec(
                    ga,
                    gb,
                    acc,
                    i,
                    j,
                    nn,
                    0,
                )),
            ));
            assert(c_grids_ok(c@, ga, gb, nn));
        }
    }

    fn inner_setup_a(
        a: &mut Vec<Matrix<E>>,
        n: usize,
        net: &mut TaurusNetwork<TilePayload<E>>,
        probe: &mut ThreadTimeProber,
        Ghost(g): Ghost<Seq<Seq<E>>>,
    ) {
        let ghost nn = n as int;
        let ghost probe0 = *probe;
        proof {
            assert forall|i: int, j: int| 0 <= i < nn && 0 <= j < nn implies mview(
                #[trigger] a@[i * nn + j],
            ) == tile_of(
                g,
                nn,
                nn,
                i,
                (j + (if i <= 0 {
                    i
                } else {
                    0
                })) % nn,
            ) by {
                lemma_cell_bound(i, j, nn);
                assert(mview(a@[i * nn + j]) == tile_of(g, nn, nn, i, j));
                vstd::arithmetic::div_mod::lemma_small_mod(j as nat, nn as nat);
            }
        }
        let mut s: usize = 0;
        while s < n
            invariant
                net.wf(),
                quiet(*net),
                net.rows == n,
                net.cols == n,
                nn == n as int,
                n >= 1,
                n * n <= usize::MAX,
                0 <= s <= n,
                probe.count() == n * n,
                ThreadTimeProber::advanced_from(probe, &probe0),
                wf_mat(g),
                a@.len() == n * n,
                forall|i: int, j: int|
                    0 <= i < nn && 0 <= j < nn ==> mview(#[trigger] a@[i * nn + j]) == tile_of(
                        g,
                        nn,
                        nn,
                        i,
                        (j + (if i <= s {
                            i
                        } else {
                            s as int
                        })) % nn,
                    ),
            decreases n - s,
        {
            let ghost srcpos = |i2: int, j2: int|
                (
                    i2,
                    (j2 + (if i2 <= s {
                        i2
                    } else {
                        s as int
                    })) % nn,
                );
            proof {
                assert(placed_tiles(a@, g, nn, nn, srcpos));
            }
            let ghost probepre = *probe;
            shift_left_pass(a, n, s + 1, net, probe, Ghost(g), Ghost(srcpos));
            proof {
                crate::processor::probe::lemma_advanced_trans(probe0, probepre, *probe);
                assert forall|i2: int, j2: int| 0 <= i2 < nn && 0 <= j2 < nn implies mview(
                    #[trigger] a@[i2 * nn + j2],
                ) == tile_of(
                    g,
                    nn,
                    nn,
                    i2,
                    (j2 + (if i2 <= s + 1 {
                        i2
                    } else {
                        s + 1
                    })) % nn,
                ) by {
                    if i2 >= s + 1 {
                        assert(mview(a@[i2 * nn + j2]) == tile_of(
                            g,
                            nn,
                            nn,
                            srcpos(i2, inc_wrap(j2, nn)).0,
                            srcpos(i2, inc_wrap(j2, nn)).1,
                        ));
                        lemma_inc_mod(j2, s as int, nn);
                    } else {
                        assert(mview(a@[i2 * nn + j2]) == tile_of(
                            g,
                            nn,
                            nn,
                            srcpos(i2, j2).0,
                            srcpos(i2, j2).1,
                        ));
                    }
                }
            }
            s = s + 1;
        }
        proof {
            assert forall|i: int, j: int| 0 <= i < nn && 0 <= j < nn implies mview(
                #[trigger] a@[i * nn + j],
            ) == tile_of(
                g,
                nn,
                nn,
                <Cannon as CommMethod<E>>::a_src(i, j, nn, nn).0,
                <Cannon as CommMethod<E>>::a_src(i, j, nn, nn).1,
            ) by {
                assert(mview(a@[i * nn + j]) == tile_of(g, nn, nn, i, (j + i) % nn));
                assert((j + i) % nn == (i + j) % nn);
            }
        }
    }

    fn inner_setup_b(
        b: &mut Vec<Matrix<E>>,
        n: usize,
        net: &mut TaurusNetwork<TilePayload<E>>,
        probe: &mut ThreadTimeProber,
        Ghost(g): Ghost<Seq<Seq<E>>>,
    ) {
        let ghost nn = n as int;
        let ghost probe0 = *probe;
        proof {
            assert forall|i: int, j: int| 0 <= i < nn && 0 <= j < nn implies mview(
                #[trigger] b@[i * nn + j],
            ) == tile_of(
                g,
                nn,
                nn,
                (i + (if j <= 0 {
                    j
                } else {
                    0
                })) % nn,
                j,
            ) by {
                lemma_cell_bound(i, j, nn);
                assert(mview(b@[i * nn + j]) == tile_of(g, nn, nn, i, j));
                vstd::arithmetic::div_mod::lemma_small_mod(i as nat, nn as nat);
            }
        }
        let mut s: usize = 0;
        while s < n
            invariant
                net.wf(),
                quiet(*net),
                net.rows == n,
                net.cols == n,
                nn == n as int,
                n >= 1,
                n * n <= usize::MAX,
                0 <= s <= n,
                probe.count() == n * n,
                ThreadTimeProber::advanced_from(probe, &probe0),
                wf_mat(g),
                b@.len() == n * n,
                forall|i: int, j: int|
                    0 <= i < nn && 0 <= j < nn ==> mview(#[trigger] b@[i * nn + j]) == tile_of(
                        g,
                        nn,
                        nn,
                        (i + (if j <= s {
                            j
                        } else {
                            s as int
                        })) % nn,
                        j,
                    ),
            decreases n - s,
        {
            let ghost srcpos = |i2: int, j2: int|
                (
                    (i2 + (if j2 <= s {
                        j2
                    } else {
                        s as int
                    })) % nn,
                    j2,
                );
            proof {
                assert(placed_tiles(b@, g, nn, nn, srcpos));
            }
            let ghost probepre = *probe;
            shift_up_pass(b, n, s + 1, net, probe, Ghost(g), Ghost(srcpos));
            proof {
                crate::processor::probe::lemma_advanced_trans(probe0, probepre, *probe);
                assert forall|i2: int, j2: int| 0 <= i2 < nn && 0 <= j2 < nn implies mview(
                    #[trigger] b@[i2 * nn + j2],
                ) == tile_of(
                    g,
                    nn,
                    nn,
                    (i2 + (if j2 <= s + 1 {
                        j2
                    } else {
                        s + 1
                    })) % nn,
                    j2,
                ) by {
                    if j2 >= s + 1 {
                        assert(mview(b@[i2 * nn + j2]) == tile_of(
                            g,
                            nn,
                            nn,
                            srcpos(inc_wrap(i2, nn), j2).0,
                            srcpos(inc_wrap(i2, nn), j2).1,
                        ));
                        lemma_inc_mod(i2, s as int, nn);
                    } else {
                        assert(mview(b@[i2 * nn + j2]) == tile_of(
                            g,
                            nn,
                            nn,
                            srcpos(i2, j2).0,
                            srcpos(i2, j2).1,
                        ));
                    }
                }
            }
            s = s + 1;
        }
        proof {
            assert forall|i: int, j: int| 0 <= i < nn && 0 <= j < nn implies mview(
                #[trigger] b@[i * nn + j],
            ) == tile_of(
                g,
                nn,
                nn,
                <Cannon as CommMethod<E>>::b_src(i, j, nn, nn).0,
                <Cannon as CommMethod<E>>::b_src(i, j, nn, nn).1,
            ) by {
                assert(mview(b@[i * nn + j]) == tile_of(g, nn, nn, (i + j) % nn, j));
            }
        }
    }
}

/// The operand tiles of one block product fit together: the `A`-tile of
/// block `(i, k)`, the `B`-tile of block `(k, j)` and an accumulator of
/// block `(i, j)` satisfy the dimension preconditions of the serial
/// multiplication, and the product is again a block-`(i, j)` grid.
pub proof fn lemma_mult_tiles_ok<E: Multiplicable>(
    ga: Seq<Seq<E>>,
    gb: Seq<Seq<E>>,
    cv: Seq<Seq<E>>,
    n: int,
    i: int,
    k: int,
    j: int,
)
    requires
        wf_mat(ga),
        wf_mat(gb),
        cols_of(ga) == rows_of(gb),
        n >= 1,
        0 <= i < n,
        0 <= j < n,
        0 <= k < n,
        is_grid(cv, axis_len(n, rows_of(ga), i), axis_len(n, cols_of(gb), j)),
    ensures
        wf_mat(tile_of(ga, n, n, i, k)),
        wf_mat(tile_of(gb, n, n, k, j)),
        wf_mat(cv),
        rows_of(cv) == rows_of(tile_of(ga, n, n, i, k)),
        cols_of(tile_of(ga, n, n, i, k)) <= rows_of(tile_of(gb, n, n, k, j)),
        cols_of(tile_of(ga, n, n, i, k)) == 0 || cols_of(cv) <= cols_of(tile_of(gb, n, n, k, j)),
        is_grid(
            mm_spec(tile_of(ga, n, n, i, k), tile_of(gb, n, n, k, j), cv),
            axis_len(n, rows_of(ga), i),
            axis_len(n, cols_of(gb), j),
        ),
{
    lemma_tile_dims(ga, n, n, i, k);
    lemma_tile_dims(gb, n, n, k, j);
    let ta = tile_of(ga, n, n, i, k);
    let tb = tile_of(gb, n, n, k, j);
    let h = axis_len(n, rows_of(ga), i);
    let w = axis_len(n, cols_of(gb), j);
    let s = axis_len(n, cols_of(ga), k);
    assert(ta.len() == h);
    assert(tb.len() == s);
    if h > 0 {
        assert(cols_of(ta) == s);
    } else {
        assert(cols_of(ta) == 0);
    }
    if h > 0 && w > 0 {
        assert(cv[0].len() == w);
        assert(cols_of(cv) == w);
    }
    if s > 0 {
        assert(cols_of(tb) == w);
    }
    let product = mm_spec(ta, tb, cv);
    assert forall|r: int| 0 <= r < product.len() implies #[trigger] product[r].len() == w by {
        assert(cv[r].len() == w);
    }
}

/// The flat index of cell `(i, j)` on an `n x n` grid.
pub fn grid_index(i: usize, j: usize, n: usize) -> (r: usize)
    requires
        i < n,
        j < n,
        n * n <= usize::MAX,
    ensures
        r == i * n + j,
        r < n * n,
{
    proof {
        assert(i * n + j < n * n) by (nonlinear_arith)
            requires
                0 <= i < n,
                0 <= j < n,
        ;
    }
    i * n + j
}

} // verus!
