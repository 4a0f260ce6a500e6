//! Element types carried by the simulator: the matrix representation and the
//! shortest-path semiring element `Msg`.

use vstd::prelude::*;

verus! {

/// A dense matrix, stored as a vector of rows.
pub type Matrix<T> = Vec<Vec<T>>;

/// The mathematical view of a matrix: a sequence of row sequences.
pub open spec fn mview<T>(m: Matrix<T>) -> Seq<Seq<T>> {
    m@.map_values(|row: Vec<T>| row@)
}

/// A grid of exactly `rows` rows, each of length `cols`.
pub open spec fn is_grid<T>(s: Seq<Seq<T>>, rows: int, cols: int) -> bool {
    &&& s.len() == rows
    &&& forall|i: int| 0 <= i < rows ==> #[trigger] s[i].len() == cols
}

/// A rectangular sequence of rows: every row has the length of the first.
pub open spec fn wf_mat<T>(s: Seq<Seq<T>>) -> bool {
    is_grid(s, s.len() as int, cols_of(s))
}

pub open spec fn rows_of<T>(s: Seq<Seq<T>>) -> int {
    s.len() as int
}

pub open spec fn cols_of<T>(s: Seq<Seq<T>>) -> int {
    if s.len() == 0 {
        0
    } else {
        s[0].len() as int
    }
}

/// Number of rows of a matrix.
pub fn mat_rows<T>(m: &Matrix<T>) -> (r: usize)
    ensures
        r == rows_of(mview(*m)),
{
    m.len()
}

/// Number of columns of a matrix (zero for a matrix with no rows).
pub fn mat_cols<T>(m: &Matrix<T>) -> (r: usize)
    ensures
        r == cols_of(mview(*m)),
{
    if m.len() == 0 {
        0
    } else {
        m[0].len()
    }
}

/// Runtime check that a matrix is rectangular.
pub fn is_rectangular<T>(m: &Matrix<T>) -> (r: bool)
    ensures
        r == wf_mat(mview(*m)),
{
    let cols = mat_cols(m);
    let mut i: usize = 0;
    while i < m.len()
        invariant
            0 <= i <= m@.len(),
            cols == cols_of(mview(*m)),
            forall|k: int| 0 <= k < i ==> #[trigger] m@[k]@.len() == cols,
        decreases m@.len() - i,
    {
        if m[i].len() != cols {
            assert(mview(*m)[i as int].len() != cols_of(mview(*m)));
            return false;
        }
        i = i + 1;
    }
    assert forall|k: int| 0 <= k < m@.len() implies #[trigger] mview(*m)[k].len() == cols_of(
        mview(*m),
    ) by {
        assert(m@[k]@.len() == cols);
    }
    true
}

/// Copy of one row of copyable elements.
pub fn dup_row<T: Copy>(v: &Vec<T>) -> (r: Vec<T>)
    ensures
        r@ == v@,
{
    let mut out: Vec<T> = Vec::new();
    let mut i: usize = 0;
    while i < v.len()
        invariant
            0 <= i <= v@.len(),
            out@.len() == i,
            forall|k: int| 0 <= k < i ==> out@[k] == v@[k],
        decreases v@.len() - i,
    {
        out.push(v[i]);
        i = i + 1;
    }
    proof {
        assert(out@ =~= v@);
    }
    out
}

/// Deep copy of a matrix of copyable elements.
pub fn dup_matrix<T: Copy>(m: &Matrix<T>) -> (r: Matrix<T>)
    ensures
        mview(r) == mview(*m),
        r@.len() == m@.len(),
        forall|i: int| 0 <= i < m@.len() ==> #[trigger] r@[i]@ == m@[i]@,
{
    let mut out: Matrix<T> = Vec::new();
    let mut i: usize = 0;
    while i < m.len()
        invariant
            0 <= i <= m@.len(),
            out@.len() == i,
            forall|k: int| 0 <= k < i ==> #[trigger] out@[k]@ == m@[k]@,
        decreases m@.len() - i,
    {
        let mut row: Vec<T> = Vec::new();
        let mut j: usize = 0;
        let n = m[i].len();
        while j < n
            invariant
                0 <= j <= n,
                n == m@[i as int]@.len(),
                i < m@.len(),
                row@.len() == j,
                forall|k: int| 0 <= k < j ==> row@[k] == m@[i as int]@[k],
            decreases n - j,
        {
            row.push(m[i][j]);
            j = j + 1;
        }
        assert(row@ =~= m@[i as int]@);
        out.push(row);
        i = i + 1;
    }
    assert(mview(*m) =~= mview(out));
    out
}

/// The shortest-path semiring element: a path weight together with the
/// predecessor index of the path's endpoint.  A negative weight is the
/// "no path" sentinel.
#[derive(Clone, Copy, Debug, PartialEq, Eq, Structural)]
pub struct Msg {
    pub w: i64,
    pub p: usize,
}

impl Msg {
    pub fn new(w: i64, p: usize) -> (r: Msg)
        ensures
            r == (Msg { w, p }),
    {
        Msg { w, p }
    }

    pub fn get_w(&self) -> (r: i64)
        ensures
            r == self.w,
    {
        self.w
    }

    pub fn get_p(&self) -> (r: usize)
        ensures
            r == self.p,
    {
        self.p
    }

    /// Pair a weight matrix and a predecessor matrix into one `Msg` matrix.
    pub fn zip(matrix_w: &Matrix<i64>, matrix_p: &Matrix<usize>) -> (r: Matrix<Msg>)
        requires
            matrix_w@.len() == matrix_p@.len(),
            forall|i: int|
                0 <= i < matrix_w@.len() ==> #[trigger] matrix_w@[i]@.len()
                    == matrix_p@[i]@.len(),
        ensures
            r@.len() == matrix_w@.len(),
            forall|i: int|
                0 <= i < r@.len() ==> #[trigger] r@[i]@.len() == matrix_w@[i]@.len(),
            forall|i: int, j: int|
                0 <= i < r@.len() && 0 <= j < r@[i]@.len() ==> #[trigger] r@[i]@[j] == (Msg {
                    w: matrix_w@[i]@[j],
                    p: matrix_p@[i]@[j],
                }),
    {
        let mut out: Matrix<Msg> = Vec::new();
        let mut i: usize = 0;
        while i < matrix_w.len()
            invariant
                0 <= i <= matrix_w@.len(),
                matrix_w@.len() == matrix_p@.len(),
                forall|k: int|
                    0 <= k < matrix_w@.len() ==> #[trigger] matrix_w@[k]@.len()
                        == matrix_p@[k]@.len(),
                out@.len() == i,
                forall|k: int| 0 <= k < i ==> #[trigger] out@[k]@.len() == matrix_w@[k]@.len(),
                forall|k: int, j: int|
                    0 <= k < i && 0 <= j < out@[k]@.len() ==> #[trigger] out@[k]@[j] == (Msg {
                        w: matrix_w@[k]@[j],
                        p: matrix_p@[k]@[j],
                    }),
            decreases matrix_w@.len() - i,
        {
            let mut row: Vec<Msg> = Vec::new();
            let mut j: usize = 0;
            let n = matrix_w[i].len();
            while j < n
                invariant
                    0 <= j <= n,
                    i < matrix_w@.len(),
                    matrix_w@.len() == matrix_p@.len(),
                    n == matrix_w@[i as int]@.len(),
                    n == matrix_p@[i as int]@.len(),
                    row@.len() == j,
                    forall|k: int|
                        0 <= k < j ==> #[trigger] row@[k] == (Msg {
                            w: matrix_w@[i as int]@[k],
                            p: matrix_p@[i as int]@[k],
                        }),
                decreases n - j,
            {
                row.push(Msg { w: matrix_w[i][j], p: matrix_p[i][j] });
                j = j + 1;
            }
            out.push(row);
            i = i + 1;
        }
        out
    }

    /// Split a `Msg` matrix back into its weight and predecessor matrices.
    pub fn unzip(matrix_m: &Matrix<Msg>) -> (r: (Matrix<i64>, Matrix<usize>))
        ensures
            r.0@.len() == matrix_m@.len(),
            r.1@.len() == matrix_m@.len(),
            forall|i: int|
                0 <= i < matrix_m@.len() ==> #[trigger] r.0@[i]@.len() == matrix_m@[i]@.len()
                    && r.1@[i]@.len() == matrix_m@[i]@.len(),
            forall|i: int, j: int|
                0 <= i < matrix_m@.len() && 0 <= j < matrix_m@[i]@.len() ==> #[trigger] r.0@[i]@[j]
                    == matrix_m@[i]@[j].w && r.1@[i]@[j] == matrix_m@[i]@[j].p,
    {
        let mut out_w: Matrix<i64> = Vec::new();
        let mut out_p: Matrix<usize> = Vec::new();
        let mut i: usize = 0;
        while i < matrix_m.len()
            invariant
                0 <= i <= matrix_m@.len(),
                out_w@.len() == i,
                out_p@.len() == i,
                forall|k: int|
                    0 <= k < i ==> #[trigger] out_w@[k]@.len() == matrix_m@[k]@.len()
                        && out_p@[k]@.len() == matrix_m@[k]@.len(),
                forall|k: int, j: int|
                    0 <= k < i && 0 <= j < matrix_m@[k]@.len() ==> #[trigger] out_w@[k]@[j]
                        == matrix_m@[k]@[j].w && out_p@[k]@[j] == matrix_m@[k]@[j].p,
            decreases matrix_m@.len() - i,
        {
            let mut row_w: Vec<i64> = Vec::new();
            let mut row_p: Vec<usize> = Vec::new();
            let mut j: usize = 0;
            let n = matrix_m[i].len();
            while j < n
                invariant
                    0 <= j <= n,
                    i < matrix_m@.len(),
                    n == matrix_m@[i as int]@.len(),
                    row_w@.len() == j,
                    row_p@.len() == j,
                    forall|k: int|
                        0 <= k < j ==> #[trigger] row_w@[k] == matrix_m@[i as int]@[k].w
                            && row_p@[k] == matrix_m@[i as int]@[k].p,
                decreases n - j,
            {
                row_w.push(matrix_m[i][j].get_w());
                row_p.push(matrix_m[i][j].get_p());
                j = j + 1;
            }
            out_w.push(row_w);
            out_p.push(row_p);
            i = i + 1;
        }
        (out_w, out_p)
    }
}

/// The integer ring: accumulation is wrapping addition of the wrapping
/// product, as a fixed-width machine ring.
impl crate::matmul::Multiplicable for i64 {
    open spec fn combine_spec(a: i64, b: i64, c: i64) -> i64 {
        vstd::wrapping::i64_specs::wrapping_add(c, vstd::wrapping::i64_specs::wrapping_mul(a, b))
    }

    open spec fn neutral_spec(row: int, col: int) -> i64 {
        0
    }

    open spec fn initial_c_spec(a: Seq<Seq<i64>>, b: Seq<Seq<i64>>) -> Seq<Seq<i64>> {
        Seq::new(a.len(), |i: int| Seq::new(cols_of(b) as nat, |j: int| 0i64))
    }

    open spec fn initial_c_ok(a: Seq<Seq<i64>>, b: Seq<Seq<i64>>) -> bool {
        true
    }

    open spec fn elem_bytes_spec() -> int {
        8
    }

    proof fn initial_c_covers(a: Seq<Seq<i64>>, b: Seq<Seq<i64>>) {
    }

    fn singleton_matrix(a: i64, b: i64, c: i64) -> (r: i64) {
        c.wrapping_add(a.wrapping_mul(b))
    }

    fn initial_c(a: &Matrix<i64>, b: &Matrix<i64>) -> (r: Matrix<i64>) {
        let rows = mat_rows(a);
        let cols = mat_cols(b);
        let z = zero_matrix_i64(rows, cols);
        proof {
            assert(mview(z) =~~= <i64 as crate::matmul::Multiplicable>::initial_c_spec(
                mview(*a),
                mview(*b),
            ));
        }
        z
    }

    fn initial_c_check(a: &Matrix<i64>, b: &Matrix<i64>) -> (r: bool) {
        true
    }

    fn neutral_matrix(rows: usize, cols: usize) -> (r: Matrix<i64>) {
        zero_matrix_i64(rows, cols)
    }

    fn elem_bytes() -> (r: usize) {
        8
    }
}

/// An all-zero matrix.
fn zero_matrix_i64(rows: usize, cols: usize) -> (r: Matrix<i64>)
    ensures
        r@.len() == rows,
        forall|i: int| 0 <= i < rows ==> (#[trigger] r@[i])@.len() == cols,
        forall|i: int, j: int| 0 <= i < rows && 0 <= j < cols ==> #[trigger] r@[i]@[j] == 0i64,
        is_grid(mview(r), rows as int, cols as int),
        forall|i: int, j: int|
            0 <= i < rows && 0 <= j < cols ==> #[trigger] mview(r)[i][j] == 0i64,
{
    let mut out: Matrix<i64> = Vec::new();
    let mut i: usize = 0;
    while i < rows
        invariant
            0 <= i <= rows,
            out@.len() == i,
            forall|k: int| 0 <= k < i ==> (#[trigger] out@[k])@.len() == cols,
            forall|k: int, j: int| 0 <= k < i && 0 <= j < cols ==> #[trigger] out@[k]@[j] == 0i64,
        decreases rows - i,
    {
        let mut row: Vec<i64> = Vec::new();
        let mut j: usize = 0;
        while j < cols
            invariant
                0 <= j <= cols,
                row@.len() == j,
                forall|k: int| 0 <= k < j ==> #[trigger] row@[k] == 0i64,
            decreases cols - j,
        {
            row.push(0i64);
            j = j + 1;
        }
        out.push(row);
        i = i + 1;
    }
    out
}

/// The unsigned integer ring, with wrapping arithmetic.
impl crate::matmul::Multiplicable for usize {
    open spec fn combine_spec(a: usize, b: usize, c: usize) -> usize {
        vstd::wrapping::usize_specs::wrapping_add(
            c,
            vstd::wrapping::usize_specs::wrapping_mul(a, b),
        )
    }

    open spec fn neutral_spec(row: int, col: int) -> usize {
        0
    }

    open spec fn initial_c_spec(a: Seq<Seq<usize>>, b: Seq<Seq<usize>>) -> Seq<Seq<usize>> {
        Seq::new(a.len(), |i: int| Seq::new(cols_of(b) as nat, |j: int| 0usize))
    }

    open spec fn initial_c_ok(a: Seq<Seq<usize>>, b: Seq<Seq<usize>>) -> bool {
        true
    }

    open spec fn elem_bytes_spec() -> int {
        8
    }

    proof fn initial_c_covers(a: Seq<Seq<usize>>, b: Seq<Seq<usize>>) {
    }

    fn singleton_matrix(a: usize, b: usize, c: usize) -> (r: usize) {
        c.wrapping_add(a.wrapping_mul(b))
    }

    fn initial_c(a: &Matrix<usize>, b: &Matrix<usize>) -> (r: Matrix<usize>) {
        let rows = mat_rows(a);
        let cols = mat_cols(b);
        let z = zero_matrix_usize(rows, cols);
        proof {
            assert(mview(z) =~~= <usize as crate::matmul::Multiplicable>::initial_c_spec(
                mview(*a),
                mview(*b),
            ));
        }
        z
    }

    fn initial_c_check(a: &Matrix<usize>, b: &Matrix<usize>) -> (r: bool) {
        true
    }

    fn neutral_matrix(rows: usize, cols: usize) -> (r: Matrix<usize>) {
        zero_matrix_usize(rows, cols)
    }

    fn elem_bytes() -> (r: usize) {
        8
    }
}

/// An all-zero matrix.
fn zero_matrix_usize(rows: usize, cols: usize) -> (r: Matrix<usize>)
    ensures
        r@.len() == rows,
        forall|i: int| 0 <= i < rows ==> (#[trigger] r@[i])@.len() == cols,
        forall|i: int, j: int| 0 <= i < rows && 0 <= j < cols ==> #[trigger] r@[i]@[j] == 0usize,
        is_grid(mview(r), rows as int, cols as int),
        forall|i: int, j: int|
            0 <= i < rows && 0 <= j < cols ==> #[trigger] mview(r)[i][j] == 0usize,
{
    let mut out: Matrix<usize> = Vec::new();
    let mut i: usize = 0;
    while i < rows
        invariant
            0 <= i <= rows,
            out@.len() == i,
            forall|k: int| 0 <= k < i ==> (#[trigger] out@[k])@.len() == cols,
            forall|k: int, j: int| 0 <= k < i && 0 <= j < cols ==> #[trigger] out@[k]@[j] == 0usize,
        decreases rows - i,
    {
        let mut row: Vec<usize> = Vec::new();
        let mut j: usize = 0;
        while j < cols
            invariant
                0 <= j <= cols,
                row@.len() == j,
                forall|k: int| 0 <= k < j ==> #[trigger] row@[k] == 0usize,
            decreases cols - j,
        {
            row.push(0usize);
            j = j + 1;
        }
        out.push(row);
        i = i + 1;
    }
    out
}

/// The shortest-path semiring: a product path `a` then `b` replaces the
/// accumulator when both parts exist and the combined weight beats it
/// strictly; the weight sum saturates instead of overflowing.  The seed of
/// a multiplication is the left operand itself, so a squaring keeps the
/// one-hop paths.
impl crate::matmul::Multiplicable for Msg {
    open spec fn combine_spec(a: Msg, b: Msg, c: Msg) -> Msg {
        if a.w > 0 && b.w > 0 {
            let s: i64 = if a.w + b.w > i64::MAX {
                i64::MAX
            } else {
                (a.w + b.w) as i64
            };
            if c.w < 0 || s < c.w {
                Msg { w: s, p: b.p }
            } else {
                c
            }
        } else {
            c
        }
    }

    open spec fn neutral_spec(row: int, col: int) -> Msg {
        Msg {
            w: if row == col {
                0i64
            } else {
                (-1) as i64
            },
            p: if 0 <= col <= usize::MAX {
                col as usize
            } else {
                0
            },
        }
    }

    open spec fn initial_c_spec(a: Seq<Seq<Msg>>, b: Seq<Seq<Msg>>) -> Seq<Seq<Msg>> {
        a
    }

    open spec fn initial_c_ok(a: Seq<Seq<Msg>>, b: Seq<Seq<Msg>>) -> bool {
        cols_of(a) == cols_of(b)
    }

    open spec fn elem_bytes_spec() -> int {
        16
    }

    proof fn initial_c_covers(a: Seq<Seq<Msg>>, b: Seq<Seq<Msg>>) {
    }

    fn singleton_matrix(a: Msg, b: Msg, c: Msg) -> (r: Msg) {
        if a.w > 0 && b.w > 0 {
            let s = match a.w.checked_add(b.w) {
                Some(v) => v,
                None => i64::MAX,
            };
            if c.w < 0 || s < c.w {
                Msg { w: s, p: b.p }
            } else {
                c
            }
        } else {
            c
        }
    }

    fn initial_c(a: &Matrix<Msg>, b: &Matrix<Msg>) -> (r: Matrix<Msg>) {
        dup_matrix(a)
    }

    fn initial_c_check(a: &Matrix<Msg>, b: &Matrix<Msg>) -> (r: bool) {
        mat_cols(a) == mat_cols(b)
    }

    fn neutral_matrix(rows: usize, cols: usize) -> (r: Matrix<Msg>) {
        let mut out: Matrix<Msg> = Vec::new();
        let mut i: usize = 0;
        while i < rows
            invariant
                0 <= i <= rows,
                out@.len() == i,
                forall|k: int| 0 <= k < i ==> (#[trigger] out@[k])@.len() == cols,
                forall|k: int, j: int|
                    0 <= k < i && 0 <= j < cols ==> #[trigger] out@[k]@[j]
                        == <Msg as crate::matmul::Multiplicable>::neutral_spec(k, j),
            decreases rows - i,
        {
            let mut row: Vec<Msg> = Vec::new();
            let mut j: usize = 0;
            while j < cols
                invariant
                    0 <= j <= cols,
                    i < rows,
                    row@.len() == j,
                    forall|k: int|
                        0 <= k < j ==> #[trigger] row@[k]
                            == <Msg as crate::matmul::Multiplicable>::neutral_spec(i as int, k),
                decreases cols - j,
            {
                let w: i64 = if i == j {
                    0
                } else {
                    -1
                };
                row.push(Msg { w, p: j });
                j = j + 1;
            }
            out.push(row);
            i = i + 1;
        }
        out
    }

    fn elem_bytes() -> (r: usize) {
        16
    }
}

} // verus!
