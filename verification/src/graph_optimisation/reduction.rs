//! Removing valency-two nodes: a node with exactly one incoming and one
//! outgoing edge disappears, its two edges fused into one whose weight is
//! their sum, and the reduced matrices keep only the remaining nodes.

use vstd::prelude::*;
use vstd::pervasive::VecAdditionalExecFns;
use crate::types::{Matrix, mview, is_grid};
use super::Val2Node;

verus! {

/// How many entries of `s` differ from `node`: the number of incoming
/// edges when `s` is the predecessor column of `node`.
pub open spec fn count_in(s: Seq<usize>, node: usize) -> int
    decreases s.len(),
{
    if s.len() == 0 {
        0
    } else {
        (if s[0] != node {
            1int
        } else {
            0int
        }) + count_in(s.drop_first(), node)
    }
}

/// The first entry of `s` that differs from `node`.
pub open spec fn first_in(s: Seq<usize>, node: usize) -> usize
    decreases s.len(),
{
    if s.len() == 0 {
        0
    } else if s[0] != node {
        s[0]
    } else {
        first_in(s.drop_first(), node)
    }
}

/// How many positions of `s`, counted from `base`, hold the value `node`
/// without being position `node` itself: the number of outgoing edges when
/// `s` is the predecessor row of `node`.
pub open spec fn count_out(s: Seq<usize>, node: usize, base: int) -> int
    decreases s.len(),
{
    if s.len() == 0 {
        0
    } else {
        (if base != node && s[0] == node {
            1int
        } else {
            0int
        }) + count_out(s.drop_first(), node, base + 1)
    }
}

/// The first position of `s`, counted from `base`, that holds `node`
/// without being position `node`.
pub open spec fn first_out(s: Seq<usize>, node: usize, base: int) -> int
    decreases s.len(),
{
    if s.len() == 0 {
        0
    } else if base != node && s[0] == node {
        base
    } else {
        first_out(s.drop_first(), node, base + 1)
    }
}

/// Whether `node` has valency two, and through which neighbours: `Some` of
/// the single predecessor and the single successor exactly when both are
/// unique.
pub fn is_val2_nodes(node: usize, links_in: &Vec<usize>, links_out: &Vec<usize>) -> (r: Option<
    (usize, usize),
>)
    requires
        links_out@.len() <= usize::MAX,
    ensures
        r is Some <==> count_in(links_in@, node) == 1 && count_out(links_out@, node, 0) == 1,
        r is Some ==> r->Some_0.0 == first_in(links_in@, node) && r->Some_0.1 == first_out(
            links_out@,
            node,
            0,
        ) && 0 <= first_out(links_out@, node, 0) < links_out@.len(),
{
    let mut cnt_in: usize = 0;
    let mut fv: usize = 0;
    let mut i: usize = 0;
    proof {
        assert(links_in@.skip(0) =~= links_in@);
        assert(links_out@.skip(0) =~= links_out@);
    }
    while i < links_in.len()
        invariant
            0 <= i <= links_in@.len(),
            cnt_in <= i,
            count_in(links_in@, node) == cnt_in + count_in(links_in@.skip(i as int), node),
            cnt_in > 0 ==> fv == first_in(links_in@, node),
            cnt_in == 0 ==> first_in(links_in@, node) == first_in(
                links_in@.skip(i as int),
                node,
            ),
        decreases links_in@.len() - i,
    {
        proof {
            assert(links_in@.skip(i as int).drop_first() =~= links_in@.skip(i + 1));
            assert(links_in@.skip(i as int)[0] == links_in@[i as int]);
        }
        if links_in[i] != node {
            if cnt_in == 0 {
                fv = links_in[i];
            }
            cnt_in = cnt_in + 1;
        }
        i = i + 1;
    }
    proof {
        assert(links_in@.skip(links_in@.len() as int) =~= Seq::<usize>::empty());
    }
    let mut cnt_out: usize = 0;
    let mut fo: usize = 0;
    let mut j: usize = 0;
    while j < links_out.len()
        invariant
            0 <= j <= links_out@.len(),
            cnt_out <= j,
            count_out(links_out@, node, 0) == cnt_out + count_out(
                links_out@.skip(j as int),
                node,
                j as int,
            ),
            cnt_out > 0 ==> fo == first_out(links_out@, node, 0) && fo < links_out@.len(),
            cnt_out == 0 ==> first_out(links_out@, node, 0) == first_out(
                links_out@.skip(j as int),
                node,
                j as int,
            ),
        decreases links_out@.len() - j,
    {
        proof {
            assert(links_out@.skip(j as int).drop_first() =~= links_out@.skip(j + 1));
            assert(links_out@.skip(j as int)[0] == links_out@[j as int]);
        }
        if j != node && links_out[j] == node {
            if cnt_out == 0 {
                fo = j;
            }
            cnt_out = cnt_out + 1;
        }
        j = j + 1;
    }
    proof {
        assert(links_out@.skip(links_out@.len() as int) =~= Seq::<usize>::empty());
    }
    if cnt_in == 1 && cnt_out == 1 {
        Some((fv, fo))
    } else {
        None
    }
}

/// Column `col` of a matrix, as a vector.
pub fn get_col<T: Copy>(matrix: &Matrix<T>, col: usize) -> (r: Vec<T>)
    requires
        forall|i: int| 0 <= i < matrix@.len() ==> col < (#[trigger] matrix@[i])@.len(),
    ensures
        r@.len() == matrix@.len(),
        forall|i: int| 0 <= i < matrix@.len() ==> #[trigger] r@[i] == matrix@[i]@[col as int],
{
    let mut r: Vec<T> = Vec::new();
    let mut i: usize = 0;
    while i < matrix.len()
        invariant
            0 <= i <= matrix@.len(),
            forall|k: int| 0 <= k < matrix@.len() ==> col < (#[trigger] matrix@[k])@.len(),
            r@.len() == i,
            forall|k: int| 0 <= k < i ==> #[trigger] r@[k] == matrix@[k]@[col as int],
        decreases matrix@.len() - i,
    {
        r.push(matrix[i][col]);
        i = i + 1;
    }
    r
}

/// Every predecessor entry names a node of the graph.
pub open spec fn p_entries_ok(p: Seq<Seq<usize>>, n: int) -> bool {
    forall|i: int, j: int| 0 <= i < p.len() && 0 <= j < p[i].len() ==> #[trigger] p[i][j] < n
}

/// The column of predecessors of `v`.
pub open spec fn col_vals(p: Seq<Seq<usize>>, v: int) -> Seq<usize> {
    Seq::new(p.len(), |i: int| p[i][v])
}

/// The reduction step at node `v`: if `v` has exactly one predecessor `f`
/// and one successor `t`, and `f` and `t` are not already joined by an
/// edge, remove `v`, fuse its two edges into the edge `f -> t`, and erase
/// the old entries.
pub open spec fn reduce_step(
    w: Seq<Seq<i64>>,
    p: Seq<Seq<usize>>,
    v: int,
) -> (Seq<Seq<i64>>, Seq<Seq<usize>>, Option<Val2Node>) {
    let ins = col_vals(p, v);
    let outs = p[v];
    if count_in(ins, v as usize) == 1 && count_out(outs, v as usize, 0) == 1 {
        let f = first_in(ins, v as usize) as int;
        let t = first_out(outs, v as usize, 0);
        if p[f][t] == f {
            (w, p, None)
        } else {
            let node = Val2Node {
                node: v as usize,
                node_from: f as usize,
                node_from_dist: w[f][v],
                node_to: t as usize,
                node_to_dist: w[v][t],
            };
            let dist = vstd::wrapping::i64_specs::wrapping_add(w[f][v], w[v][t]);
            let w1 = w.update(f, w[f].update(t, dist));
            let w2 = w1.update(f, w1[f].update(v, -1i64));
            let w3 = w2.update(v, w2[v].update(t, -1i64));
            let p1 = p.update(f, p[f].update(t, f as usize));
            let p2 = p1.update(f, p1[f].update(v, v as usize));
            let p3 = p2.update(v, p2[v].update(t, t as usize));
            (w3, p3, Some(node))
        }
    } else {
        (w, p, None)
    }
}

/// The reduction applied to the nodes `0 .. k`, in increasing order, each
/// step seeing the matrices the previous steps left.
pub open spec fn reduce_upto(
    w: Seq<Seq<i64>>,
    p: Seq<Seq<usize>>,
    k: int,
) -> (Seq<Seq<i64>>, Seq<Seq<usize>>, Seq<Val2Node>)
    decreases k,
{
    if k <= 0 {
        (w, p, Seq::empty())
    } else {
        let prev = reduce_upto(w, p, k - 1);
        let step = reduce_step(prev.0, prev.1, k - 1);
        (
            step.0,
            step.1,
            if step.2 is Some {
                prev.2.push(step.2->Some_0)
            } else {
                prev.2
            },
        )
    }
}

/// Remove each valency-two node in index order, updating the weight and
/// predecessor matrices in place and returning the removed nodes.
pub fn update_matrix_values(matrix_w: &mut Matrix<i64>, matrix_p: &mut Matrix<usize>) -> (r: Vec<
    Val2Node,
>)
    requires
        is_grid(mview(*old(matrix_w)), old(matrix_p)@.len() as int, old(matrix_p)@.len() as int),
        is_grid(mview(*old(matrix_p)), old(matrix_p)@.len() as int, old(matrix_p)@.len() as int),
        p_entries_ok(mview(*old(matrix_p)), old(matrix_p)@.len() as int),
    ensures
        ({
            let full = reduce_upto(
                mview(*old(matrix_w)),
                mview(*old(matrix_p)),
                old(matrix_p)@.len() as int,
            );
            mview(*final(matrix_w)) == full.0 && mview(*final(matrix_p)) == full.1 && r@ == full.2
        }),
        is_grid(mview(*final(matrix_w)), old(matrix_p)@.len() as int, old(matrix_p)@.len() as int),
        is_grid(mview(*final(matrix_p)), old(matrix_p)@.len() as int, old(matrix_p)@.len() as int),
        p_entries_ok(mview(*final(matrix_p)), old(matrix_p)@.len() as int),
{
    let n = matrix_p.len();
    let ghost nn = n as int;
    let ghost w0 = mview(*matrix_w);
    let ghost p0 = mview(*matrix_p);
    let mut removed: Vec<Val2Node> = Vec::new();
    let mut v: usize = 0;
    while v < n
        invariant
            0 <= v <= n,
            nn == n as int,
            matrix_w@.len() == n,
            matrix_p@.len() == n,
            is_grid(mview(*matrix_w), nn, nn),
            is_grid(mview(*matrix_p), nn, nn),
            p_entries_ok(mview(*matrix_p), nn),
            reduce_upto(w0, p0, v as int) == (mview(*matrix_w), mview(*matrix_p), removed@),
        decreases n - v,
    {
        proof {
            assert forall|q: int| 0 <= q < matrix_p@.len() implies (v as int) < (
            #[trigger] matrix_p@[q])@.len() by {
                assert(mview(*matrix_p)[q].len() == nn);
            }
        }
        let links_in = get_col(matrix_p, v);
        proof {
            assert(links_in@ =~= col_vals(mview(*matrix_p), v as int)) by {
                assert forall|k: int| 0 <= k < nn implies links_in@[k] == col_vals(
                    mview(*matrix_p),
                    v as int,
                )[k] by {
                    assert(links_in@[k] == matrix_p@[k]@[v as int]);
                }
            }
        }
        let ghost wpre = mview(*matrix_w);
        let ghost ppre = mview(*matrix_p);
        proof {
            assert(mview(*matrix_p)[v as int].len() == nn);
            assert(matrix_p@[v as int]@.len() == nn);
        }
        let verdict = is_val2_nodes(v, &links_in, &matrix_p[v]);
        match verdict {
            None => {
                proof {
                    assert(matrix_p@[v as int]@ == mview(*matrix_p)[v as int]);
                    assert(reduce_step(wpre, ppre, v as int) == (
                        wpre,
                        ppre,
                        Option::<Val2Node>::None,
                    ));
                    assert(reduce_upto(w0, p0, v + 1) == (wpre, ppre, removed@));
                }
            },
            Some(pair) => {
                let f = pair.0;
                let t = pair.1;
                proof {
                    assert(matrix_p@[v as int]@ == mview(*matrix_p)[v as int]);
                    assert(f < nn) by {
                        assert forall|k: int| 0 <= k < links_in@.len() implies #[trigger] links_in@[k]
                            < nn by {
                            assert(links_in@[k] == matrix_p@[k]@[v as int]);
                            assert(mview(*matrix_p)[k][v as int] < nn);
                        }
                        lemma_first_in_bounded(links_in@, v, nn);
                    }
                    assert(t < nn);
                    assert(mview(*matrix_p)[f as int].len() == nn);
                    assert(matrix_p@[f as int]@ == mview(*matrix_p)[f as int]);
                    assert(mview(*matrix_w)[f as int].len() == nn);
                    assert(matrix_w@[f as int]@ == mview(*matrix_w)[f as int]);
                    assert(mview(*matrix_w)[v as int].len() == nn);
                    assert(matrix_w@[v as int]@ == mview(*matrix_w)[v as int]);
                }
                if matrix_p[f][t] == f {
                    proof {
                        assert(reduce_step(wpre, ppre, v as int) == (
                            wpre,
                            ppre,
                            Option::<Val2Node>::None,
                        ));
                        assert(reduce_upto(w0, p0, v + 1) == (wpre, ppre, removed@));
                    }
                } else {
                    let node_from_dist = matrix_w[f][v];
                    let node_to_dist = matrix_w[v][t];
                    removed.push(
                        Val2Node { node: v, node_from: f, node_from_dist, node_to: t, node_to_dist },
                    );
                    let new_distance = node_from_dist.wrapping_add(node_to_dist);
                    let roww = &mut matrix_w[f];
                    roww.set(t, new_distance);
                    let roww2 = &mut matrix_w[f];
                    roww2.set(v, -1i64);
                    let roww3 = &mut matrix_w[v];
                    roww3.set(t, -1i64);
                    let rowp = &mut matrix_p[f];
                    rowp.set(t, f);
                    let rowp2 = &mut matrix_p[f];
                    rowp2.set(v, v);
                    let rowp3 = &mut matrix_p[v];
                    rowp3.set(t, t);
                    proof {
                        let step = reduce_step(wpre, ppre, v as int);
                        assert(mview(*matrix_w) =~~= step.0);
                        assert(mview(*matrix_p) =~~= step.1);
                        assert(reduce_upto(w0, p0, v + 1).2 =~= removed@);
                        assert(reduce_upto(w0, p0, v + 1) == (
                            mview(*matrix_w),
                            mview(*matrix_p),
                            removed@,
                        ));
                        assert forall|i: int, j: int|
                            0 <= i < nn && 0 <= j < nn implies #[trigger] mview(*matrix_p)[i][j]
                            < nn by {
                            if i == f && j == t {
                            } else if i == f && j == v {
                            } else if i == v && j == t {
                            } else {
                                assert(mview(*matrix_p)[i][j] == ppre[i][j]);
                            }
                        }
                    }
                }
            },
        }
        v = v + 1;
    }
    proof {
        assert(reduce_upto(w0, p0, nn) == (mview(*matrix_w), mview(*matrix_p), removed@));
    }
    removed
}

/// The single predecessor of a valency-two node is itself a node of the
/// graph.
proof fn lemma_first_in_bounded(s: Seq<usize>, node: usize, n: int)
    requires
        count_in(s, node) == 1,
        forall|k: int| 0 <= k < s.len() ==> #[trigger] s[k] < n,
    ensures
        first_in(s, node) < n,
    decreases s.len(),
{
    if s.len() > 0 {
        if s[0] != node {
        } else {
            assert(s.drop_first() =~= s.skip(1));
            lemma_first_in_bounded(s.drop_first(), node, n);
        }
    }
}

/// Whether some removed node has index `i`.
pub open spec fn is_removed(removed: Seq<Val2Node>, i: int) -> bool {
    exists|k: int| 0 <= k < removed.len() && (#[trigger] removed[k]).node == i
}

/// The indices below `num` that no removed node carries, in increasing
/// order.
pub open spec fn remaining_of(removed: Seq<Val2Node>, num: int) -> Seq<usize>
    decreases num,
{
    if num <= 0 {
        Seq::empty()
    } else {
        let pre = remaining_of(removed, num - 1);
        if is_removed(removed, num - 1) {
            pre
        } else {
            pre.push((num - 1) as usize)
        }
    }
}

/// The nodes that survive the reduction, in increasing order.
pub fn get_remaining_nodes(removed_nodes: &Vec<Val2Node>, num_nodes: usize) -> (r: Vec<usize>)
    requires
        forall|k: int|
            0 <= k < removed_nodes@.len() ==> (#[trigger] removed_nodes@[k]).node < num_nodes,
    ensures
        r@ == remaining_of(removed_nodes@, num_nodes as int),
        forall|k: int| 0 <= k < r@.len() ==> #[trigger] r@[k] < num_nodes,
{
    let mut flags: Vec<bool> = Vec::new();
    let mut i: usize = 0;
    while i < num_nodes
        invariant
            0 <= i <= num_nodes,
            flags@.len() == i,
            forall|k: int| 0 <= k < i ==> #[trigger] flags@[k] == true,
        decreases num_nodes - i,
    {
        flags.push(true);
        i = i + 1;
    }
    let mut m: usize = 0;
    while m < removed_nodes.len()
        invariant
            0 <= m <= removed_nodes@.len(),
            flags@.len() == num_nodes,
            forall|k: int|
                0 <= k < removed_nodes@.len() ==> (#[trigger] removed_nodes@[k]).node < num_nodes,
            forall|k: int|
                0 <= k < num_nodes ==> #[trigger] flags@[k] == !is_removed(
                    removed_nodes@.take(m as int),
                    k,
                ),
        decreases removed_nodes@.len() - m,
    {
        let ghost flagspre = flags@;
        let nd = removed_nodes[m].node;
        flags.set(nd, false);
        proof {
            assert forall|k: int| 0 <= k < num_nodes implies #[trigger] flags@[k] == !is_removed(
                removed_nodes@.take(m + 1),
                k,
            ) by {
                assert(removed_nodes@.take(m + 1) =~= removed_nodes@.take(m as int).push(
                    removed_nodes@[m as int],
                ));
                if k == nd {
                    assert(is_removed(removed_nodes@.take(m + 1), k)) by {
                        assert(removed_nodes@.take(m + 1)[m as int].node == k);
                    }
                } else {
                    assert(flags@[k] == flagspre[k]);
                    if is_removed(removed_nodes@.take(m + 1), k) {
                        let wk = choose|q: int|
                            0 <= q < removed_nodes@.take(m + 1).len() && (#[trigger] removed_nodes@.take(
                                m + 1,
                            )[q]).node == k;
                        assert(wk < m || wk == m);
                        if wk == m {
                            assert(false);
                        } else {
                            assert(removed_nodes@.take(m as int)[wk].node == k);
                        }
                    }
                    if is_removed(removed_nodes@.take(m as int), k) {
                        let wk = choose|q: int|
                            0 <= q < removed_nodes@.take(m as int).len() && (
                            #[trigger] removed_nodes@.take(m as int)[q]).node == k;
                        assert(removed_nodes@.take(m + 1)[wk].node == k);
                    }
                }
            }
        }
        m = m + 1;
    }
    proof {
        assert(removed_nodes@.take(removed_nodes@.len() as int) =~= removed_nodes@);
    }
    let mut r: Vec<usize> = Vec::new();
    let mut k: usize = 0;
    while k < num_nodes
        invariant
            0 <= k <= num_nodes,
            flags@.len() == num_nodes,
            forall|q: int| 0 <= q < num_nodes ==> #[trigger] flags@[q] == !is_removed(removed_nodes@, q),
            r@ == remaining_of(removed_nodes@, k as int),
            forall|q: int| 0 <= q < r@.len() ==> #[trigger] r@[q] < num_nodes,
        decreases num_nodes - k,
    {
        if flags[k] {
            r.push(k);
        }
        k = k + 1;
    }
    r
}

/// The square slice of a matrix at the given node indices.
pub fn get_reduced_matrix_slice<T: Copy>(matrix: &Matrix<T>, remaining_nodes: &Vec<usize>) -> (r:
    Matrix<T>)
    requires
        forall|k: int| 0 <= k < remaining_nodes@.len() ==> #[trigger] remaining_nodes@[k] < matrix@.len(),
        forall|i: int, k: int|
            #![trigger matrix@[i], remaining_nodes@[k]]
            0 <= i < matrix@.len() && 0 <= k < remaining_nodes@.len() ==> remaining_nodes@[k]
                < matrix@[i]@.len(),
    ensures
        r@.len() == remaining_nodes@.len(),
        forall|i: int| 0 <= i < r@.len() ==> (#[trigger] r@[i])@.len() == remaining_nodes@.len(),
        forall|i: int, j: int|
            0 <= i < r@.len() && 0 <= j < remaining_nodes@.len() ==> #[trigger] r@[i]@[j]
                == matrix@[remaining_nodes@[i] as int]@[remaining_nodes@[j] as int],
{
    let mut r: Matrix<T> = Vec::new();
    let mut i: usize = 0;
    while i < remaining_nodes.len()
        invariant
            0 <= i <= remaining_nodes@.len(),
            forall|k: int|
                0 <= k < remaining_nodes@.len() ==> #[trigger] remaining_nodes@[k] < matrix@.len(),
            forall|q: int, k: int|
                #![trigger matrix@[q], remaining_nodes@[k]]
                0 <= q < matrix@.len() && 0 <= k < remaining_nodes@.len() ==> remaining_nodes@[k]
                    < matrix@[q]@.len(),
            r@.len() == i,
            forall|q: int| 0 <= q < i ==> (#[trigger] r@[q])@.len() == remaining_nodes@.len(),
            forall|q: int, j: int|
                0 <= q < i && 0 <= j < remaining_nodes@.len() ==> #[trigger] r@[q]@[j]
                    == matrix@[remaining_nodes@[q] as int]@[remaining_nodes@[j] as int],
        decreases remaining_nodes@.len() - i,
    {
        let mut row: Vec<T> = Vec::new();
        let mut j: usize = 0;
        while j < remaining_nodes.len()
            invariant
                0 <= j <= remaining_nodes@.len(),
                i < remaining_nodes@.len(),
                forall|k: int|
                    0 <= k < remaining_nodes@.len() ==> #[trigger] remaining_nodes@[k]
                        < matrix@.len(),
                forall|q: int, k: int|
                    #![trigger matrix@[q], remaining_nodes@[k]]
                    0 <= q < matrix@.len() && 0 <= k < remaining_nodes@.len()
                        ==> remaining_nodes@[k] < matrix@[q]@.len(),
                row@.len() == j,
                forall|k: int|
                    0 <= k < j ==> #[trigger] row@[k] == matrix@[remaining_nodes@[i as int] as int]@[
                    remaining_nodes@[k] as int],
            decreases remaining_nodes@.len() - j,
        {
            row.push(matrix[remaining_nodes[i]][remaining_nodes[j]]);
            j = j + 1;
        }
        r.push(row);
        i = i + 1;
    }
    r
}

/// Remove the valency-two nodes of a graph: the reduced weight and
/// predecessor matrices over the remaining nodes, and the removed nodes in
/// removal order.  The inputs are untouched.
pub fn remove_val2_nodes(matrix_w: &Matrix<i64>, matrix_p: &Matrix<usize>) -> (r: (
    Matrix<i64>,
    Matrix<usize>,
    Vec<Val2Node>,
))
    requires
        is_grid(mview(*matrix_w), matrix_p@.len() as int, matrix_p@.len() as int),
        is_grid(mview(*matrix_p), matrix_p@.len() as int, matrix_p@.len() as int),
        p_entries_ok(mview(*matrix_p), matrix_p@.len() as int),
    ensures
        ({
            let full = reduce_upto(
                mview(*matrix_w),
                mview(*matrix_p),
                matrix_p@.len() as int,
            );
            let remaining = remaining_of(full.2, matrix_p@.len() as int);
            &&& r.2@ == full.2
            &&& r.0@.len() == remaining.len()
            &&& r.1@.len() == remaining.len()
            &&& forall|i: int| 0 <= i < remaining.len() ==> (#[trigger] r.0@[i])@.len() == remaining.len()
            &&& forall|i: int| 0 <= i < remaining.len() ==> (#[trigger] r.1@[i])@.len() == remaining.len()
            &&& forall|i: int, j: int|
                0 <= i < remaining.len() && 0 <= j < remaining.len() ==> #[trigger] r.0@[i]@[j]
                    == full.0[remaining[i] as int][remaining[j] as int]
            &&& forall|i: int, j: int|
                0 <= i < remaining.len() && 0 <= j < remaining.len() ==> #[trigger] r.1@[i]@[j]
                    == full.1[remaining[i] as int][remaining[j] as int]
        }),
{
    let mut w_clone = crate::types::dup_matrix(matrix_w);
    let mut p_clone = crate::types::dup_matrix(matrix_p);
    let num_nodes = matrix_p.len();
    let ghost nn = num_nodes as int;
    let removed = update_matrix_values(&mut w_clone, &mut p_clone);
    proof {
        lemma_reduced_nodes_bounded(mview(*matrix_w), mview(*matrix_p), nn, nn);
    }
    let remaining = get_remaining_nodes(&removed, num_nodes);
    proof {
        assert forall|q: int, k: int|
            #![trigger w_clone@[q], remaining@[k]]
            0 <= q < w_clone@.len() && 0 <= k < remaining@.len() implies remaining@[k]
            < w_clone@[q]@.len() by {
            assert(mview(w_clone)[q].len() == nn);
        }
        assert forall|q: int, k: int|
            #![trigger p_clone@[q], remaining@[k]]
            0 <= q < p_clone@.len() && 0 <= k < remaining@.len() implies remaining@[k]
            < p_clone@[q]@.len() by {
            assert(mview(p_clone)[q].len() == nn);
        }
        assert(w_clone@.len() == nn);
        assert(p_clone@.len() == nn);
    }
    let reduced_w = get_reduced_matrix_slice(&w_clone, &remaining);
    let reduced_p = get_reduced_matrix_slice(&p_clone, &remaining);
    proof {
        assert forall|i: int, j: int|
            0 <= i < remaining@.len() && 0 <= j < remaining@.len() implies #[trigger] reduced_w@[i]@[j]
            == mview(w_clone)[remaining@[i] as int][remaining@[j] as int] by {
            assert(reduced_w@[i]@[j] == w_clone@[remaining@[i] as int]@[remaining@[j] as int]);
        }
        assert forall|i: int, j: int|
            0 <= i < remaining@.len() && 0 <= j < remaining@.len() implies #[trigger] reduced_p@[i]@[j]
            == mview(p_clone)[remaining@[i] as int][remaining@[j] as int] by {
            assert(reduced_p@[i]@[j] == p_clone@[remaining@[i] as int]@[remaining@[j] as int]);
        }
    }
    (reduced_w, reduced_p, removed)
}

/// Every removed node of the reduction is a node of the graph.
proof fn lemma_reduced_nodes_bounded(w: Seq<Seq<i64>>, p: Seq<Seq<usize>>, k: int, n: int)
    requires
        0 <= k <= n,
        n <= usize::MAX,
    ensures
        forall|q: int|
            0 <= q < reduce_upto(w, p, k).2.len() ==> (#[trigger] reduce_upto(w, p, k).2[q]).node
                < n,
    decreases k,
{
    if k > 0 {
        lemma_reduced_nodes_bounded(w, p, k - 1, n);
        let prev = reduce_upto(w, p, k - 1);
        let step = reduce_step(prev.0, prev.1, k - 1);
        if step.2 is Some {
            assert(step.2->Some_0.node == k - 1);
            assert forall|q: int| 0 <= q < reduce_upto(w, p, k).2.len() implies (
            #[trigger] reduce_upto(w, p, k).2[q]).node < n by {
                if q < prev.2.len() {
                    assert(reduce_upto(w, p, k).2[q] == prev.2[q]);
                }
            }
        }
    }
}

} // verus!
