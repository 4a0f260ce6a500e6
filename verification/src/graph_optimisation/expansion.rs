//! Putting removed valency-two nodes back: after the shortest-path run on
//! the reduced graph, each removed node is re-inserted in reverse removal
//! order, and the rows and columns of the weight and predecessor matrices
//! that its removal disturbed are recomputed from its two fused edges.

use vstd::prelude::*;
use vstd::pervasive::VecAdditionalExecFns;
use crate::types::{Matrix, mview, is_grid};
use super::Val2Node;
use super::reduction::{remaining_of, get_remaining_nodes, is_removed};

verus! {

/// The new predecessor of `index -> node`: the removed node's predecessor,
/// unless the path to `index` already went through it.
pub open spec fn p_col_item(v: Val2Node, index: int, from_val: usize) -> usize {
    if from_val != v.node_from || index == v.node_from as int {
        v.node_from
    } else {
        v.node
    }
}

/// The new weight of `index -> node`: zero on the diagonal, else the weight
/// to the removed node's predecessor plus the incoming edge, where defined.
pub open spec fn w_col_item(v: Val2Node, index: int, old_val: i64, from_val: i64) -> i64 {
    if index == v.node as int {
        0
    } else if from_val != -1 {
        vstd::wrapping::i64_specs::wrapping_add(from_val, v.node_from_dist)
    } else {
        old_val
    }
}

/// The new predecessor of `node -> index`: the removed node itself for its
/// own column and its successor's, else whatever the successor's row says.
pub open spec fn p_row_item(v: Val2Node, index: int, to_val: usize) -> usize {
    if index == v.node as int || index == v.node_to as int {
        v.node
    } else {
        to_val
    }
}

/// The new weight of `node -> index`: the outgoing edge plus the weight
/// from the successor, where defined.
pub open spec fn w_row_item(v: Val2Node, index: int, old_val: i64, to_val: i64) -> i64 {
    if to_val != -1 && index != v.node as int {
        vstd::wrapping::i64_specs::wrapping_add(to_val, v.node_to_dist)
    } else {
        old_val
    }
}

pub fn update_p_col_item(val_2_node: &Val2Node, index: usize, node_col_item: &mut usize, node_from_col_item: usize)
    ensures
        *final(node_col_item) == p_col_item(*val_2_node, index as int, node_from_col_item),
{
    if node_from_col_item != val_2_node.node_from || index == val_2_node.node_from {
        *node_col_item = val_2_node.node_from;
    } else {
        *node_col_item = val_2_node.node;
    }
}

pub fn update_w_col_item(val_2_node: &Val2Node, index: usize, node_col_item: &mut i64, node_from_col_item: i64)
    ensures
        *final(node_col_item) == w_col_item(
            *val_2_node,
            index as int,
            *old(node_col_item),
            node_from_col_item,
        ),
{
    if index == val_2_node.node {
        *node_col_item = 0;
    } else if node_from_col_item != -1 {
        *node_col_item = node_from_col_item.wrapping_add(val_2_node.node_from_dist);
    }
}

pub fn update_p_row_item(val_2_node: &Val2Node, index: usize, node_row_item: &mut usize, node_to_row_item: usize)
    ensures
        *final(node_row_item) == p_row_item(*val_2_node, index as int, node_to_row_item),
{
    if index == val_2_node.node || index == val_2_node.node_to {
        *node_row_item = val_2_node.node;
    } else {
        *node_row_item = node_to_row_item;
    }
}

pub fn update_w_row_item(val_2_node: &Val2Node, index: usize, node_row_item: &mut i64, node_to_row_item: i64)
    ensures
        *final(node_row_item) == w_row_item(
            *val_2_node,
            index as int,
            *old(node_row_item),
            node_to_row_item,
        ),
{
    if node_to_row_item != -1 && index != val_2_node.node {
        *node_row_item = node_to_row_item.wrapping_add(val_2_node.node_to_dist);
    }
}

/// Column `node` rewritten from column `node_from`, in the predecessor
/// matrix.
pub open spec fn apply_p_col(m: Seq<Seq<usize>>, v: Val2Node) -> Seq<Seq<usize>> {
    Seq::new(
        m.len(),
        |i: int|
            Seq::new(
                m[i].len(),
                |j: int|
                    if j == v.node as int {
                        p_col_item(v, i, m[i][v.node_from as int])
                    } else {
                        m[i][j]
                    },
            ),
    )
}

/// Column `node` rewritten from column `node_from`, in the weight matrix.
pub open spec fn apply_w_col(m: Seq<Seq<i64>>, v: Val2Node) -> Seq<Seq<i64>> {
    Seq::new(
        m.len(),
        |i: int|
            Seq::new(
                m[i].len(),
                |j: int|
                    if j == v.node as int {
                        w_col_item(v, i, m[i][j], m[i][v.node_from as int])
                    } else {
                        m[i][j]
                    },
            ),
    )
}

/// Row `node` rewritten from row `node_to`, in the predecessor matrix.
pub open spec fn apply_p_row(m: Seq<Seq<usize>>, v: Val2Node) -> Seq<Seq<usize>> {
    Seq::new(
        m.len(),
        |i: int|
            Seq::new(
                m[i].len(),
                |j: int|
                    if i == v.node as int {
                        p_row_item(v, j, m[v.node_to as int][j])
                    } else {
                        m[i][j]
                    },
            ),
    )
}

/// Row `node` rewritten from row `node_to`, in the weight matrix.
pub open spec fn apply_w_row(m: Seq<Seq<i64>>, v: Val2Node) -> Seq<Seq<i64>> {
    Seq::new(
        m.len(),
        |i: int|
            Seq::new(
                m[i].len(),
                |j: int|
                    if i == v.node as int {
                        w_row_item(v, j, m[i][j], m[v.node_to as int][j])
                    } else {
                        m[i][j]
                    },
            ),
    )
}

/// Paths into the successor that went through the removed node's
/// predecessor now go through the removed node.
pub open spec fn apply_p_fix(m: Seq<Seq<usize>>, v: Val2Node) -> Seq<Seq<usize>> {
    Seq::new(
        m.len(),
        |i: int|
            Seq::new(
                m[i].len(),
                |j: int|
                    if j == v.node_to as int && m[i][j] == v.node_from {
                        v.node
                    } else {
                        m[i][j]
                    },
            ),
    )
}

/// Re-insert one removed node into the predecessor matrix.
pub open spec fn apply_node_p(m: Seq<Seq<usize>>, v: Val2Node) -> Seq<Seq<usize>> {
    apply_p_fix(apply_p_row(apply_p_col(m, v), v), v)
}

/// Re-insert one removed node into the weight matrix.
pub open spec fn apply_node_w(m: Seq<Seq<i64>>, v: Val2Node) -> Seq<Seq<i64>> {
    apply_w_row(apply_w_col(m, v), v)
}

/// Re-insert every removed node, in reverse removal order.
pub open spec fn recover_fold_p(m: Seq<Seq<usize>>, nodes: Seq<Val2Node>) -> Seq<Seq<usize>>
    decreases nodes.len(),
{
    if nodes.len() == 0 {
        m
    } else {
        recover_fold_p(apply_node_p(m, nodes.last()), nodes.drop_last())
    }
}

/// Re-insert every removed node, in reverse removal order.
pub open spec fn recover_fold_w(m: Seq<Seq<i64>>, nodes: Seq<Val2Node>) -> Seq<Seq<i64>>
    decreases nodes.len(),
{
    if nodes.len() == 0 {
        m
    } else {
        recover_fold_w(apply_node_w(m, nodes.last()), nodes.drop_last())
    }
}

/// Whether `x` is one of the remaining node indices.
pub open spec fn in_rem(rem: Seq<usize>, x: int) -> bool {
    exists|k: int| 0 <= k < rem.len() && (#[trigger] rem[k]) == x
}

/// The position of `x` among the remaining node indices.
pub open spec fn pos_in(rem: Seq<usize>, x: int) -> int {
    choose|k: int| 0 <= k < rem.len() && (#[trigger] rem[k]) == x
}

/// The start matrix with the entries of the reduced matrix written back at
/// the remaining nodes' rows and columns.
pub open spec fn overlay<T>(start: Seq<Seq<T>>, reduced: Seq<Seq<T>>, rem: Seq<usize>) -> Seq<
    Seq<T>,
> {
    Seq::new(
        start.len(),
        |i: int|
            Seq::new(
                start[i].len(),
                |j: int|
                    if in_rem(rem, i) && in_rem(rem, j) {
                        reduced[pos_in(rem, i)][pos_in(rem, j)]
                    } else {
                        start[i][j]
                    },
            ),
    )
}

/// A strictly increasing index sequence names each index at one position.
proof fn lemma_increasing_pos(rem: Seq<usize>, k: int)
    requires
        forall|a: int, b: int| 0 <= a < b < rem.len() ==> (#[trigger] rem[a]) < (#[trigger] rem[b]),
        0 <= k < rem.len(),
    ensures
        in_rem(rem, rem[k] as int),
        pos_in(rem, rem[k] as int) == k,
{
    assert(in_rem(rem, rem[k] as int));
    let q = pos_in(rem, rem[k] as int);
    assert(0 <= q < rem.len() && rem[q] == rem[k]);
    if q < k {
        assert(rem[q] < rem[k]);
    } else if k < q {
        assert(rem[k] < rem[q]);
    }
}

/// The remaining indices are strictly increasing.
proof fn lemma_remaining_increasing(nodes: Seq<Val2Node>, num: int)
    requires
        0 <= num <= usize::MAX,
    ensures
        forall|a: int, b: int|
            0 <= a < b < remaining_of(nodes, num).len() ==> (#[trigger] remaining_of(nodes, num)[a])
                < (#[trigger] remaining_of(nodes, num)[b]),
        forall|k: int|
            0 <= k < remaining_of(nodes, num).len() ==> (#[trigger] remaining_of(nodes, num)[k])
                < num,
    decreases num,
{
    if num > 0 {
        lemma_remaining_increasing(nodes, num - 1);
        let pre = remaining_of(nodes, num - 1);
        let cur = remaining_of(nodes, num);
        if !is_removed(nodes, num - 1) {
            assert(cur == pre.push((num - 1) as usize));
            assert forall|a: int, b: int| 0 <= a < b < cur.len() implies (#[trigger] cur[a]) < (
            #[trigger] cur[b]) by {
                if b < pre.len() {
                    assert(cur[a] == pre[a] && cur[b] == pre[b]);
                } else {
                    assert(cur[b] == (num - 1) as usize);
                    assert(cur[a] == pre[a]);
                    assert(pre[a] < num - 1);
                }
            }
        }
    }
}

/// Write the reduced matrix back over the remaining nodes of the start
/// matrix.
fn overlay_exec<T: Copy>(start: &mut Matrix<T>, reduced: &Matrix<T>, rem: &Vec<usize>)
    requires
        is_grid(mview(*old(start)), old(start)@.len() as int, old(start)@.len() as int),
        forall|a: int, b: int|
            0 <= a < b < rem@.len() ==> (#[trigger] rem@[a]) < (#[trigger] rem@[b]),
        forall|k: int| 0 <= k < rem@.len() ==> (#[trigger] rem@[k]) < old(start)@.len(),
        reduced@.len() == rem@.len(),
        forall|i: int| 0 <= i < reduced@.len() ==> (#[trigger] reduced@[i])@.len() == rem@.len(),
    ensures
        mview(*final(start)) == overlay(mview(*old(start)), mview(*reduced), rem@),
        final(start)@.len() == old(start)@.len(),
{
    let ghost start0 = mview(*old(start));
    let ghost n = start@.len() as int;
    let mut row: usize = 0;
    while row < rem.len()
        invariant
            0 <= row <= rem@.len(),
            n == start@.len() as int,
            is_grid(start0, n, n),
            is_grid(mview(*start), n, n),
            forall|a: int, b: int|
                0 <= a < b < rem@.len() ==> (#[trigger] rem@[a]) < (#[trigger] rem@[b]),
            forall|k: int| 0 <= k < rem@.len() ==> (#[trigger] rem@[k]) < n,
            reduced@.len() == rem@.len(),
            forall|i: int|
                0 <= i < reduced@.len() ==> (#[trigger] reduced@[i])@.len() == rem@.len(),
            forall|i: int, j: int|
                0 <= i < n && 0 <= j < n ==> #[trigger] mview(*start)[i][j] == (
                if in_rem(rem@, i) && pos_in(rem@, i) < row && in_rem(rem@, j) {
                    mview(*reduced)[pos_in(rem@, i)][pos_in(rem@, j)]
                } else {
                    start0[i][j]
                }),
        decreases rem@.len() - row,
    {
        let target_row = rem[row];
        let mut col: usize = 0;
        while col < rem.len()
            invariant
                0 <= col <= rem@.len(),
                0 <= row < rem@.len(),
                target_row == rem@[row as int],
                n == start@.len() as int,
                is_grid(start0, n, n),
                is_grid(mview(*start), n, n),
                forall|a: int, b: int|
                    0 <= a < b < rem@.len() ==> (#[trigger] rem@[a]) < (#[trigger] rem@[b]),
                forall|k: int| 0 <= k < rem@.len() ==> (#[trigger] rem@[k]) < n,
                reduced@.len() == rem@.len(),
                forall|i: int|
                    0 <= i < reduced@.len() ==> (#[trigger] reduced@[i])@.len() == rem@.len(),
                forall|i: int, j: int|
                    0 <= i < n && 0 <= j < n ==> #[trigger] mview(*start)[i][j] == (
                    if in_rem(rem@, i) && pos_in(rem@, i) < row && in_rem(rem@, j) {
                        mview(*reduced)[pos_in(rem@, i)][pos_in(rem@, j)]
                    } else if i == rem@[row as int] && in_rem(rem@, j) && pos_in(rem@, j) < col {
                        mview(*reduced)[row as int][pos_in(rem@, j)]
                    } else {
                        start0[i][j]
                    }),
            decreases rem@.len() - col,
        {
            let ghost prev = mview(*start);
            let target_col = rem[col];
            proof {
                assert(mview(*start)[target_row as int].len() == n);
                assert(start@[target_row as int]@.len() == n);
            }
            let value = reduced[row][col];
            let rowref = &mut start[target_row];
            rowref.set(target_col, value);
            proof {
                assert forall|q: int| 0 <= q < n implies (#[trigger] mview(*start)[q]).len()
                    == n by {
                    if q != target_row as int {
                        assert(mview(*start)[q] == prev[q]);
                    }
                }
                lemma_increasing_pos(rem@, row as int);
                lemma_increasing_pos(rem@, col as int);
                assert forall|i: int, j: int| 0 <= i < n && 0 <= j < n implies #[trigger] mview(
                    *start,
                )[i][j] == (if in_rem(rem@, i) && pos_in(rem@, i) < row && in_rem(rem@, j) {
                    mview(*reduced)[pos_in(rem@, i)][pos_in(rem@, j)]
                } else if i == rem@[row as int] && in_rem(rem@, j) && pos_in(rem@, j) < col + 1 {
                    mview(*reduced)[row as int][pos_in(rem@, j)]
                } else {
                    start0[i][j]
                }) by {
                    if i == target_row && j == target_col {
                    } else {
                        assert(mview(*start)[i][j] == prev[i][j]);
                        if in_rem(rem@, j) && pos_in(rem@, j) == col && i == rem@[row as int] {
                            assert(rem@[pos_in(rem@, j)] == j);
                        }
                    }
                }
            }
            col = col + 1;
        }
        proof {
            lemma_increasing_pos(rem@, row as int);
            assert forall|i: int, j: int| 0 <= i < n && 0 <= j < n implies #[trigger] mview(
                *start,
            )[i][j] == (if in_rem(rem@, i) && pos_in(rem@, i) < row + 1 && in_rem(rem@, j) {
                mview(*reduced)[pos_in(rem@, i)][pos_in(rem@, j)]
            } else {
                start0[i][j]
            }) by {
                if in_rem(rem@, i) && pos_in(rem@, i) == row as int {
                    assert(rem@[pos_in(rem@, i)] == i);
                    if in_rem(rem@, j) {
                        assert(pos_in(rem@, j) < rem@.len());
                    }
                }
            }
        }
        row = row + 1;
    }
    proof {
        let target = overlay(start0, mview(*reduced), rem@);
        assert forall|i: int| 0 <= i < n implies #[trigger] mview(*start)[i] == target[i] by {
            assert forall|j: int| 0 <= j < n implies mview(*start)[i][j] == target[i][j] by {
                if in_rem(rem@, i) && in_rem(rem@, j) {
                    assert(0 <= pos_in(rem@, i) < rem@.len());
                }
            }
            assert(mview(*start)[i] =~= target[i]);
        }
        assert(mview(*start) =~= target);
    }
}

/// Re-insert one removed node into the predecessor matrix, in place.
fn add_removed_node_p(m: &mut Matrix<usize>, v: &Val2Node)
    requires
        is_grid(mview(*old(m)), old(m)@.len() as int, old(m)@.len() as int),
        (v.node as int) < old(m)@.len(),
        (v.node_from as int) < old(m)@.len(),
        (v.node_to as int) < old(m)@.len(),
    ensures
        mview(*final(m)) == apply_node_p(mview(*old(m)), *v),
        final(m)@.len() == old(m)@.len(),
        is_grid(mview(*final(m)), old(m)@.len() as int, old(m)@.len() as int),
{
    let ghost n = m@.len() as int;
    let ghost m0 = mview(*m);
    let nlen = m.len();
    // Column pass.
    let mut i: usize = 0;
    while i < nlen
        invariant
            0 <= i <= nlen,
            n == nlen as int,
            m@.len() == nlen,
            is_grid(m0, n, n),
            is_grid(mview(*m), n, n),
            (v.node as int) < n,
            (v.node_from as int) < n,
            (v.node_to as int) < n,
            forall|q: int, j: int|
                0 <= q < n && 0 <= j < n ==> #[trigger] mview(*m)[q][j] == (if q < i && j
                    == v.node as int {
                    apply_p_col(m0, *v)[q][j]
                } else {
                    m0[q][j]
                }),
        decreases nlen - i,
    {
        let ghost prev = mview(*m);
        proof {
            assert(mview(*m)[i as int].len() == n);
            assert(m@[i as int]@.len() == n);
        }
        let from_val = m[i][v.node_from];
        let mut cur = m[i][v.node];
        update_p_col_item(v, i, &mut cur, from_val);
        let rowref = &mut m[i];
        rowref.set(v.node, cur);
        proof {
            assert forall|q2: int| 0 <= q2 < n implies (#[trigger] mview(*m)[q2]).len() == n by {
                if q2 != i as int {
                    assert(mview(*m)[q2] == prev[q2]);
                }
            }
            assert forall|q: int, j: int| 0 <= q < n && 0 <= j < n implies #[trigger] mview(
                *m,
            )[q][j] == (if q < i + 1 && j == v.node as int {
                apply_p_col(m0, *v)[q][j]
            } else {
                m0[q][j]
            }) by {
                if q == i as int && j == v.node as int {
                    assert(prev[q][v.node_from as int] == m0[q][v.node_from as int]);
                } else {
                    assert(mview(*m)[q][j] == prev[q][j]);
                }
            }
        }
        i = i + 1;
    }
    proof {
        assert(mview(*m) =~~= apply_p_col(m0, *v));
    }
    // Row pass: snapshot the successor's row first.
    let ghost m1 = mview(*m);
    let to_row = crate::types::dup_row(&m[v.node_to]);
    proof {
        assert(to_row@ == m@[v.node_to as int]@);
        assert(m1[v.node_to as int] == m@[v.node_to as int]@);
    }
    let mut j: usize = 0;
    while j < nlen
        invariant
            0 <= j <= nlen,
            n == nlen as int,
            m@.len() == nlen,
            is_grid(m1, n, n),
            is_grid(mview(*m), n, n),
            (v.node as int) < n,
            (v.node_to as int) < n,
            to_row@ == m1[v.node_to as int],
            forall|q: int, j2: int|
                0 <= q < n && 0 <= j2 < n ==> #[trigger] mview(*m)[q][j2] == (if q == v.node as int
                    && j2 < j {
                    apply_p_row(m1, *v)[q][j2]
                } else {
                    m1[q][j2]
                }),
        decreases nlen - j,
    {
        let ghost prev = mview(*m);
        proof {
            assert(mview(*m)[v.node as int].len() == n);
            assert(m@[v.node as int]@.len() == n);
            assert(to_row@.len() == n);
        }
        let mut cur = m[v.node][j];
        update_p_row_item(v, j, &mut cur, to_row[j]);
        let rowref = &mut m[v.node];
        rowref.set(j, cur);
        proof {
            assert forall|q2: int| 0 <= q2 < n implies (#[trigger] mview(*m)[q2]).len() == n by {
                if q2 != v.node as int {
                    assert(mview(*m)[q2] == prev[q2]);
                }
            }
            assert forall|q: int, j2: int| 0 <= q < n && 0 <= j2 < n implies #[trigger] mview(
                *m,
            )[q][j2] == (if q == v.node as int && j2 < j + 1 {
                apply_p_row(m1, *v)[q][j2]
            } else {
                m1[q][j2]
            }) by {
                if q == v.node as int && j2 == j as int {
                } else {
                    assert(mview(*m)[q][j2] == prev[q][j2]);
                }
            }
        }
        j = j + 1;
    }
    proof {
        assert(mview(*m) =~~= apply_p_row(m1, *v));
    }
    // Successor-column pass.
    let ghost m2 = mview(*m);
    let mut q: usize = 0;
    while q < nlen
        invariant
            0 <= q <= nlen,
            n == nlen as int,
            m@.len() == nlen,
            is_grid(m2, n, n),
            is_grid(mview(*m), n, n),
            (v.node_to as int) < n,
            forall|i2: int, j2: int|
                0 <= i2 < n && 0 <= j2 < n ==> #[trigger] mview(*m)[i2][j2] == (if i2 < q && j2
                    == v.node_to as int {
                    apply_p_fix(m2, *v)[i2][j2]
                } else {
                    m2[i2][j2]
                }),
        decreases nlen - q,
    {
        let ghost prev = mview(*m);
        proof {
            assert(mview(*m)[q as int].len() == n);
            assert(m@[q as int]@.len() == n);
        }
        if m[q][v.node_to] == v.node_from {
            let rowref = &mut m[q];
            rowref.set(v.node_to, v.node);
        }
        proof {
            assert forall|q2: int| 0 <= q2 < n implies (#[trigger] mview(*m)[q2]).len() == n by {
                if q2 != q as int {
                    assert(mview(*m)[q2] == prev[q2]);
                }
            }
            assert forall|i2: int, j2: int| 0 <= i2 < n && 0 <= j2 < n implies #[trigger] mview(
                *m,
            )[i2][j2] == (if i2 < q + 1 && j2 == v.node_to as int {
                apply_p_fix(m2, *v)[i2][j2]
            } else {
                m2[i2][j2]
            }) by {
                if i2 == q as int && j2 == v.node_to as int {
                } else {
                    assert(mview(*m)[i2][j2] == prev[i2][j2]);
                }
            }
        }
        q = q + 1;
    }
    proof {
        assert(mview(*m) =~~= apply_p_fix(m2, *v));
    }
}

/// Re-insert one removed node into the weight matrix, in place.
fn add_removed_node_w(m: &mut Matrix<i64>, v: &Val2Node)
    requires
        is_grid(mview(*old(m)), old(m)@.len() as int, old(m)@.len() as int),
        (v.node as int) < old(m)@.len(),
        (v.node_from as int) < old(m)@.len(),
        (v.node_to as int) < old(m)@.len(),
    ensures
        mview(*final(m)) == apply_node_w(mview(*old(m)), *v),
        final(m)@.len() == old(m)@.len(),
        is_grid(mview(*final(m)), old(m)@.len() as int, old(m)@.len() as int),
{
    let ghost n = m@.len() as int;
    let ghost m0 = mview(*m);
    let nlen = m.len();
    let mut i: usize = 0;
    while i < nlen
        invariant
            0 <= i <= nlen,
            n == nlen as int,
            m@.len() == nlen,
            is_grid(m0, n, n),
            is_grid(mview(*m), n, n),
            (v.node as int) < n,
            (v.node_from as int) < n,
            (v.node_to as int) < n,
            forall|q: int, j: int|
                0 <= q < n && 0 <= j < n ==> #[trigger] mview(*m)[q][j] == (if q < i && j
                    == v.node as int {
                    apply_w_col(m0, *v)[q][j]
                } else {
                    m0[q][j]
                }),
        decreases nlen - i,
    {
        let ghost prev = mview(*m);
        proof {
            assert(mview(*m)[i as int].len() == n);
            assert(m@[i as int]@.len() == n);
        }
        let from_val = m[i][v.node_from];
        let mut cur = m[i][v.node];
        update_w_col_item(v, i, &mut cur, from_val);
        let rowref = &mut m[i];
        rowref.set(v.node, cur);
        proof {
            assert forall|q2: int| 0 <= q2 < n implies (#[trigger] mview(*m)[q2]).len() == n by {
                if q2 != i as int {
                    assert(mview(*m)[q2] == prev[q2]);
                }
            }
            assert forall|q: int, j: int| 0 <= q < n && 0 <= j < n implies #[trigger] mview(
                *m,
            )[q][j] == (if q < i + 1 && j == v.node as int {
                apply_w_col(m0, *v)[q][j]
            } else {
                m0[q][j]
            }) by {
                if q == i as int && j == v.node as int {
                } else {
                    assert(mview(*m)[q][j] == prev[q][j]);
                }
            }
        }
        i = i + 1;
    }
    proof {
        assert(mview(*m) =~~= apply_w_col(m0, *v));
    }
    let ghost m1 = mview(*m);
    let to_row = crate::types::dup_row(&m[v.node_to]);
    proof {
        assert(to_row@ == m@[v.node_to as int]@);
        assert(m1[v.node_to as int] == m@[v.node_to as int]@);
    }
    let mut j: usize = 0;
    while j < nlen
        invariant
            0 <= j <= nlen,
            n == nlen as int,
            m@.len() == nlen,
            is_grid(m1, n, n),
            is_grid(mview(*m), n, n),
            (v.node as int) < n,
            (v.node_to as int) < n,
            to_row@ == m1[v.node_to as int],
            forall|q: int, j2: int|
                0 <= q < n && 0 <= j2 < n ==> #[trigger] mview(*m)[q][j2] == (if q == v.node as int
                    && j2 < j {
                    apply_w_row(m1, *v)[q][j2]
                } else {
                    m1[q][j2]
                }),
        decreases nlen - j,
    {
        let ghost prev = mview(*m);
        proof {
            assert(mview(*m)[v.node as int].len() == n);
            assert(m@[v.node as int]@.len() == n);
            assert(to_row@.len() == n);
        }
        let mut cur = m[v.node][j];
        update_w_row_item(v, j, &mut cur, to_row[j]);
        let rowref = &mut m[v.node];
        rowref.set(j, cur);
        proof {
            assert forall|q2: int| 0 <= q2 < n implies (#[trigger] mview(*m)[q2]).len() == n by {
                if q2 != v.node as int {
                    assert(mview(*m)[q2] == prev[q2]);
                }
            }
            assert forall|q: int, j2: int| 0 <= q < n && 0 <= j2 < n implies #[trigger] mview(
                *m,
            )[q][j2] == (if q == v.node as int && j2 < j + 1 {
                apply_w_row(m1, *v)[q][j2]
            } else {
                m1[q][j2]
            }) by {
                if q == v.node as int && j2 == j as int {
                } else {
                    assert(mview(*m)[q][j2] == prev[q][j2]);
                }
            }
        }
        j = j + 1;
    }
    proof {
        assert(mview(*m) =~~= apply_w_row(m1, *v));
    }
}

/// The identity-predecessor start matrix: entry `(i, j)` is `j`.
pub open spec fn p_start(n: int) -> Seq<Seq<usize>> {
    Seq::new(n as nat, |i: int| Seq::new(n as nat, |j: int| j as usize))
}

/// The no-path start matrix: every entry is the sentinel.
pub open spec fn w_start(n: int) -> Seq<Seq<i64>> {
    Seq::new(n as nat, |i: int| Seq::new(n as nat, |j: int| (-1) as i64))
}

/// Rebuild the full predecessor matrix from the reduced one: write the
/// reduced entries back over an identity-predecessor start, then re-insert
/// the removed nodes in reverse removal order.
pub fn recover_val2_nodes_p(reduced_p: &Matrix<usize>, matrix_p: &Matrix<usize>, rm_nodes: &Vec<
    Val2Node,
>) -> (r: Matrix<usize>)
    requires
        forall|k: int|
            0 <= k < rm_nodes@.len() ==> (#[trigger] rm_nodes@[k]).node < matrix_p@.len()
                && rm_nodes@[k].node_from < matrix_p@.len() && rm_nodes@[k].node_to
                < matrix_p@.len(),
        reduced_p@.len() == remaining_of(rm_nodes@, matrix_p@.len() as int).len(),
        forall|i: int|
            0 <= i < reduced_p@.len() ==> (#[trigger] reduced_p@[i])@.len() == reduced_p@.len(),
    ensures
        mview(r) == recover_fold_p(
            overlay(
                p_start(matrix_p@.len() as int),
                mview(*reduced_p),
                remaining_of(rm_nodes@, matrix_p@.len() as int),
            ),
            rm_nodes@,
        ),
{
    let num_rows = matrix_p.len();
    let ghost n = num_rows as int;
    let mut start: Matrix<usize> = Vec::new();
    let mut i: usize = 0;
    while i < num_rows
        invariant
            0 <= i <= num_rows,
            start@.len() == i,
            forall|q: int| 0 <= q < i ==> (#[trigger] start@[q])@.len() == num_rows,
            forall|q: int, j: int|
                0 <= q < i && 0 <= j < num_rows ==> #[trigger] start@[q]@[j] == j as usize,
        decreases num_rows - i,
    {
        let mut row: Vec<usize> = Vec::new();
        let mut j: usize = 0;
        while j < num_rows
            invariant
                0 <= j <= num_rows,
                row@.len() == j,
                forall|k: int| 0 <= k < j ==> #[trigger] row@[k] == k as usize,
            decreases num_rows - j,
        {
            row.push(j);
            j = j + 1;
        }
        start.push(row);
        i = i + 1;
    }
    proof {
        assert(mview(start) =~~= p_start(n));
        lemma_remaining_increasing(rm_nodes@, n);
    }
    let remaining = get_remaining_nodes(rm_nodes, num_rows);
    overlay_exec(&mut start, reduced_p, &remaining);
    proof {
        assert(rm_nodes@.take(rm_nodes@.len() as int) =~= rm_nodes@);
        assert forall|q: int| 0 <= q < n implies (#[trigger] mview(start)[q]).len() == n by {
        }
    }
    let mut k: usize = rm_nodes.len();
    while k > 0
        invariant
            0 <= k <= rm_nodes@.len(),
            start@.len() == num_rows,
            n == num_rows as int,
            is_grid(mview(start), n, n),
            forall|q: int|
                0 <= q < rm_nodes@.len() ==> (#[trigger] rm_nodes@[q]).node < num_rows
                    && rm_nodes@[q].node_from < num_rows && rm_nodes@[q].node_to < num_rows,
            recover_fold_p(
                overlay(p_start(n), mview(*reduced_p), remaining_of(rm_nodes@, n)),
                rm_nodes@,
            ) == recover_fold_p(mview(start), rm_nodes@.take(k as int)),
        decreases k,
    {
        let v = rm_nodes[k - 1];
        proof {
            assert(rm_nodes@.take(k as int).last() == rm_nodes@[k - 1]);
            assert(rm_nodes@.take(k as int).drop_last() =~= rm_nodes@.take(k - 1));
        }
        add_removed_node_p(&mut start, &v);
        k = k - 1;
    }
    proof {
        assert(rm_nodes@.take(0) =~= Seq::<Val2Node>::empty());
    }
    start
}

/// Rebuild the full weight matrix from the reduced one: write the reduced
/// entries back over an all-sentinel start, then re-insert the removed
/// nodes in reverse removal order.
pub fn recover_val2_nodes_w(reduced_w: &Matrix<i64>, matrix_w: &Matrix<i64>, rm_nodes: &Vec<
    Val2Node,
>) -> (r: Matrix<i64>)
    requires
        forall|k: int|
            0 <= k < rm_nodes@.len() ==> (#[trigger] rm_nodes@[k]).node < matrix_w@.len()
                && rm_nodes@[k].node_from < matrix_w@.len() && rm_nodes@[k].node_to
                < matrix_w@.len(),
        reduced_w@.len() == remaining_of(rm_nodes@, matrix_w@.len() as int).len(),
        forall|i: int|
            0 <= i < reduced_w@.len() ==> (#[trigger] reduced_w@[i])@.len() == reduced_w@.len(),
    ensures
        mview(r) == recover_fold_w(
            overlay(
                w_start(matrix_w@.len() as int),
                mview(*reduced_w),
                remaining_of(rm_nodes@, matrix_w@.len() as int),
            ),
            rm_nodes@,
        ),
{
    let num_rows = matrix_w.len();
    let ghost n = num_rows as int;
    let mut start: Matrix<i64> = Vec::new();
    let mut i: usize = 0;
    while i < num_rows
        invariant
            0 <= i <= num_rows,
            start@.len() == i,
            forall|q: int| 0 <= q < i ==> (#[trigger] start@[q])@.len() == num_rows,
            forall|q: int, j: int|
                0 <= q < i && 0 <= j < num_rows ==> #[trigger] start@[q]@[j] == -1i64,
        decreases num_rows - i,
    {
        let mut row: Vec<i64> = Vec::new();
        let mut j: usize = 0;
        while j < num_rows
            invariant
                0 <= j <= num_rows,
                row@.len() == j,
                forall|k: int| 0 <= k < j ==> #[trigger] row@[k] == -1i64,
            decreases num_rows - j,
        {
            row.push(-1i64);
            j = j + 1;
        }
        start.push(row);
        i = i + 1;
    }
    proof {
        assert(mview(start) =~~= w_start(n));
        lemma_remaining_increasing(rm_nodes@, n);
    }
    let remaining = get_remaining_nodes(rm_nodes, num_rows);
    overlay_exec(&mut start, reduced_w, &remaining);
    proof {
        assert(rm_nodes@.take(rm_nodes@.len() as int) =~= rm_nodes@);
        assert forall|q: int| 0 <= q < n implies (#[trigger] mview(start)[q]).len() == n by {
        }
    }
    let mut k: usize = rm_nodes.len();
    while k > 0
        invariant
            0 <= k <= rm_nodes@.len(),
            start@.len() == num_rows,
            n == num_rows as int,
            is_grid(mview(start), n, n),
            forall|q: int|
                0 <= q < rm_nodes@.len() ==> (#[trigger] rm_nodes@[q]).node < num_rows
                    && rm_nodes@[q].node_from < num_rows && rm_nodes@[q].node_to < num_rows,
            recover_fold_w(
                overlay(w_start(n), mview(*reduced_w), remaining_of(rm_nodes@, n)),
                rm_nodes@,
            ) == recover_fold_w(mview(start), rm_nodes@.take(k as int)),
        decreases k,
    {
        let v = rm_nodes[k - 1];
        proof {
            assert(rm_nodes@.take(k as int).last() == rm_nodes@[k - 1]);
            assert(rm_nodes@.take(k as int).drop_last() =~= rm_nodes@.take(k - 1));
        }
        add_removed_node_w(&mut start, &v);
        k = k - 1;
    }
    proof {
        assert(rm_nodes@.take(0) =~= Seq::<Val2Node>::empty());
    }
    start
}

} // verus!
