//! The torus interconnect: each cell of the grid owns one incoming FIFO
//! queue per cardinal direction, and each row and column of the grid shares
//! one broadcast group.  Neighbours are computed by index arithmetic modulo
//! the grid dimensions, so the network is a flat array wired by indices.

use vstd::prelude::*;
use crate::broadcast::{Channel, BChannel, Sendable, svals};

verus! {

broadcast use crate::broadcast::Channel::lemma_wf, crate::broadcast::BChannel::lemma_wf;

/// The ports of a torus cell.  `LEFT`, `RIGHT`, `UP` and `DOWN` name direct
/// channels to the torus neighbours; `ROW` and `COL` name the cell's row and
/// column broadcast groups.
#[allow(non_camel_case_types)]
pub enum TaurusOption {
    LEFT,
    RIGHT,
    UP,
    DOWN,
    ROW,
    COL,
}

/// One cell of the torus: its grid position and its four incoming direct
/// queues.  The queue named by a port holds the messages that `recv` on
/// that port will return, oldest first.
pub struct TaurusCore<T: Sendable> {
    pub row: usize,
    pub col: usize,
    pub left: Channel<T>,
    pub right: Channel<T>,
    pub up: Channel<T>,
    pub down: Channel<T>,
}

impl<T: Sendable> TaurusCore<T> {
    pub open spec fn wf(&self) -> bool {
        &&& self.left.wf()
        &&& self.right.wf()
        &&& self.up.wf()
        &&& self.down.wf()
    }

    /// A fresh cell with empty queues.
    pub fn new(row: usize, col: usize) -> (r: TaurusCore<T>)
        ensures
            r.wf(),
            r.row == row,
            r.col == col,
            r.left.contents() == Seq::<T>::empty(),
            r.right.contents() == Seq::<T>::empty(),
            r.up.contents() == Seq::<T>::empty(),
            r.down.contents() == Seq::<T>::empty(),
            r.left.history() == Seq::<T>::empty(),
            r.right.history() == Seq::<T>::empty(),
            r.up.history() == Seq::<T>::empty(),
            r.down.history() == Seq::<T>::empty(),
    {
        TaurusCore {
            row,
            col,
            left: Channel::new(),
            right: Channel::new(),
            up: Channel::new(),
            down: Channel::new(),
        }
    }
}

/// The next cell index along an axis of length `n`, wrapping around.
pub open spec fn inc_wrap(x: int, n: int) -> int {
    if x == n - 1 {
        0
    } else {
        x + 1
    }
}

/// The previous cell index along an axis of length `n`, wrapping around.
pub open spec fn dec_wrap(x: int, n: int) -> int {
    if x == 0 {
        n - 1
    } else {
        x - 1
    }
}

/// One channel received exactly one new value and nothing else changed.
pub open spec fn sent_one<T: Sendable>(pre: Channel<T>, post: Channel<T>, data: T) -> bool {
    &&& post.wf()
    &&& post.contents() == pre.contents().push(data)
    &&& post.history() == pre.history().push(data)
    &&& post.taken_count() == pre.taken_count()
}

/// The cell `post` is `pre` with `data` enqueued on the direct queue that
/// port `o` names; the other queues are untouched.
pub open spec fn core_after_push<T: Sendable>(
    pre: TaurusCore<T>,
    post: TaurusCore<T>,
    o: TaurusOption,
    data: T,
) -> bool {
    &&& post.row == pre.row
    &&& post.col == pre.col
    &&& match o {
        TaurusOption::LEFT => sent_one(pre.left, post.left, data) && post.right == pre.right
            && post.up == pre.up && post.down == pre.down,
        TaurusOption::RIGHT => sent_one(pre.right, post.right, data) && post.left == pre.left
            && post.up == pre.up && post.down == pre.down,
        TaurusOption::UP => sent_one(pre.up, post.up, data) && post.left == pre.left && post.right
            == pre.right && post.down == pre.down,
        TaurusOption::DOWN => sent_one(pre.down, post.down, data) && post.left == pre.left
            && post.right == pre.right && post.up == pre.up,
        TaurusOption::ROW => false,
        TaurusOption::COL => false,
    }
}

/// The cell `post` is `pre` with the oldest value of the queue named by `o`
/// dequeued; the other queues are untouched.
pub open spec fn core_after_pop<T: Sendable>(
    pre: TaurusCore<T>,
    post: TaurusCore<T>,
    o: TaurusOption,
    data: T,
) -> bool {
    &&& post.row == pre.row
    &&& post.col == pre.col
    &&& match o {
        TaurusOption::LEFT => popped_one(pre.left, post.left, data) && post.right == pre.right
            && post.up == pre.up && post.down == pre.down,
        TaurusOption::RIGHT => popped_one(pre.right, post.right, data) && post.left == pre.left
            && post.up == pre.up && post.down == pre.down,
        TaurusOption::UP => popped_one(pre.up, post.up, data) && post.left == pre.left
            && post.right == pre.right && post.down == pre.down,
        TaurusOption::DOWN => popped_one(pre.down, post.down, data) && post.left == pre.left
            && post.right == pre.right && post.up == pre.up,
        TaurusOption::ROW => false,
        TaurusOption::COL => false,
    }
}

/// One channel gave up its oldest value and nothing else changed.
pub open spec fn popped_one<T: Sendable>(pre: Channel<T>, post: Channel<T>, data: T) -> bool {
    &&& post.wf()
    &&& pre.contents().len() > 0
    &&& data == pre.contents()[0]
    &&& post.contents() == pre.contents().drop_first()
    &&& post.history() == pre.history()
    &&& post.taken_count() == pre.taken_count() + 1
}

/// A broadcast group received one broadcast: every member's queue grew by
/// one copy of the value's content, and the group history records it.
pub open spec fn group_after_send<T: Sendable>(
    pre: BChannel<T>,
    post: BChannel<T>,
    data: T,
) -> bool {
    &&& post.wf()
    &&& post.group_size() == pre.group_size()
    &&& post.history() == pre.history().push(data.sval())
    &&& forall|i: int|
        0 <= i < post.group_size() ==> (#[trigger] post.member(i)).taken_count() == pre.member(
            i,
        ).taken_count() && svals(post.member(i).contents()) == svals(pre.member(i).contents()).push(
            data.sval(),
        )
}

/// The grid of cells together with the row and column broadcast groups.
/// Cells are stored row-major: cell `(r, c)` is entry `r * cols + c`.
pub struct TaurusNetwork<T: Sendable> {
    pub rows: usize,
    pub cols: usize,
    pub cores: Vec<TaurusCore<T>>,
    pub row_groups: Vec<BChannel<T>>,
    pub col_groups: Vec<BChannel<T>>,
}

impl<T: Sendable> TaurusNetwork<T> {
    /// The cell at grid position `(r, c)`.
    pub open spec fn core_at(&self, r: int, c: int) -> TaurusCore<T> {
        self.cores@[r * (self.cols as int) + c]
    }

    /// The broadcast group of row `r`.
    pub open spec fn row_group(&self, r: int) -> BChannel<T> {
        self.row_groups@[r]
    }

    /// The broadcast group of column `c`.
    pub open spec fn col_group(&self, c: int) -> BChannel<T> {
        self.col_groups@[c]
    }

    pub open spec fn wf(&self) -> bool {
        &&& self.rows >= 1
        &&& self.cols >= 1
        &&& self.rows * self.cols <= usize::MAX
        &&& self.cores@.len() == self.rows * self.cols
        &&& self.row_groups@.len() == self.rows
        &&& self.col_groups@.len() == self.cols
        &&& forall|r: int, c: int|
            0 <= r < self.rows && 0 <= c < self.cols ==> (#[trigger] self.core_at(r, c)).wf()
                && self.core_at(r, c).row == r && self.core_at(r, c).col == c
        &&& forall|r: int|
            0 <= r < self.rows ==> (#[trigger] self.row_group(r)).wf() && self.row_group(
                r,
            ).group_size() == self.cols
        &&& forall|c: int|
            0 <= c < self.cols ==> (#[trigger] self.col_group(c)).wf() && self.col_group(
                c,
            ).group_size() == self.rows
    }

    /// The flat index of cell `(row, col)`.
    fn idx(&self, row: usize, col: usize) -> (r: usize)
        requires
            self.wf(),
            row < self.rows,
            col < self.cols,
        ensures
            r == row * self.cols + col,
            r < self.cores@.len(),
    {
        proof {
            assert(row * self.cols + col < self.rows * self.cols) by (nonlinear_arith)
                requires
                    0 <= row < self.rows,
                    0 <= col < self.cols,
            ;
        }
        row * self.cols + col
    }

    /// Send `data` from cell `(row, col)` through port `option`.  A send on
    /// a cardinal port enqueues onto the torus neighbour's opposite queue:
    /// a send `UP` at `(r, c)` is received as `DOWN` at `(r-1 mod R, c)`, a
    /// send `RIGHT` at `(r, c)` as `LEFT` at `(r, c+1 mod C)`, and
    /// symmetrically.  A send on `ROW` or `COL` broadcasts to the whole row
    /// or column group, the sender included.  Sending never blocks.
    pub fn send(&mut self, row: usize, col: usize, option: &TaurusOption, data: T)
        requires
            old(self).wf(),
            row < old(self).rows,
            col < old(self).cols,
        ensures
            final(self).wf(),
            final(self).rows == old(self).rows,
            final(self).cols == old(self).cols,
            (match *option {
                TaurusOption::LEFT => final(self).direct_send_shape(
                    *old(self),
                    row as int,
                    dec_wrap(col as int, old(self).cols as int),
                    TaurusOption::RIGHT,
                    data,
                ),
                TaurusOption::RIGHT => final(self).direct_send_shape(
                    *old(self),
                    row as int,
                    inc_wrap(col as int, old(self).cols as int),
                    TaurusOption::LEFT,
                    data,
                ),
                TaurusOption::UP => final(self).direct_send_shape(
                    *old(self),
                    dec_wrap(row as int, old(self).rows as int),
                    col as int,
                    TaurusOption::DOWN,
                    data,
                ),
                TaurusOption::DOWN => final(self).direct_send_shape(
                    *old(self),
                    inc_wrap(row as int, old(self).rows as int),
                    col as int,
                    TaurusOption::UP,
                    data,
                ),
                TaurusOption::ROW => final(self).row_send_shape(*old(self), row as int, data),
                TaurusOption::COL => final(self).col_send_shape(*old(self), col as int, data),
            }),
    {
        match option {
            TaurusOption::LEFT => {
                let tc = if col == 0 {
                    self.cols - 1
                } else {
                    col - 1
                };
                let t = self.idx(row, tc);
                proof {
                    assert(self.core_at(row as int, tc as int).wf());
                }
                let ghost precores = self.cores@;
                let target = &mut self.cores[t];
                target.right.send(data);
                proof {
                    self.lemma_direct_send(*old(self), precores, row as int, tc as int, t as int);
                    lemma_net_wf_after_core_update(*old(self), *self, row as int, tc as int);
                }
            },
            TaurusOption::RIGHT => {
                let tc = if col == self.cols - 1 {
                    0
                } else {
                    col + 1
                };
                let t = self.idx(row, tc);
                proof {
                    assert(self.core_at(row as int, tc as int).wf());
                }
                let ghost precores = self.cores@;
                let target = &mut self.cores[t];
                target.left.send(data);
                proof {
                    self.lemma_direct_send(*old(self), precores, row as int, tc as int, t as int);
                    lemma_net_wf_after_core_update(*old(self), *self, row as int, tc as int);
                }
            },
            TaurusOption::UP => {
                let tr = if row == 0 {
                    self.rows - 1
                } else {
                    row - 1
                };
                let t = self.idx(tr, col);
                proof {
                    assert(self.core_at(tr as int, col as int).wf());
                }
                let ghost precores = self.cores@;
                let target = &mut self.cores[t];
                target.down.send(data);
                proof {
                    self.lemma_direct_send(*old(self), precores, tr as int, col as int, t as int);
                    lemma_net_wf_after_core_update(*old(self), *self, tr as int, col as int);
                }
            },
            TaurusOption::DOWN => {
                let tr = if row == self.rows - 1 {
                    0
                } else {
                    row + 1
                };
                let t = self.idx(tr, col);
                proof {
                    assert(self.core_at(tr as int, col as int).wf());
                }
                let ghost precores = self.cores@;
                let target = &mut self.cores[t];
                target.up.send(data);
                proof {
                    self.lemma_direct_send(*old(self), precores, tr as int, col as int, t as int);
                    lemma_net_wf_after_core_update(*old(self), *self, tr as int, col as int);
                }
            },
            TaurusOption::ROW => {
                proof {
                    assert(self.row_group(row as int).wf());
                }
                let ghost pregroups = self.row_groups@;
                let group = &mut self.row_groups[row];
                group.send(data);
                proof {
                    assert(self.row_groups@ =~= pregroups.update(
                        row as int,
                        self.row_groups@[row as int],
                    ));
                    assert forall|g: int| 0 <= g < self.rows implies (#[trigger] self.row_group(
                        g,
                    )).wf() && self.row_group(g).group_size() == old(self).row_group(
                        g,
                    ).group_size() by {
                        assert(old(self).row_group(g).wf());
                        if g != row as int {
                            assert(self.row_group(g) == old(self).row_group(g));
                        }
                    }
                    assert forall|g: int| 0 <= g < self.cols implies (#[trigger] self.col_group(
                        g,
                    )).wf() && self.col_group(g).group_size() == old(self).col_group(
                        g,
                    ).group_size() by {
                        assert(old(self).col_group(g).wf());
                        assert(self.col_group(g) == old(self).col_group(g));
                    }
                    lemma_net_wf_after_group_update(*old(self), *self);
                }
            },
            TaurusOption::COL => {
                proof {
                    assert(self.col_group(col as int).wf());
                }
                let ghost pregroups = self.col_groups@;
                let group = &mut self.col_groups[col];
                group.send(data);
                proof {
                    assert(self.col_groups@ =~= pregroups.update(
                        col as int,
                        self.col_groups@[col as int],
                    ));
                    assert forall|g: int| 0 <= g < self.cols implies (#[trigger] self.col_group(
                        g,
                    )).wf() && self.col_group(g).group_size() == old(self).col_group(
                        g,
                    ).group_size() by {
                        assert(old(self).col_group(g).wf());
                        if g != col as int {
                            assert(self.col_group(g) == old(self).col_group(g));
                        }
                    }
                    assert forall|g: int| 0 <= g < self.rows implies (#[trigger] self.row_group(
                        g,
                    )).wf() && self.row_group(g).group_size() == old(self).row_group(
                        g,
                    ).group_size() by {
                        assert(old(self).row_group(g).wf());
                        assert(self.row_group(g) == old(self).row_group(g));
                    }
                    lemma_net_wf_after_group_update(*old(self), *self);
                }
            },
        }
    }

    /// The network after a direct send into the queue `tport` of cell
    /// `(tr, tc)`: that queue grew by `data`, everything else is untouched.
    pub open spec fn direct_send_shape(
        &self,
        pre: Self,
        tr: int,
        tc: int,
        tport: TaurusOption,
        data: T,
    ) -> bool {
        &&& core_after_push(pre.core_at(tr, tc), self.core_at(tr, tc), tport, data)
        &&& forall|r2: int, c2: int|
            0 <= r2 < pre.rows && 0 <= c2 < pre.cols && !(r2 == tr && c2 == tc)
                ==> #[trigger] self.core_at(r2, c2) == pre.core_at(r2, c2)
        &&& forall|g: int| 0 <= g < pre.rows ==> #[trigger] self.row_group(g) == pre.row_group(g)
        &&& forall|g: int| 0 <= g < pre.cols ==> #[trigger] self.col_group(g) == pre.col_group(g)
    }

    /// The network after a broadcast on row group `r`.
    pub open spec fn row_send_shape(&self, pre: Self, r: int, data: T) -> bool {
        &&& group_after_send(pre.row_group(r), self.row_group(r), data)
        &&& forall|r2: int, c2: int|
            0 <= r2 < pre.rows && 0 <= c2 < pre.cols ==> #[trigger] self.core_at(r2, c2) == pre.core_at(
                r2,
                c2,
            )
        &&& forall|g: int|
            0 <= g < pre.rows && g != r ==> #[trigger] self.row_group(g) == pre.row_group(g)
        &&& forall|g: int| 0 <= g < pre.cols ==> #[trigger] self.col_group(g) == pre.col_group(g)
    }

    /// The network after a broadcast on column group `c`.
    pub open spec fn col_send_shape(&self, pre: Self, c: int, data: T) -> bool {
        &&& group_after_send(pre.col_group(c), self.col_group(c), data)
        &&& forall|r2: int, c2: int|
            0 <= r2 < pre.rows && 0 <= c2 < pre.cols ==> #[trigger] self.core_at(r2, c2) == pre.core_at(
                r2,
                c2,
            )
        &&& forall|g: int| 0 <= g < pre.rows ==> #[trigger] self.row_group(g) == pre.row_group(g)
        &&& forall|g: int|
            0 <= g < pre.cols && g != c ==> #[trigger] self.col_group(g) == pre.col_group(g)
    }

    proof fn lemma_direct_send(&self, pre: Self, precores: Seq<TaurusCore<T>>, tr: int, tc: int, t: int)
        requires
            pre.wf(),
            self.rows == pre.rows,
            self.cols == pre.cols,
            self.row_groups@ == pre.row_groups@,
            self.col_groups@ == pre.col_groups@,
            precores == pre.cores@,
            0 <= tr < pre.rows,
            0 <= tc < pre.cols,
            t == tr * pre.cols + tc,
            0 <= t < precores.len(),
            self.cores@ == precores.update(t, self.cores@[t]),
        ensures
            forall|r2: int, c2: int|
                0 <= r2 < pre.rows && 0 <= c2 < pre.cols && !(r2 == tr && c2 == tc)
                    ==> #[trigger] self.core_at(r2, c2) == pre.core_at(r2, c2),
            self.core_at(tr, tc) == self.cores@[t],
            pre.core_at(tr, tc) == precores[t],
            forall|g: int| 0 <= g < pre.rows ==> #[trigger] self.row_group(g) == pre.row_group(g),
            forall|g: int| 0 <= g < pre.cols ==> #[trigger] self.col_group(g) == pre.col_group(g),
    {
        assert forall|r2: int, c2: int|
            0 <= r2 < pre.rows && 0 <= c2 < pre.cols && !(r2 == tr && c2 == tc)
                implies #[trigger] self.core_at(r2, c2) == pre.core_at(r2, c2) by {
            let i2 = r2 * pre.cols + c2;
            assert(0 <= i2 < pre.rows * pre.cols) by (nonlinear_arith)
                requires
                    0 <= r2 < pre.rows,
                    0 <= c2 < pre.cols,
                    i2 == r2 * pre.cols + c2,
            ;
            assert(i2 != t) by (nonlinear_arith)
                requires
                    0 <= r2 < pre.rows,
                    0 <= c2 < pre.cols,
                    0 <= tr < pre.rows,
                    0 <= tc < pre.cols,
                    !(r2 == tr && tc == c2),
                    i2 == r2 * pre.cols + c2,
                    t == tr * pre.cols + tc,
            ;
        }
    }

    /// Receive from cell `(row, col)` on port `option`: the oldest value of
    /// the queue that port names at this cell, or of this cell's slot in
    /// its row or column broadcast group.
    pub fn recv(&mut self, row: usize, col: usize, option: &TaurusOption) -> (r: T)
        requires
            old(self).wf(),
            row < old(self).rows,
            col < old(self).cols,
            (match *option {
                TaurusOption::LEFT => old(self).core_at(row as int, col as int).left.contents().len()
                    > 0,
                TaurusOption::RIGHT => old(self).core_at(
                    row as int,
                    col as int,
                ).right.contents().len() > 0,
                TaurusOption::UP => old(self).core_at(row as int, col as int).up.contents().len() > 0,
                TaurusOption::DOWN => old(self).core_at(row as int, col as int).down.contents().len()
                    > 0,
                TaurusOption::ROW => old(self).row_group(row as int).member(
                    col as int,
                ).contents().len() > 0,
                TaurusOption::COL => old(self).col_group(col as int).member(
                    row as int,
                ).contents().len() > 0,
            }),
        ensures
            final(self).wf(),
            final(self).rows == old(self).rows,
            final(self).cols == old(self).cols,
            (match *option {
                TaurusOption::LEFT | TaurusOption::RIGHT | TaurusOption::UP | TaurusOption::DOWN
                    => final(self).direct_recv_shape(*old(self), row as int, col as int, *option, r),
                TaurusOption::ROW => final(self).row_recv_shape(*old(self), row as int, col as int, r),
                TaurusOption::COL => final(self).col_recv_shape(*old(self), row as int, col as int, r),
            }),
    {
        match option {
            TaurusOption::LEFT => {
                let t = self.idx(row, col);
                proof {
                    assert(self.core_at(row as int, col as int).wf());
                }
                let ghost precores = self.cores@;
                let target = &mut self.cores[t];
                let r = target.left.recv();
                proof {
                    self.lemma_direct_send(*old(self), precores, row as int, col as int, t as int);
                    lemma_net_wf_after_core_update(*old(self), *self, row as int, col as int);
                }
                r
            },
            TaurusOption::RIGHT => {
                let t = self.idx(row, col);
                proof {
                    assert(self.core_at(row as int, col as int).wf());
                }
                let ghost precores = self.cores@;
                let target = &mut self.cores[t];
                let r = target.right.recv();
                proof {
                    self.lemma_direct_send(*old(self), precores, row as int, col as int, t as int);
                    lemma_net_wf_after_core_update(*old(self), *self, row as int, col as int);
                }
                r
            },
            TaurusOption::UP => {
                let t = self.idx(row, col);
                proof {
                    assert(self.core_at(row as int, col as int).wf());
                }
                let ghost precores = self.cores@;
                let target = &mut self.cores[t];
                let r = target.up.recv();
                proof {
                    self.lemma_direct_send(*old(self), precores, row as int, col as int, t as int);
                    lemma_net_wf_after_core_update(*old(self), *self, row as int, col as int);
                }
                r
            },
            TaurusOption::DOWN => {
                let t = self.idx(row, col);
                proof {
                    assert(self.core_at(row as int, col as int).wf());
                }
                let ghost precores = self.cores@;
                let target = &mut self.cores[t];
                let r = target.down.recv();
                proof {
                    self.lemma_direct_send(*old(self), precores, row as int, col as int, t as int);
                    lemma_net_wf_after_core_update(*old(self), *self, row as int, col as int);
                }
                r
            },
            TaurusOption::ROW => {
                proof {
                    assert(self.row_group(row as int).wf());
                }
                let ghost pregroups = self.row_groups@;
                let group = &mut self.row_groups[row];
                let r = group.recv(col);
                proof {
                    assert(self.row_groups@ =~= pregroups.update(
                        row as int,
                        self.row_groups@[row as int],
                    ));
                    assert forall|g: int| 0 <= g < self.rows implies (#[trigger] self.row_group(
                        g,
                    )).wf() && self.row_group(g).group_size() == old(self).row_group(
                        g,
                    ).group_size() by {
                        assert(old(self).row_group(g).wf());
                        if g != row as int {
                            assert(self.row_group(g) == old(self).row_group(g));
                        }
                    }
                    assert forall|g: int| 0 <= g < self.cols implies (#[trigger] self.col_group(
                        g,
                    )).wf() && self.col_group(g).group_size() == old(self).col_group(
                        g,
                    ).group_size() by {
                        assert(old(self).col_group(g).wf());
                        assert(self.col_group(g) == old(self).col_group(g));
                    }
                    lemma_net_wf_after_group_update(*old(self), *self);
                }
                r
            },
            TaurusOption::COL => {
                proof {
                    assert(self.col_group(col as int).wf());
                }
                let ghost pregroups = self.col_groups@;
                let group = &mut self.col_groups[col];
                let r = group.recv(row);
                proof {
                    assert(self.col_groups@ =~= pregroups.update(
                        col as int,
                        self.col_groups@[col as int],
                    ));
                    assert forall|g: int| 0 <= g < self.cols implies (#[trigger] self.col_group(
                        g,
                    )).wf() && self.col_group(g).group_size() == old(self).col_group(
                        g,
                    ).group_size() by {
                        assert(old(self).col_group(g).wf());
                        if g != col as int {
                            assert(self.col_group(g) == old(self).col_group(g));
                        }
                    }
                    assert forall|g: int| 0 <= g < self.rows implies (#[trigger] self.row_group(
                        g,
                    )).wf() && self.row_group(g).group_size() == old(self).row_group(
                        g,
                    ).group_size() by {
                        assert(old(self).row_group(g).wf());
                        assert(self.row_group(g) == old(self).row_group(g));
                    }
                    lemma_net_wf_after_group_update(*old(self), *self);
                }
                r
            },
        }
    }

    /// The network after a direct receive at cell `(r, c)` on port `o`.
    pub open spec fn direct_recv_shape(&self, pre: Self, r: int, c: int, o: TaurusOption, data: T) -> bool {
        &&& core_after_pop(pre.core_at(r, c), self.core_at(r, c), o, data)
        &&& forall|r2: int, c2: int|
            0 <= r2 < pre.rows && 0 <= c2 < pre.cols && !(r2 == r && c2 == c)
                ==> #[trigger] self.core_at(r2, c2) == pre.core_at(r2, c2)
        &&& forall|g: int| 0 <= g < pre.rows ==> #[trigger] self.row_group(g) == pre.row_group(g)
        &&& forall|g: int| 0 <= g < pre.cols ==> #[trigger] self.col_group(g) == pre.col_group(g)
    }

    /// The network after cell `(r, c)` received from its row group.
    pub open spec fn row_recv_shape(&self, pre: Self, r: int, c: int, data: T) -> bool {
        &&& group_after_recv(pre.row_group(r), self.row_group(r), c, data)
        &&& forall|r2: int, c2: int|
            0 <= r2 < pre.rows && 0 <= c2 < pre.cols ==> #[trigger] self.core_at(r2, c2) == pre.core_at(
                r2,
                c2,
            )
        &&& forall|g: int|
            0 <= g < pre.rows && g != r ==> #[trigger] self.row_group(g) == pre.row_group(g)
        &&& forall|g: int| 0 <= g < pre.cols ==> #[trigger] self.col_group(g) == pre.col_group(g)
    }

    /// The network after cell `(r, c)` received from its column group.
    pub open spec fn col_recv_shape(&self, pre: Self, r: int, c: int, data: T) -> bool {
        &&& group_after_recv(pre.col_group(c), self.col_group(c), r, data)
        &&& forall|r2: int, c2: int|
            0 <= r2 < pre.rows && 0 <= c2 < pre.cols ==> #[trigger] self.core_at(r2, c2) == pre.core_at(
                r2,
                c2,
            )
        &&& forall|g: int| 0 <= g < pre.rows ==> #[trigger] self.row_group(g) == pre.row_group(g)
        &&& forall|g: int|
            0 <= g < pre.cols && g != c ==> #[trigger] self.col_group(g) == pre.col_group(g)
    }
}

/// Re-establishes network well-formedness after one cell changed in place,
/// keeping its position and its queues' well-formedness.
proof fn lemma_net_wf_after_core_update<T: Sendable>(
    pre: TaurusNetwork<T>,
    post: TaurusNetwork<T>,
    tr: int,
    tc: int,
)
    requires
        pre.wf(),
        post.rows == pre.rows,
        post.cols == pre.cols,
        post.cores@.len() == pre.cores@.len(),
        post.row_groups@ == pre.row_groups@,
        post.col_groups@ == pre.col_groups@,
        0 <= tr < pre.rows,
        0 <= tc < pre.cols,
        forall|r2: int, c2: int|
            0 <= r2 < pre.rows && 0 <= c2 < pre.cols && !(r2 == tr && c2 == tc)
                ==> #[trigger] post.core_at(r2, c2) == pre.core_at(r2, c2),
        post.core_at(tr, tc).wf(),
        post.core_at(tr, tc).row == pre.core_at(tr, tc).row,
        post.core_at(tr, tc).col == pre.core_at(tr, tc).col,
    ensures
        post.wf(),
{
    assert forall|r: int, c: int| 0 <= r < post.rows && 0 <= c < post.cols implies (
    #[trigger] post.core_at(r, c)).wf() && post.core_at(r, c).row == r && post.core_at(r, c).col
        == c by {
        assert(pre.core_at(r, c).wf() && pre.core_at(r, c).row == r && pre.core_at(r, c).col == c);
    }
    assert forall|r: int| 0 <= r < post.rows implies (#[trigger] post.row_group(r)).wf()
        && post.row_group(r).group_size() == post.cols by {
        assert(pre.row_group(r).wf());
    }
    assert forall|c: int| 0 <= c < post.cols implies (#[trigger] post.col_group(c)).wf()
        && post.col_group(c).group_size() == post.rows by {
        assert(pre.col_group(c).wf());
    }
}

/// Re-establishes network well-formedness after one broadcast group changed
/// in place, keeping its size and well-formedness.
proof fn lemma_net_wf_after_group_update<T: Sendable>(pre: TaurusNetwork<T>, post: TaurusNetwork<T>)
    requires
        pre.wf(),
        post.rows == pre.rows,
        post.cols == pre.cols,
        post.cores@ == pre.cores@,
        post.row_groups@.len() == pre.row_groups@.len(),
        post.col_groups@.len() == pre.col_groups@.len(),
        forall|g: int|
            0 <= g < pre.rows ==> (#[trigger] post.row_group(g)).wf() && post.row_group(
                g,
            ).group_size() == pre.row_group(g).group_size(),
        forall|g: int|
            0 <= g < pre.cols ==> (#[trigger] post.col_group(g)).wf() && post.col_group(
                g,
            ).group_size() == pre.col_group(g).group_size(),
    ensures
        post.wf(),
{
    assert forall|r: int, c: int| 0 <= r < post.rows && 0 <= c < post.cols implies (
    #[trigger] post.core_at(r, c)).wf() && post.core_at(r, c).row == r && post.core_at(r, c).col
        == c by {
        assert(pre.core_at(r, c).wf() && pre.core_at(r, c).row == r && pre.core_at(r, c).col == c);
    }
}

/// A broadcast group after member `m` dequeued its oldest value.
pub open spec fn group_after_recv<T: Sendable>(
    pre: BChannel<T>,
    post: BChannel<T>,
    m: int,
    data: T,
) -> bool {
    &&& post.wf()
    &&& post.group_size() == pre.group_size()
    &&& post.history() == pre.history()
    &&& data == pre.member(m).contents()[0]
    &&& data.sval() == pre.history()[pre.member(m).taken_count()]
    &&& post.member(m).contents() == pre.member(m).contents().drop_first()
    &&& post.member(m).taken_count() == pre.member(m).taken_count() + 1
    &&& forall|i: int|
        0 <= i < post.group_size() && i != m ==> #[trigger] post.member(i) == pre.member(i)
}

/// Builds the torus: cells in row-major order, one broadcast group per row
/// and per column, all queues empty.
#[derive(Clone, Copy)]
pub struct TaurusNetworkBuilder;

impl TaurusNetworkBuilder {
    pub fn build<T: Sendable>(&self, rows: usize, cols: usize) -> (net: TaurusNetwork<T>)
        requires
            rows >= 1,
            cols >= 1,
            rows * cols <= usize::MAX,
        ensures
            net.wf(),
            net.rows == rows,
            net.cols == cols,
            fresh_network(net),
    {
        let mut cores: Vec<TaurusCore<T>> = Vec::new();
        let mut r: usize = 0;
        while r < rows
            invariant
                0 <= r <= rows,
                cols >= 1,
                rows * cols <= usize::MAX,
                cores@.len() == r * cols,
                forall|i: int, j: int|
                    0 <= i < r && 0 <= j < cols ==> fresh_core(#[trigger] cores@[i * cols + j], i, j),
            decreases rows - r,
        {
            let mut c: usize = 0;
            proof {
                assert(r * cols + cols <= rows * cols) by (nonlinear_arith)
                    requires
                        0 <= r < rows,
                        cols >= 1,
                ;
                assert((r + 1) * cols == r * cols + cols) by (nonlinear_arith);
            }
            while c < cols
                invariant
                    0 <= c <= cols,
                    0 <= r < rows,
                    cores@.len() == r * cols + c,
                    r * cols + cols <= rows * cols <= usize::MAX,
                    forall|i: int, j: int|
                        0 <= i < r && 0 <= j < cols ==> fresh_core(
                            #[trigger] cores@[i * cols + j],
                            i,
                            j,
                        ),
                    forall|j: int|
                        0 <= j < c ==> fresh_core(#[trigger] cores@[r as int * cols + j], r as int, j),
                decreases cols - c,
            {
                cores.push(TaurusCore::new(r, c));
                proof {
                    assert forall|i: int, j: int| 0 <= i < r && 0 <= j < cols implies fresh_core(
                        #[trigger] cores@[i * cols + j],
                        i,
                        j,
                    ) by {
                        assert(i * cols + j < r * cols) by (nonlinear_arith)
                            requires
                                0 <= i < r,
                                0 <= j < cols,
                        ;
                    }
                }
                c = c + 1;
            }
            r = r + 1;
        }
        let mut row_groups: Vec<BChannel<T>> = Vec::new();
        let mut g: usize = 0;
        while g < rows
            invariant
                0 <= g <= rows,
                row_groups@.len() == g,
                forall|i: int| 0 <= i < g ==> fresh_group(#[trigger] row_groups@[i], cols as int),
            decreases rows - g,
        {
            row_groups.push(BChannel::new(cols));
            g = g + 1;
        }
        let mut col_groups: Vec<BChannel<T>> = Vec::new();
        let mut g2: usize = 0;
        while g2 < cols
            invariant
                0 <= g2 <= cols,
                col_groups@.len() == g2,
                forall|i: int| 0 <= i < g2 ==> fresh_group(#[trigger] col_groups@[i], rows as int),
            decreases cols - g2,
        {
            col_groups.push(BChannel::new(rows));
            g2 = g2 + 1;
        }
        let net = TaurusNetwork { rows, cols, cores, row_groups, col_groups };
        proof {
            assert forall|i: int, j: int| 0 <= i < rows && 0 <= j < cols implies (
            #[trigger] net.core_at(i, j)).wf() && net.core_at(i, j).row == i && net.core_at(i, j).col == j by {
                assert(fresh_core(net.cores@[i * cols + j], i, j));
            }
        }
        net
    }
}

/// A freshly built cell: correct position, empty queues.
pub open spec fn fresh_core<T: Sendable>(core: TaurusCore<T>, r: int, c: int) -> bool {
    &&& core.wf()
    &&& core.row == r
    &&& core.col == c
    &&& core.left.contents() == Seq::<T>::empty()
    &&& core.right.contents() == Seq::<T>::empty()
    &&& core.up.contents() == Seq::<T>::empty()
    &&& core.down.contents() == Seq::<T>::empty()
    &&& core.left.history() == Seq::<T>::empty()
    &&& core.right.history() == Seq::<T>::empty()
    &&& core.up.history() == Seq::<T>::empty()
    &&& core.down.history() == Seq::<T>::empty()
}

/// A freshly built broadcast group of `n` members, nothing queued.
pub open spec fn fresh_group<T: Sendable>(b: BChannel<T>, n: int) -> bool {
    &&& b.wf()
    &&& b.group_size() == n
    &&& b.history() == Seq::<T::Sval>::empty()
    &&& forall|i: int|
        0 <= i < n ==> (#[trigger] b.member(i)).contents() == Seq::<T>::empty() && b.member(
            i,
        ).taken_count() == 0
}

/// A freshly built network: every queue of every cell and group is empty.
pub open spec fn fresh_network<T: Sendable>(net: TaurusNetwork<T>) -> bool {
    &&& forall|r: int, c: int|
        0 <= r < net.rows && 0 <= c < net.cols ==> fresh_core(
            #[trigger] net.core_at(r, c),
            r,
            c,
        )
    &&& forall|g: int| 0 <= g < net.rows ==> fresh_group(#[trigger] net.row_group(g), net.cols as int)
    &&& forall|g: int| 0 <= g < net.cols ==> fresh_group(#[trigger] net.col_group(g), net.rows as int)
}

/// The interconnect cost model: a fixed latency per message, a bandwidth in
/// bytes per nanosecond, and a per-member startup cost for broadcasts, all
/// held in nanoseconds.
#[derive(Clone, Copy)]
pub struct TimeTaurusNetworkBuilder {
    pub latency: u64,
    pub bandwidth: u64,
    pub startup: u64,
}

impl TimeTaurusNetworkBuilder {
    /// A zero bandwidth is replaced by one byte per nanosecond, as a plain
    /// serialisation of the cost model would otherwise divide by zero.
    pub fn new(latency: usize, bandwidth: usize, startup: usize) -> (r: TimeTaurusNetworkBuilder)
        ensures
            r.latency == latency,
            r.bandwidth == if bandwidth == 0 {
                1
            } else {
                bandwidth
            },
            r.startup == startup,
    {
        TimeTaurusNetworkBuilder {
            latency: latency as u64,
            bandwidth: if bandwidth == 0 {
                1u64
            } else {
                bandwidth as u64
            },
            startup: startup as u64,
        }
    }

    pub fn build<T: Sendable>(&self, rows: usize, cols: usize) -> (net: TaurusNetwork<T>)
        requires
            rows >= 1,
            cols >= 1,
            rows * cols <= usize::MAX,
        ensures
            net.wf(),
            net.rows == rows,
            net.cols == cols,
            fresh_network(net),
    {
        let builder = TaurusNetworkBuilder;
        builder.build(rows, cols)
    }
}

} // verus!
