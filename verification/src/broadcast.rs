//! Typed FIFO channels: the point-to-point `Channel` and the one-to-many
//! `BChannel` whose `send` delivers one copy of the message to every member
//! of the group, the sender included.
//!
//! Each channel keeps, as ghost state, the full history of the values sent
//! on it; the FIFO and broadcast-ordering laws at the end of this module are
//! stated over those histories.

use vstd::prelude::*;

verus! {

/// A value that can travel through a channel: it can be duplicated, and its
/// abstract content (`Sval`) is preserved by the duplication.
pub trait Sendable: Sized {
    /// The abstract content of the value, which a broadcast copy preserves.
    type Sval;

    spec fn sval(&self) -> Self::Sval;

    fn dup(&self) -> (r: Self)
        ensures
            r.sval() == self.sval(),
    ;
}

impl Sendable for i32 {
    type Sval = i32;

    open spec fn sval(&self) -> i32 {
        *self
    }

    fn dup(&self) -> (r: i32)
        ensures
            r.sval() == self.sval(),
    {
        *self
    }
}

impl Sendable for i64 {
    type Sval = i64;

    open spec fn sval(&self) -> i64 {
        *self
    }

    fn dup(&self) -> (r: i64)
        ensures
            r.sval() == self.sval(),
    {
        *self
    }
}

impl Sendable for u64 {
    type Sval = u64;

    open spec fn sval(&self) -> u64 {
        *self
    }

    fn dup(&self) -> (r: u64)
        ensures
            r.sval() == self.sval(),
    {
        *self
    }
}

impl Sendable for usize {
    type Sval = usize;

    open spec fn sval(&self) -> usize {
        *self
    }

    fn dup(&self) -> (r: usize)
        ensures
            r.sval() == self.sval(),
    {
        *self
    }
}

impl Sendable for crate::types::Msg {
    type Sval = crate::types::Msg;

    open spec fn sval(&self) -> crate::types::Msg {
        *self
    }

    fn dup(&self) -> (r: crate::types::Msg)
        ensures
            r.sval() == self.sval(),
    {
        *self
    }
}

/// A matrix of copyable elements travels by deep copy; its content is its
/// mathematical view.
impl<E: Copy> Sendable for Vec<Vec<E>> {
    type Sval = Seq<Seq<E>>;

    open spec fn sval(&self) -> Seq<Seq<E>> {
        crate::types::mview(*self)
    }

    fn dup(&self) -> (r: Vec<Vec<E>>)
        ensures
            r.sval() == self.sval(),
    {
        crate::types::dup_matrix(self)
    }
}

impl<A: Sendable, B: Sendable> Sendable for (A, B) {
    type Sval = (A::Sval, B::Sval);

    open spec fn sval(&self) -> (A::Sval, B::Sval) {
        (self.0.sval(), self.1.sval())
    }

    fn dup(&self) -> (r: (A, B))
        ensures
            r.sval() == self.sval(),
    {
        (self.0.dup(), self.1.dup())
    }
}

/// The abstract contents of a sequence of sendable values.
pub open spec fn svals<T: Sendable>(s: Seq<T>) -> Seq<T::Sval> {
    s.map_values(|t: T| t.sval())
}

/// One direction of a point-to-point FIFO channel: values sent on it are
/// received in order.  The ghost `hist` records every value ever sent and
/// `taken` how many of them have been received.
pub struct Channel<T> {
    queue: Vec<T>,
    sent: usize,
    hist: Ghost<Seq<T>>,
    taken: Ghost<int>,
}

impl<T> Channel<T> {
    /// The values currently queued, oldest first.
    pub closed spec fn contents(&self) -> Seq<T> {
        self.queue@
    }

    /// Every value ever sent on this channel, in send order.
    pub closed spec fn history(&self) -> Seq<T> {
        self.hist@
    }

    /// How many values have been received so far.
    pub closed spec fn taken_count(&self) -> int {
        self.taken@
    }

    /// The values received so far, in the order they were received.
    pub open spec fn received(&self) -> Seq<T> {
        self.history().take(self.taken_count())
    }

    pub closed spec fn wf(&self) -> bool {
        &&& 0 <= self.taken_count() <= self.history().len()
        &&& self.contents() == self.history().skip(self.taken_count())
        &&& if self.history().len() <= usize::MAX {
            self.sent == self.history().len()
        } else {
            self.sent == usize::MAX
        }
    }

    /// What well-formedness guarantees about the visible state.
    pub broadcast proof fn lemma_wf(&self)
        requires
            #[trigger] self.wf(),
        ensures
            0 <= self.taken_count() <= self.history().len(),
            self.contents() == self.history().skip(self.taken_count()),
    {
    }

    pub fn new() -> (c: Channel<T>)
        ensures
            c.wf(),
            c.history() == Seq::<T>::empty(),
            c.taken_count() == 0,
            c.contents() == Seq::<T>::empty(),
    {
        let c = Channel { queue: Vec::new(), sent: 0, hist: Ghost(Seq::empty()), taken: Ghost(0) };
        proof {
            assert(c.contents() =~= c.history().skip(0));
        }
        c
    }

    /// A fresh channel with nothing queued; same as `new`.
    pub fn empty() -> (c: Channel<T>)
        ensures
            c.wf(),
            c.history() == Seq::<T>::empty(),
            c.taken_count() == 0,
            c.contents() == Seq::<T>::empty(),
    {
        Channel::new()
    }

    /// Enqueue a value.  Sending never blocks and never fails.
    pub fn send(&mut self, data: T)
        requires
            old(self).wf(),
        ensures
            final(self).wf(),
            final(self).history() == old(self).history().push(data),
            final(self).contents() == old(self).contents().push(data),
            final(self).taken_count() == old(self).taken_count(),
    {
        self.queue.push(data);
        proof {
            let ghost d = self.queue@[self.queue@.len() - 1];
            self.hist@ = self.hist@.push(d);
            assert(self.contents() =~= self.history().skip(self.taken_count()));
        }
        self.sent = if self.sent < usize::MAX {
            self.sent + 1
        } else {
            self.sent
        };
    }

    /// Dequeue the oldest value.  The caller must know a value is queued:
    /// in the fixed schedules of the kernels every receive is matched by an
    /// earlier send.
    pub fn recv(&mut self) -> (r: T)
        requires
            old(self).wf(),
            old(self).contents().len() > 0,
        ensures
            final(self).wf(),
            r == old(self).contents()[0],
            r == old(self).history()[old(self).taken_count()],
            final(self).contents() == old(self).contents().drop_first(),
            final(self).history() == old(self).history(),
            final(self).taken_count() == old(self).taken_count() + 1,
            final(self).received() == old(self).received().push(r),
    {
        let r = self.queue.remove(0);
        proof {
            self.taken@ = self.taken@ + 1;
            assert(self.contents() =~= old(self).contents().drop_first());
            assert(self.contents() =~= self.history().skip(self.taken_count()));
            assert(self.received() =~= old(self).received().push(r));
        }
        r
    }

    /// How many values have been sent on this channel (saturating).
    pub fn get_sent(&self) -> (r: usize)
        requires
            self.wf(),
        ensures
            self.history().len() <= usize::MAX ==> r == self.history().len(),
            r <= self.history().len(),
    {
        self.sent
    }
}

/// A broadcast group: one FIFO queue per member.  A `send` by anyone
/// enqueues one copy of the value onto every member's queue, the sender's
/// own included, as a single indivisible step.  The ghost `hist` records the
/// abstract content of every value ever broadcast on the group.
pub struct BChannel<T: Sendable> {
    queues: Vec<Channel<T>>,
    sent: usize,
    hist: Ghost<Seq<T::Sval>>,
}

impl<T: Sendable> BChannel<T> {
    /// The number of endpoints in the group.
    pub closed spec fn group_size(&self) -> int {
        self.queues@.len() as int
    }

    /// The state of one member's queue.
    pub closed spec fn member(&self, i: int) -> Channel<T> {
        self.queues@[i]
    }

    /// The content of every value broadcast on this group, in order.
    pub closed spec fn history(&self) -> Seq<T::Sval> {
        self.hist@
    }

    pub closed spec fn wf(&self) -> bool {
        &&& forall|i: int|
            0 <= i < self.group_size() ==> (#[trigger] self.member(i)).wf() && svals(
                self.member(i).history(),
            ) == self.history()
        &&& if self.history().len() <= usize::MAX {
            self.sent == self.history().len()
        } else {
            self.sent == usize::MAX
        }
    }

    /// What well-formedness guarantees about the visible state of a group.
    pub broadcast proof fn lemma_wf(&self)
        requires
            #[trigger] self.wf(),
        ensures
            forall|i: int|
                0 <= i < self.group_size() ==> (#[trigger] self.member(i)).wf() && svals(
                    self.member(i).history(),
                ) == self.history(),
    {
    }

    /// A group of `n` endpoints with nothing queued.
    pub fn new(n: usize) -> (b: BChannel<T>)
        ensures
            b.wf(),
            b.group_size() == n,
            b.history() == Seq::<T::Sval>::empty(),
            forall|i: int|
                0 <= i < n ==> (#[trigger] b.member(i)).contents() == Seq::<T>::empty()
                    && b.member(i).taken_count() == 0,
    {
        let mut queues: Vec<Channel<T>> = Vec::new();
        let mut i: usize = 0;
        while i < n
            invariant
                0 <= i <= n,
                queues@.len() == i,
                forall|k: int|
                    0 <= k < i ==> (#[trigger] queues@[k]).wf() && queues@[k].history()
                        == Seq::<T>::empty() && queues@[k].taken_count() == 0 && queues@[k].contents()
                        == Seq::<T>::empty(),
            decreases n - i,
        {
            queues.push(Channel::new());
            i = i + 1;
        }
        let b = BChannel { queues, sent: 0, hist: Ghost(Seq::empty()) };
        proof {
            assert forall|i: int| 0 <= i < b.group_size() implies (#[trigger] b.member(i)).wf()
                && svals(b.member(i).history()) == b.history() by {
                assert(svals(b.member(i).history()) =~= Seq::<T::Sval>::empty());
            }
        }
        b
    }

    /// A group with no endpoints.
    pub fn empty() -> (b: BChannel<T>)
        ensures
            b.wf(),
            b.group_size() == 0,
            b.history() == Seq::<T::Sval>::empty(),
    {
        BChannel { queues: Vec::new(), sent: 0, hist: Ghost(Seq::empty()) }
    }

    /// Broadcast a value: one copy is enqueued onto every member's queue.
    /// The enqueue is indivisible across the group: every member sees the
    /// broadcasts of the group in the same order.
    pub fn send(&mut self, data: T)
        requires
            old(self).wf(),
        ensures
            final(self).wf(),
            final(self).group_size() == old(self).group_size(),
            final(self).history() == old(self).history().push(data.sval()),
            forall|i: int|
                0 <= i < final(self).group_size() ==> (#[trigger] final(self).member(
                    i,
                )).taken_count() == old(self).member(i).taken_count() && svals(
                    final(self).member(i).contents(),
                ) == svals(old(self).member(i).contents()).push(data.sval()),
    {
        let n = self.queues.len();
        let ghost dv = data.sval();
        proof {
            assert forall|k: int| 0 <= k < self.queues@.len() implies (
            #[trigger] self.queues@[k]).wf() && svals(self.queues@[k].history()) == self.hist@ by {
                assert(self.member(k).wf() && svals(self.member(k).history()) == self.history());
            }
        }
        let mut i: usize = 0;
        while i < n
            invariant
                0 <= i <= n,
                n == self.queues@.len(),
                dv == data.sval(),
                forall|k: int|
                    0 <= k < n ==> (#[trigger] self.queues@[k]).wf() && svals(
                        self.queues@[k].history(),
                    ) == if k < i {
                        self.hist@.push(dv)
                    } else {
                        self.hist@
                    },
                forall|k: int|
                    0 <= k < n ==> (#[trigger] self.queues@[k]).taken_count() == old(
                        self,
                    ).queues@[k].taken_count(),
                forall|k: int|
                    0 <= k < i ==> svals((#[trigger] self.queues@[k]).contents()) == svals(
                        old(self).queues@[k].contents(),
                    ).push(dv),
                forall|k: int|
                    i <= k < n ==> (#[trigger] self.queues@[k]).contents() == old(
                        self,
                    ).queues@[k].contents(),
                self.hist@ == old(self).hist@,
                self.sent == old(self).sent,
            decreases n - i,
        {
            let copy = data.dup();
            proof {
                let ghost pre = self.queues@[i as int];
                assert(svals(pre.contents()) == svals(old(self).queues@[i as int].contents()));
            }
            let ghost prewhole = self.queues@;
            let ch = &mut self.queues[i];
            let ghost pre = *ch;
            ch.send(copy);
            proof {
                assert(self.queues@ =~= prewhole.update(i as int, self.queues@[i as int]));
                let post = self.queues@[i as int];
                assert(post.history() == pre.history().push(copy));
                assert(svals(post.history()) =~= svals(pre.history()).push(copy.sval()));
                assert(svals(post.contents()) =~= svals(pre.contents()).push(copy.sval()));
                assert(svals(old(self).queues@[i as int].contents()) == svals(pre.contents()));
            }
            i = i + 1;
        }
        proof {
            self.hist@ = self.hist@.push(dv);
            assert forall|k: int| 0 <= k < self.group_size() implies (#[trigger] self.member(
                k,
            )).wf() && svals(self.member(k).history()) == self.history() by {
                assert(self.member(k) == self.queues@[k]);
            }
            assert forall|k: int| 0 <= k < self.group_size() implies (#[trigger] self.member(
                k,
            )).taken_count() == old(self).member(k).taken_count() && svals(
                self.member(k).contents(),
            ) == svals(old(self).member(k).contents()).push(data.sval()) by {
                assert(self.member(k) == self.queues@[k]);
                assert(old(self).member(k) == old(self).queues@[k]);
            }
        }
        self.sent = if self.sent < usize::MAX {
            self.sent + 1
        } else {
            self.sent
        };
    }

    /// Dequeue the oldest value on member `member`'s queue.
    pub fn recv(&mut self, member: usize) -> (r: T)
        requires
            old(self).wf(),
            member < old(self).group_size(),
            old(self).member(member as int).contents().len() > 0,
        ensures
            final(self).wf(),
            final(self).group_size() == old(self).group_size(),
            final(self).history() == old(self).history(),
            r == old(self).member(member as int).contents()[0],
            r.sval() == old(self).history()[old(self).member(member as int).taken_count()],
            final(self).member(member as int).contents() == old(self).member(
                member as int,
            ).contents().drop_first(),
            final(self).member(member as int).taken_count() == old(self).member(
                member as int,
            ).taken_count() + 1,
            forall|i: int|
                0 <= i < final(self).group_size() && i != member ==> #[trigger] final(self).member(
                    i,
                ) == old(self).member(i),
    {
        proof {
            old(self).lemma_wf();
        }
        let ghost prewhole = self.queues@;
        let ch = &mut self.queues[member];
        let ghost pre = *ch;
        let r = ch.recv();
        proof {
            assert(self.queues@ =~= prewhole.update(member as int, self.queues@[member as int]));
            assert(svals(pre.history())[pre.taken_count()] == r.sval());
            let post = self.queues@[member as int];
            assert(svals(post.history()) == svals(pre.history()));
            assert forall|i: int| 0 <= i < self.group_size() implies (#[trigger] self.member(
                i,
            )).wf() && svals(self.member(i).history()) == self.history() by {
                assert(self.member(i) == self.queues@[i]);
                assert(old(self).member(i).wf());
                if i != member {
                    assert(self.queues@[i] == prewhole[i]);
                }
            }
            assert forall|i: int|
                0 <= i < self.group_size() && i != member implies #[trigger] self.member(i) == old(
                self,
            ).member(i) by {
                assert(self.queues@[i] == prewhole[i]);
            }
        }
        r
    }

    /// How many broadcasts this group has carried (saturating).
    pub fn get_sent(&self) -> (r: usize)
        requires
            self.wf(),
        ensures
            self.history().len() <= usize::MAX ==> r == self.history().len(),
            r <= self.history().len(),
    {
        self.sent
    }
}

/// Channel FIFO law: at any point, the values received so far followed by
/// the values still queued replay the send history exactly, in order.  In
/// particular every receive returns the oldest unreceived send.
pub proof fn lemma_channel_fifo<T>(c: Channel<T>)
    requires
        c.wf(),
    ensures
        c.received() + c.contents() == c.history(),
        c.received() == c.history().take(c.taken_count()),
{
    assert(c.received() + c.contents() =~= c.history());
}

/// Broadcast total order: every member of a group observes, as its received
/// sequence, a prefix of the one broadcast history of the group.
pub proof fn lemma_broadcast_prefix<T: Sendable>(b: BChannel<T>, i: int)
    requires
        b.wf(),
        0 <= i < b.group_size(),
    ensures
        svals(b.member(i).received()) == b.history().take(b.member(i).taken_count()),
        b.member(i).taken_count() <= b.history().len(),
{
    assert(svals(b.member(i).received()) =~= svals(b.member(i).history()).take(
        b.member(i).taken_count(),
    ));
}

/// Broadcast atomicity: two members of a group agree on the broadcast
/// content at every position both have reached.  Receivers never observe
/// the group's broadcasts in different orders.
pub proof fn lemma_broadcast_agreement<T: Sendable>(b: BChannel<T>, i: int, j: int, k: int)
    requires
        b.wf(),
        0 <= i < b.group_size(),
        0 <= j < b.group_size(),
        0 <= k < b.member(i).taken_count(),
        k < b.member(j).taken_count(),
    ensures
        svals(b.member(i).received())[k] == svals(b.member(j).received())[k],
        svals(b.member(i).received())[k] == b.history()[k],
{
    lemma_broadcast_prefix(b, i);
    lemma_broadcast_prefix(b, j);
}

} // verus!
