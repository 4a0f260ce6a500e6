//! Per-worker virtual clocks.  In probe mode every worker carries a clock
//! `used + additional`, in nanoseconds: `used` is the CPU time attributed to
//! the worker's own computation, and `additional` is the synthetic debt that
//! grows on every send (by the transmission cost) and on every receive (by
//! the slack between the local clock and the message's arrival time).  The
//! clock never decreases.

use vstd::prelude::*;
use crate::processor::taurus::TimeTaurusNetworkBuilder;

verus! {

/// The frozen clock of one worker, harvested when the run ends.
#[derive(Clone, Copy, Debug, PartialEq, Eq, Structural)]
pub struct CoreDebug {
    pub row: usize,
    pub col: usize,
    /// The worker's final virtual time, in nanoseconds.
    pub stat: u64,
}

impl CoreDebug {
    pub fn new(row: usize, col: usize, stat: u64) -> (r: CoreDebug)
        ensures
            r == (CoreDebug { row, col, stat }),
    {
        CoreDebug { row, col, stat }
    }
}

/// `a + b` held inside the 64-bit range.
pub open spec fn sat_add64(a: u64, b: u64) -> u64 {
    if a + b > u64::MAX {
        u64::MAX
    } else {
        (a + b) as u64
    }
}

/// One worker's virtual-clock ledger.
pub struct ThreadTimeProbe {
    pub row: usize,
    pub col: usize,
    /// CPU time attributed to this worker, in nanoseconds.
    pub used: u64,
    /// Synthetic time added by communication, in nanoseconds.
    pub additional: u64,
}

impl ThreadTimeProbe {
    /// The worker's virtual clock, held inside the 64-bit range.
    pub open spec fn clock(&self) -> u64 {
        sat_add64(self.used, self.additional)
    }

    pub fn new(row: usize, col: usize) -> (r: ThreadTimeProbe)
        ensures
            r.row == row,
            r.col == col,
            r.used == 0,
            r.additional == 0,
    {
        ThreadTimeProbe { row, col, used: 0, additional: 0 }
    }

    /// The current virtual clock.
    pub fn get_curr_elapsed(&self) -> (r: u64)
        ensures
            r == self.clock(),
    {
        self.used.saturating_add(self.additional)
    }

    /// A message sent at virtual time `outer` has arrived: if the local
    /// clock lags behind, the difference becomes waiting debt.  The clock
    /// becomes the maximum of its old value and `outer`, and never
    /// decreases.
    pub fn update_elapsed(&mut self, outer: u64)
        ensures
            final(self).row == old(self).row,
            final(self).col == old(self).col,
            final(self).used == old(self).used,
            final(self).additional >= old(self).additional,
            final(self).clock() == if old(self).clock() < outer {
                outer
            } else {
                old(self).clock()
            },
    {
        let current = self.get_curr_elapsed();
        if current < outer {
            self.additional = self.additional + (outer - current);
        }
    }

    /// Add a synthetic increment (a transmission cost) to the clock.  The
    /// clock never decreases.
    pub fn increment_time(&mut self, increment: u64)
        ensures
            final(self).row == old(self).row,
            final(self).col == old(self).col,
            final(self).used == old(self).used,
            final(self).additional == sat_add64(old(self).additional, increment),
            final(self).clock() >= old(self).clock(),
    {
        self.additional = self.additional.saturating_add(increment);
    }

    /// Attribute computation time to this worker.  The clock never
    /// decreases.
    pub fn add_used(&mut self, delta: u64)
        ensures
            final(self).row == old(self).row,
            final(self).col == old(self).col,
            final(self).additional == old(self).additional,
            final(self).used == sat_add64(old(self).used, delta),
            final(self).clock() >= old(self).clock(),
    {
        self.used = self.used.saturating_add(delta);
    }

    /// Freeze the clock into a `CoreDebug` record.
    pub fn end(self) -> (r: CoreDebug)
        ensures
            r.row == self.row,
            r.col == self.col,
            r.stat == self.clock(),
    {
        let stat = self.get_curr_elapsed();
        CoreDebug { row: self.row, col: self.col, stat }
    }
}

/// Monotone virtual clock: a worker's clock always dominates the CPU time
/// attributed to it, and each of the ledger's operations only moves the
/// clock forward (each states so in its contract).
pub proof fn lemma_clock_dominates_cpu(p: ThreadTimeProbe)
    ensures
        p.clock() >= p.used,
{
}

#[verifier::external_type_specification]
#[verifier::external_body]
pub struct ExThreadTime(cpu_time::ThreadTime);

/// Relies on cpu_time::ThreadTime::try_now: a snapshot of the CPU clock of
/// the calling thread.  A failure of the OS clock becomes `None`.
#[verifier::external_body]
fn thread_time_now() -> Option<cpu_time::ThreadTime> {
    cpu_time::ThreadTime::try_now().ok()
}

/// Relies on cpu_time::ThreadTime::try_elapsed: the CPU time the calling
/// thread has consumed since the snapshot was taken, in nanoseconds.  The
/// result depends on the machine and the moment, so nothing is promised of
/// it; a failure of the OS clock becomes `None`.
#[verifier::external_body]
fn thread_time_elapsed_ns(t: &cpu_time::ThreadTime) -> Option<u128> {
    t.try_elapsed().ok().map(|d| d.as_nanos())
}

/// `x` held inside the 64-bit range.
fn clamp64(x: u128) -> (r: u64)
    ensures
        x <= u64::MAX ==> r == x,
        x > u64::MAX ==> r == u64::MAX,
{
    if x > u64::MAX as u128 {
        u64::MAX
    } else {
        x as u64
    }
}

/// The prober of a probe-mode run: one virtual-clock ledger per worker of
/// the grid, row-major, together with the interconnect cost model and the
/// thread CPU clock that computation time is read from.
pub struct ThreadTimeProber {
    pub probes: Vec<ThreadTimeProbe>,
    pub cost: TimeTaurusNetworkBuilder,
    pub enabled: bool,
    pub timer: Option<cpu_time::ThreadTime>,
    pub last_mark: u128,
}

/// Transmission cost of `bytes` bytes over a direct channel, in
/// nanoseconds: one second per byte, divided by the bandwidth.
pub open spec fn direct_cost_spec(bytes: int, bandwidth: int) -> int {
    bytes * 1_000_000_000 / bandwidth
}

/// Transmission cost of a broadcast to `group` members: the direct cost
/// plus the startup cost once per member.
pub open spec fn broadcast_cost_spec(bytes: int, bandwidth: int, startup: int, group: int) -> int {
    direct_cost_spec(bytes, bandwidth) + startup * group
}

impl ThreadTimeProber {
    pub open spec fn count(&self) -> int {
        self.probes@.len() as int
    }

    pub open spec fn probe_at(&self, i: int) -> ThreadTimeProbe {
        self.probes@[i]
    }

    pub open spec fn enabled_spec(&self) -> bool {
        self.enabled
    }

    pub open spec fn cost_model(&self) -> TimeTaurusNetworkBuilder {
        self.cost
    }

    /// Every clock of `post` is at least the matching clock of `pre`.
    pub open spec fn advanced_from(post: &Self, pre: &Self) -> bool {
        &&& post.count() == pre.count()
        &&& post.enabled_spec() == pre.enabled_spec()
        &&& post.cost_model() == pre.cost_model()
        &&& forall|i: int|
            0 <= i < post.count() ==> (#[trigger] post.probe_at(i)).clock() >= pre.probe_at(
                i,
            ).clock() && post.probe_at(i).row == pre.probe_at(i).row && post.probe_at(i).col
                == pre.probe_at(i).col
    }

    /// One ledger per grid cell, row-major, all clocks zero.  A disabled
    /// prober never moves any clock: the plain driver runs with one.
    pub fn new(rows: usize, cols: usize, cost: TimeTaurusNetworkBuilder, enabled: bool) -> (r:
        ThreadTimeProber)
        requires
            rows * cols <= usize::MAX,
            cols >= 1,
        ensures
            r.count() == rows * cols,
            r.enabled_spec() == enabled,
            r.cost_model() == cost,
            forall|i: int|
                0 <= i < r.count() ==> (#[trigger] r.probe_at(i)).used == 0 && r.probe_at(
                    i,
                ).additional == 0,
    {
        let total = rows * cols;
        let mut probes: Vec<ThreadTimeProbe> = Vec::new();
        let mut i: usize = 0;
        while i < total
            invariant
                0 <= i <= total,
                cols >= 1,
                probes@.len() == i,
                forall|k: int|
                    0 <= k < i ==> (#[trigger] probes@[k]).used == 0 && probes@[k].additional == 0,
            decreases total - i,
        {
            probes.push(ThreadTimeProbe::new(i / cols, i % cols));
            i = i + 1;
        }
        let timer = if enabled {
            thread_time_now()
        } else {
            None
        };
        ThreadTimeProber { probes, cost, enabled, timer, last_mark: 0 }
    }

    /// Mark the start of a stretch of computation.
    pub fn begin_work(&mut self)
        ensures
            final(self).probes@ == old(self).probes@,
            final(self).enabled == old(self).enabled,
            final(self).cost == old(self).cost,
            Self::advanced_from(final(self), old(self)),
    {
        if self.enabled {
            let mark = match &self.timer {
                Some(t) => match thread_time_elapsed_ns(t) {
                    Some(n) => n,
                    None => self.last_mark,
                },
                None => self.last_mark,
            };
            self.last_mark = mark;
        }
    }

    /// Attribute the computation since the matching `begin_work` to worker
    /// `idx`.
    pub fn end_work(&mut self, idx: usize)
        requires
            idx < old(self).count(),
        ensures
            Self::advanced_from(final(self), old(self)),
            final(self).probe_at(idx as int).additional == old(self).probe_at(
                idx as int,
            ).additional,
            forall|i: int|
                0 <= i < old(self).count() && i != idx ==> #[trigger] final(self).probe_at(i)
                    == old(self).probe_at(i),
            !old(self).enabled_spec() ==> final(self).probes@ == old(self).probes@,
    {
        if self.enabled {
            let now = match &self.timer {
                Some(t) => match thread_time_elapsed_ns(t) {
                    Some(n) => n,
                    None => self.last_mark,
                },
                None => self.last_mark,
            };
            let delta: u128 = if now >= self.last_mark {
                now - self.last_mark
            } else {
                0
            };
            self.last_mark = now;
            let ghost preprobes = self.probes@;
            let p = &mut self.probes[idx];
            p.add_used(clamp64(delta));
            proof {
                assert(self.probes@ =~= preprobes.update(idx as int, self.probes@[idx as int]));
            }
        }
    }

    /// Charge worker `idx` for sending `bytes` bytes, and give the virtual
    /// arrival time of the message: the sender's clock after the charge,
    /// plus the interconnect latency.  A broadcast over `group_size`
    /// members additionally pays the startup cost once per member.
    pub fn charge_send(&mut self, idx: usize, bytes: usize, is_broadcast: bool, group_size: usize) -> (arrival: u64)
        requires
            idx < old(self).count(),
        ensures
            Self::advanced_from(final(self), old(self)),
            final(self).probe_at(idx as int).used == old(self).probe_at(idx as int).used,
            forall|i: int|
                0 <= i < old(self).count() && i != idx ==> #[trigger] final(self).probe_at(i)
                    == old(self).probe_at(i),
            old(self).enabled_spec() ==> final(self).probe_at(idx as int).additional == sat_add64(
                old(self).probe_at(idx as int).additional,
                cost_of(
                    bytes as int,
                    old(self).cost_model(),
                    is_broadcast,
                    group_size as int,
                ),
            ) && arrival == sat_add64(
                final(self).probe_at(idx as int).clock(),
                old(self).cost_model().latency,
            ),
            !old(self).enabled_spec() ==> final(self).probes@ == old(self).probes@ && arrival == 0,
    {
        if !self.enabled {
            return 0;
        }
        let cost = self.transmission_time(bytes, is_broadcast, group_size);
        let ghost preprobes = self.probes@;
        let p = &mut self.probes[idx];
        p.increment_time(cost);
        let arrival = p.get_curr_elapsed().saturating_add(self.cost.latency);
        proof {
            assert(self.probes@ =~= preprobes.update(idx as int, self.probes@[idx as int]));
        }
        arrival
    }

    /// The transmission cost of one message under the cost model, in
    /// nanoseconds, held inside the 64-bit range.
    pub fn transmission_time(&self, bytes: usize, is_broadcast: bool, group_size: usize) -> (r:
        u64)
        ensures
            r == cost_of(bytes as int, self.cost_model(), is_broadcast, group_size as int),
    {
        let bw: u128 = if self.cost.bandwidth == 0 {
            1
        } else {
            self.cost.bandwidth as u128
        };
        proof {
            assert((bytes as u128) * 1_000_000_000 <= u64::MAX as u128 * 1_000_000_000)
                by (nonlinear_arith)
                requires
                    bytes <= u64::MAX as u128,
            ;
            assert((self.cost.startup as u128) * (group_size as u128) <= u64::MAX as u128 * (
            u64::MAX as u128)) by (nonlinear_arith)
                requires
                    self.cost.startup as u128 <= u64::MAX as u128,
                    group_size as u128 <= u64::MAX as u128,
            ;
        }
        let direct: u128 = (bytes as u128) * 1_000_000_000u128 / bw;
        let total: u128 = if is_broadcast {
            direct.saturating_add((self.cost.startup as u128) * (group_size as u128))
        } else {
            direct
        };
        clamp64(total)
    }

    /// Record that worker `idx` received a message that arrived at virtual
    /// time `arrival`: any slack between the local clock and the arrival
    /// becomes waiting debt.
    pub fn observe_arrival(&mut self, idx: usize, arrival: u64)
        requires
            idx < old(self).count(),
        ensures
            Self::advanced_from(final(self), old(self)),
            final(self).probe_at(idx as int).used == old(self).probe_at(idx as int).used,
            forall|i: int|
                0 <= i < old(self).count() && i != idx ==> #[trigger] final(self).probe_at(i)
                    == old(self).probe_at(i),
            old(self).enabled_spec() ==> final(self).probe_at(idx as int).clock() == if old(
                self,
            ).probe_at(idx as int).clock() < arrival {
                arrival
            } else {
                old(self).probe_at(idx as int).clock()
            },
            !old(self).enabled_spec() ==> final(self).probes@ == old(self).probes@,
    {
        if !self.enabled {
            return ;
        }
        let ghost preprobes = self.probes@;
        let p = &mut self.probes[idx];
        p.update_elapsed(arrival);
        proof {
            assert(self.probes@ =~= preprobes.update(idx as int, self.probes@[idx as int]));
        }
    }

    /// Freeze every worker's clock into its `CoreDebug` record.
    pub fn extract_stats(&self) -> (r: Vec<CoreDebug>)
        ensures
            r@.len() == self.count(),
            forall|i: int|
                0 <= i < self.count() ==> #[trigger] r@[i] == (CoreDebug {
                    row: self.probe_at(i).row,
                    col: self.probe_at(i).col,
                    stat: self.probe_at(i).clock(),
                }),
    {
        let mut r: Vec<CoreDebug> = Vec::new();
        let mut i: usize = 0;
        while i < self.probes.len()
            invariant
                0 <= i <= self.probes@.len(),
                r@.len() == i,
                forall|k: int|
                    0 <= k < i ==> #[trigger] r@[k] == (CoreDebug {
                        row: self.probes@[k].row,
                        col: self.probes@[k].col,
                        stat: self.probes@[k].clock(),
                    }),
            decreases self.probes@.len() - i,
        {
            let p = &self.probes[i];
            r.push(CoreDebug { row: p.row, col: p.col, stat: p.get_curr_elapsed() });
            i = i + 1;
        }
        r
    }
}

/// The transmission cost of a message under a cost model, in nanoseconds,
/// held inside the 64-bit range.
pub open spec fn cost_of(
    bytes: int,
    cost: TimeTaurusNetworkBuilder,
    is_broadcast: bool,
    group_size: int,
) -> u64 {
    let bw: int = if cost.bandwidth == 0 {
        1
    } else {
        cost.bandwidth as int
    };
    let raw: int = if is_broadcast {
        broadcast_cost_spec(bytes, bw, cost.startup as int, group_size)
    } else {
        direct_cost_spec(bytes, bw)
    };
    if raw > u64::MAX {
        u64::MAX
    } else {
        raw as u64
    }
}

/// Clock advancement is transitive across the steps of a run.
pub proof fn lemma_advanced_trans(a: ThreadTimeProber, b: ThreadTimeProber, c: ThreadTimeProber)
    requires
        ThreadTimeProber::advanced_from(&b, &a),
        ThreadTimeProber::advanced_from(&c, &b),
    ensures
        ThreadTimeProber::advanced_from(&c, &a),
{
    assert forall|i: int| 0 <= i < c.count() implies (#[trigger] c.probe_at(i)).clock()
        >= a.probe_at(i).clock() && c.probe_at(i).row == a.probe_at(i).row && c.probe_at(i).col
        == a.probe_at(i).col by {
        assert(b.probe_at(i).clock() >= a.probe_at(i).clock());
    }
}

/// The slowest worker of a run: the largest frozen clock, or `None` for an
/// empty run.  Under the synchronous interpretation this is the elapsed
/// time of the whole processor array.
pub fn max_debug_time(debugs: &Vec<CoreDebug>) -> (r: Option<u64>)
    ensures
        debugs@.len() == 0 <==> r is None,
        r is Some ==> exists|i: int|
            0 <= i < debugs@.len() && (#[trigger] debugs@[i]).stat == r->Some_0,
        r is Some ==> forall|i: int|
            0 <= i < debugs@.len() ==> (#[trigger] debugs@[i]).stat <= r->Some_0,
{
    if debugs.len() == 0 {
        return None;
    }
    let mut best: u64 = debugs[0].stat;
    let mut i: usize = 1;
    while i < debugs.len()
        invariant
            1 <= i <= debugs@.len(),
            exists|k: int| 0 <= k < i && (#[trigger] debugs@[k]).stat == best,
            forall|k: int| 0 <= k < i ==> (#[trigger] debugs@[k]).stat <= best,
        decreases debugs@.len() - i,
    {
        if debugs[i].stat > best {
            best = debugs[i].stat;
        }
        i = i + 1;
    }
    Some(best)
}

/// Critical-path lower bound, first half: the reported processor-wide time
/// dominates the CPU time attributed to every worker, since each worker's
/// frozen clock is its attributed CPU time plus a non-negative debt.
pub proof fn lemma_max_time_dominates_cpu(prober: ThreadTimeProber, stats: Seq<CoreDebug>, m: u64)
    requires
        stats.len() == prober.count(),
        forall|i: int|
            0 <= i < prober.count() ==> (#[trigger] stats[i]).stat == prober.probe_at(i).clock(),
        forall|i: int| 0 <= i < stats.len() ==> (#[trigger] stats[i]).stat <= m,
    ensures
        forall|i: int| 0 <= i < prober.count() ==> m >= (#[trigger] prober.probe_at(i)).used,
{
    assert forall|i: int| 0 <= i < prober.count() implies m >= (#[trigger] prober.probe_at(
        i,
    )).used by {
        lemma_clock_dominates_cpu(prober.probe_at(i));
        assert(stats[i].stat == prober.probe_at(i).clock());
    }
}

} // verus!
