//! Time sync.
//!
//! ```text
//! Unsynced | TICK seen                 | send SYNC_REQ        | Syncing
//! Syncing  | SYNC_RESP, RTT <= 1.5x min| add sample           | Syncing, until 8
//! Syncing  | 8 good samples            | set offset           | Synced
//! Synced   | 30 s elapsed              | send SYNC_REQ        | Synced
//! Synced   | 3 TICKs missed            | -                    | Unsynced
//! any      | correction needed         | SLEW, never step     | -
//! ```
//!
//! Effects are pure functions of position and time, so two devices that
//! disagree about the time render different frames of the same show.
//!
//! **Filter on RTT.** The offset estimate assumes that the request and the
//! response took equally long. Discarding anything slower than 1.5 times the
//! running minimum throws away the samples where that is least true.
//!
//! **Never step.** Corrections slew the rate; a step renders a frame twice or
//! skips one.
//!
//! **Degrade explicitly.** Losing sync is raised, so that the layer above can
//! suppress tightly-synced content instead of rendering it wrong.

use vstd::prelude::*;

use crate::num::{capped, halved, least, least_of, past};
use crate::order::{sort, Ranked};

verus! {

/// Samples needed before the offset is trusted.
pub const SAMPLES_REQUIRED: usize = 8;

/// How much slower than the best round trip a sample may be and still count, in
/// eighths: 12/8 = 1.5.
pub const RTT_TOLERANCE_EIGHTHS: u64 = 12;

/// How often a synced node re-checks.
pub const RESYNC_INTERVAL_US: u64 = 30_000_000;

/// Missed `TICK`s before the clock is no longer trusted. A single dropped
/// multicast is ordinary on a consumer access point.
pub const MISSED_TICKS_ALLOWED: u32 = 3;

/// Expected `TICK` period, from the leader's send interval.
pub const TICK_PERIOD_US: u64 = 1_000_000;

/// How long without a `TICK` before sync is lost.
pub const TICK_TIMEOUT_US: u64 = TICK_PERIOD_US * MISSED_TICKS_ALLOWED as u64;

/// How much the clock is trusted.
#[derive(Clone, Copy, PartialEq, Eq, Debug, Structural)]
pub enum SyncState {
    /// No usable timebase. Suppress tightly-synced content.
    Unsynced,
    /// Collecting samples.
    Syncing,
    /// Offset known and applied.
    Synced,
}

/// One completed round trip.
///
/// `t1` is when the request left, `t2` and `t3` are the peer's receive and send
/// times, `t4` is when the response arrived.
#[derive(Clone, Copy, PartialEq, Eq, Debug, Structural)]
pub struct Sample {
    pub t1: u64,
    pub t2: u64,
    pub t3: u64,
    pub t4: u64,
}

impl Sample {
    /// `((t2 - t1) + (t3 - t4)) / 2`, dropping the fraction.
    pub open spec fn offset(self) -> int {
        halved((self.t2 - self.t1) + (self.t3 - self.t4))
    }

    /// `(t4 - t1) - (t3 - t2)`, each difference and the result no less than
    /// zero.
    pub open spec fn rtt(self) -> int {
        past(past(self.t4 as int, self.t1 as int), past(self.t3 as int, self.t2 as int))
    }

    /// How far ahead the peer's clock is, in microseconds. An offset of more
    /// than half the range of the clock keeps its low 64 bits.
    pub fn offset_us(&self) -> (r: i64)
        ensures
            r == self.offset() as i64,
            i64::MIN <= self.offset() <= i64::MAX ==> r == self.offset(),
    {
        let a: i128 = self.t2 as i128 - self.t1 as i128;
        let b: i128 = self.t3 as i128 - self.t4 as i128;
        let sum: i128 = a + b;
        let half: i128 = if sum >= 0 {
            sum / 2
        } else {
            -((-sum) / 2)
        };
        assert(half == self.offset());
        #[verifier::truncate]
        (half as i64)
    }

    /// Elapsed here, minus the time that the peer held it.
    pub fn rtt_us(&self) -> (r: u64)
        ensures
            r == self.rtt(),
    {
        let total: u64 = self.t4.saturating_sub(self.t1);
        let held: u64 = self.t3.saturating_sub(self.t2);
        total.saturating_sub(held)
    }
}

/// What the sync machine wants next.
#[derive(Clone, Copy, PartialEq, Eq, Debug, Structural)]
pub enum Outcome {
    Idle,
    /// Send a `SYNC_REQ` to the timebase master.
    Probe,
    /// Apply this correction by slewing.
    Discipline(i64),
    /// The clock is trustworthy now.
    Acquired,
    /// The clock is no longer trustworthy.
    Lost,
}

impl Ranked for i64 {
    open spec fn at_most(self, other: i64) -> bool {
        self <= other
    }

    proof fn total(a: i64, b: i64) {
    }

    proof fn transitive(a: i64, b: i64, c: i64) {
    }

    fn is_at_most(&self, other: &i64) -> (r: bool) {
        *self <= *other
    }
}

/// The median of eight offsets: put in order, the mean of the fourth and the
/// fifth, dropping the fraction.
///
/// One surviving outlier drags a mean by an eighth of its error and a median
/// not at all.
pub open spec fn median(offsets: Seq<i64>) -> int {
    let sorted = offsets.sort_by(|a: i64, b: i64| a <= b);
    halved(sorted[3] + sorted[4])
}

/// What the sync machine knows.
#[verifier::ext_equal]
pub ghost struct SyncModel {
    pub state: SyncState,
    /// Offsets accepted since the last convergence, oldest first.
    pub offsets: Seq<i64>,
    /// The fastest round trip seen.
    pub min_rtt_us: Option<u64>,
    pub last_tick_us: Option<u64>,
    pub last_probe_us: u64,
    /// Every correction so far, added up.
    pub applied_offset_us: i64,
}

/// `a + b`, held inside the range of a correction.
pub open spec fn accumulated(a: int, b: int) -> int {
    if a + b > i64::MAX {
        i64::MAX as int
    } else if a + b < i64::MIN {
        i64::MIN as int
    } else {
        a + b
    }
}

impl SyncModel {
    pub open spec fn cold() -> SyncModel {
        SyncModel {
            state: SyncState::Unsynced,
            offsets: Seq::empty(),
            min_rtt_us: None,
            last_tick_us: None,
            last_probe_us: 0,
            applied_offset_us: 0,
        }
    }

    /// A `TICK` arrived.
    pub open spec fn tick(self, now_us: u64) -> (SyncModel, Outcome) {
        let heard = SyncModel { last_tick_us: Some(now_us), ..self };
        if self.state is Unsynced {
            (
                SyncModel { state: SyncState::Syncing, last_probe_us: now_us, ..heard },
                Outcome::Probe,
            )
        } else {
            (heard, Outcome::Idle)
        }
    }

    /// The fastest round trip, once `sample` is counted.
    pub open spec fn best_rtt(self, sample: Sample) -> int {
        match self.min_rtt_us {
            Some(m) => least(m as int, sample.rtt()),
            None => sample.rtt(),
        }
    }

    /// Whether `sample` took too long to trust that both ways took equally
    /// long: more than one and a half times the fastest, itself included.
    pub open spec fn too_slow(self, sample: Sample) -> bool {
        sample.rtt() * 8 > self.best_rtt(sample) * RTT_TOLERANCE_EIGHTHS
    }

    /// The offsets, once one more is taken in.
    pub open spec fn window(self, offset: i64) -> Seq<i64> {
        if self.offsets.len() < SAMPLES_REQUIRED {
            self.offsets.push(offset)
        } else {
            self.offsets.drop_first().push(offset)
        }
    }

    /// A `SYNC_RESP` completed a round trip.
    pub open spec fn sample(self, now_us: u64, sample: Sample) -> (SyncModel, Outcome) {
        let measured = SyncModel {
            min_rtt_us: Some(self.best_rtt(sample) as u64),
            last_probe_us: now_us,
            ..self
        };
        let window = self.window(sample.offset() as i64);
        if self.too_slow(sample) {
            (measured, Outcome::Probe)
        } else if window.len() < SAMPLES_REQUIRED {
            (SyncModel { offsets: window, ..measured }, Outcome::Probe)
        } else {
            let correction = median(window) as i64;
            (
                SyncModel {
                    state: SyncState::Synced,
                    offsets: Seq::empty(),
                    applied_offset_us: accumulated(
                        self.applied_offset_us as int,
                        correction as int,
                    ) as i64,
                    ..measured
                },
                if correction != 0 {
                    Outcome::Discipline(correction)
                } else if self.state is Synced {
                    Outcome::Idle
                } else {
                    Outcome::Acquired
                },
            )
        }
    }

    /// Whether too many ticks have been missed.
    pub open spec fn master_silent(self, now_us: u64) -> bool {
        self.last_tick_us matches Some(last) && past(now_us as int, last as int) >= TICK_TIMEOUT_US
    }

    /// Time passed.
    pub open spec fn timer(self, now_us: u64) -> (SyncModel, Outcome) {
        let probed = (SyncModel { last_probe_us: now_us, ..self }, Outcome::Probe);
        if self.master_silent(now_us) {
            if self.state is Unsynced {
                (self, Outcome::Idle)
            } else {
                (
                    SyncModel { state: SyncState::Unsynced, offsets: Seq::empty(), ..self },
                    Outcome::Lost,
                )
            }
        } else {
            match self.state {
                SyncState::Unsynced => (self, Outcome::Idle),
                SyncState::Syncing => probed,
                SyncState::Synced => if past(now_us as int, self.last_probe_us as int)
                    >= RESYNC_INTERVAL_US {
                    probed
                } else {
                    (self, Outcome::Idle)
                },
            }
        }
    }

    /// How long the caller may sleep.
    ///
    /// A tick-loss deadline only counts while there is sync to lose. Once
    /// unsynced it is in the past for ever, and the way out is a `TICK`.
    pub open spec fn deadline(self, now_us: u64) -> int {
        let resync = if self.state is Synced {
            past(capped(self.last_probe_us + RESYNC_INTERVAL_US), now_us as int)
        } else {
            TICK_PERIOD_US as int
        };
        match self.last_tick_us {
            Some(last) if !(self.state is Unsynced) => least(
                resync,
                past(capped(last + TICK_TIMEOUT_US), now_us as int),
            ),
            _ => resync,
        }
    }
}

/// The time-sync state machine.
#[derive(Clone, Debug)]
pub struct Sync {
    state: SyncState,
    /// Accepted offsets, oldest first.
    samples: [i64; 8],
    count: usize,
    /// Smallest round trip seen, which is the best estimate of a symmetric path.
    min_rtt_us: Option<u64>,
    last_tick_us: Option<u64>,
    last_probe_us: u64,
    applied_offset_us: i64,
}

impl View for Sync {
    type V = SyncModel;

    closed spec fn view(&self) -> SyncModel {
        SyncModel {
            state: self.state,
            offsets: self.samples@.take(self.count as int),
            min_rtt_us: self.min_rtt_us,
            last_tick_us: self.last_tick_us,
            last_probe_us: self.last_probe_us,
            applied_offset_us: self.applied_offset_us,
        }
    }
}

impl Default for Sync {
    fn default() -> (s: Sync)
        ensures
            s@ == SyncModel::cold(),
            s.wf(),
    {
        Sync::new()
    }
}

impl Sync {
    /// The window never holds as many offsets as a convergence needs: the
    /// eighth one empties it.
    pub closed spec fn wf(self) -> bool {
        self.count < SAMPLES_REQUIRED
    }

    pub fn new() -> (s: Sync)
        ensures
            s@ == SyncModel::cold(),
            s.wf(),
    {
        let s = Sync {
            state: SyncState::Unsynced,
            samples: [0; 8],
            count: 0,
            min_rtt_us: None,
            last_tick_us: None,
            last_probe_us: 0,
            applied_offset_us: 0,
        };
        assert(s@.offsets =~= Seq::<i64>::empty());
        s
    }

    pub fn state(&self) -> (r: SyncState)
        ensures
            r == self@.state,
    {
        self.state
    }

    pub fn is_synced(&self) -> (r: bool)
        ensures
            r == (self@.state is Synced),
    {
        self.state == SyncState::Synced
    }

    /// Total correction applied so far.
    pub fn applied_offset_us(&self) -> (r: i64)
        ensures
            r == self@.applied_offset_us,
    {
        self.applied_offset_us
    }

    /// Best round trip seen, or `None` before the first response.
    pub fn min_rtt_us(&self) -> (r: Option<u64>)
        ensures
            r == self@.min_rtt_us,
    {
        self.min_rtt_us
    }

    /// A `TICK` from the timebase master.
    pub fn on_tick(&mut self, now_us: u64) -> (out: Outcome)
        requires
            old(self).wf(),
        ensures
            final(self).wf(),
            (final(self)@, out) == old(self)@.tick(now_us),
    {
        self.last_tick_us = Some(now_us);
        match self.state {
            SyncState::Unsynced => {
                self.state = SyncState::Syncing;
                self.last_probe_us = now_us;
                Outcome::Probe
            },
            _ => Outcome::Idle,
        }
    }

    /// A `SYNC_RESP` completing a round trip.
    pub fn on_sample(&mut self, now_us: u64, sample: Sample) -> (out: Outcome)
        requires
            old(self).wf(),
        ensures
            final(self).wf(),
            (final(self)@, out) == old(self)@.sample(now_us, sample),
    {
        let rtt: u64 = sample.rtt_us();
        let best: u64 = match self.min_rtt_us {
            Some(m) => least_of(m, rtt),
            None => rtt,
        };
        self.min_rtt_us = Some(best);
        self.last_probe_us = now_us;

        // Against the updated minimum, so that the fastest sample seen is never
        // itself discarded.
        let tolerated: u128 = RTT_TOLERANCE_EIGHTHS as u128;
        assert(tolerated == 12);
        if rtt as u128 * 8 > best as u128 * tolerated {
            // Ask again: on a busy link most samples are bad and a few are fine.
            return Outcome::Probe;
        }
        let offset: i64 = sample.offset_us();
        self.push(offset);
        if self.count < SAMPLES_REQUIRED {
            return Outcome::Probe;
        }
        let correction: i64 = self.consensus_offset();
        self.applied_offset_us = Sync::accumulate(self.applied_offset_us, correction);
        let was = self.state;
        self.state = SyncState::Synced;
        // Starting again from empty keeps a stale sample from an earlier network
        // condition out of the next estimate.
        self.count = 0;
        assert(self@.offsets =~= Seq::<i64>::empty());
        if correction != 0 {
            // The correction is the one thing that must not be dropped; the
            // caller learns about acquisition from `state`.
            Outcome::Discipline(correction)
        } else if was != SyncState::Synced {
            Outcome::Acquired
        } else {
            Outcome::Idle
        }
    }

    /// Time passed.
    pub fn on_timer(&mut self, now_us: u64) -> (out: Outcome)
        requires
            old(self).wf(),
        ensures
            final(self).wf(),
            (final(self)@, out) == old(self)@.timer(now_us),
    {
        // Losing the master matters more than probing again.
        if let Some(last) = self.last_tick_us {
            if now_us.saturating_sub(last) >= TICK_TIMEOUT_US {
                if self.state != SyncState::Unsynced {
                    self.state = SyncState::Unsynced;
                    self.count = 0;
                    // The minimum round trip is kept: it describes the network,
                    // not the master.
                    assert(self@.offsets =~= Seq::<i64>::empty());
                    return Outcome::Lost;
                }
                return Outcome::Idle;
            }
        }
        match self.state {
            SyncState::Unsynced => Outcome::Idle,
            SyncState::Syncing => {
                self.last_probe_us = now_us;
                Outcome::Probe
            },
            SyncState::Synced => {
                if now_us.saturating_sub(self.last_probe_us) >= RESYNC_INTERVAL_US {
                    self.last_probe_us = now_us;
                    Outcome::Probe
                } else {
                    Outcome::Idle
                }
            },
        }
    }

    /// When the caller should look in again.
    pub fn next_deadline_us(&self, now_us: u64) -> (r: u64)
        ensures
            r == self@.deadline(now_us),
    {
        let resync: u64 = match self.state {
            SyncState::Synced => self.last_probe_us.saturating_add(
                RESYNC_INTERVAL_US,
            ).saturating_sub(now_us),
            SyncState::Syncing => TICK_PERIOD_US,
            SyncState::Unsynced => TICK_PERIOD_US,
        };
        if self.state == SyncState::Unsynced {
            return resync;
        }
        match self.last_tick_us {
            Some(last) => {
                let deadline: u64 = last.saturating_add(TICK_TIMEOUT_US);
                least_of(resync, deadline.saturating_sub(now_us))
            },
            None => resync,
        }
    }

    fn accumulate(a: i64, b: i64) -> (r: i64)
        ensures
            r == accumulated(a as int, b as int),
    {
        match a.checked_add(b) {
            Some(sum) => sum,
            None => if b > 0 {
                i64::MAX
            } else {
                i64::MIN
            },
        }
    }

    fn push(&mut self, offset: i64)
        requires
            old(self).count <= SAMPLES_REQUIRED,
        ensures
            final(self)@ == (SyncModel { offsets: old(self)@.window(offset), ..old(self)@ }),
            final(self).count == final(self)@.offsets.len(),
    {
        if self.count < SAMPLES_REQUIRED {
            self.samples[self.count] = offset;
            self.count = self.count + 1;
        } else {
            let mut i: usize = 0;
            while i < 7
                invariant
                    i <= 7,
                    self.count == SAMPLES_REQUIRED,
                    old(self).count == SAMPLES_REQUIRED,
                    *self == (Sync { samples: self.samples, ..*old(self) }),
                    forall|k: int| 0 <= k < i ==> self.samples@[k] == old(self).samples@[k + 1],
                    forall|k: int| i <= k < 8 ==> self.samples@[k] == old(self).samples@[k],
                decreases 7 - i,
            {
                self.samples[i] = self.samples[i + 1];
                i += 1;
            }
            self.samples[7] = offset;
        }
        assert(self@.offsets =~= old(self)@.window(offset));
    }

    /// The median of the collected offsets.
    fn consensus_offset(&self) -> (r: i64)
        requires
            self.count == SAMPLES_REQUIRED,
        ensures
            r == median(self@.offsets),
    {
        let mut sorted: Vec<i64> = Vec::new();
        let mut i: usize = 0;
        while i < 8
            invariant
                i <= 8,
                sorted@ == self.samples@.take(i as int),
            decreases 8 - i,
        {
            sorted.push(self.samples[i]);
            i += 1;
            assert(sorted@ =~= self.samples@.take(i as int));
        }
        assert(self@.offsets =~= self.samples@.take(8));
        sort(sorted.as_mut_slice());
        proof {
            let leq = |a: i64, b: i64| a <= b;
            self@.offsets.lemma_sort_by_ensures(leq);
            assert forall|i: int, j: int| 0 <= i < j < sorted@.len() implies #[trigger] leq(
                sorted@[i],
                sorted@[j],
            ) by {
                assert(sorted@[i].at_most(sorted@[j]));
            }
            vstd::seq_lib::lemma_sorted_unique(sorted@, self@.offsets.sort_by(leq), leq);
        }
        let sum: i128 = sorted[3] as i128 + sorted[4] as i128;
        let half: i128 = if sum >= 0 {
            sum / 2
        } else {
            -((-sum) / 2)
        };
        half as i64
    }
}

/// The fastest sample seen is never discarded.
pub proof fn law_fastest_sample_counts(m: SyncModel, sample: Sample)
    requires
        m.min_rtt_us matches Some(best) ==> sample.rtt() <= best,
    ensures
        !m.too_slow(sample),
{
}

/// What a machine has learned about the network only gets better, and losing
/// the master does not throw it away.
pub proof fn law_network_measurement_kept(m: SyncModel, now_us: u64, sample: Sample)
    ensures
        m.tick(now_us).0.min_rtt_us == m.min_rtt_us,
        m.timer(now_us).0.min_rtt_us == m.min_rtt_us,
        m.min_rtt_us matches Some(best) ==> m.sample(now_us, sample).0.min_rtt_us->0 <= best,
        m.sample(now_us, sample).0.min_rtt_us->0 <= sample.rtt(),
{
}

/// A sample that was too slow changes nothing but the fastest round trip and
/// the time of the last probe: it never reaches the estimate.
pub proof fn law_slow_sample_never_reaches_the_estimate(m: SyncModel, now_us: u64, sample: Sample)
    requires
        m.too_slow(sample),
    ensures
        m.sample(now_us, sample).0.offsets == m.offsets,
        m.sample(now_us, sample).0.applied_offset_us == m.applied_offset_us,
        m.sample(now_us, sample).0.state == m.state,
        m.sample(now_us, sample).1 == Outcome::Probe,
{
}

/// One offset that has nothing to do with the others cannot move the estimate
/// outside the range of those others.
pub proof fn law_one_outlier_cannot_drag_the_median(
    offsets: Seq<i64>,
    outlier: int,
    lo: i64,
    hi: i64,
)
    requires
        offsets.len() == SAMPLES_REQUIRED,
        0 <= outlier < SAMPLES_REQUIRED,
        forall|i: int| 0 <= i < SAMPLES_REQUIRED && i != outlier ==> lo <= #[trigger] offsets[i] <= hi,
    ensures
        lo <= median(offsets) <= hi,
{
    broadcast use vstd::seq_lib::group_to_multiset_ensures;
    broadcast use vstd::multiset::group_multiset_axioms;

    let leq = |a: i64, b: i64| a <= b;
    let sorted = offsets.sort_by(leq);
    offsets.lemma_sort_by_ensures(leq);
    let rest = offsets.remove(outlier);
    assert(offsets.to_multiset().len() == sorted.to_multiset().len());
    assert(sorted.len() == 8);
    assert forall|x: i64| rest.contains(x) implies lo <= x <= hi by {
        let i = choose|i: int| 0 <= i < rest.len() && rest[i] == x;
        if i < outlier {
            assert(offsets[i] == x);
        } else {
            assert(offsets[i + 1] == x);
        }
    }
    // Take away from the sorted offsets one that lies outside the range: what is
    // left are the others.
    assert forall|k: int, j: int|
        #![trigger sorted[k], sorted[j]]
        0 <= k < 8 && 0 <= j < 8 && j != k && !(lo <= sorted[k] <= hi) implies lo <= sorted[j]
        <= hi by {
        let others = sorted.remove(k);
        assert(sorted.contains(sorted[k]));
        assert(sorted.to_multiset().count(sorted[k]) > 0);
        assert(rest.to_multiset() =~= offsets.to_multiset().remove(offsets[outlier]));
        assert(!rest.contains(sorted[k]));
        assert(rest.to_multiset().count(sorted[k]) == 0);
        assert(sorted[k] == offsets[outlier]);
        assert(others.to_multiset() =~= rest.to_multiset());
        let at = if j < k {
            j
        } else {
            j - 1
        };
        assert(others[at] == sorted[j]);
        assert(others.contains(sorted[j]));
        assert(others.to_multiset().count(sorted[j]) > 0);
        assert(rest.contains(sorted[j]));
    }
    assert(leq(sorted[0], sorted[3]) && leq(sorted[3], sorted[4]) && leq(sorted[4], sorted[7]));
    assert(leq(sorted[2], sorted[3]) && leq(sorted[4], sorted[5]));
}

/// When the others agree, an outlier does not move the estimate at all.
pub proof fn law_agreeing_samples_decide(offsets: Seq<i64>, outlier: int, agreed: i64)
    requires
        offsets.len() == SAMPLES_REQUIRED,
        0 <= outlier < SAMPLES_REQUIRED,
        forall|i: int| 0 <= i < SAMPLES_REQUIRED && i != outlier ==> #[trigger] offsets[i] == agreed,
    ensures
        median(offsets) == agreed,
{
    law_one_outlier_cannot_drag_the_median(offsets, outlier, agreed, agreed);
}

/// A machine that has lost sync asks to be woken at the tick rate, for ever, and
/// says that it lost sync once.
pub proof fn law_unsynced_never_busy_polls(m: SyncModel, now_us: u64)
    requires
        m.state is Unsynced,
    ensures
        m.deadline(now_us) == TICK_PERIOD_US,
        m.timer(now_us) == (m, Outcome::Idle),
{
}

/// The deadline is a time to sleep, and waiting makes it no longer.
pub proof fn law_deadline_shrinks(m: SyncModel, now_us: u64, later_us: u64)
    requires
        now_us <= later_us,
    ensures
        0 <= m.deadline(later_us) <= m.deadline(now_us) <= u64::MAX,
{
}

/// Sync is lost when three ticks have been missed and not before.
pub proof fn law_sync_survives_fewer_missed_ticks(m: SyncModel, last: u64, now_us: u64)
    requires
        m.last_tick_us == Some(last),
        !(m.state is Unsynced),
        now_us >= last,
    ensures
        (m.timer(now_us).1 == Outcome::Lost) == (now_us - last >= TICK_PERIOD_US
            * MISSED_TICKS_ALLOWED),
        (m.timer(now_us).0.state is Unsynced) == (now_us - last >= TICK_PERIOD_US
            * MISSED_TICKS_ALLOWED),
{
}

/// Corrections add up, and nothing but a convergence applies one. A convergence
/// starts the next estimate from nothing.
pub proof fn law_corrections_accumulate(m: SyncModel, now_us: u64, sample: Sample)
    requires
        m.offsets.len() < SAMPLES_REQUIRED,
    ensures
        m.tick(now_us).0.applied_offset_us == m.applied_offset_us,
        m.timer(now_us).0.applied_offset_us == m.applied_offset_us,
        m.sample(now_us, sample).1 matches Outcome::Discipline(by) ==> {
            &&& m.sample(now_us, sample).0.applied_offset_us == accumulated(
                m.applied_offset_us as int,
                by as int,
            )
            &&& m.sample(now_us, sample).0.offsets.len() == 0
            &&& m.sample(now_us, sample).0.state is Synced
        },
        !(m.sample(now_us, sample).1 is Discipline) ==> m.sample(now_us, sample).0.applied_offset_us
            == m.applied_offset_us,
{
}

/// Where both ways took equally long, a round trip measures what it is meant to: how far
/// the peer's clock is ahead, and how long the way there and back took without the time
/// that the peer held it.
pub proof fn law_a_symmetric_round_trip_is_measured_exactly(
    sample: Sample,
    way_us: int,
    ahead_us: int,
    held_us: int,
)
    requires
        0 <= way_us,
        0 <= held_us,
        sample.t2 == sample.t1 + way_us + ahead_us,
        sample.t3 == sample.t2 + held_us,
        sample.t4 == sample.t1 + way_us + held_us + way_us,
    ensures
        sample.offset() == ahead_us,
        sample.rtt() == 2 * way_us,
{
}

/// A round trip is as long as it took here less what the peer held it, and never less
/// than nothing.
pub proof fn law_a_round_trip_leaves_out_what_was_held(sample: Sample)
    ensures
        sample.rtt() >= 0,
        sample.t1 <= sample.t4 && sample.t2 <= sample.t3 ==> sample.rtt() == if sample.t4
            - sample.t1 >= sample.t3 - sample.t2 {
            (sample.t4 - sample.t1) - (sample.t3 - sample.t2)
        } else {
            0
        },
        sample.t4 < sample.t1 ==> sample.rtt() == 0,
        -1 <= sample.t2 - sample.t1 + sample.t3 - sample.t4 - 2 * sample.offset() <= 1,
{
}

/// The estimate is the middle of the eight: with the offsets in order, half way between
/// the fourth and the fifth, dropping the fraction.
pub proof fn law_the_estimate_is_the_middle(offsets: Seq<i64>, ordered: Seq<i64>)
    requires
        ordered.len() == 8,
        ordered.to_multiset() == offsets.to_multiset(),
        forall|i: int, j: int| 0 <= i < j < 8 ==> #[trigger] ordered[i] <= #[trigger] ordered[j],
    ensures
        ordered[3] + ordered[4] >= 0 ==> median(offsets) == (ordered[3] + ordered[4]) / 2,
        ordered[3] + ordered[4] < 0 ==> median(offsets) == -((-(ordered[3] + ordered[4])) / 2),
{
    let leq = |a: i64, b: i64| a <= b;
    offsets.lemma_sort_by_ensures(leq);
    vstd::seq_lib::lemma_sorted_unique(offsets.sort_by(leq), ordered, leq);
}

/// What a sample does. It is kept unless it took more than one and a half times the
/// fastest; while fewer than eight were kept another probe follows; the eighth makes the
/// clock trusted, corrects it by the middle of all eight, and starts over. Whatever it
/// was, it counts for the fastest and as the last time anyone was asked.
pub proof fn law_what_a_sample_does(m: SyncModel, now_us: u64, sample: Sample)
    requires
        m.offsets.len() < 8,
        i64::MIN <= sample.offset() <= i64::MAX,
    ensures
        ({
            let (after, said) = m.sample(now_us, sample);
            let rtt = sample.rtt();
            let fastest = after.min_rtt_us->0;
            let kept = 2 * rtt <= 3 * fastest;
            let all = m.offsets.push(sample.offset() as i64);
            &&& after.min_rtt_us is Some
            &&& fastest == rtt || m.min_rtt_us == Some(fastest)
            &&& fastest <= rtt
            &&& m.min_rtt_us is Some ==> fastest <= m.min_rtt_us->0
            &&& after.last_probe_us == now_us
            &&& after.last_tick_us == m.last_tick_us
            &&& !kept || all.len() < 8 ==> {
                &&& said is Probe
                &&& after.state == m.state
                &&& after.applied_offset_us == m.applied_offset_us
                &&& after.offsets == if kept {
                    all
                } else {
                    m.offsets
                }
            }
            &&& kept && all.len() == 8 ==> {
                let by = median(all);
                &&& after.state is Synced
                &&& after.offsets.len() == 0
                &&& i64::MIN <= m.applied_offset_us + by <= i64::MAX ==> after.applied_offset_us
                    == m.applied_offset_us + by
                &&& by != 0 ==> said == Outcome::Discipline(by as i64)
                &&& by == 0 && m.state is Synced ==> said is Idle
                &&& by == 0 && !(m.state is Synced) ==> said is Acquired
            }
        }),
{
    broadcast use vstd::seq_lib::group_to_multiset_ensures;

    let all = m.offsets.push(sample.offset() as i64);
    let leq = |a: i64, b: i64| a <= b;
    all.lemma_sort_by_ensures(leq);
    let sorted = all.sort_by(leq);
    assert(sorted.to_multiset().len() == all.to_multiset().len());
    if all.len() == 8 {
        assert(sorted.len() == 8);
        assert(i64::MIN <= median(all) <= i64::MAX);
    }
}

/// A tick of the master is noted, and starts the exchange where there was none.
pub proof fn law_what_a_tick_does(m: SyncModel, now_us: u64)
    ensures
        ({
            let (after, said) = m.tick(now_us);
            &&& after.last_tick_us == Some(now_us)
            &&& after.offsets == m.offsets
            &&& after.min_rtt_us == m.min_rtt_us
            &&& after.applied_offset_us == m.applied_offset_us
            &&& m.state is Unsynced ==> after.state is Syncing && said is Probe
                && after.last_probe_us == now_us
            &&& !(m.state is Unsynced) ==> after.state == m.state && said is Idle
                && after.last_probe_us == m.last_probe_us
        }),
{
}

/// What time does: three seconds without a tick lose whatever sync there is, samples and
/// all; until then a node that is syncing asks at once and a synced one every thirty
/// seconds.
pub proof fn law_what_time_does(m: SyncModel, now_us: u64)
    ensures
        ({
            let (after, said) = m.timer(now_us);
            let silent = m.last_tick_us matches Some(last) && now_us >= last + 3_000_000;
            let asks = !silent && (m.state is Syncing || m.state is Synced && now_us
                >= m.last_probe_us + 30_000_000);
            &&& said is Lost <==> silent && !(m.state is Unsynced)
            &&& said is Probe <==> asks
            &&& !(said is Lost) && !(said is Probe) ==> said is Idle && after == m
            &&& said is Lost ==> after == (SyncModel {
                state: SyncState::Unsynced,
                offsets: Seq::empty(),
                ..m
            })
            &&& said is Probe ==> after == (SyncModel { last_probe_us: now_us, ..m })
        }),
{
}

/// A synced node that hears its master sleeps until the next question is due or the
/// master would count as silent, whichever comes first; anything else wakes every second.
pub proof fn law_how_long_to_sleep(m: SyncModel, now_us: u64, last_us: u64)
    requires
        m.last_tick_us == Some(last_us),
        last_us <= now_us < 0x8000_0000_0000_0000,
        m.last_probe_us <= now_us,
    ensures
        ({
            let silent_in = last_us + 3_000_000 - now_us;
            let ask_in = m.last_probe_us + 30_000_000 - now_us;
            &&& m.state is Unsynced ==> m.deadline(now_us) == 1_000_000
            &&& m.state is Syncing ==> m.deadline(now_us) == if silent_in < 0 {
                0
            } else if silent_in < 1_000_000 {
                silent_in
            } else {
                1_000_000
            }
            &&& m.state is Synced ==> m.deadline(now_us) == if silent_in < 0 || ask_in < 0 {
                0
            } else if silent_in < ask_in {
                silent_in
            } else {
                ask_in
            }
        }),
{
}

/// Nothing is known at first.
pub proof fn law_a_cold_start_is_unsynced()
    ensures
        SyncModel::cold().state is Unsynced,
        SyncModel::cold().offsets.len() == 0,
        SyncModel::cold().min_rtt_us is None,
        SyncModel::cold().last_tick_us is None,
        SyncModel::cold().applied_offset_us == 0,
{
}

} // verus!
