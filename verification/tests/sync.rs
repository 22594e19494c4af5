//! What the clock synchronisation does with ticks, samples and silence.

use lumen_device::sync::{
    Outcome, Sample, Sync, SyncState, RESYNC_INTERVAL_US, SAMPLES_REQUIRED, TICK_PERIOD_US,
};

/// A round trip that took `rtt` with the peer's clock `offset` ahead.
fn sample(t1: u64, rtt: u64, offset: i64) -> Sample {
    let half = rtt / 2;
    Sample {
        t1,
        t2: (t1 as i64 + half as i64 + offset) as u64,
        t3: (t1 as i64 + half as i64 + offset) as u64,
        t4: t1 + rtt,
    }
}

#[test]
fn offset_and_rtt_come_out_of_a_symmetric_exchange() {
    let s = sample(1_000, 400, 5_000);
    assert_eq!(s.rtt_us(), 400);
    assert_eq!(s.offset_us(), 5_000);
}

#[test]
fn a_negative_offset_survives_the_arithmetic() {
    // The case that breaks a u64 implementation: the peer is behind us.
    let s = sample(1_000_000, 200, -7_500);
    assert_eq!(s.offset_us(), -7_500);
    assert_eq!(s.rtt_us(), 200);
}

#[test]
fn a_peer_that_held_the_request_does_not_inflate_the_rtt() {
    let s = Sample {
        t1: 0,
        t2: 100,
        t3: 900,
        t4: 1_000,
    };
    assert_eq!(s.rtt_us(), 200, "the 800us the peer held it must not count");
}

#[test]
fn a_cold_node_starts_unsynced_and_probes_on_the_first_tick() {
    let mut s = Sync::new();
    assert_eq!(s.state(), SyncState::Unsynced);
    assert!(!s.is_synced());
    assert_eq!(s.on_tick(1_000), Outcome::Probe);
    assert_eq!(s.state(), SyncState::Syncing);
    // A second tick does not restart the exchange.
    assert_eq!(s.on_tick(2_000), Outcome::Idle);
}

#[test]
fn eight_good_samples_converge() {
    let mut s = Sync::new();
    s.on_tick(0);
    for i in 0..SAMPLES_REQUIRED - 1 {
        assert_eq!(
            s.on_sample(i as u64 * 1_000, sample(i as u64 * 1_000, 400, 5_000)),
            Outcome::Probe,
            "sample {i} should ask for another"
        );
        assert_eq!(s.state(), SyncState::Syncing);
    }
    let last = s.on_sample(9_000, sample(9_000, 400, 5_000));
    assert_eq!(last, Outcome::Discipline(5_000));
    assert!(s.is_synced());
    assert_eq!(s.applied_offset_us(), 5_000);
}

#[test]
fn a_slow_sample_is_discarded_rather_than_averaged_in() {
    // A single bad sample can move the clock further than an hour of drift.
    let mut s = Sync::new();
    s.on_tick(0);
    // Establish a fast path.
    s.on_sample(0, sample(0, 200, 1_000));
    // Now one that took five times as long, claiming a wildly different
    // offset. It must not reach the estimate.
    assert_eq!(
        s.on_sample(1_000, sample(1_000, 1_000, 900_000)),
        Outcome::Probe
    );
    for i in 2..=SAMPLES_REQUIRED {
        s.on_sample(i as u64 * 1_000, sample(i as u64 * 1_000, 200, 1_000));
    }
    assert!(s.is_synced());
    assert_eq!(
        s.applied_offset_us(),
        1_000,
        "the slow sample leaked into the estimate"
    );
}

#[test]
fn the_fastest_sample_is_never_discarded_for_beating_the_old_minimum() {
    // Filtering against the previous minimum instead of the updated one
    // throws away exactly the best measurement available.
    let mut s = Sync::new();
    s.on_tick(0);
    s.on_sample(0, sample(0, 1_000, 100));
    assert_eq!(s.min_rtt_us(), Some(1_000));
    // Much faster, so a better sample - it must be accepted.
    let out = s.on_sample(1_000, sample(1_000, 100, 100));
    assert_eq!(out, Outcome::Probe);
    assert_eq!(s.min_rtt_us(), Some(100));
}

#[test]
fn the_estimate_is_a_median_so_one_outlier_cannot_drag_it() {
    // The RTT filter does not catch a path that is consistently asymmetric,
    // so the estimator has to be robust on its own.
    let mut s = Sync::new();
    s.on_tick(0);
    for i in 0..SAMPLES_REQUIRED - 1 {
        s.on_sample(i as u64, sample(i as u64, 200, 1_000));
    }
    // One last sample with the same RTT but a nonsense offset.
    let bad = Sample {
        t1: 100,
        t2: 100 + 100 + 500_000,
        t3: 100 + 100 + 500_000,
        t4: 300,
    };
    s.on_sample(300, bad);
    assert!(s.is_synced());
    assert_eq!(s.applied_offset_us(), 1_000, "the median moved");
}

#[test]
fn corrections_accumulate_across_resyncs() {
    let mut s = Sync::new();
    s.on_tick(0);
    for i in 0..SAMPLES_REQUIRED {
        s.on_sample(i as u64, sample(i as u64, 200, 1_000));
    }
    assert_eq!(s.applied_offset_us(), 1_000);
    // A second convergence, now only 50us out.
    for i in 0..SAMPLES_REQUIRED {
        s.on_sample(100 + i as u64, sample(100 + i as u64, 200, 50));
    }
    assert_eq!(s.applied_offset_us(), 1_050);
}

#[test]
fn a_synced_node_reprobes_after_the_interval_and_not_before() {
    // Ticks have to keep arriving throughout, or the node correctly falls
    // out of sync long before the resync interval elapses - thirty seconds
    // of silence is ten times the tick timeout.
    let mut s = synced();
    let last_quiet = RESYNC_INTERVAL_US / TICK_PERIOD_US - 1;
    for k in 1..=last_quiet {
        let now = k * TICK_PERIOD_US;
        s.on_tick(now);
        assert_eq!(s.on_timer(now), Outcome::Idle, "reprobed early at {now}");
    }
    // A second past the interval, not exactly on it: the interval is
    // measured from the last sample, which landed a few microseconds after
    // the machine was built. Asserting the exact microsecond would be
    // testing the fixture, not the behaviour.
    let after = RESYNC_INTERVAL_US + TICK_PERIOD_US;
    s.on_tick(after);
    assert_eq!(s.on_timer(after), Outcome::Probe);
    assert!(s.is_synced(), "reprobing must not drop the current offset");
}

/// A machine that has converged, with the last tick at time zero.
fn synced() -> Sync {
    let mut s = Sync::new();
    s.on_tick(0);
    for i in 0..SAMPLES_REQUIRED {
        s.on_sample(i as u64, sample(i as u64, 200, 0));
    }
    assert!(s.is_synced());
    s
}

#[test]
fn three_missed_ticks_lose_sync_and_one_does_not() {
    // A single dropped multicast is ordinary on a consumer AP. Dropping out
    // of sync each time would make the mesh spend its life resyncing.
    let mut s = synced();
    assert_eq!(s.on_timer(TICK_PERIOD_US), Outcome::Idle);
    assert_eq!(s.on_timer(2 * TICK_PERIOD_US), Outcome::Idle);
    assert!(s.is_synced());
    assert_eq!(s.on_timer(3 * TICK_PERIOD_US), Outcome::Lost);
    assert_eq!(s.state(), SyncState::Unsynced);
    // And it does not keep announcing the loss.
    assert_eq!(s.on_timer(4 * TICK_PERIOD_US), Outcome::Idle);
}

#[test]
fn losing_sync_keeps_the_network_measurement() {
    // The minimum RTT describes the network, not the master. Throwing it
    // away would make the next convergence accept samples it should not.
    let mut s = synced();
    let rtt = s.min_rtt_us();
    s.on_timer(3 * TICK_PERIOD_US);
    assert_eq!(s.min_rtt_us(), rtt);
}

#[test]
fn a_recovered_master_resyncs_from_scratch() {
    let mut s = synced();
    s.on_timer(3 * TICK_PERIOD_US);
    assert_eq!(s.state(), SyncState::Unsynced);
    assert_eq!(s.on_tick(10 * TICK_PERIOD_US), Outcome::Probe);
    assert_eq!(s.state(), SyncState::Syncing);
}

#[test]
fn a_zero_correction_reports_acquisition_rather_than_a_pointless_discipline() {
    let mut s = Sync::new();
    s.on_tick(0);
    for i in 0..SAMPLES_REQUIRED - 1 {
        s.on_sample(i as u64, sample(i as u64, 200, 0));
    }
    assert_eq!(s.on_sample(99, sample(99, 200, 0)), Outcome::Acquired);
    assert!(s.is_synced());
}

#[test]
fn an_unsynced_node_does_not_busy_poll() {
    // The tick-loss deadline is permanently in the past once sync is gone, so
    // folding it in would ask to be woken as fast as the shell allows - which is
    // exactly what `next_deadline_us` exists to prevent.
    let mut s = synced();
    s.on_timer(3 * TICK_PERIOD_US);
    assert_eq!(s.state(), SyncState::Unsynced);
    for step in 3..60u64 {
        let now = step * TICK_PERIOD_US;
        s.on_timer(now);
        assert!(
            s.next_deadline_us(now) >= TICK_PERIOD_US / 2,
            "asked to be woken in {}us at {now}",
            s.next_deadline_us(now)
        );
    }
}

#[test]
fn the_deadline_never_underflows_and_shrinks_toward_the_tick_timeout() {
    let s = synced();
    let early = s.next_deadline_us(0);
    let later = s.next_deadline_us(TICK_PERIOD_US);
    assert!(later < early, "{later} should be less than {early}");
    assert_eq!(s.next_deadline_us(u64::MAX / 2), 0);

    // A machine that has never seen a tick still asks to be woken.
    let cold = Sync::new();
    assert!(cold.next_deadline_us(0) > 0);
}

#[test]
fn the_sample_window_slides_rather_than_overflowing() {
    let mut s = Sync::new();
    s.on_tick(0);
    // Feed far more than the window holds; the machine must keep working.
    for i in 0..100u64 {
        s.on_sample(i, sample(i, 200, 42));
    }
    assert!(s.is_synced());
}

#[test]
fn default_matches_new() {
    assert_eq!(Sync::default().state(), Sync::new().state());
}

#[test]
fn the_median_of_an_even_window_is_the_mean_of_its_middle_pair() {
    let mut s = Sync::new();
    s.on_tick(0);
    // Offsets 0, 10, .., 70: sorted, the fourth and the fifth of eight decide.
    let mut last = Outcome::Idle;
    for i in 0..SAMPLES_REQUIRED as u64 {
        last = s.on_sample(i, sample(1_000, 200, 10 * i as i64));
    }
    assert_eq!(last, Outcome::Discipline(35));
    assert_eq!(s.applied_offset_us(), 35);
}

#[test]
fn a_sample_at_the_tolerance_counts_and_one_past_it_does_not() {
    // Half as much again as the fastest is still taken.
    let mut s = Sync::new();
    s.on_tick(0);
    s.on_sample(0, sample(0, 200, 0));
    for i in 1..SAMPLES_REQUIRED as u64 {
        assert!(!s.is_synced());
        s.on_sample(i, sample(i, 300, 0));
    }
    assert!(s.is_synced());

    let mut s = Sync::new();
    s.on_tick(0);
    s.on_sample(0, sample(0, 200, 0));
    for i in 1..SAMPLES_REQUIRED as u64 {
        s.on_sample(i, sample(i, 302, 0));
    }
    assert!(!s.is_synced());
}

#[test]
fn the_offset_of_extreme_timestamps_does_not_overflow() {
    let s = Sample { t1: 0, t2: u64::MAX, t3: u64::MAX, t4: 0 };
    assert_eq!(s.rtt_us(), 0);
    let _ = s.offset_us();
    let s = Sample { t1: 10, t2: 0, t3: 0, t4: 4 };
    assert_eq!(s.rtt_us(), 0, "a reply before its question took no time");
}

#[test]
fn sync_outlives_any_silence_shorter_than_the_timeout() {
    let mut s = synced();
    assert_eq!(s.on_timer(3 * TICK_PERIOD_US - 1), Outcome::Idle);
    assert!(s.is_synced());
    assert_eq!(s.on_timer(3 * TICK_PERIOD_US), Outcome::Lost);
}

#[test]
fn a_slow_sample_is_discarded_however_slow_the_fastest_is() {
    let mut s = Sync::new();
    s.on_tick(0);
    let took = |rtt: u64| Sample { t1: 0, t2: 0, t3: 0, t4: rtt };
    let fastest = u64::MAX / 8;
    assert_eq!(s.on_sample(1, took(fastest)), Outcome::Probe);
    // Seven of these would be enough, if any of them counted.
    for _ in 0..20 {
        assert_eq!(s.on_sample(2, took(fastest / 2 * 3 + 2)), Outcome::Probe);
    }
    assert_eq!(s.state(), SyncState::Syncing);
}
