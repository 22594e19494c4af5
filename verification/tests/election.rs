//! Who holds the timebase.

use lumen_device::election::{
    Candidacy, Election, Outcome, Role, CANDIDATE_SETTLE_US, FOLLOWER_TIMEOUT_US,
    LEADER_TICK_INTERVAL_US,
};
use lumen_device::Uuid;

fn id(capacity: u32, first: u8) -> Candidacy {
    let mut bytes = [0u8; 16];
    bytes[0] = first;
    Candidacy {
        capacity,
        uuid: Uuid(bytes),
    }
}

#[test]
fn higher_capacity_wins() {
    assert!(id(200, 1).beats(&id(100, 1)));
    assert!(!id(100, 1).beats(&id(200, 1)));
}

#[test]
fn equal_capacity_breaks_on_the_uuid_and_is_never_a_tie() {
    // Two identical devices flashed from the same binary are common. If the
    // comparison could return "neither", they would both stand forever.
    let a = id(100, 1);
    let b = id(100, 2);
    assert!(a.beats(&b));
    assert!(!b.beats(&a));
    // And it is antisymmetric for every pair, which is what stops two
    // devices both believing they won.
    for x in 0..8u8 {
        for y in 0..8u8 {
            if x == y {
                continue;
            }
            let (p, q) = (id(50, x), id(50, y));
            assert_ne!(p.beats(&q), q.beats(&p), "{x} vs {y}");
        }
    }
}

#[test]
fn a_candidacy_never_beats_itself() {
    let a = id(100, 1);
    assert!(!a.beats(&a));
}

#[test]
fn a_lone_follower_stands_and_wins() {
    let mut e = Election::new(id(100, 1), 0);
    assert_eq!(e.role(), Role::Follower);

    // Nothing happens before the timeout.
    assert_eq!(e.on_timer(FOLLOWER_TIMEOUT_US - 1), Outcome::Idle);
    assert_eq!(e.on_timer(FOLLOWER_TIMEOUT_US), Outcome::Announce);
    assert_eq!(e.role(), Role::Candidate);

    let t = FOLLOWER_TIMEOUT_US;
    assert_eq!(e.on_timer(t + CANDIDATE_SETTLE_US - 1), Outcome::Idle);
    assert_eq!(
        e.on_timer(t + CANDIDATE_SETTLE_US),
        Outcome::Became(Role::Leader)
    );
    assert_eq!(e.epoch(), 1, "taking the role must advance the epoch");
    assert!(e.is_leader());
}

#[test]
fn a_leader_ticks_on_schedule() {
    let mut e = leader_at(0);
    assert_eq!(e.on_timer(LEADER_TICK_INTERVAL_US - 1), Outcome::Idle);
    assert_eq!(e.on_timer(LEADER_TICK_INTERVAL_US), Outcome::SendTick);
    // And keeps doing so.
    assert_eq!(e.on_timer(2 * LEADER_TICK_INTERVAL_US), Outcome::SendTick);
}

/// An election already won at `now_us`.
fn leader_at(now_us: u64) -> Election {
    let mut e = Election::new(id(100, 1), now_us);
    e.on_timer(now_us + FOLLOWER_TIMEOUT_US);
    e.on_timer(now_us + FOLLOWER_TIMEOUT_US + CANDIDATE_SETTLE_US);
    assert!(e.is_leader());
    // Re-base so tests can reason from zero.
    e.last_tick_sent_us = now_us;
    e.since_us = now_us;
    e
}

#[test]
fn a_tick_from_a_live_leader_keeps_a_follower_following() {
    let mut e = Election::new(id(100, 1), 0);
    // Even a *worse* leader holds the role: a working timebase beats a
    // better one that has to be elected first.
    for step in 1..10u64 {
        let now = step * (FOLLOWER_TIMEOUT_US - 1);
        assert_eq!(e.on_tick(now, id(1, 9), 1), Outcome::Idle);
        assert_eq!(e.on_timer(now), Outcome::Idle);
    }
    assert_eq!(e.role(), Role::Follower);
}

#[test]
fn a_candidate_stands_down_for_something_better() {
    let mut e = Election::new(id(100, 1), 0);
    e.on_timer(FOLLOWER_TIMEOUT_US);
    assert_eq!(e.role(), Role::Candidate);
    assert_eq!(
        e.on_tick(FOLLOWER_TIMEOUT_US, id(200, 2), 1),
        Outcome::Became(Role::Follower)
    );
    assert_eq!(e.role(), Role::Follower);
}

#[test]
fn a_candidate_ignores_something_worse_and_wins_anyway() {
    let mut e = Election::new(id(100, 1), 0);
    e.on_timer(FOLLOWER_TIMEOUT_US);
    assert_eq!(e.on_tick(FOLLOWER_TIMEOUT_US, id(1, 9), 1), Outcome::Idle);
    assert_eq!(e.role(), Role::Candidate);
    assert_eq!(
        e.on_timer(FOLLOWER_TIMEOUT_US + CANDIDATE_SETTLE_US),
        Outcome::Became(Role::Leader)
    );
}

#[test]
fn a_candidate_that_was_beaten_during_its_wait_stands_down_at_the_end() {
    // The better candidate might not have been better at the moment it was
    // seen if only the last one counted. Remembering the best seen is what
    // makes the outcome independent of arrival order.
    let mut e = Election::new(id(100, 1), 0);
    e.on_timer(FOLLOWER_TIMEOUT_US);
    e.on_tick(FOLLOWER_TIMEOUT_US, id(200, 5), 1);
    // Standing down happens immediately on seeing better.
    assert_eq!(e.role(), Role::Follower);
}

#[test]
fn a_leader_needs_three_consecutive_better_ticks_before_yielding() {
    // Without the hysteresis a device rebooting with a marginally different
    // benchmark triggers a needless handover, and a handover is visible.
    let mut e = leader_at(0);
    let better = id(500, 2);
    assert_eq!(e.on_tick(1, better, 1), Outcome::Idle);
    assert_eq!(e.on_tick(2, better, 1), Outcome::Idle);
    assert!(e.is_leader(), "two ticks must not be enough");
    assert_eq!(e.on_tick(3, better, 1), Outcome::Became(Role::Follower));
    assert_eq!(e.role(), Role::Follower);
}

#[test]
fn a_worse_tick_resets_the_yield_count() {
    // One stray better tick between worse ones must not accumulate towards a
    // handover, or a flapping peer eventually wins by attrition.
    let mut e = leader_at(0);
    let better = id(500, 2);
    let worse = id(1, 9);
    e.on_tick(1, better, 1);
    e.on_tick(2, better, 1);
    e.on_tick(3, worse, 1);
    assert!(e.is_leader());
    e.on_tick(4, better, 1);
    e.on_tick(5, better, 1);
    assert!(e.is_leader(), "the count should have restarted");
    assert_eq!(e.on_tick(6, better, 1), Outcome::Became(Role::Follower));
}

#[test]
fn a_leader_ignores_worse_ticks_forever() {
    let mut e = leader_at(0);
    for step in 0..50 {
        assert_eq!(e.on_tick(step, id(1, 9), 1), Outcome::Idle);
    }
    assert!(e.is_leader());
}

#[test]
fn a_node_ignores_its_own_tick() {
    // A device that counted its own multicast as a peer would never elect
    // anyone: it would keep resetting its own follower timeout.
    let me = id(100, 1);
    let mut e = Election::new(me, 0);
    assert_eq!(e.on_tick(1, me, 5), Outcome::Idle);
    assert_eq!(e.on_timer(FOLLOWER_TIMEOUT_US), Outcome::Announce);
}

#[test]
fn the_epoch_only_moves_forward() {
    let mut e = Election::new(id(100, 1), 0);
    e.on_tick(1, id(50, 2), 7);
    assert_eq!(e.epoch(), 7);
    e.on_tick(2, id(50, 2), 3);
    assert_eq!(e.epoch(), 7, "an older epoch must not roll the clock back");
}

#[test]
fn the_deadline_shrinks_as_time_passes_and_never_underflows() {
    let e = Election::new(id(100, 1), 0);
    assert_eq!(e.next_deadline_us(0), FOLLOWER_TIMEOUT_US);
    assert_eq!(
        e.next_deadline_us(FOLLOWER_TIMEOUT_US / 2),
        FOLLOWER_TIMEOUT_US / 2
    );
    // Past due is zero, not a huge number from wrapping.
    assert_eq!(e.next_deadline_us(FOLLOWER_TIMEOUT_US * 10), 0);
}

#[test]
fn every_role_reports_a_deadline() {
    let mut e = Election::new(id(100, 1), 0);
    assert!(e.next_deadline_us(0) > 0);
    e.on_timer(FOLLOWER_TIMEOUT_US);
    assert!(e.next_deadline_us(FOLLOWER_TIMEOUT_US) > 0);
    e.on_timer(FOLLOWER_TIMEOUT_US + CANDIDATE_SETTLE_US);
    assert!(e.next_deadline_us(FOLLOWER_TIMEOUT_US + CANDIDATE_SETTLE_US) > 0);
}

#[test]
fn two_nodes_converge_on_one_leader() {
    // The scenario that matters: both start cold, both stand, and exactly
    // one wins - with no coordination beyond the ticks they exchange.
    let (strong, weak) = (id(200, 1), id(100, 2));
    let mut a = Election::new(strong, 0);
    let mut b = Election::new(weak, 0);

    let mut now = FOLLOWER_TIMEOUT_US;
    assert_eq!(a.on_timer(now), Outcome::Announce);
    assert_eq!(b.on_timer(now), Outcome::Announce);
    // They hear each other's candidacy.
    b.on_tick(now, strong, 0);
    a.on_tick(now, weak, 0);
    assert_eq!(b.role(), Role::Follower, "the weaker node must stand down");

    now += CANDIDATE_SETTLE_US;
    assert_eq!(a.on_timer(now), Outcome::Became(Role::Leader));
    assert!(a.is_leader());
    assert!(!b.is_leader());
}

#[test]
fn the_order_two_ticks_arrive_in_does_not_matter() {
    let me = id(100, 5);
    let (p, q) = (id(90, 1), id(95, 2));
    let mut a = Election::new(me, 0);
    a.on_timer(FOLLOWER_TIMEOUT_US);
    let mut b = a;
    let t = FOLLOWER_TIMEOUT_US + 1;
    a.on_tick(t, p, 3);
    a.on_tick(t, q, 2);
    b.on_tick(t, q, 2);
    b.on_tick(t, p, 3);
    assert_eq!(a.role(), b.role());
    assert_eq!(a.epoch(), b.epoch());
    assert_eq!(a.best_seen, b.best_seen);
    assert_eq!(a.best_seen, Some(q));
}

#[test]
fn winning_carries_over_three_candidates() {
    let (a, b, c) = (id(300, 9), id(200, 1), id(200, 2));
    assert!(a.beats(&b) && b.beats(&c) && a.beats(&c));
}

#[test]
fn the_epoch_stops_at_its_ceiling() {
    let mut e = Election::new(id(100, 1), 0);
    e.on_tick(1, id(50, 2), u32::MAX);
    e.on_timer(1 + FOLLOWER_TIMEOUT_US);
    e.on_timer(1 + FOLLOWER_TIMEOUT_US + CANDIDATE_SETTLE_US);
    assert!(e.is_leader());
    assert_eq!(e.epoch(), u32::MAX);
}
