//! What is on the stack, what of it is shown, and what becomes of it.

use lumen_device::sources::{
    Change, PushError, Removal, Source, SourceStack, AMBIENT_FLOOR_MAX, CONCURRENCY_FLOOR,
};
use lumen_device::{Q16, Uuid};

fn uuid(n: u8) -> Uuid {
    Uuid([n; 16])
}

/// A source at `priority`, expiring at `expires`, costing `cost`.
fn src(n: u8, priority: u8, expires: Option<u64>, cost: u32) -> Source {
    Source {
        id: uuid(n),
        zone: uuid(0),
        scene: uuid(n),
        priority,
        expires_at_us: expires,
        fade_in_ms: 0,
        fade_out_ms: 0,
        pushed_at_us: 0,
        cost,
    }
}

fn stack() -> (SourceStack, Vec<Change>) {
    (SourceStack::new(1_000, 4), Vec::new())
}

#[test]
fn the_highest_priority_source_renders() {
    let (mut s, mut c) = stack();
    s.push(0, src(1, 10, None, 100), &mut c).unwrap();
    s.push(0, src(2, 200, Some(5_000), 100), &mut c).unwrap();
    s.push(0, src(3, 100, Some(5_000), 100), &mut c).unwrap();
    assert_eq!(s.top().map(|t| t.id), Some(uuid(2)));
    assert_eq!(s.admitted(), &[uuid(2), uuid(3), uuid(1)]);
}

#[test]
fn equal_priority_gives_way_to_the_most_recent_push() {
    // What makes "push again to take over" work with no separate protocol.
    let (mut s, mut c) = stack();
    let mut older = src(1, 100, Some(9_000), 10);
    older.pushed_at_us = 1_000;
    let mut newer = src(2, 100, Some(9_000), 10);
    newer.pushed_at_us = 2_000;
    s.push(0, older, &mut c).unwrap();
    s.push(0, newer, &mut c).unwrap();
    assert_eq!(s.top().map(|t| t.id), Some(uuid(2)));
}

#[test]
fn a_source_above_the_floor_with_no_expiry_is_refused() {
    // The "stuck red at 3am" rule. Enforced here as well as at the wire, so
    // a local pusher cannot route around it.
    let (mut s, mut c) = stack();
    assert_eq!(
        s.push(0, src(1, 200, None, 10), &mut c),
        Err(PushError::NoExpiry { priority: 200 })
    );
    // The boundary, not just a comfortably high number.
    assert_eq!(
        s.push(0, src(2, AMBIENT_FLOOR_MAX + 1, None, 10), &mut c),
        Err(PushError::NoExpiry {
            priority: AMBIENT_FLOOR_MAX + 1
        })
    );
    // And the floor itself is fine without one.
    assert!(s
        .push(0, src(3, AMBIENT_FLOOR_MAX, None, 10), &mut c)
        .is_ok());
}

#[test]
fn a_source_pushed_after_its_own_expiry_never_renders() {
    // Accepting it and dropping it next frame would render it once, which is
    // exactly the visible artefact the rule exists to prevent.
    let (mut s, mut c) = stack();
    assert_eq!(
        s.push(5_000, src(1, 200, Some(4_000), 10), &mut c),
        Err(PushError::AlreadyExpired {
            expires_at_us: 4_000
        })
    );
    assert!(s.active().is_empty());
    assert!(s.admitted().is_empty());
}

#[test]
fn an_expired_source_falls_back_to_what_was_underneath() {
    // The whole argument for the stack: an alert over a show over an ambient
    // scene, resolving with no special case anywhere.
    let (mut s, mut c) = stack();
    s.push(0, src(1, 10, None, 10), &mut c).unwrap();
    s.push(0, src(2, 100, Some(5_000), 10), &mut c).unwrap();
    s.push(0, src(3, 240, Some(2_000), 10), &mut c).unwrap();
    assert_eq!(s.top().map(|t| t.id), Some(uuid(3)), "the alert renders");

    s.advance(2_000, &mut c);
    assert_eq!(s.top().map(|t| t.id), Some(uuid(2)), "then the show");

    s.advance(5_000, &mut c);
    assert_eq!(
        s.top().map(|t| t.id),
        Some(uuid(1)),
        "then the ambient floor"
    );

    // And the floor never goes away.
    s.advance(1_000_000, &mut c);
    assert_eq!(s.top().map(|t| t.id), Some(uuid(1)));
}

#[test]
fn pushing_the_same_id_again_replaces_it() {
    let (mut s, mut c) = stack();
    s.push(0, src(1, 100, Some(5_000), 10), &mut c).unwrap();
    let mut again = src(1, 100, Some(9_000), 10);
    again.pushed_at_us = 100;
    s.push(0, again, &mut c).unwrap();
    assert_eq!(s.active().len(), 1);
    assert_eq!(s.active()[0].expires_at_us, Some(9_000));
    assert!(c.contains(&Change::Removed {
        id: uuid(1),
        reason: Removal::Superseded
    }));
}

#[test]
fn popping_removes_and_reports() {
    let (mut s, mut c) = stack();
    s.push(0, src(1, 100, Some(5_000), 10), &mut c).unwrap();
    c.clear();
    assert!(s.pop(1_000, uuid(1), &mut c));
    assert!(s.active().is_empty());
    assert!(c.contains(&Change::Removed {
        id: uuid(1),
        reason: Removal::Popped
    }));
    // Popping again says nothing was there, rather than erroring: the pusher
    // and the expiry race, and both orders have to be fine.
    assert!(!s.pop(2_000, uuid(1), &mut c));
}

#[test]
fn renewing_extends_a_live_source_and_refuses_a_dead_one() {
    let (mut s, mut c) = stack();
    s.push(0, src(1, 100, Some(5_000), 10), &mut c).unwrap();
    assert!(s.renew(uuid(1), 20_000));
    s.advance(6_000, &mut c);
    assert_eq!(s.top().map(|t| t.id), Some(uuid(1)), "the renewal held");

    s.advance(21_000, &mut c);
    assert!(
        !s.renew(uuid(1), 30_000),
        "resurrecting a lapsed source would be a visible flash"
    );
}

#[test]
fn a_fade_runs_to_completion_and_then_the_source_is_gone() {
    let (mut s, mut c) = stack();
    let mut fading = src(1, 100, Some(1_000), 10);
    fading.fade_out_ms = 500;
    s.push(0, fading, &mut c).unwrap();
    c.clear();

    s.advance(1_000, &mut c);
    assert_eq!(s.fading().len(), 1, "it should be on its way out, not gone");
    assert_eq!(s.fading()[0].progress(1_000), 0);
    assert_eq!(s.fading()[0].progress(1_000 + 250_000), 65_536 / 2);

    s.advance(1_000 + 500_000, &mut c);
    assert!(s.fading().is_empty());
    assert!(c.contains(&Change::FadeFinished(uuid(1))));
}

#[test]
fn a_zero_length_fade_finishes_immediately_rather_than_never() {
    // Dividing by the span would hang on zero; treating it as complete is
    // what "no fade" means.
    let (mut s, mut c) = stack();
    s.push(0, src(1, 100, Some(1_000), 10), &mut c).unwrap();
    c.clear();
    s.advance(1_000, &mut c);
    assert!(s.fading().is_empty());
    assert!(c.contains(&Change::FadeFinished(uuid(1))));
}

#[test]
fn admission_drops_the_least_important_thing_first() {
    // Under pressure, what goes is always the least important source - never
    // whatever happened to arrive last.
    let mut s = SourceStack::new(100, 8);
    let mut c = Vec::new();
    s.push(0, src(1, 240, Some(9_000), 60), &mut c).unwrap();
    s.push(0, src(2, 100, Some(9_000), 60), &mut c).unwrap();
    assert_eq!(s.admitted(), &[uuid(1)], "the alert must survive");
    assert!(c
        .iter()
        .any(|x| matches!(x, Change::Rejected { id, .. } if *id == uuid(2))));
}

#[test]
fn a_rejected_source_returns_when_the_budget_frees_up() {
    // Admission is re-evaluated from scratch, so a source drops back in the
    // moment what displaced it expires.
    let mut s = SourceStack::new(100, 8);
    let mut c = Vec::new();
    s.push(0, src(1, 240, Some(2_000), 60), &mut c).unwrap();
    s.push(0, src(2, 100, Some(9_000), 60), &mut c).unwrap();
    assert!(!s.is_admitted(uuid(2)));

    c.clear();
    s.advance(2_000, &mut c);
    assert!(s.is_admitted(uuid(2)), "it should have dropped back in");
    assert!(c.contains(&Change::Admitted(uuid(2))));
}

#[test]
fn rejection_reports_the_shortfall_so_an_app_can_explain_it() {
    // "The ceiling strip is ignoring the ambient scene because the alert and
    // the show are using its budget" beats leaving someone to notice a dark
    // strip.
    let mut s = SourceStack::new(100, 8);
    let mut c = Vec::new();
    s.push(0, src(1, 240, Some(9_000), 80), &mut c).unwrap();
    c.clear();
    s.push(0, src(2, 100, Some(9_000), 50), &mut c).unwrap();
    let rejection = c
        .iter()
        .find_map(|x| match x {
            Change::Rejected { id, cost, spare } if *id == uuid(2) => Some((*cost, *spare)),
            _ => None,
        })
        .expect("expected a rejection");
    assert_eq!(rejection, (50, 20), "cost 50, only 20 spare");
}

#[test]
fn a_source_costing_more_than_the_whole_budget_is_refused_outright() {
    // Nothing this device could drop would make room, so evicting everything
    // else first would be pure damage.
    let mut s = SourceStack::new(100, 8);
    let mut c = Vec::new();
    s.push(0, src(1, 10, None, 40), &mut c).unwrap();
    assert_eq!(
        s.push(0, src(2, 240, Some(9_000), 500), &mut c),
        Err(PushError::NoRoom)
    );
    assert!(s.is_admitted(uuid(1)), "the existing source must survive");
}

#[test]
fn the_concurrency_floor_cannot_be_configured_away() {
    // Below two, an alert cannot appear over an ambient scene, which is the
    // whole point of the stack.
    let s = SourceStack::new(10_000, 0);
    assert_eq!(s.max_concurrent(), CONCURRENCY_FLOOR);
    let s2 = SourceStack::new(10_000, 1);
    assert_eq!(s2.max_concurrent(), CONCURRENCY_FLOOR);
    let s3 = SourceStack::new(10_000, 7);
    assert_eq!(s3.max_concurrent(), 7);
}

#[test]
fn the_concurrency_limit_is_honoured_even_with_budget_to_spare() {
    // Each concurrent source costs a resident program and a render buffer,
    // not just instructions, so the count is a real limit of its own.
    let mut s = SourceStack::new(1_000_000, 2);
    let mut c = Vec::new();
    for n in 1..=4u8 {
        s.push(0, src(n, 200 - n, Some(9_000), 1), &mut c).unwrap();
    }
    assert_eq!(s.admitted().len(), 2);
    assert_eq!(s.admitted(), &[uuid(1), uuid(2)]);
}

#[test]
fn spare_budget_reflects_only_what_is_admitted() {
    // The concurrency floor is two, so the exclusion has to come from the
    // budget rather than the count.
    let mut s = SourceStack::new(100, 8);
    let mut c = Vec::new();
    s.push(0, src(1, 200, Some(9_000), 80), &mut c).unwrap();
    s.push(0, src(2, 100, Some(9_000), 80), &mut c).unwrap();
    assert_eq!(s.admitted(), &[uuid(1)]);
    // Only the first is admitted, so the second's cost is not spent.
    assert_eq!(s.spare_budget(), 20);
}

#[test]
fn an_empty_stack_renders_nothing_and_does_not_panic() {
    let (mut s, mut c) = stack();
    assert!(s.top().is_none());
    s.advance(1_000_000, &mut c);
    assert!(s.top().is_none());
    assert_eq!(s.spare_budget(), 1_000);
}

#[test]
fn ordering_is_total_so_two_devices_cannot_disagree() {
    // Every device resolves the stack independently. If the ordering were
    // not total, two devices covering one zone could pick different sources
    // and the zone would render two things at once.
    let mut s = SourceStack::new(10_000, 16);
    let mut c = Vec::new();
    for n in 1..=6u8 {
        let mut src = src(n, 100, Some(9_000), 1);
        src.pushed_at_us = 500;
        s.push(0, src, &mut c).unwrap();
    }
    let first = s.admitted().to_vec();

    // The same set, pushed in the opposite order, must resolve identically.
    let mut s2 = SourceStack::new(10_000, 16);
    let mut c2 = Vec::new();
    for n in (1..=6u8).rev() {
        let mut src = src(n, 100, Some(9_000), 1);
        src.pushed_at_us = 500;
        s2.push(0, src, &mut c2).unwrap();
    }
    assert_eq!(first, s2.admitted(), "push order changed the outcome");
}

#[test]
fn a_source_outranks_itself_never() {
    let a = src(1, 100, Some(1), 1);
    assert!(!a.outranks(&a));
}

#[test]
fn an_ambient_source_is_recognised_by_its_band() {
    assert!(src(1, 0, None, 1).is_ambient());
    assert!(src(1, AMBIENT_FLOOR_MAX, None, 1).is_ambient());
    assert!(!src(1, AMBIENT_FLOOR_MAX + 1, Some(1), 1).is_ambient());
}

#[test]
fn expiry_is_inclusive_of_the_instant_it_names() {
    // Two devices comparing `>` and `>=` would drop a source one frame
    // apart, which is visible on a long strip spanning both.
    let s = src(1, 100, Some(1_000), 1);
    assert!(!s.has_expired(999));
    assert!(s.has_expired(1_000));
    assert!(s.has_expired(1_001));
    assert!(!src(2, 0, None, 1).has_expired(u64::MAX));
}

#[test]
fn changes_are_reported_once_per_transition_not_per_frame() {
    // A rejection repeated every frame would flood the event stream and make
    // the app's explanation flicker.
    let mut s = SourceStack::new(100, 8);
    let mut c = Vec::new();
    s.push(0, src(1, 240, Some(90_000), 80), &mut c).unwrap();
    s.push(0, src(2, 100, Some(90_000), 50), &mut c).unwrap();
    c.clear();
    for step in 1..10u64 {
        s.advance(step * 1_000, &mut c);
    }
    assert!(c.is_empty(), "a settled stack kept emitting: {c:?}");
}

fn fading_in(fade_in_ms: u16, pushed_at_us: u64) -> Source {
    let mut s = src(1, 10, None, 10);
    s.fade_in_ms = fade_in_ms;
    s.pushed_at_us = pushed_at_us;
    s
}

#[test]
fn a_source_with_no_fade_in_is_fully_present_immediately() {
    // The overwhelming majority of sources. `fade_in_ms` defaults to zero
    // and a thing that appears should appear.
    let s = fading_in(0, 1_000);
    assert_eq!(s.fade_in_alpha(1_000), Q16::one());
    assert_eq!(s.fade_in_alpha(0), Q16::one());
}

#[test]
fn a_fade_in_runs_from_nothing_to_everything() {
    let s = fading_in(1_000, 5_000_000);
    assert_eq!(s.fade_in_alpha(5_000_000), Q16::zero());
    assert_eq!(s.fade_in_alpha(5_500_000), Q16::half());
    assert_eq!(s.fade_in_alpha(6_000_000), Q16::one());
    // And stays there rather than wrapping or overshooting.
    assert_eq!(s.fade_in_alpha(60_000_000), Q16::one());
}

#[test]
fn a_fade_in_that_has_not_started_shows_nothing_rather_than_everything() {
    // A source pushed with a show time in the future, which is what a
    // scheduled activation looks like. Saturating the subtraction the wrong
    // way would make it appear at full brightness early - the one failure
    // here that is visible from across a room.
    let s = fading_in(1_000, 10_000_000);
    assert_eq!(s.fade_in_alpha(9_000_000), Q16::zero());
}

#[test]
fn the_longest_fade_in_the_wire_format_allows_does_not_overflow() {
    // `fade_in_ms` is a u16, so just over a minute, and the intermediate
    // multiply by 65 536 is where a narrower type would have wrapped.
    let s = fading_in(u16::MAX, 0);
    assert_eq!(s.fade_in_alpha(0), Q16::zero());
    assert_eq!(s.fade_in_alpha(32_767 * 1_000), Q16(32_767));
    assert_eq!(s.fade_in_alpha(u16::MAX as u64 * 1_000), Q16::one());
}

#[test]
fn a_cheaper_source_behind_a_rejected_one_still_fits() {
    let mut s = SourceStack::new(100, 8);
    let mut c = Vec::new();
    s.push(0, src(1, 240, Some(9_000), 80), &mut c).unwrap();
    s.push(0, src(2, 100, Some(9_000), 50), &mut c).unwrap();
    s.push(0, src(3, 90, Some(9_000), 20), &mut c).unwrap();
    assert_eq!(s.admitted(), &[uuid(1), uuid(3)]);
    assert_eq!(s.spare_budget(), 0);
}

#[test]
fn a_pushed_source_never_unseats_what_stands_before_it() {
    let mut s = SourceStack::new(100, 8);
    let mut c = Vec::new();
    s.push(0, src(1, 240, Some(9_000), 80), &mut c).unwrap();
    c.clear();
    s.push(0, src(2, 100, Some(9_000), 100), &mut c).unwrap();
    assert!(s.is_admitted(uuid(1)));
    assert!(!s.is_admitted(uuid(2)));
    assert!(!c.iter().any(|x| matches!(x, Change::Admitted(id) if *id == uuid(1))));
}

#[test]
fn two_sources_alike_but_for_their_ids_are_ordered_by_them() {
    let (a, b) = (src(1, 100, Some(9), 1), src(2, 100, Some(9), 1));
    assert!(!a.outranks(&b) && !b.outranks(&a));
    let (mut s, mut c) = stack();
    s.push(0, a, &mut c).unwrap();
    s.push(0, b, &mut c).unwrap();
    assert_eq!(s.admitted(), &[uuid(2), uuid(1)]);
}

#[test]
fn fades_only_run_forward() {
    let s = fading_in(1_000, 0);
    let mut before = Q16::zero();
    for step in 0..=20u64 {
        let now = s.fade_in_alpha(step * 60_000);
        assert!(now >= before);
        before = now;
    }
    assert_eq!(before, Q16::one());
}

#[test]
fn admission_tells_only_what_is_news() {
    let mut s = SourceStack::new(100, 8);
    let mut c = Vec::new();
    s.push(0, src(1, 240, Some(9_000), 80), &mut c).unwrap();
    assert_eq!(c, vec![Change::Admitted(uuid(1))]);
    c.clear();
    s.push(0, src(2, 100, Some(9_000), 50), &mut c).unwrap();
    assert_eq!(c, vec![Change::Rejected { id: uuid(2), cost: 50, spare: 20 }]);
    c.clear();
    // Turned away already, and by less now: no news.
    s.push(0, src(3, 150, Some(9_000), 20), &mut c).unwrap();
    assert_eq!(c, vec![Change::Admitted(uuid(3))]);
    c.clear();
    assert!(s.pop(0, uuid(1), &mut c));
    assert!(c.contains(&Change::Admitted(uuid(2))));
    assert!(!c.contains(&Change::Admitted(uuid(3))));
    assert_eq!(s.admitted(), &[uuid(3), uuid(2)]);
}

#[test]
fn what_was_turned_away_does_not_fade() {
    let mut s = SourceStack::new(100, 8);
    let mut c = Vec::new();
    let hidden = |n: u8| Source { fade_out_ms: 500, ..src(n, 100, Some(9_000), 50) };
    s.push(0, src(1, 240, Some(90_000), 80), &mut c).unwrap();
    s.push(0, hidden(2), &mut c).unwrap();
    s.push(0, hidden(3), &mut c).unwrap();
    c.clear();
    assert!(s.pop(1_000, uuid(2), &mut c));
    assert!(s.fading().is_empty());
    let removed = Change::Removed { id: uuid(2), reason: Removal::Popped };
    assert_eq!(c, vec![removed, Change::FadeFinished(uuid(2))]);
    c.clear();
    s.advance(9_000, &mut c);
    assert!(s.fading().is_empty());
    let removed = Change::Removed { id: uuid(3), reason: Removal::Expired };
    assert_eq!(c, vec![removed, Change::FadeFinished(uuid(3))]);
}
