//! Who may publish on a channel, and what everyone else reads.

use lumen_device::channels::{Channel, ChannelUniforms, Channels, ClaimOutcome, ProducerId};
use lumen_device::q16::Op;
use lumen_device::Q16;

/// The arithmetic of a host.
fn unit(op: Op, a: Q16, b: Q16, c: Q16) -> Q16 {
    let (x, y, z) = (a.0 as i64, b.0 as i64, c.0 as i64);
    let real = |v: i64| v as f64 / 65_536.0;
    let raw = |v: f64| (v * 65_536.0).round() as i64;
    let turns = real(x) * core::f64::consts::TAU;
    let r = match op {
        Op::Add => x + y,
        Op::Sub => x - y,
        Op::Mul => (x * y) >> 16,
        Op::Div | Op::Ratio if y == 0 => 0,
        Op::Div | Op::Ratio => (x << 16) / y,
        Op::Abs => x.abs(),
        Op::Fract => x & 0xFFFF,
        Op::Length => raw((real(x).powi(2) + real(y).powi(2) + real(z).powi(2)).sqrt()),
        Op::Angle => raw(real(x).atan2(real(y))),
        Op::Lerp => x + (((y - x) * z) >> 16),
        Op::Turn => 411_775,
        Op::Cos => raw(turns.cos()),
        Op::Sin => raw(turns.sin()),
        Op::Log2 if x <= 0 => 0,
        Op::Log2 => raw(real(x).log2()),
        Op::Exp2 => raw(real(x).exp2()),
    };
    Q16(r.clamp(i32::MIN as i64, i32::MAX as i64) as i32)
}

fn ratio(a: i32, b: i32) -> Q16 {
    unit(Op::Ratio, Q16(a), Q16(b), Q16::zero())
}

const MIC: ProducerId = [1, 1, 1, 1];
const DESKTOP: ProducerId = [2, 2, 2, 2];
const OTHER: ProducerId = [3, 3, 3, 3];

fn channel() -> Channel {
    Channel::new(7, 250, Q16::zero())
}

#[test]
fn an_unowned_channel_is_taken_by_the_first_claim() {
    let mut c = channel();
    assert!(!c.is_owned());
    assert_eq!(c.claim(0, MIC, 10, 1_000), ClaimOutcome::Taken);
    assert_eq!(c.owner().unwrap().producer, MIC);
}

#[test]
fn strictly_greater_priority_preempts() {
    // Desktop audio takes the channel from the room mic.
    let mut c = channel();
    c.claim(0, MIC, 10, 1_000);
    assert_eq!(
        c.claim(0, DESKTOP, 200, 1_000),
        ClaimOutcome::Preempted { previous: MIC }
    );
    assert_eq!(c.owner().unwrap().producer, DESKTOP);
}

#[test]
fn equal_priority_does_not_preempt() {
    // Two identical producers - two microphones, two copies of the app -
    // would otherwise preempt each other on every frame forever.
    let mut c = channel();
    c.claim(0, MIC, 100, 1_000);
    assert_eq!(
        c.claim(0, DESKTOP, 100, 1_000),
        ClaimOutcome::Refused { holder: MIC }
    );
    assert_eq!(c.owner().unwrap().producer, MIC);
}

#[test]
fn lower_priority_does_not_preempt() {
    let mut c = channel();
    c.claim(0, DESKTOP, 200, 1_000);
    assert_eq!(
        c.claim(0, MIC, 10, 1_000),
        ClaimOutcome::Refused { holder: DESKTOP }
    );
}

#[test]
fn the_owner_renewing_is_the_ordinary_case_and_keeps_its_sequence() {
    // A renewal that reset the sequence would reopen the channel to replayed
    // packets on every frame.
    let mut c = channel();
    c.claim(0, MIC, 10, 1_000);
    c.publish(0, MIC, 500, Q16::one());
    assert_eq!(c.claim(100, MIC, 10, 1_000), ClaimOutcome::Renewed);
    assert_eq!(c.owner().unwrap().last_seq, Some(500));
    assert!(
        !c.publish(200, MIC, 499, Q16::zero()),
        "an older packet got in"
    );
}

#[test]
fn a_lapsed_lease_frees_the_channel_without_anyone_noticing_a_crash() {
    let mut c = channel();
    c.claim(0, MIC, 10, 500);
    assert_eq!(c.advance(499_000), None);
    assert_eq!(c.advance(500_000), Some(MIC));
    assert!(!c.is_owned());
    // And a waiting claimant can take it.
    assert_eq!(c.claim(500_000, DESKTOP, 1, 1_000), ClaimOutcome::Taken);
}

#[test]
fn only_the_owner_can_release() {
    // Otherwise any device on the mesh could knock the desktop app off the
    // audio channel with a single packet.
    let mut c = channel();
    c.claim(0, DESKTOP, 200, 1_000);
    assert!(!c.release(OTHER));
    assert!(c.is_owned());
    assert!(c.release(DESKTOP));
    assert!(!c.is_owned());
    assert!(!c.release(DESKTOP), "releasing twice says nothing new");
}

#[test]
fn only_the_owner_can_publish() {
    let mut c = channel();
    c.claim(0, MIC, 10, 1_000);
    assert!(!c.publish(0, OTHER, 1, Q16::one()));
    assert_eq!(c.read(&unit, 0), Q16::zero());
    assert!(c.publish(0, MIC, 1, Q16::one()));
    assert_eq!(c.read(&unit, 0), Q16::one());
}

#[test]
fn nobody_can_publish_to_an_unowned_channel() {
    let mut c = channel();
    assert!(!c.publish(0, MIC, 1, Q16::one()));
}

#[test]
fn latest_wins_and_an_older_packet_cannot_undo_a_fresher_one() {
    let mut c = channel();
    c.claim(0, MIC, 10, 1_000);
    assert!(c.publish(0, MIC, 10, Q16::one()));
    assert!(!c.publish(0, MIC, 9, Q16::zero()), "reordering undid a value");
    assert_eq!(c.read(&unit, 0), Q16::one());
    assert!(!c.publish(0, MIC, 10, Q16::zero()), "a duplicate got in");
}

#[test]
fn a_wrapping_sequence_keeps_working() {
    // A u16 wraps after about eighteen minutes at 60 Hz. A plain comparison
    // would stall the channel there - a bug that appears only after the demo
    // is over.
    let mut c = channel();
    c.claim(0, MIC, 10, 1_000);
    assert!(
        c.publish(0, MIC, u16::MAX - 1, Q16::one()),
        "a producer whose counter starts high must still be able to publish"
    );
    assert!(c.publish(0, MIC, u16::MAX, Q16::half()));
    assert!(
        c.publish(0, MIC, 0, Q16::zero()),
        "the wrap stalled the channel"
    );
    assert!(c.publish(0, MIC, 1, Q16::one()));
}

#[test]
fn a_handover_between_two_producers_does_not_blink() {
    // The room mic and the desktop app publish the same thing. Resetting the
    // value on handover would show as a one-frame flash.
    let mut c = channel();
    c.claim(0, MIC, 10, 1_000);
    c.publish(0, MIC, 5, Q16::half());
    c.claim(0, DESKTOP, 200, 1_000);
    assert_eq!(c.read(&unit, 0), Q16::half(), "the value was dropped on handover");
    // And the new owner's own low sequence numbers are accepted.
    assert!(c.publish(0, DESKTOP, 1, Q16::one()));
}

#[test]
fn a_fresh_value_reads_back_unchanged() {
    let mut c = channel();
    c.claim(0, MIC, 10, 10_000);
    c.publish(0, MIC, 1, Q16::one());
    assert_eq!(c.read(&unit, 0), Q16::one());
    assert_eq!(c.read(&unit, 250_000), Q16::one(), "still inside the hold window");
    assert!(!c.is_stale(250_000));
}

#[test]
fn a_dead_producer_fades_the_value_to_its_default_rather_than_freezing_it() {
    // The defined visual outcome: a dead audio source fades the lights to
    // steady rather than leaving them stopped mid-beat.
    let mut c = Channel::new(7, 250, Q16::zero());
    c.claim(0, MIC, 10, 10_000_000);
    c.publish(0, MIC, 1, Q16::one());

    assert_eq!(c.read(&unit, 250_000), Q16::one(), "not stale yet");
    assert!(c.is_stale(300_000));
    let midway = c.read(&unit, 375_000);
    assert!(
        midway < Q16::one() && midway > Q16::zero(),
        "expected a fade, got {midway:?}"
    );
    assert_eq!(
        c.read(&unit, 500_000),
        Q16::zero(),
        "should have reached the default"
    );
    assert_eq!(c.read(&unit, 10_000_000), Q16::zero());
}

#[test]
fn the_fade_is_a_ramp_rather_than_a_cliff() {
    // A cliff at exactly hold_ms shows as a visible jump the moment a
    // producer hiccups. A ramp reads as the source fading out, which is what
    // actually happened.
    let mut c = Channel::new(7, 100, Q16::zero());
    c.claim(0, MIC, 10, 10_000_000);
    c.publish(0, MIC, 1, Q16::one());
    let mut previous = Q16::one();
    for step in 0..=10 {
        let now = 100_000 + step * 10_000;
        let v = c.read(&unit, now);
        assert!(v <= previous, "the fade went back up at {now}");
        previous = v;
    }
    assert_eq!(previous, Q16::zero());
}

#[test]
fn a_channel_decays_to_its_declared_default_not_to_zero() {
    // A channel that always decayed to zero would turn the lights off, and
    // off is rarely the sensible resting state for a room.
    let mut c = Channel::new(7, 100, Q16::half());
    assert_eq!(c.read(&unit, 0), Q16::half(), "before anything arrives");
    c.claim(0, MIC, 10, 10_000_000);
    c.publish(0, MIC, 1, Q16::one());
    assert_eq!(c.read(&unit, 1_000_000), Q16::half());
}

#[test]
fn hold_zero_means_never_stale() {
    // Right for a value pushed only on change - a scrolling message, a mode
    // selector - where treating silence as failure would be exactly wrong.
    let mut c = Channel::new(7, 0, Q16::zero());
    assert!(c.never_stale());
    c.claim(0, MIC, 10, 10_000_000);
    c.publish(0, MIC, 1, Q16::one());
    assert_eq!(c.read(&unit, u64::MAX / 2), Q16::one(), "a held value went stale");
    assert!(!c.is_stale(u64::MAX / 2));
}

#[test]
fn a_channel_that_never_received_anything_reads_its_default() {
    let c = Channel::new(7, 100, Q16::half());
    assert_eq!(c.read(&unit, 0), Q16::half());
    assert!(c.is_stale(0));
}

#[test]
fn an_undeclared_channel_reads_zero_rather_than_failing() {
    // Defined degradation: a program compiled against a channel the mesh no
    // longer publishes has to keep rendering.
    let chans = Channels::new();
    assert!(chans.is_empty());
    assert_eq!(chans.read(&unit, 42, 1_000), Q16::zero());
}

#[test]
fn advancing_frees_every_lapsed_lease_and_reports_which() {
    let mut chans = Channels::new();
    chans.declare(Channel::new(1, 100, Q16::zero()));
    chans.declare(Channel::new(2, 100, Q16::zero()));
    chans.declare(Channel::new(3, 100, Q16::zero()));
    chans.get_mut(1).unwrap().claim(0, MIC, 10, 100);
    chans.get_mut(2).unwrap().claim(0, MIC, 10, 5_000);
    // Channel 3 is never claimed.

    let freed = chans.advance(200_000);
    assert_eq!(freed, vec![1]);
    assert!(!chans.get(1).unwrap().is_owned());
    assert!(chans.get(2).unwrap().is_owned());
    assert_eq!(chans.len(), 3);
}

#[test]
fn declaring_the_same_id_twice_replaces_it() {
    let mut chans = Channels::new();
    chans.declare(Channel::new(1, 100, Q16::zero()));
    chans.declare(Channel::new(1, 500, Q16::one()));
    assert_eq!(chans.len(), 1);
    assert_eq!(chans.get(1).unwrap().hold_ms, 500);
}

#[test]
fn the_preemption_and_handback_cycle_works_end_to_end() {
    // The scenario the design names: desktop audio preempts the room mic and
    // hands back on disconnect.
    let mut c = Channel::new(7, 250, Q16::zero());
    c.claim(0, MIC, 10, 1_000);
    c.publish(0, MIC, 1, ratio(1, 4));

    assert!(matches!(
        c.claim(100, DESKTOP, 200, 1_000),
        ClaimOutcome::Preempted { .. }
    ));
    c.publish(100, DESKTOP, 1, Q16::one());
    assert_eq!(c.read(&unit, 100), Q16::one());

    // The desktop disconnects; its lease lapses.
    assert_eq!(c.advance(1_100_000), Some(DESKTOP));
    // The mic takes it back.
    assert_eq!(c.claim(1_100_000, MIC, 10, 1_000), ClaimOutcome::Taken);
    assert!(c.publish(1_100_000, MIC, 1, ratio(1, 4)));
    assert_eq!(c.read(&unit, 1_100_000), ratio(1, 4));
}


const ME: ProducerId = [1, 2, 3, 4];

/// The channel table of a program that reads channel `id`.
fn reads(id: u16) -> Vec<u16> {
    vec![id]
}

fn value_seen(slots: &[u16], channels: &Channels, now_us: u64) -> Q16 {
    ChannelUniforms::new(channels, slots, now_us).channel(&unit, 0, 0)
}

#[test]
fn a_slot_resolves_through_the_programs_own_table() {
    // The whole point of the indirection: the program says "my first
    // channel", its header says that is channel 7, and the device looks up
    // 7. Get this wrong and every effect reads somebody else's data.
    let slots = reads(7);
    let mut channels = Channels::new();
    let mut ch = Channel::new(7, 1_000, Q16::zero());
    assert_eq!(ch.claim(0, ME, 10, 60_000), ClaimOutcome::Taken);
    assert!(ch.publish(0, ME, 1, Q16::half()));
    channels.declare(ch);

    assert_eq!(value_seen(&slots, &channels, 0), Q16::half());
}

#[test]
fn a_channel_this_device_has_never_heard_of_reads_zero() {
    // Defined degradation, and the reason this bridge needs a test at all:
    // the failure is silent. A missing bridge, a missing channel and a
    // channel legitimately sitting at zero all look identical on a strip.
    let slots = reads(7);
    let empty = Channels::new();
    assert_eq!(value_seen(&slots, &empty, 0), Q16::zero());
}

#[test]
fn a_slot_the_program_does_not_declare_reads_zero() {
    let slots = reads(7);
    let channels = Channels::new();
    let u = ChannelUniforms::new(&channels, &slots, 0);
    // Slot 1 exists in the instruction encoding but not in this program.
    assert_eq!(u.channel(&unit, 1, 0), Q16::zero());
    assert_eq!(u.channel(&unit, 200, 0), Q16::zero());
}

#[test]
fn a_producer_that_stopped_falls_back_to_the_channels_default() {
    // A dead publisher must leave the lights doing something sensible
    // rather than stop the program - the value goes stale and the default
    // takes over, and the effect never learns that anything happened.
    let slots = reads(7);
    let mut channels = Channels::new();
    let mut ch = Channel::new(7, 200, ratio(1, 4));
    ch.claim(0, ME, 10, 60_000);
    ch.publish(0, ME, 1, Q16::one());
    channels.declare(ch);

    assert_eq!(value_seen(&slots, &channels, 100_000), Q16::one());
    // 200 ms of hold, then the default.
    assert_eq!(
        value_seen(&slots, &channels, 500_000),
        ratio(1, 4)
    );
}

#[test]
fn an_offset_reads_the_next_channel_along() {
    // Multi-value channels - audio bands, a sensor with several readings -
    // are consecutive ids from the declared one, so one effect can read
    // `audio[3]` while the wire carries one channel per band.
    let slots = reads(7);
    let mut channels = Channels::new();
    for (id, v) in [(7u16, Q16::zero()), (8, Q16::half()), (9, Q16::one())] {
        let mut ch = Channel::new(id, 1_000, Q16::zero());
        ch.claim(0, ME, 10, 60_000);
        ch.publish(0, ME, 1, v);
        channels.declare(ch);
    }
    let u = ChannelUniforms::new(&channels, &slots, 0);
    assert_eq!(u.channel(&unit, 0, 1), Q16::half());
    assert_eq!(u.channel(&unit, 0, 2), Q16::one());
    // Past the end of what was declared, zero rather than a wrap onto
    // whatever channel happens to live there.
    assert_eq!(u.channel(&unit, 0, 3), Q16::zero());
    assert_eq!(u.channel(&unit, 0, 255), Q16::zero());
}

#[test]
fn every_pixel_of_a_frame_sees_the_same_value() {
    // Time is captured once when the uniforms are built. Reading the clock
    // per access would let a channel go stale between two pixels of one
    // frame, and a strip whose first half heard the beat and whose second
    // half did not is a memorably confusing bug.
    let slots = reads(7);
    let mut channels = Channels::new();
    let mut ch = Channel::new(7, 100, Q16::zero());
    ch.claim(0, ME, 10, 60_000);
    ch.publish(0, ME, 1, Q16::one());
    channels.declare(ch);

    let at_the_edge = ChannelUniforms::new(&channels, &slots, 99_000);
    let first = at_the_edge.channel(&unit, 0, 0);
    for _ in 0..300 {
        assert_eq!(at_the_edge.channel(&unit, 0, 0), first);
    }
}

#[test]
fn the_fade_passes_through_its_middle() {
    let mut c = Channel::new(7, 250, Q16::zero());
    c.claim(0, MIC, 10, 10_000_000);
    c.publish(0, MIC, 1, Q16::one());
    assert_eq!(c.read(&unit, 375_000), Q16::half());
}

#[test]
fn half_the_sequence_space_back_counts_as_older() {
    let mut c = channel();
    c.claim(0, MIC, 10, 1_000);
    assert!(c.publish(0, MIC, 0, Q16::one()));
    assert!(!c.publish(0, MIC, 0x7FFF, Q16::zero()));
    assert!(c.publish(0, MIC, 0x7FFE, Q16::half()));
}

#[test]
fn claiming_and_lapsing_leave_the_value_alone() {
    let mut c = channel();
    c.claim(0, MIC, 10, 1_000);
    c.publish(0, MIC, 1, Q16::half());
    assert_eq!(c.claim(10, OTHER, 5, 1_000), ClaimOutcome::Refused { holder: MIC });
    assert_eq!(c.read(&unit, 10), Q16::half());
    assert_eq!(c.advance(1_000_000), Some(MIC));
    assert_eq!(c.value, Q16::half());
}

#[test]
fn an_offset_past_the_last_channel_id_reads_zero() {
    let mut channels = Channels::new();
    let mut ch = Channel::new(u16::MAX, 1_000, Q16::one());
    ch.claim(0, ME, 10, 60_000);
    channels.declare(ch);
    let slots = reads(u16::MAX);
    let u = ChannelUniforms::new(&channels, &slots, 0);
    assert_eq!(u.channel(&unit, 0, 0), Q16::one());
    assert_eq!(u.channel(&unit, 0, 1), Q16::zero());
}

#[test]
fn a_long_hold_fades_like_a_short_one() {
    // A window of more microseconds than a fraction can divide by.
    let mut c = Channel::new(7, 2_147_484, Q16::zero());
    c.claim(0, MIC, 10, u32::MAX);
    c.publish(0, MIC, 1, Q16::one());
    let hold = 2_147_484_000;
    assert_eq!(c.read(&unit, hold), Q16::one());
    let middle = c.read(&unit, 3_221_226_000);
    assert!(Q16::zero() < middle && middle < Q16::one());
    assert_eq!(middle, Q16::half());
    let mut before = Q16::one();
    for step in 0..=16 {
        let now = c.read(&unit, hold + step * (hold / 16));
        assert!(now <= before);
        before = now;
    }
    assert_eq!(before, Q16::zero());
}
