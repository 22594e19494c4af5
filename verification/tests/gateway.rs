//! What a console on the network is allowed to do.

use lumen_device::gateway::{
    apply, Binding, BindingError, Gateway, Ingress, Protocol, Refusal, DEFAULT_LEASE_US,
    MAX_GATEWAY_PRIORITY,
};
use lumen_device::sources::AMBIENT_FLOOR_MAX;
use lumen_device::{SourceStack, Uuid};

fn uuid(n: u8) -> Uuid {
    Uuid([n; 16])
}

fn binding() -> Binding {
    Binding {
        id: uuid(1),
        protocol: Protocol::ArtNet,
        zone: uuid(50),
        pixels: (10, 70),
        priority_ceiling: 100,
    }
}

fn ingress(offset: u16, count: u16, priority: Option<u8>) -> Ingress {
    Ingress {
        offset,
        count,
        priority,
    }
}

#[test]
fn an_ingress_inside_the_binding_passes_through() {
    let out = apply(&binding(), &ingress(20, 10, Some(50)), uuid(9), 1_000).unwrap();
    assert_eq!(out.pixels, (20, 30));
    assert_eq!(out.clipped, 0);
    assert!(!out.priority_clamped);
    assert_eq!(out.source.priority, 50);
    assert_eq!(out.source.zone, uuid(50));
}

#[test]
fn pixels_outside_the_binding_are_clipped_and_counted() {
    // "This universe is addressing 170 pixels and only 60 of them are yours"
    // beats leaving someone to wonder why two thirds of their console does
    // nothing.
    let out = apply(&binding(), &ingress(0, 100, None), uuid(9), 0).unwrap();
    assert_eq!(out.pixels, (10, 70), "clamped to the binding");
    assert_eq!(out.clipped, 40);
}

#[test]
fn an_ingress_entirely_outside_the_binding_is_refused() {
    // There is no sensible reinterpretation, unlike a too-high priority.
    assert_eq!(
        apply(&binding(), &ingress(200, 10, None), uuid(9), 0),
        Err(Refusal::OutsideBinding)
    );
    assert_eq!(
        apply(&binding(), &ingress(0, 5, None), uuid(9), 0),
        Err(Refusal::OutsideBinding)
    );
}

#[test]
fn a_priority_above_the_ceiling_is_clamped_rather_than_refused() {
    // A console sending 255 is a console doing what consoles do. Rejecting
    // the frame would leave a dark strip and no explanation.
    let out = apply(&binding(), &ingress(20, 10, Some(255)), uuid(9), 0).unwrap();
    assert_eq!(out.source.priority, 100, "clamped to the ceiling");
    assert!(out.priority_clamped, "the clamp must be visible");
}

#[test]
fn a_protocol_with_no_priority_lands_at_the_ambient_floor() {
    // DDP and plain Art-Net say nothing about priority. Defaulting high
    // would let any node on the network take a room simply by connecting.
    let out = apply(&binding(), &ingress(20, 10, None), uuid(9), 0).unwrap();
    assert_eq!(out.source.priority, AMBIENT_FLOOR_MAX);
    assert!(!out.priority_clamped);
}

#[test]
fn every_gateway_source_is_leased_whatever_the_protocol_thinks() {
    // Art-Net has no concept of releasing a claim, so a console switched off
    // mid-show would otherwise hold the room until someone power-cycled a
    // light.
    let out = apply(&binding(), &ingress(20, 10, Some(90)), uuid(9), 7_000).unwrap();
    assert_eq!(
        out.source.expires_at_us,
        Some(7_000 + DEFAULT_LEASE_US),
        "an unleased gateway source is how a room gets stuck"
    );
}

#[test]
fn a_gateway_source_carries_no_scene_because_the_data_is_the_content() {
    let out = apply(&binding(), &ingress(20, 10, None), uuid(9), 0).unwrap();
    assert_eq!(out.source.scene, Uuid::nil());
}

#[test]
fn a_ceiling_above_the_status_bands_is_refused() {
    // A gateway that could outrank a smoke alarm indicator is a gateway that
    // can hide it.
    let mut b = binding();
    b.priority_ceiling = 250;
    assert_eq!(
        b.validate(),
        Err(BindingError::CeilingTooHigh {
            asked: 250,
            max: MAX_GATEWAY_PRIORITY
        })
    );
    // The boundary, not just a comfortably high number.
    b.priority_ceiling = MAX_GATEWAY_PRIORITY + 1;
    assert!(b.validate().is_err());
    b.priority_ceiling = MAX_GATEWAY_PRIORITY;
    assert!(b.validate().is_ok());
}

#[test]
fn an_empty_or_inverted_range_is_refused_when_it_is_written() {
    // Checked once at configuration time, so a nonsensical binding is
    // refused when someone writes it rather than silently doing nothing for
    // a week.
    let mut b = binding();
    b.pixels = (10, 10);
    assert_eq!(b.validate(), Err(BindingError::EmptyRange));
    b.pixels = (70, 10);
    assert_eq!(b.validate(), Err(BindingError::EmptyRange));
}

#[test]
fn a_bad_binding_refuses_every_ingress() {
    let mut b = binding();
    b.priority_ceiling = 255;
    assert!(matches!(
        apply(&b, &ingress(20, 10, None), uuid(9), 0),
        Err(Refusal::BadBinding(_))
    ));
}

#[test]
fn a_binding_reports_what_it_covers() {
    let b = binding();
    assert!(!b.covers(9));
    assert!(b.covers(10));
    assert!(b.covers(69));
    assert!(!b.covers(70), "the range is half-open");
    assert_eq!(b.pixel_count(), 60);
}

#[test]
fn a_gateway_never_accepts_a_program() {
    // A program is signed code that runs on every device in the mesh.
    // Accepting one over a channel anybody on the network can speak would
    // make signing programs pointless.
    let g = Gateway::new();
    assert!(!g.accepts_programs());
}

#[test]
fn bindings_can_be_added_replaced_and_removed() {
    let mut g = Gateway::new();
    assert!(g.is_empty());
    g.bind(binding()).unwrap();
    assert_eq!(g.len(), 1);

    // Rebinding the same id replaces rather than duplicating, so a console
    // reconfigured twice does not end up with two conflicting grants.
    let mut wider = binding();
    wider.pixels = (0, 200);
    g.bind(wider).unwrap();
    assert_eq!(g.len(), 1);
    assert_eq!(g.get(uuid(1)).unwrap().pixels, (0, 200));

    assert!(g.unbind(uuid(1)));
    assert!(!g.unbind(uuid(1)));
    assert!(g.is_empty());
}

#[test]
fn an_invalid_binding_is_never_stored() {
    let mut g = Gateway::new();
    let mut bad = binding();
    bad.pixels = (5, 5);
    assert!(g.bind(bad).is_err());
    assert!(g.is_empty(), "an unusable binding must not be held");
}

#[test]
fn two_integrations_get_separate_grants() {
    let mut g = Gateway::new();
    g.bind(binding()).unwrap();
    g.bind(Binding {
        id: uuid(2),
        protocol: Protocol::E131,
        zone: uuid(51),
        pixels: (100, 160),
        priority_ceiling: 80,
    })
    .unwrap();
    assert_eq!(g.len(), 2);

    // Neither can reach the other's pixels.
    let first = g.get(uuid(1)).unwrap();
    let second = g.get(uuid(2)).unwrap();
    assert!(!first.covers(120));
    assert!(!second.covers(20));
}

#[test]
fn a_count_that_would_overflow_the_index_space_does_not_wrap() {
    // A malformed Art-Net packet claiming 65535 pixels from offset 65000
    // must clip, not wrap round to the start of the strip.
    let out = apply(&binding(), &ingress(65_000, u16::MAX, None), uuid(9), 0);
    assert_eq!(out, Err(Refusal::OutsideBinding));
}

#[test]
fn an_ingress_of_nothing_is_refused() {
    assert_eq!(
        apply(&binding(), &ingress(20, 0, None), uuid(9), 0),
        Err(Refusal::OutsideBinding)
    );
}

#[test]
fn a_ceiling_under_the_ambient_floor_holds_an_unprioritised_ingress_down() {
    let mut b = binding();
    b.priority_ceiling = 20;
    let out = apply(&b, &ingress(20, 10, None), uuid(9), 0).unwrap();
    assert_eq!(out.source.priority, 20);
}

#[test]
fn what_a_gateway_produces_can_be_pushed() {
    let out = apply(&binding(), &ingress(20, 10, Some(255)), uuid(9), 1_000).unwrap();
    let mut stack = SourceStack::new(1_000, 4);
    let mut changes = Vec::new();
    assert!(stack.push(1_000, out.source, &mut changes).is_ok());
    assert!(stack.is_admitted(uuid(9)));
}

#[test]
fn unbinding_keeps_the_others_in_their_order() {
    let mut g = Gateway::new();
    for n in 1..=3u8 {
        let mut b = binding();
        b.id = uuid(n);
        b.pixels = (n as u16, n as u16 + 1);
        g.bind(b).unwrap();
    }
    assert!(g.unbind(uuid(2)));
    assert_eq!(g.len(), 2);
    assert!(g.get(uuid(2)).is_none());
    assert_eq!(g.get(uuid(3)).unwrap().pixels, (3, 4));
}
