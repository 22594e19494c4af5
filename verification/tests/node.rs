//! A node, driven by events and judged by the actions it asks for.

use lumen_device::election;
use lumen_device::node::{transport_for, Node, PROBE_TIMEOUT_US};
use lumen_device::wire::{Datagram, Header, MsgType, Payload, SyncResp, Transport};
use lumen_device::{Action, Destination, Event, Identity, Role, Uuid};

#[test]
fn everything_replaced_on_a_schedule_goes_best_effort() {
    // A retransmitted tick describes a moment that has passed, and a
    // retransmitted frame arrives after the one that replaced it. Paying
    // for delivery here would make the hot path slower and the result
    // later.
    for t in [
        MsgType::Tick,
        MsgType::SyncReq,
        MsgType::SyncResp,
        MsgType::Chan,
        MsgType::Frame,
        MsgType::ProbeData,
    ] {
        assert_eq!(transport_for(t), Transport::Datagram, "{t:?}");
    }
}

#[test]
fn everything_said_once_has_to_arrive() {
    // A `STATE_PUSH` sent unreliably is a record that silently does not
    // replicate, and that surfaces much later as two devices disagreeing
    // about a scene with nothing to point at.
    for t in [
        MsgType::StateDigest,
        MsgType::StatePull,
        MsgType::StatePush,
        MsgType::Activate,
        MsgType::SrcPush,
        MsgType::ChanClaim,
        MsgType::ProgBegin,
        MsgType::ProgChunk,
        MsgType::ProgEnd,
        MsgType::Hello,
    ] {
        assert_eq!(transport_for(t), Transport::Reliable, "{t:?}");
    }
}

#[test]
fn a_tick_this_node_sends_is_addressed_to_the_mesh_and_unreliable() {
    // The two halves of the routing decision, on the one message every node
    // sends without being asked.
    let mut a = node(1000, 0x11, 0);
    // Long enough with no better candidate that it takes the timebase.
    let mut sent = None;
    for at in [1_000_000u64, 4_000_000, 7_000_000] {
        for action in a.on_event(at, Event::Tick) {
            if let Action::Send { to, transport, .. } = action {
                sent = Some((to, transport));
            }
        }
    }
    assert_eq!(sent, Some((Destination::Mesh, Transport::Datagram)));
}

const MESH: [u8; 2] = [0xAB; 2];

fn heard(datagram: Datagram) -> Event {
    Event::Datagram { datagram: Some(datagram) }
}

fn node(capacity: u32, first: u8, now_us: u64) -> Node {
    let mut bytes = [0u8; 16];
    bytes[0] = first;
    bytes[1] = first;
    Node::new(Identity::new(Uuid(bytes), capacity, [first, first, 0, 0]), MESH, 1, now_us)
}

fn sent(actions: &[Action]) -> Vec<Datagram> {
    actions
        .iter()
        .filter_map(|a| match a {
            Action::Send { datagram, .. } => Some(*datagram),
            _ => None,
        })
        .collect()
}

fn kind_of(datagram: Datagram) -> Option<MsgType> {
    Some(datagram.header.msg_type)
}

#[test]
fn a_lone_node_elects_itself_and_starts_ticking() {
    let mut n = node(100, 1, 0);
    assert_eq!(n.role(), Role::Follower);

    // Stand for election.
    let a = n.on_event(election::FOLLOWER_TIMEOUT_US, Event::Tick);
    assert_eq!(sent(&a).len(), 1, "should announce its candidacy");
    assert_eq!(kind_of(sent(&a)[0]), Some(MsgType::Tick));

    // Win it.
    let t = election::FOLLOWER_TIMEOUT_US + election::CANDIDATE_SETTLE_US;
    let b = n.on_event(t, Event::Tick);
    assert_eq!(n.role(), Role::Leader);
    assert!(b.contains(&Action::RoleChanged {
        role: Role::Leader,
        epoch: 1
    }));
    assert!(
        b.contains(&Action::SyncAcquired),
        "a leader is its own timebase"
    );
    assert!(n.is_synced());
}

#[test]
fn every_event_asks_to_be_woken_again() {
    // A core that stopped asking would simply stop, and the shell has no way
    // to know it should have.
    let mut n = node(100, 1, 0);
    for ev in [Event::Tick, Event::PeerDiscovered { prefix: [9; 4] }] {
        let a = n.on_event(1, ev);
        assert!(
            a.iter().any(|x| matches!(x, Action::SetTimer { .. })),
            "no timer after {ev:?}"
        );
    }
}

#[test]
fn the_timer_is_never_zero() {
    // A shell that honoured a zero delay would spin at whatever rate its
    // event loop allows, which on a device is a flat battery.
    let mut n = node(100, 1, 0);
    for now in [0u64, 1, 10_000_000, u64::MAX / 2] {
        let a = n.on_event(now, Event::Tick);
        for act in &a {
            if let Action::SetTimer { in_us } = act {
                assert!(*in_us >= 1_000, "asked to be woken in {in_us}us");
            }
        }
    }
}

#[test]
fn rubbish_is_dropped_in_silence() {
    // Replying would make the node an amplifier for anyone who can send a
    // malformed packet.
    let mut n = node(100, 1, 0);
    let undecodable: [&[u8]; 3] = [&[], &[0xFF; 4], &[0x4C; 40]];
    for bytes in undecodable {
        let a = n.on_event(1, Event::Datagram { datagram: None });
        assert!(sent(&a).is_empty(), "replied to {bytes:?}");
    }
}

#[test]
fn another_meshs_traffic_is_ignored() {
    // Two meshes on one LAN is the normal case in a block of flats.
    let mut leader = node(200, 2, 0);
    let a = leader.on_event(election::FOLLOWER_TIMEOUT_US, Event::Tick);
    let tick = sent(&a)[0];

    let mut other = Node::new(Identity::new(Uuid([7; 16]), 100, [7; 4]), [0x11; 2], 1, 0);
    let b = other.on_event(1, heard(tick));
    assert!(sent(&b).is_empty());
    // And it still stands for election on its own schedule, because as far
    // as it is concerned nothing was heard.
    let c = other.on_event(election::FOLLOWER_TIMEOUT_US, Event::Tick);
    assert_eq!(sent(&c).len(), 1);
}

#[test]
fn a_node_ignores_its_own_looped_back_multicast() {
    let mut n = node(100, 1, 0);
    let a = n.on_event(election::FOLLOWER_TIMEOUT_US, Event::Tick);
    let own = sent(&a)[0];
    let b = n.on_event(
        election::FOLLOWER_TIMEOUT_US + 1,
        heard(own),
    );
    assert!(sent(&b).is_empty());
    // Crucially it did not reset its own election timer.
    let c = n.on_event(
        election::FOLLOWER_TIMEOUT_US + election::CANDIDATE_SETTLE_US,
        Event::Tick,
    );
    assert!(c.contains(&Action::RoleChanged {
        role: Role::Leader,
        epoch: 1
    }));
}

#[test]
fn a_follower_probes_the_leader_and_answers_probes_itself() {
    let mut leader = node(200, 2, 0);
    let a = leader.on_event(election::FOLLOWER_TIMEOUT_US, Event::Tick);
    let leader_tick = sent(&a)[0];

    let mut follower = node(100, 3, 0);
    let b = follower.on_event(
        1_000,
        heard(leader_tick),
    );
    let probes = sent(&b);
    assert_eq!(probes.len(), 1, "a tick should start a sync exchange");
    assert_eq!(kind_of(probes[0]), Some(MsgType::SyncReq));

    // The leader answers it.
    let req = probes[0];
    let c = leader.on_event(1_100, heard(req));
    let resp = sent(&c);
    assert_eq!(resp.len(), 1);
    assert_eq!(kind_of(resp[0]), Some(MsgType::SyncResp));
}

#[test]
fn a_response_to_a_probe_nobody_sent_is_ignored() {
    // Either a duplicate or someone else's. Feeding it in would measure a
    // path this node never used, and the offset it implies is meaningless.
    let mut leader = node(200, 2, 0);
    let a = leader.on_event(election::FOLLOWER_TIMEOUT_US, Event::Tick);
    let tick = sent(&a)[0];

    let mut follower = node(100, 3, 0);
    follower.on_event(1_000, heard(tick));

    // Build a response carrying a t1 the follower never sent.
    let mut stranger = node(150, 4, 0);
    let mut built = Vec::new();
    stranger.send(
        2_000,
        MsgType::SyncResp,
        Destination::Mesh,
        Payload::SyncResp(SyncResp {
            t1: 999_999,
            t2: 1,
            t3: 2,
        }),
        &mut built,
    );
    let bogus = match &built[0] {
        Action::Send { datagram, .. } => *datagram,
        other => panic!("{other:?}"),
    };

    let c = follower.on_event(2_100, heard(bogus));
    assert!(
        sent(&c).is_empty(),
        "a mismatched response must not advance the exchange"
    );
}

#[test]
fn a_probe_nobody_answers_does_not_stop_every_later_one() {
    // The probe is one-at-a-time. If only a matching answer cleared it, a
    // single lost datagram would stop time sync for ever.
    let mut leader = node(200, 2, 0);
    let a = leader.on_event(election::FOLLOWER_TIMEOUT_US, Event::Tick);
    let tick = sent(&a)[0];

    let mut follower = node(100, 3, 0);
    let b = follower.on_event(1_000, heard(tick));
    assert_eq!(sent(&b).len(), 1, "the first probe should go out");

    // Nothing answers it. Time passes - with the leader still ticking, so
    // the election cannot interfere - and the node must try again rather
    // than wait for a response that is never coming.
    //
    // Counting *probes* rather than datagrams, because a follower that
    // times out its leader stands for election and sends a TICK.
    let mut asked_again = false;
    let mut now = 1_000;
    for _ in 0..40 {
        now += PROBE_TIMEOUT_US / 4;
        // Keep the leader alive, so this stays a follower throughout.
        let keep = leader.on_event(now, Event::Tick);
        for datagram in sent(&keep) {
            follower.on_event(now, heard(datagram));
        }
        let out = follower.on_event(now, Event::Tick);
        if sent(&out).iter().any(|d| d.header.msg_type == MsgType::SyncReq) {
            asked_again = true;
            break;
        }
    }
    assert!(
        asked_again,
        "one lost probe silenced every later one - sync is deadlocked"
    );
}

#[test]
fn the_timer_accounts_for_an_outstanding_probe() {
    // A node that only woke for the election and the resync interval would
    // take thirty seconds to notice a lost probe, and would spend them
    // telling anyone who asked that it was unsynchronised.
    let mut leader = node(200, 2, 0);
    let a = leader.on_event(election::FOLLOWER_TIMEOUT_US, Event::Tick);
    let tick = sent(&a)[0];

    let mut follower = node(100, 3, 0);
    let b = follower.on_event(1_000, heard(tick));
    let timer = b
        .iter()
        .find_map(|x| match x {
            Action::SetTimer { in_us } => Some(*in_us),
            _ => None,
        })
        .expect("every event asks to be woken again");
    assert!(
        timer <= PROBE_TIMEOUT_US,
        "asked to sleep {timer} us with a probe outstanding for {PROBE_TIMEOUT_US}"
    );
}

#[test]
fn a_leader_does_not_sync_to_anyone() {
    // It is the reference. A leader that probed a follower would be
    // disciplining itself towards a clock derived from its own.
    let mut leader = node(200, 2, 0);
    leader.on_event(election::FOLLOWER_TIMEOUT_US, Event::Tick);
    let t = election::FOLLOWER_TIMEOUT_US + election::CANDIDATE_SETTLE_US;
    leader.on_event(t, Event::Tick);
    assert_eq!(leader.role(), Role::Leader);

    // A worse peer announces itself.
    let mut weak = node(1, 9, 0);
    let a = weak.on_event(election::FOLLOWER_TIMEOUT_US, Event::Tick);
    let weak_tick = sent(&a)[0];

    let b = leader.on_event(t + 1, heard(weak_tick));
    let out = sent(&b);
    assert!(
        out.iter().all(|d| kind_of(*d) != Some(MsgType::SyncReq)),
        "a leader must not probe"
    );
    assert_eq!(leader.role(), Role::Leader);
}

#[test]
fn the_weaker_of_two_candidates_stands_down() {
    let mut strong = node(200, 1, 0);
    let mut weak = node(100, 2, 0);

    let s = strong.on_event(election::FOLLOWER_TIMEOUT_US, Event::Tick);
    let w = weak.on_event(election::FOLLOWER_TIMEOUT_US, Event::Tick);
    let (s_tick, w_tick) = (sent(&s)[0], sent(&w)[0]);

    weak.on_event(
        election::FOLLOWER_TIMEOUT_US,
        heard(s_tick),
    );
    strong.on_event(
        election::FOLLOWER_TIMEOUT_US,
        heard(w_tick),
    );

    let t = election::FOLLOWER_TIMEOUT_US + election::CANDIDATE_SETTLE_US;
    strong.on_event(t, Event::Tick);
    weak.on_event(t, Event::Tick);

    assert_eq!(strong.role(), Role::Leader);
    assert_ne!(weak.role(), Role::Leader);
}

#[test]
fn sequence_numbers_advance_on_every_datagram() {
    // Half the AEAD nonce. A repeated sequence within one boot is nonce
    // reuse under the mesh key.
    let mut n = node(100, 1, 0);
    let mut seen = Vec::new();
    for step in 1..6u64 {
        let a = n.on_event(step * election::FOLLOWER_TIMEOUT_US, Event::Tick);
        for d in sent(&a) {
            seen.push(d.header.sequence);
        }
    }
    assert!(seen.len() >= 2, "expected several datagrams");
    for pair in seen.windows(2) {
        assert!(
            pair[1] > pair[0],
            "sequence went {} -> {}",
            pair[0],
            pair[1]
        );
    }
}

#[test]
fn every_datagram_carries_the_mesh_prefix_and_this_senders_prefix() {
    let mut n = node(100, 5, 0);
    let a = n.on_event(election::FOLLOWER_TIMEOUT_US, Event::Tick);
    let d = sent(&a)[0];
    assert_eq!(d.header.mesh_prefix, MESH);
    assert_eq!(d.header.sender_prefix, [5, 5, 0, 0]);
}

#[test]
fn a_tick_claims_no_wall_clock_quality_it_does_not_have() {
    // Claiming one would make schedules fire at a plausible-looking wrong
    // moment instead of degrading visibly.
    let mut n = node(100, 1, 0);
    let a = n.on_event(election::FOLLOWER_TIMEOUT_US, Event::Tick);
    let d = sent(&a)[0];
    match d.payload {
        Some(Payload::Tick(t)) => {
            assert_eq!(t.wall_time_us, None);
        }
        other => panic!("{other:?}"),
    }
}

#[test]
fn an_unknown_message_type_is_ignored_rather_than_answered() {
    let mut n = node(100, 1, 0);
    // A well-formed datagram from this mesh, with a type from the vendor
    // range, which nothing ever assigns.
    let header = Header {
        msg_type: MsgType::Other(0xF7),
        mesh_prefix: MESH,
        sender_prefix: [9, 9, 9, 9],
        sequence: 1,
        show_time_us: 0,
    };
    let a = n.on_event(1, heard(Datagram { header, payload: None }));
    assert!(sent(&a).is_empty());
}

#[test]
fn a_whole_exchange_disciplines_the_follower() {
    // The leader's clock is 5 ms ahead and every path takes 100 us each way.
    let ahead = 5_000u64;
    let mut leader = node(200, 2, 0);
    let tick = sent(&leader.on_event(election::FOLLOWER_TIMEOUT_US, Event::Tick))[0];
    let mut follower = node(100, 3, 0);
    let mut now = 10_000u64;
    let mut out = follower.on_event(now, heard(tick));
    let mut disciplined = None;
    for _ in 0..8 {
        let probe = sent(&out)[0];
        assert_eq!(kind_of(probe), Some(MsgType::SyncReq));
        let answer = sent(&leader.on_event(now + 100 + ahead, heard(probe)))[0];
        now += 200;
        out = follower.on_event(now, heard(answer));
        for action in &out {
            if let Action::DisciplineClock { offset_us } = action {
                disciplined = Some(*offset_us);
            }
        }
    }
    assert_eq!(disciplined, Some(5_000));
    assert!(out.contains(&Action::SyncAcquired));
    assert!(follower.is_synced());
}

#[test]
fn a_node_knows_how_often_it_has_booted() {
    let n = Node::new(Identity::new(Uuid([7; 16]), 100, [7; 4]), MESH, 42, 0);
    assert_eq!(n.boot_counter(), 42);
    assert_eq!(n.epoch(), 0);
    assert!(!n.is_synced());
}

#[test]
fn a_recorded_script_replays_identically() {
    let mut leader = node(200, 2, 0);
    let tick = sent(&leader.on_event(election::FOLLOWER_TIMEOUT_US, Event::Tick))[0];
    let script = [
        (1_000, heard(tick)),
        (5_000, Event::PeerDiscovered { prefix: [9; 4] }),
        (900_000, Event::Tick),
        (2_000_000, Event::Datagram { datagram: None }),
        (4_000_000, Event::Tick),
        (6_500_000, Event::Tick),
    ];
    let run = || {
        let mut n = node(100, 3, 0);
        script.iter().map(|(at, ev)| n.on_event(*at, *ev)).collect::<Vec<_>>()
    };
    assert_eq!(run(), run());
}

#[test]
fn only_one_probe_is_out_at_a_time() {
    let mut leader = node(200, 2, 0);
    let tick = sent(&leader.on_event(election::FOLLOWER_TIMEOUT_US, Event::Tick))[0];
    let mut follower = node(100, 3, 0);
    assert_eq!(sent(&follower.on_event(1_000, heard(tick))).len(), 1);
    assert_eq!(sent(&follower.on_event(1_001, heard(tick))).len(), 0);
}

#[test]
fn a_node_that_starts_to_lead_probes_nobody() {
    let mut strong = node(200, 2, 0);
    strong.on_event(3_000_000, Event::Tick);
    let mut weak = node(1, 9, 0);
    let weak_tick = sent(&weak.on_event(3_000_000, Event::Tick))[0];
    strong.on_event(3_000_000, heard(weak_tick));
    let out = strong.on_event(5_000_000, Event::Tick);
    assert!(out.contains(&Action::RoleChanged { role: Role::Leader, epoch: 1 }));
    assert!(sent(&out).iter().all(|d| kind_of(*d) != Some(MsgType::SyncReq)));
    // Nor does it later, however often it is woken.
    for k in 1..100 {
        let out = strong.on_event(5_000_000 + k * 500_000, Event::Tick);
        assert!(sent(&out).iter().all(|d| kind_of(*d) != Some(MsgType::SyncReq)));
    }
}
