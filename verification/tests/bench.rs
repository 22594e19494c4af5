//! The machines, driven by requests and answering in lines.

use lumen_device::answers::{render_node_action, respond};
use lumen_device::bench::{
    alloc_pixels, strip_of, Entry, Fault, Field, Json, Loaded, Machine, Number, Shell, Text,
};
use lumen_device::q16::Op;
use lumen_device::render::{self, PixelOutput, Ran, Rgb, Step, Work};
use lumen_device::wire::{Datagram, Header, MsgType};
use lumen_device::{Action, Destination, Q16, Role, Transport, Uuid};

/// The arithmetic of a host.
fn unit(op: Op, a: Q16, b: Q16, c: Q16) -> Q16 {
    let (x, y, z) = (a.0 as i64, b.0 as i64, c.0 as i64);
    let real = |v: i64| v as f64 / 65_536.0;
    let raw = |v: f64| (v * 65_536.0).round() as i64;
    let turns = real(x) * core::f64::consts::TAU;
    let r = match op {
        Op::Add => x + y,
        Op::Sub => x - y,
        Op::Mul => (x * y) >> 16,
        Op::Div | Op::Ratio if y == 0 => 0,
        Op::Div | Op::Ratio => (x << 16) / y,
        Op::Abs => x.abs(),
        Op::Fract => x & 0xFFFF,
        Op::Length => raw((real(x).powi(2) + real(y).powi(2) + real(z).powi(2)).sqrt()),
        Op::Angle => raw(real(x).atan2(real(y))),
        Op::Lerp => x + (((y - x) * z) >> 16),
        Op::Turn => 411_775,
        Op::Cos => raw(turns.cos()),
        Op::Sin => raw(turns.sin()),
        Op::Log2 if x <= 0 => 0,
        Op::Log2 => raw(real(x).log2()),
        Op::Exp2 => raw(real(x).exp2()),
    };
    Q16(r.clamp(i32::MIN as i64, i32::MAX as i64) as i32)
}

/// A program that shows one grey, or faults.
#[derive(Clone, Copy)]
enum Code {
    Grey(Q16),
    Faulty,
}

fn vm(_machine: Option<()>, step: Step<Code>) -> Ran<()> {
    let outcome = match (step.work, step.program) {
        (Work::Frame { .. }, _) => Ok(PixelOutput::Nothing),
        (Work::Pixel(_), Code::Grey(v)) => Ok(PixelOutput::Rgb { r: v, g: v, b: v }),
        (Work::Pixel(_), Code::Faulty) => Err(render::Fault(1)),
    };
    Ran { machine: (), spent: 1, prev: [Q16::zero(); 3], outcome }
}

/// One byte is a grey in 256ths; two are a program that faults; nothing else loads.
fn load(bytes: &[u8]) -> Option<Loaded<Code>> {
    let program = match bytes {
        [v] => Code::Grey(Q16(*v as i32 * 256)),
        [_, _] => Code::Faulty,
        _ => return None,
    };
    Some(Loaded { program, frame_cost: 0, budget: 1 })
}

/// A datagram is its message's number alone.
fn decode(bytes: &[u8]) -> Option<Datagram> {
    let number = *bytes.first()?;
    let header = Header {
        msg_type: MsgType::Other(number),
        mesh_prefix: [0xAB; 2],
        sender_prefix: [9; 4],
        sequence: 1,
        show_time_us: 0,
    };
    Some(Datagram { header, payload: None })
}

fn encode(datagram: &Datagram) -> Vec<u8> {
    let number = match datagram.header.msg_type {
        MsgType::Tick => 1,
        MsgType::SyncReq => 2,
        MsgType::SyncResp => 3,
        MsgType::Other(n) => n,
        _ => 0xFF,
    };
    vec![number, datagram.header.sequence as u8]
}

fn verify(key: &[u8; 32], _message: &[u8], signature: &[u8; 64]) -> bool {
    key[0] == signature[0]
}

fn naming(id: &Uuid) -> ([u8; 4], [u8; 2]) {
    ([id.0[0], id.0[1], id.0[2], id.0[3]], [id.0[0], id.0[1]])
}

fn ask(machine: &mut Machine<()>, verb: &str, body: &Json) -> Result<String, Fault> {
    let shell = Shell { unit, vm, load, codec: decode, verifier: verify };
    respond(machine, &shell, &naming, &encode, &verb.to_string(), body)
}

fn unhex(s: &str) -> Option<Vec<u8>> {
    if s.len() % 2 != 0 {
        return None;
    }
    (0..s.len() / 2).map(|i| u8::from_str_radix(s.get(2 * i..2 * i + 2)?, 16).ok()).collect()
}

fn text(s: &str) -> Json {
    Json::Text(Text { text: s.to_string(), bytes: unhex(s) })
}

fn num(n: i64) -> Json {
    Json::Number(Number { unsigned: u64::try_from(n).ok(), signed: Some(n) })
}

fn list(items: Vec<Json>) -> Json {
    Json::Array(items)
}

fn obj(entries: Vec<(&str, Json)>) -> Json {
    Json::Object(
        entries.into_iter().map(|(k, value)| Entry { key: k.to_string(), value }).collect(),
    )
}

fn id(n: u8) -> String {
    format!("{n:02x}").repeat(16)
}

fn description(machine: &str, state: Json) -> Json {
    obj(vec![("machine", text(machine)), ("state", state)])
}

fn set_up(machine: &str, state: Json) -> Machine<()> {
    let mut m = Machine::Idle;
    assert_eq!(ask(&mut m, "reset", &description(machine, state)).unwrap(), "ok {}");
    m
}

fn refused(machine: &str, state: Json) -> Fault {
    let mut m = Machine::Idle;
    let fault = ask(&mut m, "reset", &description(machine, state)).unwrap_err();
    assert!(matches!(m, Machine::Idle), "a refused description sets nothing up");
    fault
}

fn happen(at_us: i64, kind: &str, mut entries: Vec<(&str, Json)>) -> Json {
    entries.push(("event", text(kind)));
    obj(vec![("at_us", num(at_us)), ("event", obj(entries))])
}

fn said(m: &mut Machine<()>, at_us: i64, kind: &str, entries: Vec<(&str, Json)>) -> String {
    let line = ask(m, "event", &happen(at_us, kind, entries)).unwrap();
    let inner = line.strip_prefix("ok {\"actions\":[").unwrap();
    inner.strip_suffix("]}").unwrap().to_string()
}

fn wrong(m: &mut Machine<()>, kind: &str, entries: Vec<(&str, Json)>) -> Fault {
    ask(m, "event", &happen(0, kind, entries)).unwrap_err()
}

#[test]
fn a_bench_introduces_itself_and_knows_its_requests() {
    let mut m = Machine::Idle;
    let nothing = obj(vec![]);
    assert_eq!(
        ask(&mut m, "hello", &nothing).unwrap(),
        r#"ok {"name":"lumen-device 0.1.0","protocol":2,"kinds":["behavioural"]}"#
    );
    assert_eq!(ask(&mut m, "decode", &nothing), Err(Fault::NotOffered));
    assert_eq!(ask(&mut m, "encode", &nothing), Err(Fault::NotOffered));
    assert_eq!(ask(&mut m, "sing", &nothing), Err(Fault::UnknownRequest));
}

#[test]
fn what_is_left_out_of_a_request_is_named() {
    let mut m = Machine::Idle;
    assert_eq!(ask(&mut m, "reset", &obj(vec![])), Err(Fault::NoMachine));
    assert_eq!(
        ask(&mut m, "reset", &obj(vec![("machine", text("node"))])),
        Err(Fault::NoState)
    );
    assert_eq!(refused("toaster", obj(vec![])), Fault::UnknownMachine);
    assert_eq!(ask(&mut m, "event", &obj(vec![])), Err(Fault::NoEvent));
    assert_eq!(
        ask(&mut m, "event", &obj(vec![("event", obj(vec![]))])),
        Err(Fault::NoKind)
    );
    assert_eq!(wrong(&mut m, "tick", vec![]), Fault::NotSetUp);
}

fn node_state() -> Vec<(&'static str, Json)> {
    vec![
        ("uuid", text(&id(0x11))),
        ("mesh_id", text(&id(0xAB))),
        ("capacity", num(100)),
    ]
}

#[test]
fn a_node_needs_a_name_a_mesh_and_a_capacity() {
    assert_eq!(refused("node", obj(vec![])), Fault::Missing(Field::Uuid));
    let mut s = node_state();
    s[0].1 = text("zz");
    assert_eq!(refused("node", obj(s)), Fault::Garbled(Field::Uuid));
    let mut s = node_state();
    s[0].1 = text("1234");
    assert_eq!(refused("node", obj(s)), Fault::WrongLength { field: Field::Uuid, got: 2 });
    let mut s = node_state();
    s.remove(1);
    assert_eq!(refused("node", obj(s)), Fault::Missing(Field::MeshId));
    let mut s = node_state();
    s.remove(2);
    assert_eq!(refused("node", obj(s)), Fault::Missing(Field::Capacity));
}

#[test]
fn a_node_stands_wins_and_says_so() {
    let mut m = set_up("node", obj(node_state()));
    assert_eq!(
        said(&mut m, 3_000_000, "tick", vec![]),
        r#"{"action":"send","to":"mesh","datagram":"0101"},{"action":"set_timer","in_us":1000000}"#
    );
    assert_eq!(
        said(&mut m, 5_000_000, "tick", vec![]),
        concat_lines(&[
            r#"{"action":"role","role":"leader","epoch":1}"#,
            r#"{"action":"send","to":"mesh","datagram":"0102"}"#,
            r#"{"action":"sync_acquired"}"#,
            r#"{"action":"set_timer","in_us":1000000}"#,
        ])
    );
}

fn concat_lines(lines: &[&str]) -> String {
    lines.join(",")
}

#[test]
fn a_node_takes_datagrams_and_peers() {
    let mut m = set_up("node", obj(node_state()));
    let timer = r#"{"action":"set_timer","in_us":1000000}"#;
    for bytes in ["", "f7"] {
        assert_eq!(said(&mut m, 0, "datagram", vec![("bytes", text(bytes))]), timer);
    }
    assert_eq!(said(&mut m, 0, "peer_discovered", vec![("prefix", text("01020304"))]), timer);
    assert_eq!(said(&mut m, 0, "peer_lost", vec![("prefix", text("01020304"))]), timer);
    assert_eq!(wrong(&mut m, "datagram", vec![]), Fault::Missing(Field::Bytes));
    assert_eq!(
        wrong(&mut m, "datagram", vec![("bytes", text("0"))]),
        Fault::Garbled(Field::Bytes)
    );
    assert_eq!(wrong(&mut m, "peer_lost", vec![]), Fault::Missing(Field::Prefix));
    assert_eq!(
        wrong(&mut m, "peer_lost", vec![("prefix", text("01"))]),
        Fault::WrongLength { field: Field::Prefix, got: 1 }
    );
    assert_eq!(wrong(&mut m, "dance", vec![]), Fault::UnknownEvent);
}

#[test]
fn every_action_of_a_node_has_its_words() {
    let header = decode(&[7]).unwrap().header;
    let send = Action::Send {
        to: Destination::Peer([1, 2, 0xAB, 0xCD]),
        datagram: Datagram { header, payload: None },
        transport: Transport::Datagram,
    };
    for (action, words) in [
        (send, r#"{"action":"send","to":"0102abcd","datagram":"0701"}"#),
        (
            Action::DisciplineClock { offset_us: -1_050 },
            r#"{"action":"discipline","offset_us":-1050}"#,
        ),
        (
            Action::DisciplineClock { offset_us: i64::MIN },
            r#"{"action":"discipline","offset_us":-9223372036854775808}"#,
        ),
        (
            Action::RoleChanged { role: Role::Follower, epoch: 0 },
            r#"{"action":"role","role":"follower","epoch":0}"#,
        ),
        (
            Action::RoleChanged { role: Role::Candidate, epoch: 4_294_967_295 },
            r#"{"action":"role","role":"candidate","epoch":4294967295}"#,
        ),
        (Action::SyncLost, r#"{"action":"sync_lost"}"#),
        (Action::SyncAcquired, r#"{"action":"sync_acquired"}"#),
        (
            Action::SetTimer { in_us: u64::MAX },
            r#"{"action":"set_timer","in_us":18446744073709551615}"#,
        ),
    ] {
        assert_eq!(render_node_action(&encode, &action), words);
    }
}

fn pushed(n: u8, priority: i64) -> Vec<(&'static str, Json)> {
    vec![
        ("id", text(&id(n))),
        ("zone", text(&id(0x50))),
        ("scene", text(&id(n))),
        ("priority", num(priority)),
        ("cost", num(60)),
    ]
}

fn leased(n: u8, priority: i64, expires: i64) -> Vec<(&'static str, Json)> {
    let mut entries = pushed(n, priority);
    entries.push(("expires_at_us", num(expires)));
    entries
}

#[test]
fn a_stack_reports_every_change_and_every_refusal() {
    let state = obj(vec![("budget", num(100)), ("max_concurrent", num(8))]);
    let mut m = set_up("sources", state);
    assert_eq!(
        said(&mut m, 0, "push", pushed(1, 10)),
        format!(r#"{{"action":"admitted","id":"{}"}}"#, id(1))
    );
    assert_eq!(
        said(&mut m, 0, "push", pushed(2, 200)),
        r#"{"action":"refused","reason":"no_expiry","priority":200}"#
    );
    assert_eq!(
        said(&mut m, 5, "push", leased(2, 200, 5)),
        r#"{"action":"refused","reason":"already_expired","expires_at_us":5}"#
    );
    let mut dear = leased(2, 200, 50);
    dear[4].1 = num(101);
    assert_eq!(said(&mut m, 5, "push", dear), r#"{"action":"refused","reason":"no_room"}"#);
    assert_eq!(
        said(&mut m, 5, "push", leased(2, 200, 50)),
        format!(
            r#"{{"action":"admitted","id":"{}"}},{{"action":"rejected","id":"{}","cost":60,"spare":40}}"#,
            id(2),
            id(1)
        )
    );
    assert_eq!(
        said(&mut m, 50, "advance", vec![]),
        format!(
            r#"{{"action":"removed","id":"{0}","reason":"expired"}},{{"action":"fade_finished","id":"{0}"}},{{"action":"admitted","id":"{1}"}}"#,
            id(2),
            id(1)
        )
    );
    assert_eq!(
        said(&mut m, 60, "pop", vec![("id", text(&id(2)))]),
        r#"{"action":"refused","reason":"not_found"}"#
    );
    assert_eq!(
        said(&mut m, 60, "pop", vec![("id", text(&id(1)))]),
        format!(
            r#"{{"action":"removed","id":"{0}","reason":"popped"}},{{"action":"fade_finished","id":"{0}"}}"#,
            id(1)
        )
    );
}

#[test]
fn a_push_needs_its_ids_and_its_priority() {
    let mut m = set_up("sources", obj(vec![]));
    for (at, field) in
        [(0, Field::Id), (1, Field::Zone), (2, Field::Scene), (3, Field::Priority)]
    {
        let mut entries = pushed(1, 10);
        entries.remove(at);
        assert_eq!(wrong(&mut m, "push", entries), Fault::Missing(field));
    }
    assert_eq!(wrong(&mut m, "pop", vec![]), Fault::Missing(Field::Id));
    assert_eq!(wrong(&mut m, "tick", vec![]), Fault::UnknownEvent);
}

#[test]
fn a_channel_answers_claims_and_reads() {
    let state = obj(vec![("channel_id", num(7)), ("hold_ms", num(100)), ("default", num(-5))]);
    let mut m = set_up("channel", state);
    let by = |p: &str| ("producer", text(p));
    assert_eq!(
        said(&mut m, 0, "read", vec![]),
        r#"{"action":"value","value":-5,"stale":true}"#
    );
    assert_eq!(
        said(&mut m, 0, "claim", vec![by("01010101"), ("priority", num(1)), ("lease_ms", num(500))]),
        r#"{"action":"claimed","outcome":"taken"}"#
    );
    assert_eq!(
        said(&mut m, 1, "claim", vec![by("01010101"), ("priority", num(1)), ("lease_ms", num(500))]),
        r#"{"action":"claimed","outcome":"renewed"}"#
    );
    assert_eq!(
        said(&mut m, 1, "claim", vec![by("02020202"), ("priority", num(1))]),
        r#"{"action":"claimed","outcome":"refused","holder":"01010101"}"#
    );
    assert_eq!(
        said(&mut m, 2, "publish", vec![by("01010101"), ("seq", num(9)), ("value", num(77))]),
        r#"{"action":"published"}"#
    );
    assert_eq!(
        said(&mut m, 2, "publish", vec![by("01010101"), ("seq", num(8)), ("value", num(78))]),
        r#"{"action":"dropped"}"#
    );
    assert_eq!(
        said(&mut m, 3, "read", vec![]),
        r#"{"action":"value","value":77,"stale":false}"#
    );
    assert_eq!(
        said(&mut m, 3, "release", vec![by("02020202")]),
        r#"{"action":"release_ignored"}"#
    );
    assert_eq!(said(&mut m, 4, "advance", vec![]), "");
    assert_eq!(
        said(&mut m, 600_000, "advance", vec![]),
        r#"{"action":"lease_lapsed","producer":"01010101"}"#
    );
    said(&mut m, 600_000, "claim", vec![by("03030303"), ("lease_ms", num(500))]);
    assert_eq!(
        said(&mut m, 600_000, "claim", vec![by("04040404"), ("priority", num(9))]),
        r#"{"action":"claimed","outcome":"preempted","previous":"03030303"}"#
    );
    assert_eq!(
        said(&mut m, 600_000, "release", vec![by("04040404")]),
        r#"{"action":"released"}"#
    );
    assert_eq!(wrong(&mut m, "claim", vec![]), Fault::Missing(Field::Producer));
    assert_eq!(
        wrong(&mut m, "claim", vec![by("01")]),
        Fault::WrongLength { field: Field::Producer, got: 1 }
    );
    assert_eq!(wrong(&mut m, "shout", vec![]), Fault::UnknownEvent);
}

fn binding_state() -> Vec<(&'static str, Json)> {
    vec![
        ("protocol", text("artnet")),
        ("id", text(&id(1))),
        ("zone", text(&id(0x50))),
        ("pixel_from", num(10)),
        ("pixel_to", num(70)),
        ("priority_ceiling", num(100)),
    ]
}

#[test]
fn a_gateway_answers_for_its_binding() {
    let mut m = set_up("gateway", obj(binding_state()));
    let source = ("source_id", text(&id(9)));
    assert_eq!(
        said(
            &mut m,
            1_000,
            "ingress",
            vec![("offset", num(0)), ("count", num(100)), ("priority", num(255)), source]
        ),
        concat_lines(&[
            r#"{"action":"admitted","pixel_from":10,"pixel_to":70,"clipped":40"#,
            r#""priority":100,"priority_clamped":true,"expires_at_us":5001000}"#,
        ])
    );
    assert_eq!(
        said(&mut m, 0, "ingress", vec![("source_id", text(&id(9)))]),
        r#"{"action":"refused","reason":"outside_binding"}"#
    );
    assert_eq!(
        said(&mut m, 0, "program", vec![]),
        r#"{"action":"program_accepted","accepted":false}"#
    );
    assert_eq!(said(&mut m, 0, "ceiling", vec![]), r#"{"action":"max_priority","max":191}"#);
    assert_eq!(wrong(&mut m, "ingress", vec![]), Fault::Missing(Field::SourceId));
    assert_eq!(wrong(&mut m, "egress", vec![]), Fault::UnknownEvent);

    for (change, words) in [
        (
            ("priority_ceiling", num(250)),
            r#"{"action":"bad_binding","reason":"ceiling_too_high","asked":250,"max":191}"#,
        ),
        (("pixel_to", num(10)), r#"{"action":"bad_binding","reason":"empty_range"}"#),
    ] {
        let mut s = binding_state();
        s.insert(0, change);
        let mut m = set_up("gateway", obj(s));
        assert_eq!(said(&mut m, 0, "ingress", vec![("source_id", text(&id(9)))]), words);
    }
}

#[test]
fn a_binding_needs_a_protocol_it_knows() {
    for name in ["artnet", "e131", "ddp", "mqtt", "http"] {
        let mut s = binding_state();
        s[0].1 = text(name);
        set_up("gateway", obj(s));
    }
    let mut s = binding_state();
    s[0].1 = text("smoke");
    assert_eq!(refused("gateway", obj(s)), Fault::UnknownProtocol);
    let mut s = binding_state();
    s.remove(0);
    assert_eq!(refused("gateway", obj(s)), Fault::Missing(Field::Protocol));
    let mut s = binding_state();
    s.remove(5);
    assert_eq!(refused("gateway", obj(s)), Fault::Missing(Field::PriorityCeiling));
}

fn led(index: i64, x: i64) -> Json {
    obj(vec![("index", num(index)), ("world", list(vec![num(x), num(0), num(0)]))])
}

fn compare(axis: &str, op: &str, value: i64) -> Json {
    obj(vec![
        ("clause", text("where")),
        ("predicate", text("compare")),
        ("axis", text(axis)),
        ("op", text(op)),
        ("value", num(value)),
    ])
}

fn zone_state(quality: &str, taken: Vec<Json>, left: Vec<Json>) -> Json {
    obj(vec![
        (
            "zone",
            obj(vec![
                ("id", text(&id(0x50))),
                ("include", list(taken)),
                ("exclude", list(left)),
            ]),
        ),
        (
            "device",
            obj(vec![
                ("device", text(&id(1))),
                ("quality", text(quality)),
                ("leds", list((0..4).map(|i| led(i, i * 10)).collect())),
            ]),
        ),
    ])
}

fn named(leds: Option<(i64, i64)>) -> Json {
    let mut entries = vec![("clause", text("device")), ("device", text(&id(1)))];
    if let Some((from, to)) = leds {
        entries.push(("leds", list(vec![num(from), num(to)])));
    }
    obj(entries)
}

#[test]
fn a_zone_answers_what_it_covers() {
    let mut m = set_up("zone", zone_state("mapped", vec![named(None)], vec![named(Some((1, 3)))]));
    assert_eq!(said(&mut m, 0, "resolve", vec![]), r#"{"action":"selected","leds":[0,3]}"#);
    assert_eq!(
        said(&mut m, 0, "why_excluded", vec![]),
        r#"{"action":"excluded_for_mapping","excluded":false}"#
    );
    assert_eq!(wrong(&mut m, "paint", vec![]), Fault::UnknownEvent);

    for (op, leds) in [("lt", "0"), ("le", "0,1"), ("gt", "2,3"), ("ge", "1,2,3")] {
        let mut m = set_up("zone", zone_state("rough", vec![compare("x", op, 10)], vec![]));
        assert_eq!(
            said(&mut m, 0, "resolve", vec![]),
            format!(r#"{{"action":"selected","leds":[{leds}]}}"#)
        );
    }

    let mut m = set_up("zone", zone_state("synthetic", vec![compare("x", "lt", 10)], vec![]));
    assert_eq!(said(&mut m, 0, "resolve", vec![]), r#"{"action":"selected","leds":[]}"#);
    assert_eq!(
        said(&mut m, 0, "why_excluded", vec![]),
        r#"{"action":"excluded_for_mapping","excluded":true}"#
    );
}

#[test]
fn predicates_nest() {
    let part = |op: &str, value: i64| compare("x", op, value);
    let between = |how: &str| {
        obj(vec![
            ("clause", text("where")),
            ("predicate", text(how)),
            ("of", list(vec![part("ge", 10), part("le", 20)])),
        ])
    };
    let near = obj(vec![
        ("clause", text("where")),
        ("predicate", text("near")),
        ("point", list(vec![num(20)])),
        ("radius", num(11)),
    ]);
    let not = obj(vec![
        ("clause", text("where")),
        ("predicate", text("not")),
        ("of", between("all")),
    ]);
    for (clause, leds) in
        [(between("all"), "1,2"), (between("any"), "0,1,2,3"), (near, "1,2,3"), (not, "0,3")]
    {
        let mut m = set_up("zone", zone_state("mapped", vec![clause], vec![]));
        assert_eq!(
            said(&mut m, 0, "resolve", vec![]),
            format!(r#"{{"action":"selected","leds":[{leds}]}}"#)
        );
    }
}

#[test]
fn a_zone_that_cannot_be_read_says_why() {
    let clause = |entries| zone_state("mapped", vec![obj(entries)], vec![]);
    let test = |entries: Vec<(&'static str, Json)>| {
        let mut all = vec![("clause", text("where"))];
        all.extend(entries);
        clause(all)
    };
    assert_eq!(refused("zone", obj(vec![])), Fault::Missing(Field::Zone));
    assert_eq!(refused("zone", clause(vec![])), Fault::UnknownClause);
    assert_eq!(
        refused("zone", clause(vec![("clause", text("device"))])),
        Fault::Missing(Field::Device)
    );
    assert_eq!(refused("zone", test(vec![])), Fault::UnknownPredicate);
    assert_eq!(refused("zone", test(vec![("predicate", text("compare"))])), Fault::UnknownAxis);
    assert_eq!(
        refused("zone", zone_state("mapped", vec![compare("x", "eq", 1)], vec![])),
        Fault::UnknownComparison
    );
    for how in ["not", "all", "any"] {
        assert_eq!(
            refused("zone", test(vec![("predicate", text(how))])),
            Fault::Missing(Field::Of)
        );
    }
    assert_eq!(refused("zone", zone_state("perfect", vec![], vec![])), Fault::UnknownQuality);
    let zone = obj(vec![("id", text(&id(1)))]);
    assert_eq!(refused("zone", obj(vec![("zone", zone)])), Fault::Missing(Field::Device));
    let zone = obj(vec![("id", text(&id(1)))]);
    let device = obj(vec![("quality", text("rough"))]);
    assert_eq!(
        refused("zone", obj(vec![("zone", zone), ("device", device)])),
        Fault::Missing(Field::Leds)
    );
}

fn record(n: u8, hlc: i64, signed_by: u8) -> Vec<(&'static str, Json)> {
    vec![
        ("kind", num(4)),
        ("signature", text(&format!("{signed_by:02x}").repeat(64))),
        ("id", text(&id(n))),
        ("author", text(&id(200))),
        ("hlc", num(hlc)),
        ("body", text("010203")),
    ]
}

fn records_state() -> Json {
    let controller =
        obj(vec![("id", text(&id(200))), ("key", text(&"07".repeat(32)))]);
    let device = obj(vec![("id", text(&id(1))), ("key", text(&"0b".repeat(32)))]);
    obj(vec![("controllers", list(vec![controller])), ("devices", list(vec![device]))])
}

#[test]
fn records_are_accepted_listed_and_asked_for() {
    let mut m = set_up("records", records_state());
    let offer = |r: Vec<(&'static str, Json)>| vec![("record", obj(r)), ("wall_ms", num(1))];
    assert_eq!(said(&mut m, 0, "accept", offer(record(2, 20, 7))), r#"{"action":"accepted"}"#);
    assert_eq!(said(&mut m, 0, "accept", offer(record(1, 10, 7))), r#"{"action":"accepted"}"#);
    for (r, reason) in [
        (record(3, 5, 8), "bad_signature"),
        (record(2, 20, 7), "superseded"),
    ] {
        assert_eq!(
            said(&mut m, 0, "accept", offer(r)),
            format!(r#"{{"action":"rejected","reason":"{reason}"}}"#)
        );
    }
    let by = |author: u8, kind: i64, n: u8| {
        let mut r = record(n, 30, 11);
        r[3].1 = text(&id(author));
        r[0].1 = num(kind);
        r
    };
    assert_eq!(
        said(&mut m, 0, "accept", offer(by(99, 4, 9))),
        r#"{"action":"rejected","reason":"unknown_author"}"#
    );
    assert_eq!(
        said(&mut m, 0, "accept", offer(by(1, 4, 9))),
        r#"{"action":"rejected","reason":"wrong_authority"}"#
    );
    assert_eq!(
        said(&mut m, 0, "accept", offer(by(1, 0, 9))),
        r#"{"action":"rejected","reason":"not_its_own_device_record"}"#
    );
    assert_eq!(
        said(&mut m, 0, "digest", vec![]),
        format!(
            r#"{{"action":"digest","entries":[{{"id":"{}","hlc":10}},{{"id":"{}","hlc":20}}]}}"#,
            id(1),
            id(2)
        )
    );
    let theirs = list(vec![
        obj(vec![("id", text(&id(1))), ("hlc", num(11))]),
        obj(vec![("id", text("zz")), ("hlc", num(11))]),
        obj(vec![("id", text(&id(7)))]),
        obj(vec![("id", text(&id(2))), ("hlc", num(20))]),
    ]);
    assert_eq!(
        said(&mut m, 0, "wanted", vec![("theirs", theirs)]),
        format!(r#"{{"action":"wanted","ids":["{}"]}}"#, id(1))
    );
    assert_eq!(said(&mut m, 0, "wanted", vec![]), r#"{"action":"wanted","ids":[]}"#);
}

#[test]
fn a_record_that_cannot_be_read_says_why() {
    let mut m = set_up("records", records_state());
    assert_eq!(wrong(&mut m, "accept", vec![]), Fault::Missing(Field::Record));
    assert_eq!(wrong(&mut m, "burn", vec![]), Fault::UnknownEvent);
    for (at, fault) in [
        (0, Fault::UnknownRecordKind),
        (1, Fault::Missing(Field::Signature)),
        (2, Fault::Missing(Field::Id)),
        (3, Fault::Missing(Field::Author)),
    ] {
        let mut r = record(1, 1, 7);
        r.remove(at);
        assert_eq!(wrong(&mut m, "accept", vec![("record", obj(r))]), fault);
    }
    let mut r = record(1, 1, 7);
    r[5].1 = text("?");
    assert_eq!(wrong(&mut m, "accept", vec![("record", obj(r))]), Fault::Garbled(Field::Body));
    let mut r = record(1, 1, 7);
    r[1].1 = text("00");
    assert_eq!(
        wrong(&mut m, "accept", vec![("record", obj(r))]),
        Fault::WrongLength { field: Field::Signature, got: 1 }
    );
    let keyless = obj(vec![("id", text(&id(200)))]);
    assert_eq!(
        refused("records", obj(vec![("controllers", list(vec![keyless]))])),
        Fault::Missing(Field::Key)
    );
}

fn bound(n: u8, program: &str) -> Vec<(&'static str, Json)> {
    let mut entries = pushed(n, 10);
    entries.push(("program", text(program)));
    entries
}

#[test]
fn a_bound_program_shows_on_its_leds() {
    let mut m = set_up("render", obj(vec![]));
    let mut half = bound(1, "80");
    half.push(("led_from", num(1)));
    half.push(("led_to", num(3)));
    assert_eq!(
        said(&mut m, 0, "bind", half),
        format!(r#"{{"action":"admitted","id":"{}"}}"#, id(1))
    );
    assert_eq!(
        said(&mut m, 0, "frame", vec![("t", num(0))]),
        r#"{"action":"pixels","rgb":[[0,0,0],[32768,32768,32768],[32768,32768,32768],[0,0,0]]}"#
    );
    assert_eq!(said(&mut m, 0, "advance", vec![]), "");
    assert_eq!(wrong(&mut m, "explode", vec![]), Fault::UnknownEvent);
}

#[test]
fn a_faulting_program_is_named_after_the_frame() {
    let mut m = set_up("render", obj(vec![("led_count", num(1))]));
    said(&mut m, 0, "bind", bound(1, "0000"));
    assert_eq!(
        said(&mut m, 0, "frame", vec![]),
        format!(
            r#"{{"action":"pixels","rgb":[[0,0,0]]}},{{"action":"faulted","source":"{}"}}"#,
            id(1)
        )
    );
}

#[test]
fn a_source_bound_again_is_named_once_for_each_binding() {
    let mut m = set_up("render", obj(vec![("led_count", num(1))]));
    said(&mut m, 0, "bind", bound(1, "0000"));
    said(&mut m, 0, "bind", bound(1, "0000"));
    let faulted = format!(r#"{{"action":"faulted","source":"{}"}}"#, id(1));
    assert_eq!(
        said(&mut m, 0, "frame", vec![]),
        format!(r#"{{"action":"pixels","rgb":[[0,0,0]]}},{faulted},{faulted}"#)
    );
}

#[test]
fn a_program_that_does_not_load_stops_the_frame() {
    let mut m = set_up("render", obj(vec![]));
    assert_eq!(wrong(&mut m, "bind", bound(1, "xyz")), Fault::Garbled(Field::Program));
    said(&mut m, 0, "bind", bound(1, "000000"));
    assert_eq!(wrong(&mut m, "frame", vec![]), Fault::BadProgram);
    let mut m = set_up("render", obj(vec![]));
    said(&mut m, 0, "bind", pushed(1, 10));
    assert_eq!(wrong(&mut m, "frame", vec![]), Fault::BadProgram, "no bytes are no program");
}

#[test]
fn a_strip_is_a_line_of_leds_a_metre_apart() {
    let dev = strip_of(3);
    assert_eq!(dev.device, Uuid([0xDD; 16]));
    assert_eq!(dev.leds.len(), 3);
    assert_eq!(dev.leds[2].index, 2);
    assert_eq!(dev.leds[2].world, [Q16::from_int(2), Q16::zero(), Q16::zero()]);
    assert_eq!(alloc_pixels(2), vec![Rgb::black(); 2]);
}
