//! Frames, whole and in shards, over programs whose pixels can be written down.

use lumen_device::q16::Op;
use lumen_device::render::{
    find_led, Bound, Fault, FrameReport, PixelOutput, Ran, RenderFault, Renderer, Rgb, Shard, Step,
    Work,
};
use lumen_device::sources::{Change, Source, SourceStack};
use lumen_device::zones::{Clause, DeviceLeds, Led, MapQuality, Membership, Projection, Zone};
use lumen_device::{Q16, Uuid};

/// The arithmetic of a host.
fn unit(op: Op, a: Q16, b: Q16, c: Q16) -> Q16 {
    let (x, y, z) = (a.0 as i64, b.0 as i64, c.0 as i64);
    let real = |v: i64| v as f64 / 65_536.0;
    let raw = |v: f64| (v * 65_536.0).round() as i64;
    let turns = real(x) * core::f64::consts::TAU;
    let r = match op {
        Op::Add => x + y,
        Op::Sub => x - y,
        Op::Mul => (x * y) >> 16,
        Op::Div | Op::Ratio if y == 0 => 0,
        Op::Div | Op::Ratio => (x << 16) / y,
        Op::Abs => x.abs(),
        Op::Fract => x & 0xFFFF,
        Op::Length => raw((real(x).powi(2) + real(y).powi(2) + real(z).powi(2)).sqrt()),
        Op::Angle => raw(real(x).atan2(real(y))),
        Op::Lerp => x + (((y - x) * z) >> 16),
        Op::Turn => 411_775,
        Op::Cos => raw(turns.cos()),
        Op::Sin => raw(turns.sin()),
        Op::Log2 if x <= 0 => 0,
        Op::Log2 => raw(real(x).log2()),
        Op::Exp2 => raw(real(x).exp2()),
    };
    Q16(r.clamp(i32::MIN as i64, i32::MAX as i64) as i32)
}

fn ratio(a: i32, b: i32) -> Q16 {
    unit(Op::Ratio, Q16(a), Q16(b), Q16::zero())
}

/// A program.
#[derive(Clone, Copy, Debug)]
enum Code {
    /// One colour everywhere.
    Solid(Rgb),
    /// The place along the zone, as grey.
    Ramp,
    /// Divides by zero at its first pixel.
    Faulty,
    /// The place along the zone, with the last frame mixed into its blue.
    RampWithHistory,
    /// White, out of a part that runs once a frame and costs far more than a pixel.
    HeavyFrame,
    /// The time since the last frame, as grey.
    Dt,
    /// White, but for one LED at which it faults.
    FaultsAt(i16),
}

impl Code {
    fn frame_cost(self) -> u32 {
        match self {
            Code::RampWithHistory => 8,
            Code::HeavyFrame => 99,
            _ => 0,
        }
    }

    fn budget(self) -> u32 {
        match self {
            Code::Solid(_) => 4,
            Code::RampWithHistory => 5,
            _ => 1,
        }
    }
}

/// What a running program keeps from its frame part to its pixels.
struct Machine {
    dt: Q16,
    hoisted: Q16,
}

const DIVIDE_BY_ZERO: Fault = Fault(1);
const OVER_BUDGET: Fault = Fault(2);

/// One step of a program.
fn vm(machine: Option<Machine>, step: Step<Code>) -> Ran<Machine> {
    let mut m = machine.unwrap_or(Machine { dt: Q16::zero(), hoisted: Q16::zero() });
    let grey = |v: Q16| Ok(PixelOutput::Rgb { r: v, g: v, b: v });
    let (spent, outcome) = match step.work {
        Work::Frame { t: _, dt } => {
            m.dt = dt;
            m.hoisted = Q16::one();
            (step.program.frame_cost(), Ok(PixelOutput::Nothing))
        }
        Work::Pixel(p) => {
            let outcome = match step.program {
                Code::Solid(c) => Ok(PixelOutput::Rgb { r: c.r, g: c.g, b: c.b }),
                Code::Ramp => grey(p.u),
                Code::Faulty => Err(DIVIDE_BY_ZERO),
                Code::RampWithHistory => {
                    Ok(PixelOutput::Rgb { r: p.u, g: p.u, b: Q16((p.u.0 + p.prev[0].0) / 2) })
                }
                Code::HeavyFrame => grey(m.hoisted),
                Code::Dt => grey(m.dt),
                Code::FaultsAt(led) if p.index == Q16::from_int(led) => Err(DIVIDE_BY_ZERO),
                Code::FaultsAt(_) => grey(Q16::one()),
            };
            (step.program.budget(), outcome)
        }
    };
    let outcome = if spent > step.budget { Err(OVER_BUDGET) } else { outcome };
    let prev = match outcome {
        Ok(PixelOutput::Rgb { r, g, b }) => [r, g, b],
        _ => [Q16::zero(); 3],
    };
    Ran { machine: m, spent, prev, outcome }
}

fn bound_to<'a>(
    source: Source,
    program: Code,
    membership: &'a Membership,
    projection: Projection,
) -> Bound<'a, Code> {
    Bound {
        source,
        program,
        frame_cost: program.frame_cost(),
        budget: program.budget(),
        membership,
        projection,
    }
}

fn uuid(n: u8) -> Uuid {
    Uuid([n; 16])
}

/// A program that is one colour everywhere.
fn solid(r: f64, g: f64, b: f64) -> Code {
    let q = |v: f64| Q16((v * 65536.0) as i32);
    Code::Solid(Rgb::new(q(r), q(g), q(b)))
}

fn device(n: u16) -> DeviceLeds {
    DeviceLeds {
        device: uuid(1),
        quality: MapQuality::Mapped,
        leds: (0..n)
            .map(|i| Led {
                index: i,
                world: [Q16::from_int(i as i16), Q16::zero(), Q16::zero()],
                local: [Q16::from_int(i as i16), Q16::zero(), Q16::zero()],
            })
            .collect(),
    }
}

fn whole_device(dev: &DeviceLeds) -> (Zone, Membership) {
    let z = Zone {
        id: uuid(50),
        included: vec![Clause::Device {
            device: dev.device,
            leds: None,
        }],
        excluded: vec![],
        projection: Projection::Strip,
    };
    let m = z.resolve(&unit, dev);
    (z, m)
}

fn source(id: u8, priority: u8, expires: Option<u64>) -> Source {
    Source {
        id: uuid(id),
        zone: uuid(50),
        scene: uuid(id),
        priority,
        expires_at_us: expires,
        fade_in_ms: 0,
        fade_out_ms: 0,
        pushed_at_us: 0,
        cost: 10,
    }
}

/// One admitted source covering a whole device of `n` LEDs.
fn one_source_over(n: u16) -> (DeviceLeds, Zone, Membership, SourceStack, Source, Code) {
    let dev = device(n);
    let (zone, mem) = whole_device(&dev);
    let mut stack = SourceStack::new(1_000, 4);
    let src = source(1, 10, None);
    stack.push(0, src, &mut Vec::new()).unwrap();
    (dev, zone, mem, stack, src, Code::RampWithHistory)
}

#[test]
fn a_shard_of_one_is_the_whole_device() {
    assert_eq!(Shard::whole(300), Shard::new(0, 1, 300).unwrap());
    let one = Shard::whole(300);
    assert_eq!((one.first(), one.len()), (0, 300));
    assert!(!one.is_empty());
}

#[test]
fn shards_tile_the_strip_with_no_gap_and_no_overlap() {
    // The property that actually matters: every LED belongs to exactly one
    // shard. A gap is a dark run on the strip; an overlap is two cores
    // writing one slot, which is the bug this whole design exists to avoid.
    for len in [0u16, 1, 2, 5, 60, 299, 300, 301] {
        for of in [1u16, 2, 3, 4, 8] {
            let mut covered = vec![0u8; len as usize];
            let mut next = 0u16;
            for k in 0..of {
                let shard = Shard::new(k, of, len).expect("a real share");
                assert_eq!(shard.first(), next, "shards must abut: len {len}, {k}/{of}");
                next += shard.len();
                for i in shard.first()..shard.first() + shard.len() {
                    covered[i as usize] += 1;
                }
            }
            assert_eq!(next, len, "shards must cover the strip: len {len}, of {of}");
            assert!(
                covered.iter().all(|c| *c == 1),
                "len {len}, of {of}: {covered:?}"
            );
        }
    }
}

#[test]
fn the_remainder_goes_to_the_earliest_shards() {
    // 301 across two cores is 151 and 150, not 150 and 150 with one LED
    // nobody renders.
    assert_eq!(Shard::new(0, 2, 301).unwrap().len(), 151);
    assert_eq!(Shard::new(1, 2, 301).unwrap().len(), 150);
    assert_eq!(Shard::new(1, 2, 301).unwrap().first(), 151);
}

#[test]
fn more_cores_than_leds_leaves_some_with_nothing() {
    let last = Shard::new(3, 4, 2).unwrap();
    assert!(last.is_empty());
    assert_eq!(last.first(), 2);
}

#[test]
fn a_shard_that_is_not_a_share_of_anything_is_refused() {
    // Clamping would give a strip where some LEDs render twice and others
    // never, which looks like a broken effect rather than a miscounted core.
    assert!(Shard::new(0, 0, 300).is_none());
    assert!(Shard::new(2, 2, 300).is_none());
    assert!(Shard::new(9, 4, 300).is_none());
}

#[test]
fn shards_render_what_one_whole_does() {
    // The claim the whole multicore design rests on, checked rather than
    // asserted. If this ever differs, a two-core device renders a different
    // show from a one-core device and the mesh stops agreeing with itself -
    // which is worse than being slow, and would stay invisible until two
    // kinds of device shared one room.
    //
    // Four frames, because one would not exercise the per-LED history: a
    // shard feeding back the wrong pixel's `prev` passes a single-frame
    // comparison and drifts apart from the second frame on.
    const FRAMES: u32 = 4;
    let (dev, zone, mem, stack, src, bytes) = one_source_over(24);
    let program = bytes;
    let bound = [bound_to(src, program, &mem, zone.projection)];

    let mut whole_r = Renderer::<Machine>::new();
    let mut whole = vec![Rgb::black(); 24];
    for f in 0..FRAMES {
        let t = ratio(f as i32, 60);
        whole_r.render(&unit, &vm, f as u64 * 16_667,
            t,
            &dev,
            &stack,
            &bound,
            &mut whole,
        );
    }

    for of in [2u16, 3, 4, 5] {
        let mut renderers: Vec<Renderer<Machine>> = (0..of).map(|_| Renderer::<Machine>::new()).collect();
        let mut out = vec![Rgb::black(); 24];

        for f in 0..FRAMES {
            let t = ratio(f as i32, 60);
            // Exactly what a firmware does: hand each core its own run of
            // the buffer. No sharing, no locking, no copy.
            let mut rest: &mut [Rgb] = &mut out;
            for (k, r) in renderers.iter_mut().enumerate() {
                let shard = Shard::new(k as u16, of, 24).unwrap();
                let (mine, tail) = rest.split_at_mut(shard.len() as usize);
                rest = tail;
                r.render_shard(&unit, &vm, f as u64 * 16_667,
                    t,
                    &dev,
                    &stack,
                    &bound,
                    mine,
                    shard,
                );
            }
            assert!(rest.is_empty(), "the shards did not consume the buffer");
        }

        assert_eq!(out, whole, "{of} shards rendered a different frame");
    }

    // And the comparison is not vacuous: the strip is neither flat nor
    // black, so an all-zero render could not have passed it.
    assert_ne!(whole[0], whole[23]);
    assert_ne!(whole[23], Rgb::black());
}

#[test]
fn merged_reports_name_every_source_once() {
    let (dev, zone, mem, stack, src, bytes) = one_source_over(8);
    let program = bytes;
    let bound = [bound_to(src, program, &mem, zone.projection)];

    let mut whole_r = Renderer::<Machine>::new();
    let mut whole_out = vec![Rgb::black(); 8];
    let single = whole_r.render(&unit, &vm, 0,
        Q16::zero(),
        &dev,
        &stack,
        &bound,
        &mut whole_out,
    );

    let mut merged = FrameReport {
        rendered: Vec::new(),
        faults: Vec::new(),
        spent: 0,
    };
    let mut out = vec![Rgb::black(); 8];
    let mut rest: &mut [Rgb] = &mut out;
    for k in 0..2u16 {
        let shard = Shard::new(k, 2, 8).unwrap();
        let (mine, tail) = rest.split_at_mut(shard.len() as usize);
        rest = tail;
        let mut r = Renderer::<Machine>::new();
        merged.merge(r.render_shard(&unit, &vm, 0,
            Q16::zero(),
            &dev,
            &stack,
            &bound,
            mine,
            shard,
        ));
    }

    // The source rendered on both cores, and is named once.
    assert_eq!(merged.rendered, single.rendered);
    assert!(merged.faults.is_empty());
    // Spend is higher, not equal: each shard ran the frame section. A
    // device sizing its frame needs the true figure, not the flattering
    // one - see the doc comment on `merge`.
    assert!(
        merged.spent > single.spent,
        "merged {} vs whole {}",
        merged.spent,
        single.spent
    );
}

#[test]
fn a_shard_owning_none_of_a_source_does_not_run_its_frame_section() {
    // A source covering only the front of the strip must cost the back core
    // nothing at all - not even the frame section, whose hoisted registers
    // no pixel of that core would read.
    let (dev, zone, mut mem, stack, src, bytes) = one_source_over(8);
    mem.leds.retain(|i| *i < 4);
    let program = bytes;
    let bound = [bound_to(src, program, &mem, zone.projection)];

    let far = Shard::new(1, 2, 8).unwrap();
    let mut r = Renderer::<Machine>::new();
    let mut out = vec![Rgb::black(); far.len() as usize];
    let report = r.render_shard(&unit, &vm, 0,
        Q16::zero(),
        &dev,
        &stack,
        &bound,
        &mut out,
        far,
    );

    assert!(report.rendered.is_empty());
    assert_eq!(report.spent, 0, "the frame section ran for no pixels");
    assert_eq!(r.tracked_sources(), 0, "and no machine was built for it either");
    assert!(out.iter().all(|p| *p == Rgb::black()));
}

#[test]
fn an_output_slice_shorter_than_the_shard_renders_what_fits() {
    // A mis-sized buffer costs pixels, not the device. Sixty times a second
    // is the wrong cadence for a panic.
    let (dev, zone, mem, stack, src, bytes) = one_source_over(8);
    let program = bytes;
    let bound = [bound_to(src, program, &mem, zone.projection)];
    let mut r = Renderer::<Machine>::new();
    let mut out = vec![Rgb::black(); 3];
    let report = r.render_shard(&unit, &vm, 0,
        Q16::zero(),
        &dev,
        &stack,
        &bound,
        &mut out,
        Shard::whole(8),
    );
    assert_eq!(report.rendered, vec![uuid(1)]);
}

#[test]
fn a_hoisted_frame_section_is_not_charged_the_per_pixel_budget() {
    // Hoisting work out of the pixel section is the point; an effect should not
    // fault for doing it well.
    let bytes = Code::HeavyFrame;

    let program = bytes;
    assert!(
        program.frame_cost() > program.budget(),
        "the program hoists nothing expensive"
    );

    let dev = device(4);
    let (zone, mem) = whole_device(&dev);
    let mut stack = SourceStack::new(100_000, 4);
    let src = source(1, 10, None);
    stack.push(0, src, &mut Vec::new()).unwrap();

    let mut out = vec![Rgb::black(); 4];
    let mut r = Renderer::<Machine>::new();
    let report = r.render(&unit, &vm, 0,
        Q16::zero(),
        &dev,
        &stack,
        &[bound_to(src, program, &mem, zone.projection)],
        &mut out,
    );

    assert!(report.faults.is_empty(), "{:?}", report.faults);
    assert_eq!(report.rendered, vec![uuid(1)]);
    assert!(out.iter().all(|p| p.r == Q16::one()));
    // And the frame section's cost is still reported, not lost when the
    // limit was reset for the pixels.
    assert!(report.spent > program.budget() * 4);
}

#[test]
fn a_frame_reports_what_every_pixel_cost_not_what_the_last_one_did() {
    // A device sizes its frame from this number, so under-reporting by the
    // length of the strip is a budget that says everything is fine right until
    // the light visibly stutters.
    let dev = device(8);
    let (zone, mem) = whole_device(&dev);
    let bytes = solid(1.0, 0.5, 0.0);
    let program = bytes;

    let mut stack = SourceStack::new(100_000, 4);
    let src = source(1, 10, None);
    stack.push(0, src, &mut Vec::new()).unwrap();

    let bound = [bound_to(src, program, &mem, zone.projection)];

    let mut one = Renderer::<Machine>::new();
    let mut out1 = vec![Rgb::black(); 8];
    let eight = one
        .render(&unit, &vm, 0,
            Q16::zero(),
            &dev,
            &stack,
            &bound,
            &mut out1,
        )
        .spent;

    // The same program over half as many LEDs costs about half as much.
    // Exactly half is not asserted: the frame section is paid once either
    // way, and that is the part that does not scale.
    let dev4 = device(4);
    let (zone4, mem4) = whole_device(&dev4);
    let bound4 = [bound_to(src, program, &mem4, zone4.projection)];
    let mut other = Renderer::<Machine>::new();
    let mut out2 = vec![Rgb::black(); 4];
    let four = other
        .render(&unit, &vm, 0,
            Q16::zero(),
            &dev4,
            &stack,
            &bound4,
            &mut out2,
        )
        .spent;

    assert!(
        eight > four,
        "eight LEDs reported {eight}, four reported {four}"
    );
    assert!(
        eight >= program.budget() * 8,
        "eight pixels at {} units each reported only {eight}",
        program.budget()
    );
}

#[test]
fn dt_is_the_gap_between_frames_and_not_the_clock() {
    // Were `dt` the absolute show time, a decay raised to it would saturate and
    // every trail would be permanent.
    let bytes = Code::Dt;
    let program = bytes;

    let dev = device(2);
    let (zone, mem) = whole_device(&dev);
    let mut stack = SourceStack::new(100_000, 4);
    let src = source(1, 10, None);
    stack.push(0, src, &mut Vec::new()).unwrap();
    let bound = [bound_to(src, program, &mem, zone.projection)];

    let mut r = Renderer::<Machine>::new();
    let mut out = vec![Rgb::black(); 2];

    // First frame: nothing to measure from, so zero. One frame that does
    // not decay is invisible; a guess would not be.
    r.render(&unit, &vm, 0,
        Q16::from_int(100),
        &dev,
        &stack,
        &bound,
        &mut out,
    );
    assert_eq!(out[0].r, Q16::zero());

    // A frame later. `t` is 100.5 s into the show and `dt` is half a second:
    // the gap, not the clock.
    let half_later = Q16(Q16::from_int(100).0 + Q16::half().0);
    r.render(&unit, &vm, 0,
        half_later,
        &dev,
        &stack,
        &bound,
        &mut out,
    );
    assert_eq!(out[0].r, Q16::half());

    // And across a wrap of the show clock, zero rather than an enormous
    // negative - an effect that ran backwards for one frame would be a
    // visible glitch every nine hours.
    r.render(&unit, &vm, 0,
        Q16::from_int(1),
        &dev,
        &stack,
        &bound,
        &mut out,
    );
    assert_eq!(out[0].r, Q16::zero());
}

#[test]
fn one_source_fills_its_zone() {
    let dev = device(4);
    let (zone, mem) = whole_device(&dev);
    let bytes = solid(1.0, 0.5, 0.0);
    let program = bytes;

    let mut stack = SourceStack::new(1_000, 4);
    let mut changes = Vec::new();
    let src = source(1, 10, None);
    stack.push(0, src, &mut changes).unwrap();

    let mut out = vec![Rgb::black(); 4];
    let mut r = Renderer::<Machine>::new();
    let report = r.render(&unit, &vm, 0,
        Q16::zero(),
        &dev,
        &stack,
        &[bound_to(src, program, &mem, zone.projection)],
        &mut out,
    );

    assert_eq!(report.rendered, vec![uuid(1)]);
    assert!(report.faults.is_empty());
    assert!(report.spent > 0);
    for pixel in &out {
        assert_eq!(pixel.r, Q16::one());
        assert_eq!(pixel.g, Q16::half());
        assert_eq!(pixel.b, Q16::zero());
    }
}

#[test]
fn the_zone_projection_reaches_the_program() {
    // `u` is what makes a 1D effect work on any zone, so it has to be the
    // position within the zone rather than anything the device knows.
    let dev = device(5);
    let (zone, mem) = whole_device(&dev);
    let bytes = Code::Ramp;
    let program = bytes;

    let mut stack = SourceStack::new(1_000, 4);
    let mut changes = Vec::new();
    let src = source(1, 10, None);
    stack.push(0, src, &mut changes).unwrap();

    let mut out = vec![Rgb::black(); 5];
    let mut r = Renderer::<Machine>::new();
    r.render(&unit, &vm, 0,
        Q16::zero(),
        &dev,
        &stack,
        &[bound_to(src, program, &mem, zone.projection)],
        &mut out,
    );
    assert_eq!(out[0].r, Q16::zero());
    assert_eq!(out[4].r, Q16::one());
    assert!(out[2].r > out[1].r);
}

#[test]
fn the_higher_priority_source_wins_the_pixel() {
    // The whole argument for the stack, at the pixel level.
    let dev = device(3);
    let (zone, mem) = whole_device(&dev);
    let ambient_bytes = solid(0.25, 0.0, 0.0);
    let alert_bytes = solid(0.0, 0.0, 1.0);
    let ambient_p = ambient_bytes;
    let alert_p = alert_bytes;

    let mut stack = SourceStack::new(1_000, 4);
    let mut changes = Vec::new();
    let ambient = source(1, 10, None);
    let alert = source(2, 240, Some(9_000));
    stack.push(0, ambient, &mut changes).unwrap();
    stack.push(0, alert, &mut changes).unwrap();

    let bound = [
        bound_to(ambient, ambient_p, &mem, zone.projection),
        bound_to(alert, alert_p, &mem, zone.projection),
    ];
    let mut out = vec![Rgb::black(); 3];
    let mut r = Renderer::<Machine>::new();
    r.render(&unit, &vm, 0,
        Q16::zero(),
        &dev,
        &stack,
        &bound,
        &mut out,
    );
    assert_eq!(out[0].b, Q16::one(), "the alert should own the pixel");
    assert_eq!(out[0].r, Q16::zero());

    // When the alert expires the ambient scene is underneath, unchanged.
    stack.advance(9_000, &mut changes);
    let mut out2 = vec![Rgb::black(); 3];
    r.render(&unit, &vm, 9_000,
        Q16::zero(),
        &dev,
        &stack,
        &bound,
        &mut out2,
    );
    assert_eq!(out2[0].r, ratio(1, 4));
    assert_eq!(out2[0].b, Q16::zero());
}

#[test]
fn a_pixel_no_source_covers_keeps_what_was_there() {
    // What makes an ambient floor a floor rather than a special case.
    let dev = device(6);
    let z = Zone {
        id: uuid(50),
        included: vec![Clause::Device {
            device: dev.device,
            leds: Some((0, 3)),
        }],
        excluded: vec![],
        projection: Projection::Strip,
    };
    let mem = z.resolve(&unit, &dev);
    let bytes = solid(1.0, 1.0, 1.0);
    let program = bytes;

    let mut stack = SourceStack::new(1_000, 4);
    let mut changes = Vec::new();
    let src = source(1, 10, None);
    stack.push(0, src, &mut changes).unwrap();

    let held = Rgb::new(Q16::half(), Q16::zero(), Q16::zero());
    let mut out = vec![held; 6];
    let mut r = Renderer::<Machine>::new();
    r.render(&unit, &vm, 0,
        Q16::zero(),
        &dev,
        &stack,
        &[bound_to(src, program, &mem, z.projection)],
        &mut out,
    );
    assert_eq!(out[0].r, Q16::one(), "inside the zone");
    assert_eq!(out[4], held, "outside the zone, untouched");
}

#[test]
fn a_faulting_program_leaves_the_pixel_showing_what_was_underneath() {
    // Black would be a decision nobody made, and a dark strip is exactly the
    // failure the "never dark because of software" rule names.
    let dev = device(3);
    let (zone, mem) = whole_device(&dev);
    let bytes = Code::Faulty;
    let program = bytes;

    let mut stack = SourceStack::new(1_000, 4);
    let mut changes = Vec::new();
    let src = source(1, 10, None);
    stack.push(0, src, &mut changes).unwrap();

    let held = Rgb::new(Q16::half(), Q16::half(), Q16::half());
    let mut out = vec![held; 3];
    let mut r = Renderer::<Machine>::new();
    let report = r.render(&unit, &vm, 0,
        Q16::zero(),
        &dev,
        &stack,
        &[bound_to(src, program, &mem, zone.projection)],
        &mut out,
    );
    assert_eq!(out[0], held, "the pixel went dark on a fault");
    assert_eq!(report.faults.len(), 1, "the fault must be reported");
    assert!(matches!(
        report.faults[0],
        RenderFault::Program {
            fault: DIVIDE_BY_ZERO,
            ..
        }
    ));
}

#[test]
fn a_rejected_source_does_not_render() {
    // Admission said no; rendering it anyway would blow the budget the
    // admission decision existed to protect.
    let dev = device(2);
    let (zone, mem) = whole_device(&dev);
    let bytes = solid(1.0, 0.0, 0.0);
    let program = bytes;

    let mut stack = SourceStack::new(100, 8);
    let mut changes = Vec::new();
    let mut big = source(1, 240, Some(9_000));
    big.cost = 80;
    let mut small = source(2, 100, Some(9_000));
    small.cost = 80;
    stack.push(0, big, &mut changes).unwrap();
    stack.push(0, small, &mut changes).unwrap();
    assert!(!stack.is_admitted(uuid(2)));

    let mut out = vec![Rgb::black(); 2];
    let mut r = Renderer::<Machine>::new();
    let report = r.render(&unit, &vm, 0,
        Q16::zero(),
        &dev,
        &stack,
        &[
            bound_to(big, program, &mem, zone.projection),
            bound_to(small, program, &mem, zone.projection),
        ],
        &mut out,
    );
    assert_eq!(report.rendered, vec![uuid(1)]);
}

#[test]
fn a_fading_source_still_contributes_until_it_finishes() {
    // A hand-back should look like a fade, not a cut.
    let dev = device(2);
    let (zone, mem) = whole_device(&dev);
    let old_bytes = solid(1.0, 0.0, 0.0);
    let new_bytes = solid(0.0, 0.0, 1.0);
    let old_p = old_bytes;
    let new_p = new_bytes;

    let mut stack = SourceStack::new(1_000, 4);
    let mut changes = Vec::new();
    let mut going = source(1, 200, Some(1_000));
    going.fade_out_ms = 100;
    let staying = source(2, 10, None);
    stack.push(0, going, &mut changes).unwrap();
    stack.push(0, staying, &mut changes).unwrap();

    let bound = [
        bound_to(going, old_p, &mem, zone.projection),
        bound_to(staying, new_p, &mem, zone.projection),
    ];

    // It expires and starts fading.
    stack.advance(1_000, &mut changes);
    assert_eq!(stack.fading().len(), 1);

    let mut r = Renderer::<Machine>::new();
    let mut early = vec![Rgb::black(); 2];
    r.render(&unit, &vm, 1_000,
        Q16::zero(),
        &dev,
        &stack,
        &bound,
        &mut early,
    );
    let mut late = vec![Rgb::black(); 2];
    r.render(&unit, &vm, 1_000 + 90_000,
        Q16::zero(),
        &dev,
        &stack,
        &bound,
        &mut late,
    );

    assert!(early[0].r > late[0].r, "the outgoing source did not fade");
    assert!(late[0].b > early[0].b, "the incoming source did not arrive");
}

#[test]
fn each_source_keeps_its_own_history() {
    // Two sources rendering the same pixel each have their own trail.
    // Sharing one buffer would make an alert erase a show's history for as
    // long as it was up.
    let dev = device(1);
    let (zone, mem) = whole_device(&dev);
    let a_bytes = solid(1.0, 0.0, 0.0);
    let b_bytes = solid(0.0, 1.0, 0.0);
    let a_p = a_bytes;
    let b_p = b_bytes;

    let mut stack = SourceStack::new(1_000, 4);
    let mut changes = Vec::new();
    let a = source(1, 10, None);
    let b = source(2, 20, Some(9_000));
    stack.push(0, a, &mut changes).unwrap();
    stack.push(0, b, &mut changes).unwrap();

    let mut out = vec![Rgb::black(); 1];
    let mut r = Renderer::<Machine>::new();
    r.render(&unit, &vm, 0,
        Q16::zero(),
        &dev,
        &stack,
        &[
            bound_to(a, a_p, &mem, zone.projection),
            bound_to(b, b_p, &mem, zone.projection),
        ],
        &mut out,
    );
    assert_eq!(r.tracked_sources(), 2, "each source needs its own machine");

    r.forget(uuid(2));
    assert_eq!(r.tracked_sources(), 1);
}

#[test]
fn an_empty_membership_renders_nothing_and_does_not_panic() {
    let dev = device(2);
    let z = Zone {
        id: uuid(50),
        included: vec![Clause::Device {
            device: uuid(99),
            leds: None,
        }],
        excluded: vec![],
        projection: Projection::Strip,
    };
    let mem = z.resolve(&unit, &dev);
    assert!(mem.is_empty());
    let bytes = solid(1.0, 1.0, 1.0);
    let program = bytes;

    let mut stack = SourceStack::new(1_000, 4);
    let mut changes = Vec::new();
    let src = source(1, 10, None);
    stack.push(0, src, &mut changes).unwrap();

    let mut out = vec![Rgb::black(); 2];
    let mut r = Renderer::<Machine>::new();
    let report = r.render(&unit, &vm, 0,
        Q16::zero(),
        &dev,
        &stack,
        &[bound_to(src, program, &mem, z.projection)],
        &mut out,
    );
    assert!(report.rendered.is_empty());
    assert_eq!(out[0], Rgb::black());
}

#[test]
fn an_empty_stack_leaves_every_pixel_alone() {
    let dev = device(3);
    let stack = SourceStack::new(1_000, 4);
    let held = Rgb::new(Q16::half(), Q16::half(), Q16::zero());
    let mut out = vec![held; 3];
    let mut r = Renderer::<Machine>::new();
    let report = r.render(&unit, &vm, 0, Q16::zero(), &dev, &stack, &[], &mut out);
    assert!(report.rendered.is_empty());
    assert_eq!(out[0], held);
    assert_eq!(report.spent, 0);
}

#[test]
fn mixing_hits_both_ends_exactly() {
    let a = Rgb::new(Q16::zero(), Q16::zero(), Q16::zero());
    let b = Rgb::new(Q16::one(), Q16::one(), Q16::one());
    assert_eq!(a.mix(&unit, b, Q16::zero()), a);
    assert_eq!(a.mix(&unit, b, Q16::one()), b);
    assert_eq!(a.mix(&unit, b, Q16::half()).r, Q16::half());
}

#[test]
fn changes_from_the_stack_are_consumed_so_the_test_is_honest() {
    // Not an assertion about rendering - it just keeps `changes` used, so a
    // reader is not left wondering whether the stack reported something the
    // renderer should have acted on.
    let mut stack = SourceStack::new(1_000, 4);
    let mut changes = Vec::new();
    stack.push(0, source(1, 10, None), &mut changes).unwrap();
    assert!(changes.iter().any(|c| matches!(c, Change::Admitted(_))));
}

#[test]
fn a_source_fading_in_arrives_gradually() {
    // A source asking to arrive over a second must not appear instantly.
    let dev = device(4);
    let (zone, mem) = whole_device(&dev);
    let bytes = solid(1.0, 1.0, 1.0);
    let program = bytes;

    let mut src = source(1, 10, None);
    src.fade_in_ms = 1_000;
    src.pushed_at_us = 2_000_000;

    let mut stack = SourceStack::new(1_000, 4);
    let mut changes = Vec::new();
    stack.push(0, src, &mut changes).unwrap();

    let render_at = |now_us: u64| {
        let mut out = vec![Rgb::black(); 4];
        let mut r = Renderer::<Machine>::new();
        let report = r.render(&unit, &vm, now_us,
            Q16::zero(),
            &dev,
            &stack,
            &[bound_to(src, program, &mem, zone.projection)],
            &mut out,
        );
        (out[0], report)
    };

    // Before it starts: nothing showing, and nothing charged for it either.
    let (pixel, report) = render_at(2_000_000);
    assert_eq!(pixel, Rgb::black());
    assert!(report.rendered.is_empty(), "rendered before it had arrived");

    // Halfway: over black, half brightness.
    let (pixel, _) = render_at(2_500_000);
    assert_eq!(pixel.r, Q16::half());

    // Arrived.
    let (pixel, report) = render_at(3_000_000);
    assert_eq!(pixel.r, Q16::one());
    assert_eq!(report.rendered, vec![uuid(1)]);
}


fn led(index: u16) -> Led {
    Led {
        index,
        world: [Q16::from_int(index as i16), Q16::zero(), Q16::zero()],
        local: [Q16::zero(); 3],
    }
}

fn dev(leds: Vec<Led>) -> DeviceLeds {
    DeviceLeds {
        device: uuid(1),
        quality: MapQuality::Mapped,
        leds,
    }
}

#[test]
fn a_strip_in_order_is_found_by_position() {
    let d = dev((0..8).map(led).collect());
    for i in 0..8u16 {
        assert_eq!(find_led(&d, i).unwrap().index, i);
    }
    assert!(find_led(&d, 8).is_none());
}

#[test]
fn a_device_laid_out_some_other_way_is_still_found() {
    // The fast path is an optimisation, not an assumption. A device whose
    // LED list is sparse or out of order must still render every LED it
    // has - getting this wrong would drop pixels on exactly the devices
    // nobody tests with.
    let d = dev(vec![led(9), led(4), led(0), led(7)]);
    for i in [0u16, 4, 7, 9] {
        assert_eq!(find_led(&d, i).unwrap().index, i);
    }
    assert!(find_led(&d, 1).is_none());
    assert!(find_led(&d, 5).is_none());
}

#[test]
fn a_position_holding_a_different_led_falls_back() {
    // Position 1 exists but holds LED 4, so the fast path must miss and the
    // search must find LED 1 further along.
    let d = dev(vec![led(0), led(4), led(1)]);
    assert_eq!(find_led(&d, 1).unwrap().index, 1);
}

#[test]
fn the_outputs_of_a_program_become_colours() {
    let (r, g, b, w) = (Q16(1), Q16(2), Q16(3), Q16(4));
    assert_eq!(Rgb::from_output(PixelOutput::Nothing), None);
    assert_eq!(Rgb::from_output(PixelOutput::Rgb { r, g, b }), Some(Rgb::new(r, g, b)));
    assert_eq!(Rgb::from_output(PixelOutput::Rgbw { r, g, b, w }), Some(Rgb::new(r, g, b)));
    assert_eq!(Rgb::from_output(PixelOutput::Cct { temperature: r, level: g }), None);
}

#[test]
fn what_stands_under_a_faulting_source_shows_through() {
    let dev = device(2);
    let (zone, mem) = whole_device(&dev);
    let mut stack = SourceStack::new(1_000, 4);
    let (under, over) = (source(1, 10, None), source(2, 20, None));
    stack.push(0, under, &mut Vec::new()).unwrap();
    stack.push(0, over, &mut Vec::new()).unwrap();
    let bound = [
        bound_to(under, solid(0.0, 1.0, 0.0), &mem, zone.projection),
        bound_to(over, Code::Faulty, &mem, zone.projection),
    ];
    let mut out = vec![Rgb::black(); 2];
    let mut r = Renderer::<Machine>::new();
    let report = r.render(&unit, &vm, 0, Q16::zero(), &dev, &stack, &bound, &mut out);
    assert_eq!(out[0], Rgb::new(Q16::zero(), Q16::one(), Q16::zero()));
    assert_eq!(report.rendered, vec![uuid(1)]);
    assert_eq!(report.faults, vec![RenderFault::Program { source: uuid(2), fault: DIVIDE_BY_ZERO }]);
}

/// What one core renders of eight LEDs, and what two cores do.
fn one_core_and_two(program: Code) -> (Vec<Rgb>, Vec<Rgb>) {
    let dev = device(8);
    let (zone, mem) = whole_device(&dev);
    let mut stack = SourceStack::new(1_000, 4);
    let src = source(1, 10, None);
    stack.push(0, src, &mut Vec::new()).unwrap();
    let bound = [bound_to(src, program, &mem, zone.projection)];
    let mut one = vec![Rgb::black(); 8];
    let mut two = vec![Rgb::black(); 8];
    let zero = Q16::zero();
    Renderer::<Machine>::new().render(&unit, &vm, 0, zero, &dev, &stack, &bound, &mut one);
    let (front, back) = two.split_at_mut(4);
    for (k, out) in [(0, front), (1, back)] {
        let shard = Shard::new(k, 2, 8).unwrap();
        let mut r = Renderer::<Machine>::new();
        r.render_shard(&unit, &vm, 0, zero, &dev, &stack, &bound, out, shard);
    }
    (one, two)
}

#[test]
fn a_fault_costs_its_own_pixel_on_one_core_and_on_two() {
    let white = Rgb::new(Q16::one(), Q16::one(), Q16::one());
    for led in 0..8 {
        let (one, two) = one_core_and_two(Code::FaultsAt(led));
        assert_eq!(one, two, "faulted at {led}");
        for (at, pixel) in one.iter().enumerate() {
            let expected = if at == led as usize { Rgb::black() } else { white };
            assert_eq!(*pixel, expected, "LED {at}, faulted at {led}");
        }
    }
}

#[test]
fn a_source_that_faults_all_over_is_reported_once_a_rendering() {
    let dev = device(5);
    let (zone, mem) = whole_device(&dev);
    let mut stack = SourceStack::new(1_000, 4);
    let src = Source { fade_out_ms: 100, ..source(1, 10, None) };
    stack.push(0, src, &mut Vec::new()).unwrap();
    let bound = [bound_to(src, Code::Faulty, &mem, zone.projection)];
    let mut out = vec![Rgb::black(); 5];
    let mut r = Renderer::<Machine>::new();
    let fault = RenderFault::Program { source: uuid(1), fault: DIVIDE_BY_ZERO };
    let report = r.render(&unit, &vm, 0, Q16::zero(), &dev, &stack, &bound, &mut out);
    assert_eq!(report.faults, vec![fault]);
    assert_eq!(report.spent, 5);
    // Pushed again while its last showing still fades, it runs twice a frame.
    stack.pop(0, uuid(1), &mut Vec::new());
    stack.push(0, src, &mut Vec::new()).unwrap();
    let report = r.render(&unit, &vm, 50_000, Q16::zero(), &dev, &stack, &bound, &mut out);
    assert_eq!(report.faults, vec![fault, fault]);
    assert_eq!(report.spent, 10);
}

#[test]
fn a_source_bound_twice_is_reported_for_each_binding() {
    let dev = device(3);
    let (zone, mem) = whole_device(&dev);
    let mut stack = SourceStack::new(1_000, 4);
    let src = source(1, 10, None);
    stack.push(0, src, &mut Vec::new()).unwrap();
    let bound = [
        bound_to(src, Code::Faulty, &mem, zone.projection),
        bound_to(src, Code::FaultsAt(1), &mem, zone.projection),
    ];
    let mut out = vec![Rgb::black(); 3];
    let mut r = Renderer::<Machine>::new();
    let report = r.render(&unit, &vm, 0, Q16::zero(), &dev, &stack, &bound, &mut out);
    let fault = RenderFault::Program { source: uuid(1), fault: DIVIDE_BY_ZERO };
    assert_eq!(report.faults, vec![fault, fault]);
    assert_eq!(report.rendered, vec![uuid(1)]);
    assert_eq!(out[1], Rgb::black());
}

#[test]
fn the_order_of_the_list_does_not_matter_and_the_front_of_the_stack_shows() {
    let dev = device(1);
    let (zone, mem) = whole_device(&dev);
    let mut stack = SourceStack::new(1_000, 4);
    // Alike but for their ids, so that nothing but the ids can decide.
    let (a, b) = (source(1, 10, None), source(2, 10, None));
    stack.push(0, a, &mut Vec::new()).unwrap();
    stack.push(0, b, &mut Vec::new()).unwrap();
    assert_eq!(stack.top().map(|s| s.id), Some(uuid(2)));
    for swapped in [false, true] {
        let red = bound_to(a, solid(1.0, 0.0, 0.0), &mem, zone.projection);
        let blue = bound_to(b, solid(0.0, 0.0, 1.0), &mem, zone.projection);
        let bound = if swapped { [blue, red] } else { [red, blue] };
        let mut out = vec![Rgb::black()];
        let mut r = Renderer::<Machine>::new();
        let report = r.render(&unit, &vm, 0, Q16::zero(), &dev, &stack, &bound, &mut out);
        assert_eq!(out[0], Rgb::new(Q16::zero(), Q16::zero(), Q16::one()));
        assert_eq!(report.rendered, vec![uuid(1), uuid(2)]);
    }
}

#[test]
fn a_source_that_only_fades_is_reported_as_rendered() {
    let dev = device(1);
    let (zone, mem) = whole_device(&dev);
    let mut stack = SourceStack::new(1_000, 4);
    let src = Source { fade_out_ms: 100, ..source(1, 10, None) };
    stack.push(0, src, &mut Vec::new()).unwrap();
    stack.pop(0, uuid(1), &mut Vec::new());
    assert!(stack.admitted().is_empty());
    let bound = [bound_to(src, solid(1.0, 1.0, 1.0), &mem, zone.projection)];
    let mut out = vec![Rgb::black()];
    let mut r = Renderer::<Machine>::new();
    let report = r.render(&unit, &vm, 50_000, Q16::zero(), &dev, &stack, &bound, &mut out);
    assert_eq!(report.rendered, vec![uuid(1)]);
    assert_eq!(out[0], Rgb::new(Q16::half(), Q16::half(), Q16::half()));
    // Pushed again meanwhile, it is still named once.
    stack.push(50_000, src, &mut Vec::new()).unwrap();
    let report = r.render(&unit, &vm, 60_000, Q16::zero(), &dev, &stack, &bound, &mut out);
    assert_eq!(report.rendered, vec![uuid(1)]);
}

#[test]
fn merging_names_a_source_once_and_keeps_every_fault() {
    let fault = RenderFault::Program { source: uuid(2), fault: DIVIDE_BY_ZERO };
    let mut a = FrameReport { rendered: vec![uuid(1)], faults: vec![fault], spent: u32::MAX };
    a.merge(FrameReport { rendered: vec![uuid(1), uuid(3)], faults: vec![fault], spent: 5 });
    assert_eq!(a.rendered, vec![uuid(1), uuid(3)]);
    assert_eq!(a.faults, vec![fault, fault]);
    assert_eq!(a.spent, u32::MAX);
}

#[test]
fn two_cores_report_together_what_one_does() {
    let dev = device(8);
    let (zone, mem) = whole_device(&dev);
    let mut stack = SourceStack::new(1_000, 4);
    let (a, b) = (source(1, 10, None), source(2, 20, None));
    stack.push(0, a, &mut Vec::new()).unwrap();
    stack.push(0, b, &mut Vec::new()).unwrap();
    let bound = [
        bound_to(a, Code::FaultsAt(6), &mem, zone.projection),
        bound_to(b, Code::Faulty, &mem, zone.projection),
    ];
    let zero = Q16::zero();
    let mut out = vec![Rgb::black(); 8];
    let one =
        Renderer::<Machine>::new().render(&unit, &vm, 0, zero, &dev, &stack, &bound, &mut out);
    let mut reports = Vec::new();
    let (front, back) = out.split_at_mut(4);
    for (k, part) in [(0, front), (1, back)] {
        let shard = Shard::new(k, 2, 8).unwrap();
        let mut r = Renderer::<Machine>::new();
        reports.push(r.render_shard(&unit, &vm, 0, zero, &dev, &stack, &bound, part, shard));
    }
    let of = |source: u8| RenderFault::Program { source: uuid(source), fault: DIVIDE_BY_ZERO };
    assert_eq!(one.faults, vec![of(1), of(2)]);
    // Each core says so for itself.
    let last = reports.pop().unwrap();
    let mut merged = reports.pop().unwrap();
    merged.merge(last);
    assert_eq!(merged.rendered, one.rendered);
    assert_eq!(merged.faults, vec![of(2), of(1), of(2)]);
}
