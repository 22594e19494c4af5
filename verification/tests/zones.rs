//! What a zone covers on a device, and where on it each LED sits.

use lumen_device::q16::Op;
use lumen_device::zones::{
    Axis, Bounds, Clause, CmpOp, DeviceLeds, Led, MapQuality, Membership, Predicate, Projected,
    Projection, Resettle, Settling, Zone, SETTLE_US,
};
use lumen_device::{Q16, Uuid};

/// The arithmetic of a host.
fn unit(op: Op, a: Q16, b: Q16, c: Q16) -> Q16 {
    let (x, y, z) = (a.0 as i64, b.0 as i64, c.0 as i64);
    let real = |v: i64| v as f64 / 65_536.0;
    let raw = |v: f64| (v * 65_536.0).round() as i64;
    let turns = real(x) * core::f64::consts::TAU;
    let r = match op {
        Op::Add => x + y,
        Op::Sub => x - y,
        Op::Mul => (x * y) >> 16,
        Op::Div | Op::Ratio if y == 0 => 0,
        Op::Div | Op::Ratio => (x << 16) / y,
        Op::Abs => x.abs(),
        Op::Fract => x & 0xFFFF,
        Op::Length => raw((real(x).powi(2) + real(y).powi(2) + real(z).powi(2)).sqrt()),
        Op::Angle => raw(real(x).atan2(real(y))),
        Op::Lerp => x + (((y - x) * z) >> 16),
        Op::Turn => 411_775,
        Op::Cos => raw(turns.cos()),
        Op::Sin => raw(turns.sin()),
        Op::Log2 if x <= 0 => 0,
        Op::Log2 => raw(real(x).log2()),
        Op::Exp2 => raw(real(x).exp2()),
    };
    Q16(r.clamp(i32::MIN as i64, i32::MAX as i64) as i32)
}

fn ratio(a: i32, b: i32) -> Q16 {
    unit(Op::Ratio, Q16(a), Q16(b), Q16::zero())
}

fn uuid(n: u8) -> Uuid {
    Uuid([n; 16])
}

fn m(v: i32) -> Q16 {
    Q16::from_int(v as i16)
}

/// A strip of `n` LEDs running along x from 0 to `n-1` metres, at height y.
fn strip(device: u8, n: u16, y: i32, quality: MapQuality) -> DeviceLeds {
    DeviceLeds {
        device: uuid(device),
        quality,
        leds: (0..n)
            .map(|i| Led {
                index: i,
                world: [m(i as i32), m(y), Q16::zero()],
                local: [m(i as i32), Q16::zero(), Q16::zero()],
            })
            .collect(),
    }
}

fn zone(included: Vec<Clause>, excluded: Vec<Clause>) -> Zone {
    Zone {
        id: uuid(99),
        included,
        excluded,
        projection: Projection::Strip,
    }
}

#[test]
fn naming_a_device_selects_all_of_it() {
    let dev = strip(1, 4, 0, MapQuality::Mapped);
    let z = zone(
        vec![Clause::Device {
            device: uuid(1),
            leds: None,
        }],
        vec![],
    );
    assert_eq!(z.resolve(&unit, &dev).leds, vec![0, 1, 2, 3]);
}

#[test]
fn naming_a_range_selects_only_that_range() {
    let dev = strip(1, 8, 0, MapQuality::Mapped);
    let z = zone(
        vec![Clause::Device {
            device: uuid(1),
            leds: Some((2, 5)),
        }],
        vec![],
    );
    assert_eq!(
        z.resolve(&unit, &dev).leds,
        vec![2, 3, 4],
        "the range is half-open"
    );
}

#[test]
fn another_devices_name_selects_nothing_here() {
    let dev = strip(1, 4, 0, MapQuality::Mapped);
    let z = zone(
        vec![Clause::Device {
            device: uuid(2),
            leds: None,
        }],
        vec![],
    );
    assert!(z.resolve(&unit, &dev).is_empty());
}

#[test]
fn a_geometric_clause_selects_by_position() {
    let low = strip(1, 3, 0, MapQuality::Mapped);
    let high = strip(2, 3, 2, MapQuality::Mapped);
    let z = zone(
        vec![Clause::Where(Predicate::Compare {
            axis: Axis::Y,
            op: CmpOp::Lt,
            value: m(1),
        })],
        vec![],
    );
    assert_eq!(z.resolve(&unit, &low).leds.len(), 3);
    assert!(z.resolve(&unit, &high).is_empty());
}

#[test]
fn a_geometric_clause_never_selects_a_synthetic_device() {
    // Its coordinates are arbitrary, so matching would be random - which is
    // indistinguishable from broken, and worse than not matching at all.
    let dev = strip(1, 3, 0, MapQuality::Synthetic);
    let z = zone(
        vec![Clause::Where(Predicate::Compare {
            axis: Axis::Y,
            op: CmpOp::Lt,
            value: m(100),
        })],
        vec![],
    );
    assert!(z.resolve(&unit, &dev).is_empty(), "a synthetic device was matched");

    // Rough is enough, though: a few seconds of manual placement buys it.
    let rough = strip(1, 3, 0, MapQuality::Rough);
    assert_eq!(z.resolve(&unit, &rough).leds.len(), 3);
}

#[test]
fn naming_a_synthetic_device_still_selects_it() {
    // Naming a device is an unambiguous statement of intent, regardless of
    // where it thinks it is.
    let dev = strip(1, 3, 0, MapQuality::Synthetic);
    let z = zone(
        vec![Clause::Device {
            device: uuid(1),
            leds: None,
        }],
        vec![],
    );
    assert_eq!(z.resolve(&unit, &dev).leds.len(), 3);
}

#[test]
fn an_explicit_set_minus_a_geometric_exclusion_is_the_common_case() {
    // "This strip, but not the bit above the shelf."
    let dev = DeviceLeds {
        device: uuid(1),
        quality: MapQuality::Mapped,
        leds: (0..5u16)
            .map(|i| Led {
                index: i,
                world: [Q16::zero(), m(i as i32), Q16::zero()],
                local: [Q16::zero(); 3],
            })
            .collect(),
    };
    let z = zone(
        vec![Clause::Device {
            device: uuid(1),
            leds: None,
        }],
        vec![Clause::Where(Predicate::Compare {
            axis: Axis::Y,
            op: CmpOp::Gt,
            value: m(2),
        })],
    );
    assert_eq!(z.resolve(&unit, &dev).leds, vec![0, 1, 2]);
}

#[test]
fn an_exclusion_cannot_reach_a_device_it_does_not_name() {
    let dev = strip(1, 3, 0, MapQuality::Mapped);
    let z = zone(
        vec![Clause::Device {
            device: uuid(1),
            leds: None,
        }],
        vec![Clause::Device {
            device: uuid(2),
            leds: None,
        }],
    );
    assert_eq!(z.resolve(&unit, &dev).leds.len(), 3);
}

#[test]
fn a_near_predicate_selects_a_sphere() {
    let dev = strip(1, 6, 0, MapQuality::Mapped);
    let z = zone(
        vec![Clause::Where(Predicate::Near {
            point: [m(1), Q16::zero(), Q16::zero()],
            radius: ratio(3, 2),
        })],
        vec![],
    );
    // LEDs at x = 0, 1, 2 are within 1.5 m of x = 1.
    assert_eq!(z.resolve(&unit, &dev).leds, vec![0, 1, 2]);
}

#[test]
fn predicates_compose() {
    let dev = strip(1, 6, 0, MapQuality::Mapped);
    let between = || Predicate::All(vec![
        Predicate::Compare {
            axis: Axis::X,
            op: CmpOp::Ge,
            value: m(2),
        },
        Predicate::Compare {
            axis: Axis::X,
            op: CmpOp::Le,
            value: m(4),
        },
    ]);
    assert_eq!(
        zone(vec![Clause::Where(between())], vec![])
            .resolve(&unit, &dev)
            .leds,
        vec![2, 3, 4]
    );

    let outside = Predicate::Not(Box::new(between()));
    assert_eq!(
        zone(vec![Clause::Where(outside)], vec![])
            .resolve(&unit, &dev)
            .leds,
        vec![0, 1, 5]
    );

    let either = Predicate::Any(vec![
        Predicate::Compare {
            axis: Axis::X,
            op: CmpOp::Lt,
            value: m(1),
        },
        Predicate::Compare {
            axis: Axis::X,
            op: CmpOp::Gt,
            value: m(4),
        },
    ]);
    assert_eq!(
        zone(vec![Clause::Where(either)], vec![]).resolve(&unit, &dev).leds,
        vec![0, 5]
    );
}

#[test]
fn overlapping_zones_are_fine_and_need_no_prevention() {
    // The source stack resolves per pixel, so overlap is well defined.
    let dev = strip(1, 6, 0, MapQuality::Mapped);
    let left = zone(
        vec![Clause::Device {
            device: uuid(1),
            leds: Some((0, 4)),
        }],
        vec![],
    );
    let right = zone(
        vec![Clause::Device {
            device: uuid(1),
            leds: Some((2, 6)),
        }],
        vec![],
    );
    let a = left.resolve(&unit, &dev);
    let b = right.resolve(&unit, &dev);
    assert!(a.contains(2) && b.contains(2));
}

#[test]
fn the_app_can_tell_a_device_apart_from_a_device_that_needs_placing() {
    // "Why is that strip dark" must have a visible answer, because with
    // distributed evaluation nobody holds one centrally.
    let z = zone(
        vec![Clause::Where(Predicate::Compare {
            axis: Axis::Y,
            op: CmpOp::Lt,
            value: m(1),
        })],
        vec![],
    );
    let unplaced = strip(1, 3, 0, MapQuality::Synthetic);
    assert!(z.excluded_for_mapping(&unit, &unplaced), "should be flagged");

    // A placed device that simply does not match is not "needs placing".
    let placed_elsewhere = strip(1, 3, 5, MapQuality::Mapped);
    assert!(!z.excluded_for_mapping(&unit, &placed_elsewhere));

    // Nor is a device the zone already covers.
    let placed_inside = strip(1, 3, 0, MapQuality::Mapped);
    assert!(!z.excluded_for_mapping(&unit, &placed_inside));

    // Nor is a synthetic device the zone would not select anyway.
    let far = DeviceLeds {
        device: uuid(1),
        quality: MapQuality::Synthetic,
        leds: vec![Led {
            index: 0,
            world: [Q16::zero(), m(9), Q16::zero()],
            local: [Q16::zero(); 3],
        }],
    };
    assert!(!z.excluded_for_mapping(&unit, &far));
}

#[test]
fn an_empty_zone_has_empty_bounds_and_does_not_panic() {
    let dev = strip(1, 3, 0, MapQuality::Mapped);
    let z = zone(
        vec![Clause::Device {
            device: uuid(7),
            leds: None,
        }],
        vec![],
    );
    let membership = z.resolve(&unit, &dev);
    assert!(membership.is_empty());
    assert_eq!(membership.bounds.count, 0);
    assert!(!membership.contains(0));
}


fn resolved(dev: &DeviceLeds, projection: Projection) -> (Membership, DeviceLeds) {
    let z = Zone {
        id: uuid(99),
        included: vec![Clause::Device {
            device: dev.device,
            leds: None,
        }],
        excluded: vec![],
        projection,
    };
    (z.resolve(&unit, dev), dev.clone())
}

#[test]
fn a_strip_projection_runs_from_zero_to_exactly_one() {
    // Dividing by count instead of count-1 would leave the last LED short
    // of 1, which shows as a dark final pixel on every gradient.
    let dev = strip(1, 5, 0, MapQuality::Synthetic);
    let (mem, dev) = resolved(&dev, Projection::Strip);
    let first = Projection::Strip.project(&unit, &dev.leds[0], &mem.bounds, 0);
    let last = Projection::Strip.project(&unit, &dev.leds[4], &mem.bounds, 4);
    assert_eq!(first.u, Q16::zero());
    assert_eq!(last.u, Q16::one());
    assert!(first.uv.is_none());
}

#[test]
fn a_strip_projection_works_on_an_unmapped_device() {
    // The claim that makes mapping a pure upgrade: 1D effects work exactly
    // as intended with nothing mapped.
    let dev = strip(1, 3, 0, MapQuality::Synthetic);
    let (mem, dev) = resolved(&dev, Projection::Strip);
    let mid = Projection::Strip.project(&unit, &dev.leds[1], &mem.bounds, 1);
    assert_eq!(mid.u, Q16::half());
}

#[test]
fn a_zone_covering_part_of_a_strip_still_runs_u_from_zero_to_one() {
    // `u` is the position among the zone's members, not the raw device
    // index - otherwise a zone over LEDs 40..60 would only ever use the top
    // third of every gradient.
    let dev = strip(1, 10, 0, MapQuality::Mapped);
    let z = Zone {
        id: uuid(99),
        included: vec![Clause::Device {
            device: uuid(1),
            leds: Some((4, 8)),
        }],
        excluded: vec![],
        projection: Projection::Strip,
    };
    let mem = z.resolve(&unit, &dev);
    assert_eq!(mem.leds, vec![4, 5, 6, 7]);
    let first = z.projection.project(&unit, &dev.leds[4], &mem.bounds, 0);
    let last = z.projection.project(&unit, &dev.leds[7], &mem.bounds, 3);
    assert_eq!(first.u, Q16::zero());
    assert_eq!(last.u, Q16::one());
}

#[test]
fn an_axis_projection_follows_the_declared_direction() {
    // A 1D comet becomes a comet sweeping along whatever axis the zone
    // declares, with no change to the effect.
    let dev = strip(1, 5, 0, MapQuality::Mapped);
    let (mem, dev) = resolved(&dev, Projection::Axis([Q16::one(), Q16::zero(), Q16::zero()]));
    let p = Projection::Axis([Q16::one(), Q16::zero(), Q16::zero()]);
    assert_eq!(p.project(&unit, &dev.leds[0], &mem.bounds, 0).u, Q16::zero());
    assert_eq!(p.project(&unit, &dev.leds[4], &mem.bounds, 4).u, Q16::one());
    assert_eq!(p.project(&unit, &dev.leds[2], &mem.bounds, 2).u, Q16::half());

    // Along an axis the zone has no extent in, everything is at zero rather
    // than at an arbitrary value.
    let flat = Projection::Axis([Q16::zero(), Q16::one(), Q16::zero()]);
    assert_eq!(flat.project(&unit, &dev.leds[3], &mem.bounds, 3).u, Q16::zero());
}

#[test]
fn a_radial_projection_grows_with_distance() {
    let dev = strip(1, 5, 0, MapQuality::Mapped);
    let origin = [Q16::zero(); 3];
    let (mem, dev) = resolved(&dev, Projection::Radial(origin));
    let p = Projection::Radial(origin);
    let near = p.project(&unit, &dev.leds[0], &mem.bounds, 0).u;
    let far = p.project(&unit, &dev.leds[4], &mem.bounds, 4).u;
    assert_eq!(near, Q16::zero());
    assert!(far > near);
    assert!(far <= Q16::one());
}

#[test]
fn an_angle_projection_wraps_once_around() {
    // A ring of four LEDs around the origin.
    let dev = DeviceLeds {
        device: uuid(1),
        quality: MapQuality::Mapped,
        leds: vec![
            Led {
                index: 0,
                world: [m(1), Q16::zero(), Q16::zero()],
                local: [Q16::zero(); 3],
            },
            Led {
                index: 1,
                world: [Q16::zero(), m(1), Q16::zero()],
                local: [Q16::zero(); 3],
            },
            Led {
                index: 2,
                world: [m(-1), Q16::zero(), Q16::zero()],
                local: [Q16::zero(); 3],
            },
            Led {
                index: 3,
                world: [Q16::zero(), m(-1), Q16::zero()],
                local: [Q16::zero(); 3],
            },
        ],
    };
    let p = Projection::Angle(Axis::Z);
    let (mem, dev) = resolved(&dev, p);
    let us: Vec<Q16> = (0..4)
        .map(|i| p.project(&unit, &dev.leds[i], &mem.bounds, i as u16).u)
        .collect();
    // Every value in 0..1, all four distinct, and a quarter turn apart.
    for u in &us {
        assert!(*u >= Q16::zero() && *u < Q16::one(), "{u:?} outside 0..1");
    }
    assert_ne!(us[0], us[1]);
    assert_ne!(us[1], us[2]);
    assert_ne!(us[2], us[3]);
}

#[test]
fn a_grid_projection_gives_uv_and_still_gives_u() {
    // `u` staying meaningful on a grid is what lets a 1D effect run on a
    // panel, which is the whole argument for projections.
    let dev = DeviceLeds {
        device: uuid(1),
        quality: MapQuality::Mapped,
        leds: (0..8u16)
            .map(|i| Led {
                index: i,
                world: [m((i % 4) as i32), m((i / 4) as i32), Q16::zero()],
                local: [Q16::zero(); 3],
            })
            .collect(),
    };
    let p = Projection::Grid {
        width: 4,
        height: 2,
    };
    assert!(p.is_grid());
    let (mem, dev) = resolved(&dev, p);

    let top_left = p.project(&unit, &dev.leds[0], &mem.bounds, 0);
    let top_right = p.project(&unit, &dev.leds[3], &mem.bounds, 3);
    let bottom_left = p.project(&unit, &dev.leds[4], &mem.bounds, 4);
    assert_eq!(top_left.uv, Some((Q16::zero(), Q16::zero())));
    assert_eq!(top_right.uv, Some((Q16::one(), Q16::zero())));
    assert_eq!(bottom_left.uv, Some((Q16::zero(), Q16::one())));
    assert_eq!(top_left.u, Q16::zero());
    assert!(top_right.u > Q16::zero());
}

#[test]
fn a_grid_of_zero_size_does_not_divide_by_zero() {
    let dev = strip(1, 2, 0, MapQuality::Mapped);
    let p = Projection::Grid {
        width: 0,
        height: 0,
    };
    let (mem, dev) = resolved(&dev, p);
    let out = p.project(&unit, &dev.leds[0], &mem.bounds, 0);
    assert_eq!(out.uv, Some((Q16::zero(), Q16::zero())));
}

#[test]
fn a_single_led_zone_projects_to_zero_rather_than_anything_arbitrary() {
    let dev = strip(1, 1, 0, MapQuality::Mapped);
    let (mem, dev) = resolved(&dev, Projection::Strip);
    assert_eq!(
        Projection::Strip.project(&unit, &dev.leds[0], &mem.bounds, 0).u,
        Q16::zero()
    );
    assert_eq!(mem.bounds.count, 1);
    assert_eq!(mem.bounds.span(&unit, Axis::X), Q16::zero());
}

#[test]
fn map_quality_is_ordered_so_rough_or_better_is_a_comparison() {
    assert!(MapQuality::Synthetic < MapQuality::Rough);
    assert!(MapQuality::Rough < MapQuality::Mapped);
    assert!(!MapQuality::Synthetic.is_geometrically_trustworthy());
    assert!(MapQuality::Rough.is_geometrically_trustworthy());
    assert!(MapQuality::Mapped.is_geometrically_trustworthy());
}

#[test]
fn bounds_describe_the_extent_of_what_was_selected() {
    let dev = strip(1, 5, 2, MapQuality::Mapped);
    let (mem, _) = resolved(&dev, Projection::Strip);
    assert_eq!(mem.bounds.min[0], Q16::zero());
    assert_eq!(mem.bounds.max[0], m(4));
    assert_eq!(mem.bounds.span(&unit, Axis::X), m(4));
    assert_eq!(mem.bounds.span(&unit, Axis::Z), Q16::zero());
    assert_eq!(mem.bounds.centre(&unit)[0], m(2));
}


#[test]
fn a_zone_edit_applies_at_once() {
    // Somebody's deliberate act, and they are watching the lights to see
    // whether it worked.
    let mut s = Settling::new();
    s.touch(1_000, Resettle::ZoneChanged);
    assert!(s.is_due(1_000));
    assert_eq!(s.due_at(), Some(1_000));
}

#[test]
fn a_moved_device_waits_for_its_position_to_stop_changing() {
    let mut s = Settling::new();
    s.touch(0, Resettle::RootMoved);
    assert!(s.is_pending());
    assert!(!s.is_due(SETTLE_US - 1));
    assert!(s.is_due(SETTLE_US));
}

#[test]
fn a_move_in_progress_keeps_pushing_the_work_out() {
    // The debounce, and the reason this type exists. An AR session emits
    // root changes for as long as somebody points a phone at the device;
    // recomputing on each is wasted work and visible as flicker.
    let mut s = Settling::new();
    s.touch(0, Resettle::RootMoved);
    for tick in 1..20 {
        let now = tick * 100_000;
        s.touch(now, Resettle::RootMoved);
        assert!(!s.is_due(now), "recomputed mid-move at {now}");
    }
    let last = 19 * 100_000;
    assert!(s.is_due(last + SETTLE_US));
}

#[test]
fn a_zone_edit_during_a_move_does_not_pull_the_recompute_forward() {
    // Resolving against a position still being refined produces an answer
    // that has to be thrown away, and the move's own deadline is moments
    // later anyway.
    let mut s = Settling::new();
    s.touch(0, Resettle::RootMoved);
    s.touch(1_000, Resettle::ZoneChanged);
    assert!(!s.is_due(1_000));
    assert!(s.is_due(SETTLE_US));
}

#[test]
fn a_mapping_change_settles_like_a_move() {
    // It arrives from the same AR session and for the same reason.
    let mut s = Settling::new();
    s.touch(0, Resettle::MappingChanged);
    assert!(!s.is_due(SETTLE_US - 1));
    assert!(s.is_due(SETTLE_US));
}

#[test]
fn a_settled_device_asks_for_no_timer() {
    let mut s = Settling::new();
    assert_eq!(s.due_at(), None);
    assert!(!s.is_due(u64::MAX));

    s.touch(0, Resettle::RootMoved);
    assert_eq!(s.due_at(), Some(SETTLE_US));
    s.settled();
    assert_eq!(s.due_at(), None);
    assert!(!s.is_pending());
}

#[test]
fn settling_does_not_overflow_at_the_end_of_the_clock() {
    // The show clock is a u64 of microseconds, so this is not reachable in
    // practice - but a deadline that wrapped would be immediately due, and
    // a device would recompute continuously rather than never.
    let mut s = Settling::new();
    s.touch(u64::MAX, Resettle::RootMoved);
    assert_eq!(s.due_at(), Some(u64::MAX));
    assert!(s.is_due(u64::MAX));
}

#[test]
fn an_exclusion_beats_an_inclusion() {
    let dev = strip(1, 4, 0, MapQuality::Mapped);
    let all = || Clause::Device { device: uuid(1), leds: None };
    let some = Clause::Device { device: uuid(1), leds: Some((1, 3)) };
    assert_eq!(zone(vec![all()], vec![some]).resolve(&unit, &dev).leds, vec![0, 3]);
    assert!(zone(vec![all()], vec![all()]).resolve(&unit, &dev).is_empty());
}

#[test]
fn members_ascend_whatever_the_order_of_the_device() {
    let mut dev = strip(1, 4, 0, MapQuality::Mapped);
    dev.leds.reverse();
    let z = zone(vec![Clause::Device { device: uuid(1), leds: Some((1, 4)) }], vec![]);
    let m = z.resolve(&unit, &dev);
    assert_eq!(m.leds, vec![1, 2, 3]);
    assert!(m.contains(2) && !m.contains(0));

    for (led, index) in dev.leds.iter_mut().zip([9, 4, 0, 7]) {
        led.index = index;
    }
    let all = zone(vec![Clause::Device { device: uuid(1), leds: None }], vec![]);
    assert_eq!(all.resolve(&unit, &dev).leds, vec![0, 4, 7, 9]);
}

#[test]
fn an_axis_of_mixed_signs_spans_the_whole_box() {
    let bounds = Bounds { min: [m(0); 3], max: [m(1), m(1), m(0)], count: 2 };
    let axis = Projection::Axis([m(1), m(-1), m(0)]);
    let at = |x: i32, y: i32| {
        let led = Led { index: 0, world: [m(x), m(y), m(0)], local: [m(0); 3] };
        axis.project(&unit, &led, &bounds, 1)
    };
    assert_eq!(at(1, 0), Projected { u: Q16::one(), uv: None });
    assert_eq!(at(0, 1), Projected { u: Q16::zero(), uv: None });
    assert_eq!(at(0, 0).u, Q16::half());
    assert_eq!(at(1, 1).u, Q16::half());
}

#[test]
fn bounds_hold_every_member() {
    let dev = strip(1, 6, 3, MapQuality::Rough);
    let z = zone(vec![Clause::Device { device: uuid(1), leds: Some((2, 5)) }], vec![]);
    let b = z.resolve(&unit, &dev).bounds;
    assert_eq!((b.min, b.max), ([m(2), m(3), m(0)], [m(4), m(3), m(0)]));
    assert_eq!(b.count, 3);
    assert_eq!(b.centre(&unit), [m(3), m(3), m(0)]);
}

#[test]
fn empty_conjunctions_hold_and_empty_disjunctions_do_not() {
    let p = [m(0); 3];
    assert!(Predicate::All(vec![]).holds(&unit, &p));
    assert!(!Predicate::Any(vec![]).holds(&unit, &p));
    assert!(Predicate::Not(Box::new(Predicate::Any(vec![]))).holds(&unit, &p));
}

#[test]
fn each_comparison_is_its_own() {
    for (op, below, level, above) in [
        (CmpOp::Lt, true, false, false),
        (CmpOp::Le, true, true, false),
        (CmpOp::Gt, false, false, true),
        (CmpOp::Ge, false, true, true),
    ] {
        assert_eq!(op.holds(m(1), m(2)), below);
        assert_eq!(op.holds(m(2), m(2)), level);
        assert_eq!(op.holds(m(3), m(2)), above);
    }
}
