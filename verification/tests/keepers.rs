//! Who keeps the records.

use core::cmp::Ordering;

use lumen_device::keepers::{is_keeper, select, Claim, Quorum, MAX_KEEPERS, QUORUM};
use lumen_device::Uuid;

fn uuid(n: u8) -> Uuid {
    Uuid([n; 16])
}

fn claim(n: u8, flash_kib: u32, capacity: u32) -> Claim {
    Claim {
        uuid: uuid(n),
        flash_kib,
        capacity,
        eligible: true,
    }
}

#[test]
fn more_flash_keeps_the_records() {
    // The job is storing things, so room to store them ranks first.
    let big = claim(1, 4096, 10);
    let fast = claim(2, 512, 900);
    assert!(big.ranks_above(&fast));
    assert!(!fast.ranks_above(&big));
}

#[test]
fn equal_flash_breaks_on_capacity() {
    // A keeper also answers pulls, so a device already struggling to render
    // should not also be serving state.
    let idle = claim(1, 4096, 900);
    let busy = claim(2, 4096, 100);
    assert!(idle.ranks_above(&busy));
}

#[test]
fn two_identical_devices_still_order() {
    // Two strips flashed from one binary is the normal case, not the corner
    // one. If this were a tie, two devices could disagree about the keeper
    // set and pull records from each other forever.
    let a = claim(1, 4096, 500);
    let b = claim(2, 4096, 500);
    assert!(a.ranks_above(&b));
    assert!(!b.ranks_above(&a));
}

#[test]
fn the_ranking_is_a_total_order() {
    // The property the whole design rests on: every device sorts the same
    // table into the same sequence, so no messages are needed. Checked
    // exhaustively over a set with every kind of tie in it.
    let claims = [
        claim(1, 4096, 500),
        claim(2, 4096, 500),
        claim(3, 4096, 900),
        claim(4, 512, 900),
        claim(5, 512, 500),
    ];
    for a in &claims {
        // Reflexive. A sort is entitled to compare an element with itself,
        // and a comparator that called that "greater" would be lying to it.
        assert_eq!(a.rank(a), Ordering::Equal, "a claim does not equal itself");
        for b in &claims {
            // Antisymmetric.
            assert_eq!(
                a.rank(b),
                b.rank(a).reverse(),
                "{:?} and {:?} do not order",
                a.uuid,
                b.uuid
            );
            // Transitive.
            for c in &claims {
                if a.rank(b) != Ordering::Greater && b.rank(c) != Ordering::Greater {
                    assert_ne!(
                        a.rank(c),
                        Ordering::Greater,
                        "{:?} <= {:?} <= {:?} but not {:?} <= {:?}",
                        a.uuid,
                        b.uuid,
                        c.uuid,
                        a.uuid,
                        c.uuid
                    );
                }
            }
        }
    }
}

#[test]
fn every_device_picks_the_same_keepers_from_the_same_table() {
    // Stated as: the answer does not depend on the order the peer table
    // happens to be in, which is what differs between devices - each one
    // learned about its peers in whatever order they turned up.
    let base = [
        claim(9, 1024, 100),
        claim(3, 4096, 500),
        claim(7, 2048, 800),
        claim(1, 4096, 900),
        claim(5, 512, 200),
        claim(2, 2048, 800),
    ];

    let mut expected = base;
    let (count, _) = select(&mut expected);
    let expected: Vec<Uuid> = expected[..count].iter().map(|c| c.uuid).collect();

    // Every rotation of the same table.
    for shift in 1..base.len() {
        let mut rotated = base;
        rotated.rotate_left(shift);
        let (n, _) = select(&mut rotated);
        let got: Vec<Uuid> = rotated[..n].iter().map(|c| c.uuid).collect();
        assert_eq!(got, expected, "rotation by {shift} chose differently");
    }
}

#[test]
fn a_bridged_device_is_never_a_keeper() {
    // It reaches the mesh through another device, so keeping state there
    // puts a hop in front of the records and takes them offline whenever the
    // bridge reboots.
    let mut claims = [
        Claim {
            eligible: false,
            ..claim(1, 65_536, 999)
        },
        claim(2, 512, 100),
    ];
    let (count, quorum) = select(&mut claims);
    assert_eq!(count, 1);
    assert_eq!(claims[0].uuid, uuid(2));
    assert_eq!(quorum, Quorum::Fragile);
    assert!(!is_keeper(&mut claims, uuid(1)));
}

#[test]
fn a_large_mesh_keeps_the_cap() {
    // Gossip cost grows with the number of keepers, not the size of the
    // mesh, so this is the number that must not drift upward with it.
    let mut claims: Vec<Claim> =
        (1..=40).map(|n| claim(n, 1024 + n as u32, 500)).collect();
    let (count, quorum) = select(&mut claims);
    assert_eq!(count, MAX_KEEPERS);
    assert_eq!(quorum, Quorum::Healthy);
    // The five with the most flash, which are the highest numbered here.
    for (rank, c) in claims[..count].iter().enumerate() {
        assert_eq!(c.uuid, uuid(40 - rank as u8));
    }
}

#[test]
fn quorum_reports_what_the_user_needs_telling() {
    assert_eq!(Quorum::of(0), Quorum::Absent);
    assert_eq!(Quorum::of(1), Quorum::Fragile);
    assert_eq!(Quorum::of(2), Quorum::Thin);
    assert_eq!(Quorum::of(3), Quorum::Healthy);
    assert_eq!(Quorum::of(99), Quorum::Healthy);

    assert!(Quorum::Absent.needs_warning());
    assert!(Quorum::Fragile.needs_warning());
    assert!(Quorum::Thin.needs_warning());
    assert!(!Quorum::Healthy.needs_warning());
    assert_eq!(QUORUM, 3);
}

#[test]
fn a_mesh_with_nothing_eligible_has_no_keepers() {
    let mut claims = [Claim {
        eligible: false,
        ..claim(1, 4096, 500)
    }];
    let (count, quorum) = select(&mut claims);
    assert_eq!(count, 0);
    assert_eq!(quorum, Quorum::Absent);
    assert!(!is_keeper(&mut claims, uuid(1)));
}

#[test]
fn an_empty_mesh_does_not_panic() {
    let mut claims: [Claim; 0] = [];
    assert_eq!(select(&mut claims), (0, Quorum::Absent));
    assert!(!is_keeper(&mut claims, uuid(1)));
}

#[test]
fn a_device_learns_whether_it_is_a_keeper_from_the_table_it_already_has() {
    let mut claims = [
        claim(1, 4096, 500),
        claim(2, 2048, 500),
        claim(3, 1024, 500),
    ];
    assert!(is_keeper(&mut claims, uuid(1)));
    assert!(is_keeper(&mut claims, uuid(3)));
    // Somebody who is not in the table at all.
    assert!(!is_keeper(&mut claims, uuid(9)));
}

#[test]
fn the_keepers_are_the_best_of_the_eligible_and_the_rest_stay_in_the_table() {
    let mut claims: Vec<Claim> = (1..=7).map(|n| claim(n, 100 * n as u32, 1)).collect();
    claims[6].eligible = false;
    let (count, quorum) = select(&mut claims);
    assert_eq!((count, quorum), (5, Quorum::Healthy));
    let order: Vec<Uuid> = claims.iter().map(|c| c.uuid).collect();
    assert_eq!(order[..5], [uuid(6), uuid(5), uuid(4), uuid(3), uuid(2)]);
    assert!(order.contains(&uuid(1)) && order.contains(&uuid(7)));
    assert_eq!(order.len(), 7);
}

#[test]
fn two_eligible_devices_are_a_thin_quorum() {
    let mut claims = [claim(1, 10, 1), claim(2, 20, 1)];
    assert_eq!(select(&mut claims), (2, Quorum::Thin));
    assert_eq!(claims[0].uuid, uuid(2));
}
