//! Replicated records: who may write them, which of two wins, and what gossip moves.

use lumen_device::records::{
    DigestEntry, RejectReason, PUBLIC_KEY_LEN, SIGNATURE_LEN,
};
use lumen_device::{Authority, Hlc, Record, RecordType, Store, Uuid};

fn uuid(n: u8) -> Uuid {
    Uuid([n; 16])
}

fn key(n: u8) -> [u8; PUBLIC_KEY_LEN] {
    [n; PUBLIC_KEY_LEN]
}

/// A stand-in for a signature check that is easy to satisfy on purpose: the first
/// byte of the signature must be the first byte of the key.
fn key_matches(
    public_key: &[u8; PUBLIC_KEY_LEN],
    _message: &[u8],
    signature: &[u8; SIGNATURE_LEN],
) -> bool {
    signature[0] == public_key[0]
}

fn signed(id: u8, kind: RecordType, hlc: u64, author: u8, by: u8) -> Record {
    let mut signature = [0u8; SIGNATURE_LEN];
    signature[0] = by;
    Record {
        id: uuid(id),
        kind,
        hlc: Hlc(hlc),
        author: uuid(author),
        body: vec![1, 2, 3],
        signature,
    }
}

fn authority() -> Authority {
    let mut a = Authority::new();
    a.authorise_controller(uuid(200), key(7));
    a.register_device(uuid(1), key(11));
    a.register_device(uuid(2), key(22));
    a
}


#[test]
fn an_hlc_packs_and_unpacks() {
    let h = Hlc::new(1_700_000_000_000, 42);
    assert_eq!(h.wall_ms(), 1_700_000_000_000);
    assert_eq!(h.counter(), 42);
}

#[test]
fn a_tick_advances_the_counter_when_the_clock_has_not_moved() {
    // Several edits inside one millisecond is not rare when a person drags a
    // slider, and without the counter they would be indistinguishable.
    let a = Hlc::new(1_000, 0);
    let b = a.tick(1_000);
    let c = b.tick(1_000);
    assert!(b > a);
    assert!(c > b);
    assert_eq!(c.wall_ms(), 1_000);
    assert_eq!(c.counter(), 2);
}

#[test]
fn a_tick_never_goes_backwards_when_the_wall_clock_does() {
    // Wall clocks do go backwards - a device learns the real time after
    // boot. A stamp that went with it would make a new edit lose to an old.
    let a = Hlc::new(5_000, 0);
    let b = a.tick(1_000);
    assert!(b > a, "the stamp went backwards");
    assert_eq!(b.wall_ms(), 5_000);
}

#[test]
fn observing_a_peer_makes_later_local_edits_sort_after_it() {
    // What makes causality hold across the mesh, whatever the two wall
    // clocks think.
    let mine = Hlc::new(1_000, 0);
    let theirs = Hlc::new(9_000, 5);
    let next = mine.observe(theirs, 1_000);
    assert!(
        next > theirs,
        "a later local edit must sort after what it saw"
    );
}

#[test]
fn hlcs_order_totally() {
    let a = Hlc::new(1_000, 0);
    let b = Hlc::new(1_000, 1);
    let c = Hlc::new(1_001, 0);
    assert!(a < b && b < c);
    assert_eq!(Hlc::zero(), Hlc::default());
}


#[test]
fn the_later_record_wins() {
    let old = signed(1, RecordType::Scene, 10, 200, 7);
    let new = signed(1, RecordType::Scene, 20, 200, 7);
    assert!(new.supersedes(&old));
    assert!(!old.supersedes(&new));
}

#[test]
fn an_exact_tie_breaks_on_the_author_so_two_keepers_agree() {
    // Without the tiebreak a genuine tie would resolve by arrival order, and
    // two keepers handed the same pair would diverge.
    let a = signed(1, RecordType::Scene, 10, 100, 7);
    let b = signed(1, RecordType::Scene, 10, 200, 7);
    assert!(b.supersedes(&a));
    assert!(!a.supersedes(&b));
    assert!(!a.supersedes(&a), "a record never supersedes itself");
}

#[test]
fn the_signature_preimage_is_the_documented_order() {
    let r = signed(1, RecordType::Zone, 0x1122, 200, 7);
    let bytes = r.signed_bytes();
    assert_eq!(&bytes[0..16], uuid(1).as_bytes());
    assert_eq!(bytes[16], RecordType::Zone.to_u8());
    assert_eq!(&bytes[17..25], &0x1122u64.to_le_bytes());
    assert_eq!(&bytes[25..41], uuid(200).as_bytes());
    assert_eq!(&bytes[41..], &[1, 2, 3]);
    assert_eq!(
        bytes.len(),
        16 + 1 + 8 + 16 + 3,
        "the signature must not cover itself"
    );
}

#[test]
fn every_record_type_maps_both_ways() {
    for t in [
        RecordType::Device,
        RecordType::Zone,
        RecordType::Effect,
        RecordType::Scene,
        RecordType::Show,
        RecordType::Schedule,
        RecordType::Binding,
        RecordType::Channel,
        RecordType::Key,
    ] {
        assert_eq!(RecordType::from_u8(t.to_u8()), Some(t));
    }
    assert_eq!(RecordType::from_u8(99), None);
}

#[test]
fn only_a_device_record_is_self_signed() {
    assert!(RecordType::Device.is_self_signed());
    for t in [
        RecordType::Zone,
        RecordType::Effect,
        RecordType::Scene,
        RecordType::Show,
        RecordType::Schedule,
        RecordType::Binding,
        RecordType::Channel,
        RecordType::Key,
    ] {
        assert!(!t.is_self_signed(), "{t:?}");
    }
}


#[test]
fn a_correctly_signed_controller_record_is_accepted() {
    let mut s = Store::new();
    let r = signed(10, RecordType::Scene, 5, 200, 7);
    assert_eq!(s.accept(r, &authority(), &key_matches, 1_000), Ok(()));
    assert_eq!(s.len(), 1);
}

#[test]
fn a_forged_signature_is_rejected() {
    // The whole reason records are signed: the mesh key is symmetric, so any
    // paired device could otherwise forge a scene and have it replicate as
    // genuine.
    let mut s = Store::new();
    let r = signed(10, RecordType::Scene, 5, 200, 99);
    assert_eq!(
        s.accept(r, &authority(), &key_matches, 1_000),
        Err(RejectReason::BadSignature)
    );
    assert!(s.is_empty(), "a forged record must not be stored");
}

#[test]
fn an_unknown_author_is_rejected() {
    let mut s = Store::new();
    let r = signed(10, RecordType::Scene, 5, 250, 7);
    assert_eq!(
        s.accept(r, &authority(), &key_matches, 1_000),
        Err(RejectReason::UnknownAuthor)
    );
}

#[test]
fn a_device_may_sign_its_own_record_and_only_its_own() {
    // A compromised device can lie about itself and nothing else. That is a
    // far smaller blast radius than the alternative.
    let mut s = Store::new();
    let own = Record {
        id: uuid(1),
        author: uuid(1),
        ..signed(1, RecordType::Device, 5, 1, 11)
    };
    assert_eq!(s.accept(own, &authority(), &key_matches, 1_000), Ok(()));

    let someone_elses = Record {
        id: uuid(2),
        author: uuid(1),
        ..signed(2, RecordType::Device, 5, 1, 11)
    };
    assert_eq!(
        s.accept(someone_elses, &authority(), &key_matches, 1_000),
        Err(RejectReason::NotItsOwnDeviceRecord)
    );
}

#[test]
fn a_device_key_cannot_sign_a_scene() {
    // Distinguished from an unknown author because the fix differs: this is
    // a tampered node, not a missing pairing.
    let mut s = Store::new();
    let r = signed(10, RecordType::Scene, 5, 1, 11);
    assert_eq!(
        s.accept(r, &authority(), &key_matches, 1_000),
        Err(RejectReason::WrongAuthority)
    );
}

#[test]
fn a_revoked_controller_can_no_longer_write() {
    let mut a = authority();
    let mut s = Store::new();
    assert_eq!(
        s.accept(
            signed(10, RecordType::Scene, 5, 200, 7),
            &a,
            &key_matches,
            1_000
        ),
        Ok(())
    );
    assert!(a.revoke_controller(uuid(200)));
    assert!(!a.is_controller(uuid(200)));
    assert_eq!(
        s.accept(
            signed(11, RecordType::Scene, 6, 200, 7),
            &a,
            &key_matches,
            1_000
        ),
        Err(RejectReason::UnknownAuthor)
    );
    assert!(
        !a.revoke_controller(uuid(200)),
        "revoking twice says nothing new"
    );
}

#[test]
fn an_older_record_is_refused_without_a_signature_check() {
    // The digest exchange compares HLCs first, so an unchanged record never
    // costs a verify - which is what makes signing every record affordable
    // on a C3. Here the signature is deliberately invalid and it still
    // reports Superseded, proving the order of the two checks.
    let mut s = Store::new();
    s.accept(
        signed(10, RecordType::Scene, 20, 200, 7),
        &authority(),
        &key_matches,
        0,
    )
    .unwrap();
    let stale = signed(10, RecordType::Scene, 10, 200, 99);
    assert_eq!(
        s.accept(stale, &authority(), &key_matches, 1_000),
        Err(RejectReason::Superseded)
    );
}

#[test]
fn a_rejected_record_does_not_move_the_clock() {
    // Otherwise anyone able to send a forged record could push this node's
    // clock arbitrarily far forward and make every genuine edit lose.
    let mut s = Store::new();
    let before = s.clock();
    let forged = Record {
        hlc: Hlc::new(u64::MAX >> 20, 0),
        ..signed(10, RecordType::Scene, 0, 200, 99)
    };
    assert!(s.accept(forged, &authority(), &key_matches, 1_000).is_err());
    assert_eq!(s.clock(), before);
}

#[test]
fn a_record_is_replaced_whole_rather_than_merged() {
    // Field-wise merging would produce an effect neither author wrote.
    let mut s = Store::new();
    let mut first = signed(10, RecordType::Effect, 10, 200, 7);
    first.body = vec![1, 1, 1];
    s.accept(first, &authority(), &key_matches, 0).unwrap();

    let mut second = signed(10, RecordType::Effect, 20, 200, 7);
    second.body = vec![2, 2];
    s.accept(second, &authority(), &key_matches, 0).unwrap();

    assert_eq!(s.get(uuid(10)).unwrap().body, vec![2, 2]);
    assert_eq!(s.len(), 1);
}


fn populated(entries: &[(u8, u64)]) -> Store {
    let mut s = Store::new();
    for (id, hlc) in entries {
        s.accept(
            signed(*id, RecordType::Scene, *hlc, 200, 7),
            &authority(),
            &key_matches,
            0,
        )
        .unwrap();
    }
    s
}

#[test]
fn a_digest_lists_everything_held_in_a_stable_order() {
    // Two nodes must produce comparable digests, or a diff is a search.
    let s = populated(&[(3, 30), (1, 10), (2, 20)]);
    let d = s.digest();
    assert_eq!(d.len(), 3);
    let ids: Vec<Uuid> = d.iter().map(|e| e.id).collect();
    let mut sorted = ids.clone();
    sorted.sort();
    assert_eq!(ids, sorted);
}

#[test]
fn a_node_asks_for_what_it_lacks_and_what_is_newer() {
    let mine = populated(&[(1, 10), (2, 20)]);
    let theirs = populated(&[(1, 10), (2, 30), (3, 5)]);
    let want = mine.wanted(&theirs.digest());
    assert!(
        !want.contains(&uuid(1)),
        "identical records need no transfer"
    );
    assert!(want.contains(&uuid(2)), "a newer record should be pulled");
    assert!(want.contains(&uuid(3)), "a missing record should be pulled");
    assert_eq!(want.len(), 2);
}

#[test]
fn a_node_with_everything_asks_for_nothing() {
    // Steady state must cost no transfers, or gossip is a permanent tax.
    let mine = populated(&[(1, 10), (2, 20)]);
    let theirs = populated(&[(1, 10), (2, 20)]);
    assert!(mine.wanted(&theirs.digest()).is_empty());
}

#[test]
fn a_pull_for_something_no_longer_held_is_not_an_error() {
    // A peer asking for a record that has since been superseded is an
    // ordinary race; failing the exchange would turn it into an outage.
    let s = populated(&[(1, 10)]);
    let got = s.collect(&[uuid(1), uuid(9)]);
    assert_eq!(got.len(), 1);
    assert_eq!(got[0].id, uuid(1));
}

#[test]
fn two_nodes_converge_after_a_partition_heals() {
    // The scenario the design is judged on. Each edits while separated, and
    // afterwards both hold the same thing.
    let a_auth = authority();
    let mut a = populated(&[(1, 10)]);
    let mut b = populated(&[(1, 10)]);

    // Divergent edits while apart.
    a.accept(
        signed(2, RecordType::Scene, 50, 200, 7),
        &a_auth,
        &key_matches,
        0,
    )
    .unwrap();
    b.accept(
        signed(3, RecordType::Scene, 60, 200, 7),
        &a_auth,
        &key_matches,
        0,
    )
    .unwrap();
    b.accept(
        signed(1, RecordType::Scene, 70, 200, 7),
        &a_auth,
        &key_matches,
        0,
    )
    .unwrap();

    // One gossip round each way.
    for _ in 0..2 {
        for id in a.wanted(&b.digest()) {
            for r in b.collect(&[id]) {
                let _ = a.accept(r, &a_auth, &key_matches, 0);
            }
        }
        for id in b.wanted(&a.digest()) {
            for r in a.collect(&[id]) {
                let _ = b.accept(r, &a_auth, &key_matches, 0);
            }
        }
    }

    assert_eq!(a.digest(), b.digest(), "the two nodes did not converge");
    assert_eq!(a.len(), 3);
    assert_eq!(
        a.get(uuid(1)).unwrap().hlc,
        Hlc(70),
        "the later edit to record 1 should have won"
    );
}

#[test]
fn convergence_does_not_depend_on_which_side_gossips_first() {
    // If it did, a partition would heal to different states depending on
    // timing, which is the failure mode that makes distributed bugs
    // irreproducible.
    let auth = authority();
    let build = |first_a: bool| {
        let mut a = populated(&[(1, 10)]);
        let mut b = populated(&[(1, 99)]);
        let order: [bool; 2] = if first_a {
            [true, false]
        } else {
            [false, true]
        };
        for a_first in order {
            if a_first {
                for id in a.wanted(&b.digest()) {
                    for r in b.collect(&[id]) {
                        let _ = a.accept(r, &auth, &key_matches, 0);
                    }
                }
            } else {
                for id in b.wanted(&a.digest()) {
                    for r in a.collect(&[id]) {
                        let _ = b.accept(r, &auth, &key_matches, 0);
                    }
                }
            }
        }
        (a.digest(), b.digest())
    };
    let (a1, b1) = build(true);
    let (a2, b2) = build(false);
    assert_eq!(a1, b1);
    assert_eq!(a2, b2);
    assert_eq!(a1, a2, "the outcome depended on gossip order");
}

#[test]
fn a_forged_record_is_not_gossiped_onward() {
    // It never entered the store, so it cannot be in a digest - which is how
    // a bad record stops at the first honest node rather than spreading.
    let mut s = populated(&[(1, 10)]);
    let _ = s.accept(
        signed(2, RecordType::Scene, 20, 200, 99),
        &authority(),
        &key_matches,
        0,
    );
    assert_eq!(s.digest().len(), 1);
    assert!(s.collect(&[uuid(2)]).is_empty());
}

#[test]
fn a_local_stamp_advances_and_never_repeats() {
    let mut s = Store::new();
    let mut seen = Vec::new();
    for _ in 0..5 {
        seen.push(s.stamp(1_000));
    }
    for pair in seen.windows(2) {
        assert!(pair[1] > pair[0], "a stamp repeated: {seen:?}");
    }
}

#[test]
fn an_empty_store_gossips_nothing_and_wants_everything() {
    let empty = Store::new();
    assert!(empty.is_empty());
    assert!(empty.digest().is_empty());
    let theirs = populated(&[(1, 10), (2, 20)]);
    assert_eq!(empty.wanted(&theirs.digest()).len(), 2);
}


fn digest_of(entries: &[(u8, u64)]) -> Vec<DigestEntry> {
    entries
        .iter()
        .map(|(id, hlc)| DigestEntry {
            id: uuid(*id),
            hlc: Hlc(*hlc),
        })
        .collect()
}

/// A store holding exactly `entries`, at the clocks given.
///
/// Built through `accept` rather than by reaching into the map, so these
/// tests exercise a store that was populated the way a real one is.
fn store_of(entries: &[(u8, u64)]) -> Store {
    let a = authority();
    let mut s = Store::new();
    for (id, hlc) in entries {
        // Authored by the controller and signed with its key, which is what
        // the shared `authority()` fixture authorises for a scene.
        s.accept(
            signed(*id, RecordType::Scene, *hlc, 200, 7),
            &a,
            &key_matches,
            *hlc,
        )
        .expect("the fixture record is acceptable");
    }
    s
}

#[test]
fn two_nodes_that_agree_transfer_nothing() {
    // The common case by an enormous margin: a mesh at rest gossips every
    // five seconds and finds nothing every time.
    let mine = store_of(&[(1, 100), (2, 200)]);
    let plan = mine.reconcile(&digest_of(&[(1, 100), (2, 200)]));
    assert!(plan.is_empty(), "{plan:?}");
}

#[test]
fn a_record_only_the_peer_has_is_pulled() {
    let mine = store_of(&[(1, 100)]);
    let plan = mine.reconcile(&digest_of(&[(1, 100), (2, 50)]));
    assert_eq!(plan.pull, vec![uuid(2)]);
    assert!(plan.push.is_empty());
}

#[test]
fn a_record_only_this_node_has_is_pushed() {
    let mine = store_of(&[(1, 100), (2, 50)]);
    let plan = mine.reconcile(&digest_of(&[(1, 100)]));
    assert_eq!(plan.push, vec![uuid(2)]);
    assert!(plan.pull.is_empty());
}

#[test]
fn the_newer_clock_decides_which_way_a_record_moves() {
    let mine = store_of(&[(1, 100), (2, 100)]);
    let plan = mine.reconcile(&digest_of(&[(1, 200), (2, 50)]));
    assert_eq!(plan.pull, vec![uuid(1)]);
    assert_eq!(plan.push, vec![uuid(2)]);
}

#[test]
fn a_peer_that_is_behind_is_pushed_to_without_asking() {
    // The case the push half exists for: a node that is behind never sends a pull,
    // so if the round did not push, that record would reach it only if it
    // happened to gossip first. Convergence would depend on who spoke.
    let mine = store_of(&[(1, 200)]);
    let plan = mine.reconcile(&digest_of(&[(1, 100)]));
    assert_eq!(plan.push, vec![uuid(1)]);
    assert!(plan.pull.is_empty());
}

#[test]
fn an_equal_clock_means_the_same_record() {
    // An HLC is unique to the edit that produced it, so two records sharing
    // one are the same record. If they were not, transferring would not
    // settle which to keep - that is the conflict `Authority` resolves when
    // a record arrives, not something a digest can see.
    let mine = store_of(&[(1, 100)]);
    assert!(mine.reconcile(&digest_of(&[(1, 100)])).is_empty());
}

#[test]
fn a_node_that_has_just_joined_pulls_everything() {
    let mine = Store::new();
    let plan = mine.reconcile(&digest_of(&[(3, 30), (1, 10), (2, 20)]));
    assert_eq!(plan.pull, vec![uuid(1), uuid(2), uuid(3)]);
    assert!(plan.push.is_empty());
}

#[test]
fn a_plan_is_ordered_so_two_nodes_produce_the_same_one() {
    // Reproducibility, which is what makes a gossip round testable and a
    // recorded run replayable. A peer is not obliged by anything in the
    // protocol to send its digest in order.
    let mine = store_of(&[(5, 10), (1, 10), (9, 10)]);
    let plan = mine.reconcile(&digest_of(&[(8, 10), (2, 10), (4, 10)]));
    assert_eq!(plan.push, vec![uuid(1), uuid(5), uuid(9)]);
    assert_eq!(plan.pull, vec![uuid(2), uuid(4), uuid(8)]);
}

#[test]
fn a_duplicated_id_in_a_digest_keeps_the_newer_clock() {
    // Not conforming, but the reading that cannot lose an edit: treating the
    // older one as authoritative would leave this node believing it is up to
    // date when it is not.
    let mine = store_of(&[(1, 100)]);
    assert_eq!(
        mine.reconcile(&digest_of(&[(1, 50), (1, 200)])).pull,
        vec![uuid(1)]
    );
    assert!(mine.reconcile(&digest_of(&[(1, 200), (1, 50)])).pull.len() == 1);
}

#[test]
fn an_empty_digest_from_a_peer_pushes_everything() {
    let mine = store_of(&[(1, 10), (2, 20)]);
    let plan = mine.reconcile(&[]);
    assert_eq!(plan.push, vec![uuid(1), uuid(2)]);
    assert!(plan.pull.is_empty());
}

#[test]
fn two_empty_stores_have_nothing_to_say() {
    assert!(Store::new().reconcile(&[]).is_empty());
}

#[test]
fn the_order_two_records_arrive_in_does_not_matter() {
    let a = signed(10, RecordType::Scene, 20, 200, 7);
    let b = signed(10, RecordType::Scene, 30, 200, 7);
    let mut one = Store::new();
    let mut two = Store::new();
    for r in [&a, &b] {
        let _ = one.accept(r.clone(), &authority(), &key_matches, 0);
    }
    for r in [&b, &a] {
        let _ = two.accept(r.clone(), &authority(), &key_matches, 0);
    }
    assert_eq!(one.get(uuid(10)), two.get(uuid(10)));
    assert_eq!(one.get(uuid(10)), Some(&b));
}

#[test]
fn the_verifier_is_shown_the_signed_bytes_and_its_word_is_final() {
    let r = signed(10, RecordType::Scene, 20, 200, 7);
    let expected = r.signed_bytes();
    let strict = |key: &[u8; PUBLIC_KEY_LEN], message: &[u8], sig: &[u8; SIGNATURE_LEN]| {
        *key == [7; PUBLIC_KEY_LEN] && message == expected && sig[0] == 7
    };
    let mut s = Store::new();
    assert_eq!(s.accept(r.clone(), &authority(), &strict, 0), Ok(()));
    let never = |_: &[u8; PUBLIC_KEY_LEN], _: &[u8], _: &[u8; SIGNATURE_LEN]| false;
    let mut s = Store::new();
    assert_eq!(s.accept(r, &authority(), &never, 0), Err(RejectReason::BadSignature));
}

#[test]
fn accepting_a_record_moves_the_clock_past_it() {
    let mut s = Store::new();
    let r = Record { hlc: Hlc::new(9_000, 4), ..signed(10, RecordType::Scene, 0, 200, 7) };
    s.accept(r, &authority(), &key_matches, 1_000).unwrap();
    assert_eq!(s.clock(), Hlc::new(9_000, 5));
    assert!(s.stamp(1_000) > Hlc::new(9_000, 4));
}

#[test]
fn a_full_counter_carries_into_the_wall_part() {
    let h = Hlc::new(1_000, u16::MAX);
    assert_eq!(h.tick(1_000), Hlc::new(1_001, 0));
    assert_eq!(Hlc(u64::MAX).tick(0), Hlc(u64::MAX));
}

#[test]
fn screening_and_settling_are_the_two_halves_of_accepting() {
    let r = signed(10, RecordType::Scene, 20, 200, 7);
    let mut s = Store::new();
    assert_eq!(s.screen(&r, &authority()), Ok(&key(7)));
    assert_eq!(s.settle(r.clone(), &authority(), true, 0), Ok(()));
    assert_eq!(s.screen(&r, &authority()), Err(RejectReason::Superseded));
    assert_eq!(
        s.settle(signed(11, RecordType::Scene, 20, 200, 7), &authority(), false, 0),
        Err(RejectReason::BadSignature)
    );
    assert_eq!(s.len(), 1);
}

#[test]
fn one_plan_mirrors_the_other() {
    let a = store_of(&[(1, 10), (2, 30), (4, 5)]);
    let b = store_of(&[(1, 10), (2, 20), (3, 5)]);
    let (p, q) = (a.reconcile(&b.digest()), b.reconcile(&a.digest()));
    assert_eq!(p.pull, q.push);
    assert_eq!(p.push, q.pull);
    assert_eq!(p.pull, vec![uuid(3)]);
    assert_eq!(p.push, vec![uuid(2), uuid(4)]);
}

#[test]
fn a_clock_stays_at_the_last_wall_time_that_fits() {
    let limit = 1u64 << 48;
    assert_eq!(Hlc::new(limit, 3), Hlc::new(limit - 1, 3));
    assert_eq!(Hlc::new(u64::MAX, 3).wall_ms(), limit - 1);
    assert!(Hlc(1).tick(limit) > Hlc(1));
    assert_eq!(Hlc(1).tick(limit), Hlc::new(limit - 1, 0));
    let late = Hlc::new(limit - 1, 7);
    assert_eq!(late.tick(u64::MAX), Hlc::new(limit - 1, 8));
    assert!(Hlc(1).observe(late, limit) > late);
}

#[test]
fn a_controller_key_cannot_sign_a_device_record() {
    let mut s = Store::new();
    for id in [1, 200] {
        let r = signed(id, RecordType::Device, 5, 200, 7);
        assert_eq!(
            s.accept(r, &authority(), &key_matches, 1_000),
            Err(RejectReason::WrongAuthority)
        );
    }
    assert!(s.is_empty());
}
