//! Choosing which devices hold the records.
//!
//! Keepers store the mesh's state — zones, scenes, schedules, bindings — and
//! gossip it between themselves. Everyone else pulls what they need read-only
//! and caches it.
//!
//! **There is no election protocol, and that is the point.** Every device already
//! knows the peer table. Ranking that table is a pure function, so every device
//! computes the same keeper set independently, with no messages exchanged and
//! nothing to disagree about.
//!
//! Ranked by flash first because the job is *storing* things, then by capacity
//! because a keeper also answers pulls. The identity breaks whatever is left, in
//! the same direction the timebase election breaks its ties.

use core::cmp::Ordering;

use vstd::prelude::*;
use vstd::relations::{sorted_by, total_ordering};

use crate::lists::{lemma_filter_all, lemma_filter_push, lemma_filter_take};
use crate::order::{in_order, sort, Ranked};
use crate::uuid::{byte_order, lemma_byte_order_is_numeric, lemma_key_injective, Uuid};

verus! {

/// How many keepers a mesh runs.
///
/// Every keeper sends a digest every five seconds, so the traffic grows with the
/// number of keepers. Five gives two spare copies beyond the three that make a
/// healed partition converge.
pub const MAX_KEEPERS: usize = 5;

/// Below this many keepers, a healed partition may not converge on its own.
pub const QUORUM: usize = 3;

/// A device's claim to be a keeper.
#[derive(Clone, Copy, PartialEq, Eq, Debug)]
pub struct Claim {
    pub uuid: Uuid,
    /// Flash available for records, in kibibytes.
    pub flash_kib: u32,
    /// The device's static capacity score, the same one the timebase election
    /// uses.
    pub capacity: u32,
    /// Whether this device may keep records at all.
    ///
    /// A bridged node never may: it reaches the mesh through another device, so
    /// its state goes offline whenever its bridge reboots.
    pub eligible: bool,
}

impl Claim {
    /// Whether this claim comes before `other`: eligible first, then most flash,
    /// then most capacity, then the lower identity.
    pub open spec fn above(self, other: Claim) -> bool {
        if self.eligible != other.eligible {
            self.eligible
        } else if self.flash_kib != other.flash_kib {
            self.flash_kib > other.flash_kib
        } else if self.capacity != other.capacity {
            self.capacity > other.capacity
        } else {
            self.uuid.key() < other.uuid.key()
        }
    }

    /// Keeper order: the better claim sorts first.
    pub fn rank(&self, other: &Claim) -> (r: Ordering)
        ensures
            r == if self.above(*other) {
                Ordering::Less
            } else if other.above(*self) {
                Ordering::Greater
            } else {
                Ordering::Equal
            },
    {
        if self.ranks_above(other) {
            Ordering::Less
        } else if other.ranks_above(self) {
            Ordering::Greater
        } else {
            Ordering::Equal
        }
    }

    /// Whether this device should be a keeper before `other`.
    pub fn ranks_above(&self, other: &Claim) -> (r: bool)
        ensures
            r == self.above(*other),
    {
        if self.eligible != other.eligible {
            self.eligible
        } else if self.flash_kib != other.flash_kib {
            self.flash_kib > other.flash_kib
        } else if self.capacity != other.capacity {
            self.capacity > other.capacity
        } else {
            self.uuid.precedes(&other.uuid)
        }
    }
}

impl Ranked for Claim {
    open spec fn at_most(self, other: Claim) -> bool {
        !other.above(self)
    }

    proof fn total(a: Claim, b: Claim) {
    }

    proof fn transitive(a: Claim, b: Claim, c: Claim) {
    }

    fn is_at_most(&self, other: &Claim) -> (r: bool) {
        !other.ranks_above(self)
    }
}

/// How well the chosen keepers protect the mesh's state.
#[derive(Clone, Copy, PartialEq, Eq, Debug, Structural)]
pub enum Quorum {
    /// Three or more. A partition that heals converges by itself.
    Healthy,
    /// Two. State survives one device dying, but there is no majority to settle
    /// a partition.
    Thin,
    /// One. Losing that device loses the show.
    Fragile,
    /// Nothing eligible. Every device is bridged, or the mesh is empty.
    Absent,
}

impl Quorum {
    /// What a number of keepers amounts to.
    pub open spec fn from_count(count: int) -> Quorum {
        if count <= 0 {
            Quorum::Absent
        } else if count == 1 {
            Quorum::Fragile
        } else if count < QUORUM {
            Quorum::Thin
        } else {
            Quorum::Healthy
        }
    }

    pub fn of(count: usize) -> (r: Quorum)
        ensures
            r == Quorum::from_count(count as int),
    {
        match count {
            0 => Quorum::Absent,
            1 => Quorum::Fragile,
            2 => Quorum::Thin,
            _ => Quorum::Healthy,
        }
    }

    /// Whether the user should be told about this: anything short of three.
    pub fn needs_warning(self) -> (r: bool)
        ensures
            r == !(self is Healthy),
    {
        match self {
            Quorum::Healthy => false,
            _ => true,
        }
    }
}

/// The eligible claims of a table.
pub open spec fn eligible(claims: Seq<Claim>) -> Seq<Claim> {
    claims.filter(|c: Claim| c.eligible)
}

/// How many keepers a table gives.
pub open spec fn keeper_count(claims: Seq<Claim>) -> int {
    if eligible(claims).len() < MAX_KEEPERS {
        eligible(claims).len() as int
    } else {
        MAX_KEEPERS as int
    }
}

/// Reordering a table makes nobody eligible.
proof fn lemma_same_number_eligible(a: Seq<Claim>, b: Seq<Claim>)
    requires
        a.to_multiset() == b.to_multiset(),
    ensures
        eligible(a).len() == eligible(b).len(),
    decreases a.len(),
{
    broadcast use vstd::seq_lib::group_to_multiset_ensures;

    let able = |c: Claim| c.eligible;
    if a.len() == 0 {
        vstd::seq_lib::to_multiset_len(a);
        vstd::seq_lib::to_multiset_len(b);
        assert(a =~= b);
    } else {
        let c = a.last();
        assert(a.contains(c));
        assert(b.to_multiset().count(c) > 0);
        let i = b.index_of(c);
        assert(a.remove(a.len() - 1) =~= a.drop_last());
        lemma_same_number_eligible(a.drop_last(), b.remove(i));
        assert(a =~= a.drop_last().push(c));
        lemma_filter_push(a.drop_last(), c, able);
        let (front, back) = (b.take(i), b.skip(i + 1));
        assert(b.remove(i) =~= front + back);
        assert(b =~= front.push(c) + back);
        Seq::filter_distributes_over_add(front, back, able);
        Seq::filter_distributes_over_add(front.push(c), back, able);
        lemma_filter_push(front, c, able);
    }
}

/// Sort `claims` into keeper order and say how many of them are keepers.
///
/// The keepers are the first of them, in rank order; ineligible devices sort to
/// the end and are never counted.
pub fn select(claims: &mut [Claim]) -> (r: (usize, Quorum))
    ensures
        in_order(final(claims)@),
        final(claims)@.to_multiset() == old(claims)@.to_multiset(),
        final(claims)@.len() == old(claims)@.len(),
        r.0 == keeper_count(old(claims)@),
        r.0 == keeper_count(final(claims)@),
        r.0 <= final(claims)@.len(),
        r.1 == Quorum::from_count(r.0 as int),
{
    sort(claims);
    proof {
        lemma_same_number_eligible(old(claims)@, claims@);
    }
    let mut count: usize = 0;
    let mut i: usize = 0;
    let ghost able = |c: Claim| c.eligible;
    let ghost table = claims@;
    proof {
        reveal(Seq::filter);
        assert(table.take(0).filter(able) =~= Seq::<Claim>::empty());
    }
    while i < claims.len()
        invariant
            table == claims@,
            able == (|c: Claim| c.eligible),
            i <= table.len(),
            count == table.take(i as int).filter(able).len(),
            count <= i,
        decreases table.len() - i,
    {
        proof {
            lemma_filter_take(table, i as int, able);
        }
        if claims[i].eligible {
            count += 1;
        }
        i += 1;
    }
    assert(table.take(i as int) =~= table);
    if count > MAX_KEEPERS {
        count = MAX_KEEPERS;
    }
    (count, Quorum::of(count))
}

/// Whether `me` is a keeper, given the whole peer table including itself.
pub fn is_keeper(claims: &mut [Claim], me: Uuid) -> (r: bool)
    ensures
        in_order(final(claims)@),
        final(claims)@.to_multiset() == old(claims)@.to_multiset(),
        final(claims)@.len() == old(claims)@.len(),
        r == exists|i: int|
            0 <= i < keeper_count(old(claims)@) && (#[trigger] final(claims)@[i]).uuid == me,
{
    let (count, _quorum) = select(claims);
    let mut i: usize = 0;
    while i < count
        invariant
            i <= count <= claims@.len(),
            in_order(claims@),
            claims@.to_multiset() == old(claims)@.to_multiset(),
            claims@.len() == old(claims)@.len(),
            count == keeper_count(old(claims)@),
            forall|k: int| 0 <= k < i ==> (#[trigger] claims@[k]).uuid != me,
        decreases count - i,
    {
        if claims[i].uuid == me {
            assert(claims@[i as int].uuid == me);
            return true;
        }
        i += 1;
    }
    false
}

/// The ranking is a total order: no claim is above itself, of two different
/// claims exactly one is, and it carries through.
pub proof fn law_ranking_is_total(a: Claim, b: Claim, c: Claim)
    ensures
        !a.above(a),
        a.above(b) ==> !b.above(a),
        a != b ==> a.above(b) || b.above(a),
        a.above(b) && b.above(c) ==> a.above(c),
{
    if a.uuid.key() == b.uuid.key() {
        lemma_key_injective(a.uuid, b.uuid);
    }
}

/// Every device sorts the same table into the same sequence, whatever order it
/// learned of its peers in, so all of them pick the same keepers.
pub proof fn law_same_table_same_keepers(a: Seq<Claim>, b: Seq<Claim>)
    requires
        in_order(a),
        in_order(b),
        a.to_multiset() == b.to_multiset(),
    ensures
        a == b,
        keeper_count(a) == keeper_count(b),
{
    let at_most = |x: Claim, y: Claim| x.at_most(y);
    assert(total_ordering(at_most)) by {
        assert forall|x: Claim, y: Claim| #[trigger] at_most(x, y) && #[trigger] at_most(
            y,
            x,
        ) implies x == y by {
            law_ranking_is_total(x, y, x);
        }
    }
    assert forall|i: int, j: int| 0 <= i < j < a.len() implies #[trigger] at_most(a[i], a[j]) by {
        assert(a[i].at_most(a[j]));
    }
    assert forall|i: int, j: int| 0 <= i < j < b.len() implies #[trigger] at_most(b[i], b[j]) by {
        assert(b[i].at_most(b[j]));
    }
    assert(sorted_by(a, at_most));
    assert(sorted_by(b, at_most));
    vstd::seq_lib::lemma_sorted_unique(a, b, at_most);
}

/// In a sorted table the eligible claims come first: every keeper is eligible,
/// and nobody eligible who is left out ranks above one who is not.
pub proof fn law_keepers_are_the_best_of_the_eligible(claims: Seq<Claim>, i: int)
    requires
        in_order(claims),
        0 <= i < claims.len(),
    ensures
        i < keeper_count(claims) ==> claims[i].eligible,
        claims[i].eligible <==> i < eligible(claims).len(),
        forall|j: int| 0 <= j < i ==> !claims[i].above(#[trigger] claims[j]),
    decreases claims.len(),
{
    lemma_eligible_first(claims);
    assert forall|j: int| 0 <= j < i implies !claims[i].above(#[trigger] claims[j]) by {
        assert(claims[j].at_most(claims[i]));
    }
}

proof fn lemma_eligible_first(claims: Seq<Claim>)
    requires
        in_order(claims),
    ensures
        eligible(claims).len() <= claims.len(),
        forall|i: int|
            0 <= i < claims.len() ==> ((#[trigger] claims[i]).eligible <==> i < eligible(
                claims,
            ).len()),
    decreases claims.len(),
{
    reveal(Seq::filter);
    if claims.len() > 0 {
        let rest = claims.drop_last();
        let last = claims.len() - 1;
        assert forall|i: int, j: int| 0 <= i < j < rest.len() implies #[trigger] rest[i].at_most(
            #[trigger] rest[j],
        ) by {
            assert(claims[i].at_most(claims[j]));
        }
        lemma_eligible_first(rest);
        if claims[last].eligible {
            assert forall|i: int| 0 <= i < last implies (#[trigger] rest[i]).eligible by {
                assert(claims[i].at_most(claims[last]));
            }
            lemma_filter_all(rest, |c: Claim| c.eligible);
        }
        assert forall|i: int| 0 <= i < claims.len() implies ((#[trigger] claims[i]).eligible <==> i
            < eligible(claims).len()) by {
            if i < last {
                assert(rest[i] == claims[i]);
            }
        }
    }
}

/// Who ranks above whom: the eligible before the rest, then the most flash, then the most
/// capacity, and then the identity with the lower first byte that differs.
pub proof fn law_who_ranks_above_whom(a: Claim, b: Claim)
    ensures
        a.eligible && !b.eligible ==> a.above(b) && !b.above(a),
        a.eligible == b.eligible && a.flash_kib > b.flash_kib ==> a.above(b) && !b.above(a),
        a.eligible == b.eligible && a.flash_kib == b.flash_kib && a.capacity > b.capacity
            ==> a.above(b) && !b.above(a),
        a.eligible == b.eligible && a.flash_kib == b.flash_kib && a.capacity == b.capacity ==> (
        a.above(b) <==> byte_order(a.uuid.0@, b.uuid.0@)),
        a.at_most(b) <==> !b.above(a),
{
    lemma_byte_order_is_numeric(a.uuid.0@, b.uuid.0@);
    lemma_byte_order_is_numeric(b.uuid.0@, a.uuid.0@);
}

/// There are as many keepers as devices that may be one, up to five, and three of them
/// are enough.
pub proof fn law_how_many_keepers(claims: Seq<Claim>, claim: Claim, count: int)
    ensures
        eligible(Seq::empty()).len() == 0,
        claim.eligible ==> eligible(claims.push(claim)).len() == eligible(claims).len() + 1,
        !claim.eligible ==> eligible(claims.push(claim)).len() == eligible(claims).len(),
        eligible(claims).len() <= 5 ==> keeper_count(claims) == eligible(claims).len(),
        eligible(claims).len() >= 5 ==> keeper_count(claims) == 5,
        Quorum::from_count(0) is Absent,
        Quorum::from_count(1) is Fragile,
        Quorum::from_count(2) is Thin,
        count >= 3 ==> Quorum::from_count(count) is Healthy,
{
    reveal(Seq::filter);
    lemma_filter_push(claims, claim, |c: Claim| c.eligible);
    assert(eligible(Seq::empty()) =~= Seq::<Claim>::empty());
}

} // verus!
