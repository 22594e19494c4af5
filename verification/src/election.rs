//! Timebase election.
//!
//! ```text
//! Follower  | no TICK for 3 s                         | broadcast candidacy | Candidate
//! Candidate | a better candidate seen                 | -                   | Follower
//! Candidate | 2 s with nothing better                 | assume role, epoch++| Leader
//! Leader    | a strictly better TICK, 3 ticks running | yield               | Follower
//! Leader    | 1 s elapsed                             | send TICK           | Leader
//! ```
//!
//! **Capacity only, never load.** Load changes constantly, so a comparison that
//! looked at it would hand the role back and forth between two busy devices for
//! ever.
//!
//! **Three consecutive ticks before yielding.** Without the hysteresis a device
//! rebooting with a marginally different benchmark score triggers a needless
//! handover, and a handover is visible.

use vstd::prelude::*;

use crate::num::{capped, past};
use crate::uuid::{byte_order, lemma_byte_order_is_numeric, lemma_key_injective, Uuid};

verus! {

/// How long without a `TICK` before a follower stands for election.
pub const FOLLOWER_TIMEOUT_US: u64 = 3_000_000;

/// How long a candidate waits, unchallenged, before taking the role.
pub const CANDIDATE_SETTLE_US: u64 = 2_000_000;

/// How often a leader sends `TICK`.
pub const LEADER_TICK_INTERVAL_US: u64 = 1_000_000;

/// Consecutive better ticks a leader must see before yielding.
pub const YIELD_HYSTERESIS: u8 = 3;

/// What this node is doing about the timebase.
#[derive(Clone, Copy, PartialEq, Eq, Debug, Structural)]
pub enum Role {
    Follower,
    Candidate,
    Leader,
}

/// A claim to the timebase, ordered by [`Candidacy::beats`].
#[derive(Clone, Copy, PartialEq, Eq, Debug)]
pub struct Candidacy {
    pub capacity: u32,
    pub uuid: Uuid,
}

impl Candidacy {
    /// Higher capacity wins; a tie goes to the lower identity.
    pub open spec fn wins_over(self, other: Candidacy) -> bool {
        self.capacity > other.capacity || (self.capacity == other.capacity && self.uuid.key()
            < other.uuid.key())
    }

    /// Whether this candidacy wins against `other`.
    ///
    /// Every device computes the same answer from the same two candidacies, with
    /// no reference to anything local.
    pub fn beats(&self, other: &Candidacy) -> (r: bool)
        ensures
            r == self.wins_over(*other),
    {
        if self.capacity > other.capacity {
            true
        } else if self.capacity < other.capacity {
            false
        } else {
            self.uuid.precedes(&other.uuid)
        }
    }
}

/// What the election wants the caller to do next.
#[derive(Clone, Copy, PartialEq, Eq, Debug, Structural)]
pub enum Outcome {
    /// Nothing to do.
    Idle,
    /// Broadcast this node's candidacy as a `TICK`.
    Announce,
    /// Send the periodic `TICK`.
    SendTick,
    /// The role changed. Emit it and act on it.
    Became(Role),
}

/// The election state machine.
#[derive(Clone, Copy, Debug)]
pub struct Election {
    pub me: Candidacy,
    pub role: Role,
    pub epoch: u32,
    /// When the current state was entered, or the last `TICK` was seen.
    pub since_us: u64,
    /// When this leader last sent a `TICK`.
    pub last_tick_sent_us: u64,
    /// Consecutive better ticks seen while leading.
    pub better_ticks: u8,
    /// The best candidacy seen since becoming a candidate.
    pub best_seen: Option<Candidacy>,
}

/// The better of what was seen before and what is seen now.
pub open spec fn better_of(seen: Option<Candidacy>, who: Candidacy) -> Candidacy {
    match seen {
        Some(best) if best.wins_over(who) => best,
        _ => who,
    }
}

impl Election {
    pub open spec fn cold(me: Candidacy, now_us: u64) -> Election {
        Election {
            me,
            role: Role::Follower,
            epoch: 0,
            since_us: now_us,
            last_tick_sent_us: 0,
            better_ticks: 0,
            best_seen: None,
        }
    }

    /// A candidate is not beaten by anything it has seen: it stands down the
    /// moment it is.
    pub open spec fn wf(self) -> bool {
        &&& self.role is Candidate ==> (self.best_seen matches Some(best) ==> !best.wins_over(
            self.me,
        ))
        &&& self.better_ticks < YIELD_HYSTERESIS
    }

    pub open spec fn following(self, now_us: u64) -> Election {
        Election { role: Role::Follower, since_us: now_us, ..self }
    }

    /// A `TICK` arrived from `who`, claiming `epoch`.
    pub open spec fn tick(self, now_us: u64, who: Candidacy, epoch: u32) -> (Election, Outcome) {
        let heard = Election {
            epoch: if epoch > self.epoch {
                epoch
            } else {
                self.epoch
            },
            ..self
        };
        if who.uuid == self.me.uuid {
            (self, Outcome::Idle)
        } else {
            match self.role {
                Role::Follower => (Election { since_us: now_us, ..heard }, Outcome::Idle),
                Role::Candidate => if who.wins_over(self.me) {
                    (
                        Election { best_seen: None, ..heard.following(now_us) },
                        Outcome::Became(Role::Follower),
                    )
                } else {
                    (
                        Election { best_seen: Some(better_of(self.best_seen, who)), ..heard },
                        Outcome::Idle,
                    )
                },
                Role::Leader => if !who.wins_over(self.me) {
                    (Election { better_ticks: 0, ..heard }, Outcome::Idle)
                } else if self.better_ticks + 1 >= YIELD_HYSTERESIS {
                    (
                        Election { better_ticks: 0, ..heard.following(now_us) },
                        Outcome::Became(Role::Follower),
                    )
                } else {
                    (
                        Election { better_ticks: (self.better_ticks + 1) as u8, ..heard },
                        Outcome::Idle,
                    )
                },
            }
        }
    }

    /// Time passed with nothing else happening.
    pub open spec fn timer(self, now_us: u64) -> (Election, Outcome) {
        let waited = past(now_us as int, self.since_us as int);
        match self.role {
            Role::Follower => if waited >= FOLLOWER_TIMEOUT_US {
                (
                    Election { role: Role::Candidate, since_us: now_us, best_seen: None, ..self },
                    Outcome::Announce,
                )
            } else {
                (self, Outcome::Idle)
            },
            Role::Candidate => if waited < CANDIDATE_SETTLE_US {
                (self, Outcome::Idle)
            } else if self.best_seen matches Some(best) && best.wins_over(self.me) {
                (self.following(now_us), Outcome::Became(Role::Follower))
            } else {
                (
                    Election {
                        role: Role::Leader,
                        epoch: if self.epoch < u32::MAX {
                            (self.epoch + 1) as u32
                        } else {
                            self.epoch
                        },
                        since_us: now_us,
                        last_tick_sent_us: now_us,
                        better_ticks: 0,
                        ..self
                    },
                    Outcome::Became(Role::Leader),
                )
            },
            Role::Leader => if past(now_us as int, self.last_tick_sent_us as int)
                >= LEADER_TICK_INTERVAL_US {
                (Election { last_tick_sent_us: now_us, ..self }, Outcome::SendTick)
            } else {
                (self, Outcome::Idle)
            },
        }
    }

    /// How long the caller may sleep.
    pub open spec fn deadline(self, now_us: u64) -> int {
        let due = match self.role {
            Role::Follower => self.since_us + FOLLOWER_TIMEOUT_US,
            Role::Candidate => self.since_us + CANDIDATE_SETTLE_US,
            Role::Leader => self.last_tick_sent_us + LEADER_TICK_INTERVAL_US,
        };
        past(capped(due), now_us as int)
    }

    pub fn new(me: Candidacy, now_us: u64) -> (e: Election)
        ensures
            e == Election::cold(me, now_us),
            e.wf(),
    {
        Election {
            me,
            role: Role::Follower,
            epoch: 0,
            since_us: now_us,
            last_tick_sent_us: 0,
            better_ticks: 0,
            best_seen: None,
        }
    }

    pub fn role(&self) -> (r: Role)
        ensures
            r == self.role,
    {
        self.role
    }

    pub fn epoch(&self) -> (r: u32)
        ensures
            r == self.epoch,
    {
        self.epoch
    }

    pub fn is_leader(&self) -> (r: bool)
        ensures
            r == (self.role is Leader),
    {
        self.role == Role::Leader
    }

    /// A `TICK` arrived from `who`, claiming `epoch`.
    pub fn on_tick(&mut self, now_us: u64, who: Candidacy, epoch: u32) -> (out: Outcome)
        ensures
            (*final(self), out) == old(self).tick(now_us, who, epoch),
            old(self).wf() ==> final(self).wf(),
    {
        // A tick from ourselves says nothing: a device that counted its own
        // multicast as a peer would keep resetting its own timeout.
        if who.uuid == self.me.uuid {
            return Outcome::Idle;
        }
        if epoch > self.epoch {
            self.epoch = epoch;
        }
        match self.role {
            Role::Follower => {
                // Even a worse leader resets the timeout: a working timebase is
                // better than a better one that has to be elected first.
                self.since_us = now_us;
                Outcome::Idle
            },
            Role::Candidate => {
                self.note(who);
                if who.beats(&self.me) {
                    self.role = Role::Follower;
                    self.since_us = now_us;
                    self.best_seen = None;
                    Outcome::Became(Role::Follower)
                } else {
                    Outcome::Idle
                }
            },
            Role::Leader => {
                if who.beats(&self.me) {
                    self.better_ticks = self.better_ticks.saturating_add(1);
                    if self.better_ticks >= YIELD_HYSTERESIS {
                        self.role = Role::Follower;
                        self.since_us = now_us;
                        self.better_ticks = 0;
                        return Outcome::Became(Role::Follower);
                    }
                } else {
                    // Not consecutive any more.
                    self.better_ticks = 0;
                }
                Outcome::Idle
            },
        }
    }

    /// Time passed with nothing else happening.
    pub fn on_timer(&mut self, now_us: u64) -> (out: Outcome)
        ensures
            (*final(self), out) == old(self).timer(now_us),
            old(self).wf() ==> final(self).wf(),
    {
        match self.role {
            Role::Follower => {
                if now_us.saturating_sub(self.since_us) >= FOLLOWER_TIMEOUT_US {
                    self.role = Role::Candidate;
                    self.since_us = now_us;
                    self.best_seen = None;
                    Outcome::Announce
                } else {
                    Outcome::Idle
                }
            },
            Role::Candidate => {
                if now_us.saturating_sub(self.since_us) >= CANDIDATE_SETTLE_US {
                    let beaten: bool = match self.best_seen {
                        Some(best) => best.beats(&self.me),
                        None => false,
                    };
                    if beaten {
                        self.role = Role::Follower;
                        self.since_us = now_us;
                        return Outcome::Became(Role::Follower);
                    }
                    self.role = Role::Leader;
                    self.epoch = self.epoch.saturating_add(1);
                    self.since_us = now_us;
                    self.last_tick_sent_us = now_us;
                    self.better_ticks = 0;
                    Outcome::Became(Role::Leader)
                } else {
                    Outcome::Idle
                }
            },
            Role::Leader => {
                if now_us.saturating_sub(self.last_tick_sent_us) >= LEADER_TICK_INTERVAL_US {
                    self.last_tick_sent_us = now_us;
                    Outcome::SendTick
                } else {
                    Outcome::Idle
                }
            },
        }
    }

    /// When the caller should look in again, so that it can sleep instead of
    /// polling.
    pub fn next_deadline_us(&self, now_us: u64) -> (r: u64)
        ensures
            r == self.deadline(now_us),
    {
        let (from, interval): (u64, u64) = match self.role {
            Role::Follower => (self.since_us, FOLLOWER_TIMEOUT_US),
            Role::Candidate => (self.since_us, CANDIDATE_SETTLE_US),
            Role::Leader => (self.last_tick_sent_us, LEADER_TICK_INTERVAL_US),
        };
        from.saturating_add(interval).saturating_sub(now_us)
    }

    fn note(&mut self, who: Candidacy)
        ensures
            *final(self) == (Election {
                best_seen: Some(better_of(old(self).best_seen, who)),
                ..*old(self)
            }),
    {
        let kept: bool = match self.best_seen {
            Some(best) => best.beats(&who),
            None => false,
        };
        if !kept {
            self.best_seen = Some(who);
        }
    }
}

/// Two candidacies of different devices never tie, and only one of them wins: no
/// two devices both stand for ever, and no two both believe that they won.
pub proof fn law_no_ties(a: Candidacy, b: Candidacy)
    requires
        a.uuid != b.uuid,
    ensures
        a.wins_over(b) != b.wins_over(a),
{
    if a.uuid.key() == b.uuid.key() {
        lemma_key_injective(a.uuid, b.uuid);
    }
}

/// No candidacy beats itself, and winning carries through.
pub proof fn law_winning_is_an_order(a: Candidacy, b: Candidacy, c: Candidacy)
    ensures
        !a.wins_over(a),
        a.wins_over(b) && b.wins_over(c) ==> a.wins_over(c),
{
}

/// Load has no part in it: the outcome of a comparison is settled by the two
/// capacities, and by the identities where those are equal.
pub proof fn law_capacity_first(a: Candidacy, b: Candidacy)
    requires
        a.capacity > b.capacity,
    ensures
        a.wins_over(b),
        !b.wins_over(a),
{
}

/// The epoch only moves forward.
pub proof fn law_epoch_never_falls(e: Election, now_us: u64, who: Candidacy, epoch: u32)
    ensures
        e.tick(now_us, who, epoch).0.epoch >= e.epoch,
        e.timer(now_us).0.epoch >= e.epoch,
        e.timer(now_us).1 == Outcome::Became(Role::Leader) && e.epoch < u32::MAX
            ==> e.timer(now_us).0.epoch == e.epoch + 1,
{
}

/// A node ignores its own tick.
pub proof fn law_own_tick_says_nothing(e: Election, now_us: u64, capacity: u32, epoch: u32)
    ensures
        e.tick(now_us, (Candidacy { capacity, uuid: e.me.uuid }), epoch) == (e, Outcome::Idle),
{
}

/// A follower that hears anything from anyone else goes on following, for the
/// whole of another timeout.
pub proof fn law_any_leader_holds_a_follower(
    e: Election,
    heard_us: u64,
    who: Candidacy,
    epoch: u32,
    now_us: u64,
)
    requires
        e.role is Follower,
        who.uuid != e.me.uuid,
        now_us < heard_us + FOLLOWER_TIMEOUT_US,
    ensures
        e.tick(heard_us, who, epoch).1 == Outcome::Idle,
        e.tick(heard_us, who, epoch).0.timer(now_us).1 == Outcome::Idle,
        e.tick(heard_us, who, epoch).0.timer(now_us).0.role is Follower,
{
}

/// What an election does with `n` ticks from `who` in a row.
pub open spec fn after_ticks(
    e: Election,
    now_us: Seq<u64>,
    who: Candidacy,
    epoch: u32,
) -> Election
    decreases now_us.len(),
{
    if now_us.len() == 0 {
        e
    } else {
        after_ticks(e, now_us.drop_last(), who, epoch).tick(now_us.last(), who, epoch).0
    }
}

/// A leader ignores worse ticks, however many come.
pub proof fn law_worse_ticks_never_dislodge(
    e: Election,
    now_us: Seq<u64>,
    who: Candidacy,
    epoch: u32,
)
    requires
        e.role is Leader,
        !who.wins_over(e.me),
    ensures
        after_ticks(e, now_us, who, epoch).role is Leader,
        after_ticks(e, now_us, who, epoch).me == e.me,
        now_us.len() > 0 && who.uuid != e.me.uuid ==> after_ticks(
            e,
            now_us,
            who,
            epoch,
        ).better_ticks == 0,
    decreases now_us.len(),
{
    if now_us.len() != 0 {
        law_worse_ticks_never_dislodge(e, now_us.drop_last(), who, epoch);
    }
}

/// A leader yields to a better peer at the third tick in a row and not before.
pub proof fn law_three_better_ticks_to_yield(
    e: Election,
    now_us: Seq<u64>,
    who: Candidacy,
    epoch: u32,
)
    requires
        e.role is Leader,
        e.better_ticks == 0,
        who.wins_over(e.me),
        who.uuid != e.me.uuid,
        now_us.len() <= YIELD_HYSTERESIS,
    ensures
        (after_ticks(e, now_us, who, epoch).role is Leader) == (now_us.len() < YIELD_HYSTERESIS),
        after_ticks(e, now_us, who, epoch).me == e.me,
        now_us.len() < YIELD_HYSTERESIS ==> after_ticks(e, now_us, who, epoch).better_ticks
            == now_us.len(),
    decreases now_us.len(),
{
    if now_us.len() != 0 {
        law_three_better_ticks_to_yield(e, now_us.drop_last(), who, epoch);
    }
}

/// One worse tick starts the count again.
pub proof fn law_worse_tick_restarts_the_count(
    e: Election,
    now_us: u64,
    who: Candidacy,
    epoch: u32,
)
    requires
        e.role is Leader,
        !who.wins_over(e.me),
        who.uuid != e.me.uuid,
    ensures
        e.tick(now_us, who, epoch).0.better_ticks == 0,
        e.tick(now_us, who, epoch).0.role is Leader,
{
}

/// What a candidate remembers does not depend on who spoke first.
pub proof fn law_arrival_order_does_not_matter(
    seen: Option<Candidacy>,
    a: Candidacy,
    b: Candidacy,
)
    ensures
        better_of(Some(better_of(seen, a)), b) == better_of(Some(better_of(seen, b)), a),
{
    if a.uuid.key() == b.uuid.key() {
        lemma_key_injective(a.uuid, b.uuid);
    }
    if seen is Some {
        let s = seen->0;
        if a.uuid.key() == s.uuid.key() {
            lemma_key_injective(a.uuid, s.uuid);
        }
        if b.uuid.key() == s.uuid.key() {
            lemma_key_injective(b.uuid, s.uuid);
        }
    }
}

/// A candidate that nothing better challenged takes the role when it has waited
/// long enough.
pub proof fn law_unchallenged_candidate_wins(e: Election, now_us: u64)
    requires
        e.wf(),
        e.role is Candidate,
        now_us >= e.since_us + CANDIDATE_SETTLE_US,
    ensures
        e.timer(now_us).1 == Outcome::Became(Role::Leader),
        e.timer(now_us).0.role is Leader,
{
}

/// Two candidates that hear each other converge: the one that loses the
/// comparison stands down and the other goes on to lead, with no coordination
/// beyond the two ticks.
pub proof fn law_two_candidates_converge(
    a: Election,
    b: Election,
    heard_us: u64,
    epoch_a: u32,
    epoch_b: u32,
    now_us: u64,
)
    requires
        a.wf(),
        b.wf(),
        a.role is Candidate,
        b.role is Candidate,
        a.me.wins_over(b.me),
        a.me.uuid != b.me.uuid,
        a.since_us <= heard_us,
        now_us >= a.since_us + CANDIDATE_SETTLE_US,
        now_us < heard_us + FOLLOWER_TIMEOUT_US,
    ensures
        ({
            let a1 = a.tick(heard_us, b.me, epoch_b).0;
            let b1 = b.tick(heard_us, a.me, epoch_a).0;
            &&& a1.timer(now_us).0.role is Leader
            &&& b1.role is Follower
            &&& b1.timer(now_us).0.role is Follower
        }),
{
    law_no_ties(a.me, b.me);
}

/// The deadline is a time to sleep, and waiting makes it no longer.
pub proof fn law_deadline_shrinks(e: Election, now_us: u64, later_us: u64)
    requires
        now_us <= later_us,
    ensures
        0 <= e.deadline(later_us) <= e.deadline(now_us) <= u64::MAX,
{
}

/// Of two claims of the same capacity the one whose identity has the lower first byte
/// that differs wins. Nothing else of either counts.
pub proof fn law_ties_go_to_the_lower_identity(a: Candidacy, b: Candidacy)
    ensures
        a.capacity == b.capacity ==> (a.wins_over(b) <==> byte_order(a.uuid.0@, b.uuid.0@)),
        a.capacity < b.capacity ==> !a.wins_over(b) && b.wins_over(a),
{
    lemma_byte_order_is_numeric(a.uuid.0@, b.uuid.0@);
}

/// A follower stands for election when it has heard nobody for three seconds, says so,
/// and remembers no rival from before; until then time changes nothing.
pub proof fn law_a_silent_mesh_makes_a_candidate(e: Election, now_us: u64)
    requires
        e.role is Follower,
    ensures
        now_us < e.since_us + 3_000_000 ==> e.timer(now_us) == (e, Outcome::Idle),
        now_us >= e.since_us + 3_000_000 ==> {
            let (after, said) = e.timer(now_us);
            &&& said == Outcome::Announce
            &&& after.role is Candidate
            &&& after.since_us == now_us
            &&& after.best_seen is None
            &&& after.me == e.me && after.epoch == e.epoch
        },
{
}

/// A candidate leads two seconds after it stood, in a new epoch, unless what it has seen
/// beats it: then it follows. Until then time changes nothing.
pub proof fn law_a_candidate_settles_after_two_seconds(e: Election, now_us: u64)
    requires
        e.role is Candidate,
    ensures
        now_us < e.since_us + 2_000_000 ==> e.timer(now_us) == (e, Outcome::Idle),
        now_us >= e.since_us + 2_000_000 ==> {
            let (after, said) = e.timer(now_us);
            let beaten = e.best_seen matches Some(best) && best.wins_over(e.me);
            &&& after.me == e.me
            &&& after.since_us == now_us
            &&& beaten ==> after.role is Follower && said == Outcome::Became(Role::Follower)
                && after.epoch == e.epoch
            &&& !beaten ==> {
                &&& after.role is Leader
                &&& said == Outcome::Became(Role::Leader)
                &&& after.epoch > e.epoch || e.epoch == u32::MAX
                &&& after.last_tick_sent_us == now_us
                &&& after.better_ticks == 0
            }
        },
{
}

/// A leader speaks once a second, and time alone never takes its role.
pub proof fn law_a_leader_ticks_every_second(e: Election, now_us: u64)
    requires
        e.role is Leader,
    ensures
        now_us < e.last_tick_sent_us + 1_000_000 ==> e.timer(now_us) == (e, Outcome::Idle),
        now_us >= e.last_tick_sent_us + 1_000_000 ==> e.timer(now_us) == (
            Election { last_tick_sent_us: now_us, ..e },
            Outcome::SendTick,
        ),
{
}

/// What a tick from somebody else does, by role. A follower starts its wait again; a
/// candidate gives way to a better claim at once and remembers any other; a leader gives
/// way to the third better one in a row. Whoever hears of a later epoch is in it.
pub proof fn law_what_a_tick_does(e: Election, now_us: u64, who: Candidacy, epoch: u32)
    requires
        who.uuid != e.me.uuid,
    ensures
        ({
            let (after, said) = e.tick(now_us, who, epoch);
            let better = who.wins_over(e.me);
            let yields = e.role is Candidate && better || e.role is Leader && better
                && e.better_ticks >= 2;
            &&& after.me == e.me
            &&& after.epoch >= e.epoch && after.epoch >= epoch
            &&& after.epoch == e.epoch || after.epoch == epoch
            &&& after.last_tick_sent_us == e.last_tick_sent_us
            &&& yields ==> after.role is Follower && after.since_us == now_us && said
                == Outcome::Became(Role::Follower)
            &&& !yields ==> after.role == e.role && said == Outcome::Idle
            &&& e.role is Follower ==> after.since_us == now_us
            &&& !yields && !(e.role is Follower) ==> after.since_us == e.since_us
            &&& e.role is Candidate && !better ==> {
                &&& after.best_seen is Some
                &&& after.best_seen == Some(who) || after.best_seen == e.best_seen
                &&& !who.wins_over(after.best_seen->0)
                &&& e.best_seen is Some ==> !e.best_seen->0.wins_over(after.best_seen->0)
            }
            &&& e.role is Leader ==> after.better_ticks == if better && !yields {
                e.better_ticks + 1
            } else {
                0
            }
        }),
{
    if e.best_seen is Some {
        law_winning_is_an_order(who, e.best_seen->0, who);
        law_winning_is_an_order(e.best_seen->0, who, e.best_seen->0);
        if !e.best_seen->0.wins_over(who) && e.best_seen->0.uuid != who.uuid {
            law_no_ties(e.best_seen->0, who);
        }
    }
    law_winning_is_an_order(who, who, who);
}

/// The deadline is the next moment at which time makes a difference: sleeping that long
/// is enough, and waking before it is too early.
pub proof fn law_something_is_due_at_the_deadline(e: Election, now_us: u64, at_us: u64)
    requires
        e.since_us < 0x8000_0000_0000_0000 && e.last_tick_sent_us < 0x8000_0000_0000_0000,
        now_us <= at_us,
    ensures
        at_us >= now_us + e.deadline(now_us) <==> !(e.timer(at_us).1 is Idle),
{
}

/// A node that has just started follows nobody's epoch, and waits before it stands.
pub proof fn law_a_cold_start_follows(me: Candidacy, now_us: u64)
    ensures
        ({
            let e = Election::cold(me, now_us);
            e.me == me && e.role is Follower && e.epoch == 0 && e.since_us == now_us
                && e.better_ticks == 0 && e.best_seen is None
        }),
{
}

} // verus!
