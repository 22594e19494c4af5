//! The source stack.
//!
//! **There is exactly one mechanism.** Every zone holds a stack of active
//! sources; anything that wants to affect lights pushes one. Shows, schedules,
//! alerts, the app and a gateway are all just things that push.
//!
//! The payoff is that the hard question — "an alert fires during a scheduled
//! show while I am manually controlling the lights, what happens?" — has no
//! special case. Three sources sit at three priorities, the alert renders, and
//! when it expires the lights fall back to manual, then to the show.
//!
//! Two rules:
//!
//! **Every source above the ambient floor must expire.** A source at priority
//! above the floor with no expiry is how a room ends up stuck red at 3am with
//! nobody knowing why. [`SourceStack::push`] refuses it.
//!
//! **A source that cannot be admitted is not rendered at all**, never at reduced
//! quality.
//!
//! A device renders as many concurrent sources as its budget allows, admitting
//! **highest priority first**. Admission is re-evaluated whenever the stack
//! changes, so a source drops back in the moment something above it expires.

use vstd::prelude::*;

use crate::lists::{
    holds, lemma_filter_all, lemma_filter_none, lemma_filter_pairs, lemma_filter_split,
    lemma_filter_take,
};
use crate::num::past;
use crate::order::lemma_one_strict_order;
use crate::q16::Q16;
use crate::uuid::{byte_order, lemma_byte_order_is_numeric, lemma_key_injective, Uuid};

verus! {

/// The highest priority that may omit an expiry.
pub const AMBIENT_FLOOR_MAX: u8 = 63;

/// Concurrent sources every rendering device must support, plus one fading out.
///
/// Below it an alert cannot appear over an ambient scene, and that is the whole
/// point of the stack.
pub const CONCURRENCY_FLOOR: usize = 2;

/// Why a push was refused.
#[derive(Clone, Copy, PartialEq, Eq, Debug, Structural)]
pub enum PushError {
    /// Above the ambient floor with no expiry — the "stuck red at 3am" rule.
    NoExpiry { priority: u8 },
    /// Already expired when it arrived: it must never render, not even for the
    /// frame it took to notice.
    AlreadyExpired { expires_at_us: u64 },
    /// It costs more than this device could ever spend.
    NoRoom,
}

/// Why a source left the stack.
#[derive(Clone, Copy, PartialEq, Eq, Debug, Structural)]
pub enum Removal {
    Expired,
    Popped,
    /// Replaced by a newer push with the same id.
    Superseded,
}

/// One claim on a zone.
#[derive(Clone, Copy, PartialEq, Eq, Debug)]
pub struct Source {
    pub id: Uuid,
    pub zone: Uuid,
    pub scene: Uuid,
    pub priority: u8,
    /// Absolute show time. `None` is legal only at the ambient floor.
    pub expires_at_us: Option<u64>,
    pub fade_in_ms: u16,
    pub fade_out_ms: u16,
    /// When this source was pushed. Breaks ties at equal priority.
    pub pushed_at_us: u64,
    /// Cost per pixel, from the compiler's budget report.
    pub cost: u32,
}

/// How much of `span_us` has passed at `elapsed_us`, in 65 536ths.
pub open spec fn fade_fraction(elapsed_us: int, span_us: int) -> int {
    if elapsed_us >= span_us {
        65_536
    } else {
        elapsed_us * 65_536 / span_us
    }
}

/// A fraction of a fade is between nothing and everything, reaches everything
/// exactly when the fade is over, and never goes back.
pub proof fn law_fades_run_one_way(elapsed_us: int, later_us: int, span_us: int)
    requires
        0 <= elapsed_us <= later_us,
        0 <= span_us,
    ensures
        0 <= fade_fraction(elapsed_us, span_us) <= fade_fraction(later_us, span_us) <= 65_536,
        (fade_fraction(elapsed_us, span_us) == 65_536) == (elapsed_us >= span_us),
{
    if elapsed_us < span_us {
        assert(0 <= elapsed_us * 65_536 / span_us < 65_536) by (nonlinear_arith)
            requires
                0 <= elapsed_us < span_us,
        ;
        if later_us < span_us {
            assert(elapsed_us * 65_536 / span_us <= later_us * 65_536 / span_us <= 65_536)
                by (nonlinear_arith)
                requires
                    0 <= elapsed_us <= later_us < span_us,
            ;
        }
    }
}

fn fraction(elapsed_us: u64, span_ms: u16) -> (r: u32)
    ensures
        r == fade_fraction(elapsed_us as int, span_ms * 1_000),
        r <= 65_536,
{
    let span: u64 = span_ms as u64 * 1_000;
    proof {
        law_fades_run_one_way(elapsed_us as int, elapsed_us as int, span as int);
    }
    if elapsed_us >= span {
        return 65_536;
    }
    ((elapsed_us * 65_536) / span) as u32
}

impl Source {
    /// How much of this source is showing at `now_us`, in 65 536ths.
    pub open spec fn fade_in(self, now_us: u64) -> int {
        fade_fraction(past(now_us as int, self.pushed_at_us as int), self.fade_in_ms * 1_000)
    }

    /// Whether this source takes a pixel from `other`: by priority, then by
    /// being pushed later.
    pub open spec fn over(self, other: Source) -> bool {
        self.priority > other.priority || self.priority == other.priority && self.pushed_at_us
            > other.pushed_at_us
    }

    /// The order of the stack: highest priority first, then the most recent
    /// push, then the highest identity.
    pub open spec fn ahead_of(self, other: Source) -> bool {
        ||| self.priority > other.priority
        ||| self.priority == other.priority && self.pushed_at_us > other.pushed_at_us
        ||| self.priority == other.priority && self.pushed_at_us == other.pushed_at_us
            && self.id.key() > other.id.key()
    }

    pub open spec fn ambient(self) -> bool {
        self.priority <= AMBIENT_FLOOR_MAX
    }

    pub open spec fn lapsed(self, now_us: u64) -> bool {
        self.expires_at_us matches Some(t) && now_us >= t
    }

    /// How much of this source is showing at `now_us`, as a 0..=1 fraction.
    ///
    /// Measured from `pushed_at_us`, which is on the show clock like every other
    /// instant here.
    pub fn fade_in_alpha(&self, now_us: u64) -> (r: Q16)
        ensures
            r.0 == self.fade_in(now_us),
    {
        Q16(fraction(now_us.saturating_sub(self.pushed_at_us), self.fade_in_ms) as i32)
    }

    /// Whether this source outranks `other` for the same pixel.
    ///
    /// Higher priority first; on a tie the **most recently pushed** wins, which
    /// is what makes "push again to take over" work without a separate protocol
    /// for replacing something.
    pub fn outranks(&self, other: &Source) -> (r: bool)
        ensures
            r == self.over(*other),
    {
        if self.priority > other.priority {
            true
        } else if self.priority < other.priority {
            false
        } else {
            self.pushed_at_us > other.pushed_at_us
        }
    }

    pub fn is_ambient(&self) -> (r: bool)
        ensures
            r == self.ambient(),
    {
        self.priority <= AMBIENT_FLOOR_MAX
    }

    /// Whether this source has lapsed at `now_us`.
    pub fn has_expired(&self, now_us: u64) -> (r: bool)
        ensures
            r == self.lapsed(now_us),
    {
        match self.expires_at_us {
            Some(t) => now_us >= t,
            None => false,
        }
    }

    pub(crate) fn is_ahead_of(&self, other: &Source) -> (r: bool)
        ensures
            r == self.ahead_of(*other),
    {
        if self.priority != other.priority {
            self.priority > other.priority
        } else if self.pushed_at_us != other.pushed_at_us {
            self.pushed_at_us > other.pushed_at_us
        } else {
            other.id.precedes(&self.id)
        }
    }
}

/// A source that is on its way out.
#[derive(Clone, Copy, PartialEq, Eq, Debug)]
pub struct Fading {
    pub source: Source,
    pub started_at_us: u64,
    pub reason: Removal,
}

impl Fading {
    /// How far through the fade at `now_us`, in 65 536ths.
    pub open spec fn faded(self, now_us: u64) -> int {
        fade_fraction(
            past(now_us as int, self.started_at_us as int),
            self.source.fade_out_ms * 1_000,
        )
    }

    /// Whether the whole of the fade has passed.
    pub open spec fn over(self, now_us: u64) -> bool {
        past(now_us as int, self.started_at_us as int) >= self.source.fade_out_ms * 1_000
    }

    /// How far through the fade, 0..=65536, at `now_us`.
    ///
    /// A fixed-point fraction, so the compositor and the machine that runs the
    /// effects agree bit for bit about what half-faded means.
    pub fn progress(&self, now_us: u64) -> (r: u32)
        ensures
            r == self.faded(now_us),
            r <= 65_536,
    {
        fraction(now_us.saturating_sub(self.started_at_us), self.source.fade_out_ms)
    }

    pub fn is_done(&self, now_us: u64) -> (r: bool)
        ensures
            r == self.over(now_us),
    {
        proof {
            let elapsed = past(now_us as int, self.started_at_us as int);
            law_fades_run_one_way(elapsed, elapsed, self.source.fade_out_ms * 1_000);
        }
        self.progress(now_us) >= 65_536
    }
}

/// What changed, so the caller can act without comparing stacks itself.
#[derive(Clone, Copy, PartialEq, Eq, Debug)]
pub enum Change {
    Admitted(Uuid),
    /// Rejected for budget, and by which margin, so an app can say why a strip
    /// is ignoring a scene.
    Rejected { id: Uuid, cost: u32, spare: u32 },
    Removed { id: Uuid, reason: Removal },
    FadeFinished(Uuid),
}

/// What admission makes of a list of sources.
#[verifier::ext_equal]
pub ghost struct Admission {
    pub admitted: Seq<Uuid>,
    pub rejected: Seq<Uuid>,
    pub spent: int,
}

/// Whether a source fits beside what was admitted ahead of it.
pub open spec fn fits(ahead: Admission, source: Source, budget: int, limit: int) -> bool {
    ahead.spent + source.cost <= budget && ahead.admitted.len() < limit
}

/// Admission, from the front of the list to its end: a source is in when the
/// budget and the count both allow it after everything ahead of it.
pub open spec fn admission(sources: Seq<Source>, budget: int, limit: int) -> Admission
    decreases sources.len(),
{
    if sources.len() == 0 {
        Admission { admitted: Seq::empty(), rejected: Seq::empty(), spent: 0 }
    } else {
        let ahead = admission(sources.drop_last(), budget, limit);
        let source = sources.last();
        if fits(ahead, source, budget, limit) {
            Admission {
                admitted: ahead.admitted.push(source.id),
                rejected: ahead.rejected,
                spent: ahead.spent + source.cost,
            }
        } else {
            Admission { rejected: ahead.rejected.push(source.id), ..ahead }
        }
    }
}

/// What admission has to report: each source that is in and was not, and each
/// that is out and was not, in the order of the stack.
pub open spec fn admission_changes(
    sources: Seq<Source>,
    budget: int,
    limit: int,
    was: Admission,
) -> Seq<Change>
    decreases sources.len(),
{
    if sources.len() == 0 {
        Seq::empty()
    } else {
        let earlier = admission_changes(sources.drop_last(), budget, limit, was);
        let ahead = admission(sources.drop_last(), budget, limit);
        let source = sources.last();
        if fits(ahead, source, budget, limit) {
            if was.admitted.contains(source.id) {
                earlier
            } else {
                earlier.push(Change::Admitted(source.id))
            }
        } else if was.rejected.contains(source.id) {
            earlier
        } else {
            earlier.push(
                Change::Rejected {
                    id: source.id,
                    cost: source.cost,
                    spare: (budget - ahead.spent) as u32,
                },
            )
        }
    }
}

/// Whether a source that leaves fades, where `shown` were showing. One that was
/// turned away showed nothing, and a fade would show what admission refused.
pub open spec fn fades_away(source: Source, shown: Seq<Uuid>) -> bool {
    source.fade_out_ms != 0 && shown.contains(source.id)
}

/// What is reported of sources that leave: each one, and the end of its fade
/// where it has none.
pub open spec fn removal_changes(
    leaving: Seq<Source>,
    shown: Seq<Uuid>,
    reason: Removal,
) -> Seq<Change>
    decreases leaving.len(),
{
    if leaving.len() == 0 {
        Seq::empty()
    } else {
        let earlier = removal_changes(leaving.drop_last(), shown, reason);
        let source = leaving.last();
        let removed = earlier.push(Change::Removed { id: source.id, reason });
        if fades_away(source, shown) {
            removed
        } else {
            removed.push(Change::FadeFinished(source.id))
        }
    }
}

/// The fades that sources begin when they leave.
pub open spec fn fades(
    leaving: Seq<Source>,
    shown: Seq<Uuid>,
    started_at_us: u64,
    reason: Removal,
) -> Seq<Fading>
    decreases leaving.len(),
{
    if leaving.len() == 0 {
        Seq::empty()
    } else {
        let earlier = fades(leaving.drop_last(), shown, started_at_us, reason);
        if fades_away(leaving.last(), shown) {
            earlier.push(Fading { source: leaving.last(), started_at_us, reason })
        } else {
            earlier
        }
    }
}

/// What is reported of fades that end.
pub open spec fn endings(done: Seq<Fading>) -> Seq<Change> {
    done.map_values(|f: Fading| Change::FadeFinished(f.source.id))
}

/// Where `id` is in a list of sources, if it is.
pub open spec fn place_of(sources: Seq<Source>, id: Uuid) -> Option<int> {
    if exists|i: int| 0 <= i < sources.len() && #[trigger] sources[i].id == id {
        Some(choose|i: int| 0 <= i < sources.len() && #[trigger] sources[i].id == id)
    } else {
        None
    }
}

/// The list without the source called `id`.
pub open spec fn without(sources: Seq<Source>, id: Uuid) -> Seq<Source> {
    match place_of(sources, id) {
        Some(i) => sources.remove(i),
        None => sources,
    }
}

/// The sources of an ordered list that stand ahead of `source`.
pub open spec fn standing_ahead(sources: Seq<Source>, source: Source) -> Seq<Source> {
    sources.filter(|s: Source| s.ahead_of(source))
}

/// The sources of an ordered list that do not.
pub open spec fn standing_behind(sources: Seq<Source>, source: Source) -> Seq<Source> {
    sources.filter(|s: Source| !s.ahead_of(source))
}

/// One zone's stack as plain data.
#[verifier::ext_equal]
pub ghost struct StackModel {
    /// Highest priority first.
    pub active: Seq<Source>,
    pub fading: Seq<Fading>,
    pub budget: int,
    pub limit: int,
}

impl StackModel {
    /// What holds of every stack.
    pub open spec fn valid(self) -> bool {
        &&& self.limit >= CONCURRENCY_FLOOR
        &&& 0 <= self.budget <= u32::MAX
        &&& forall|i: int, j: int|
            0 <= i < j < self.active.len() ==> (#[trigger] self.active[i]).ahead_of(
                #[trigger] self.active[j],
            ) && self.active[i].id != self.active[j].id
        &&& forall|i: int|
            0 <= i < self.active.len() ==> {
                &&& (#[trigger] self.active[i]).cost <= self.budget
                &&& self.active[i].ambient() || self.active[i].expires_at_us is Some
            }
    }

    pub open spec fn empty(budget: int, max_concurrent: int) -> StackModel {
        StackModel {
            active: Seq::empty(),
            fading: Seq::empty(),
            budget,
            limit: if max_concurrent >= CONCURRENCY_FLOOR {
                max_concurrent
            } else {
                CONCURRENCY_FLOOR as int
            },
        }
    }

    pub open spec fn admission(self) -> Admission {
        admission(self.active, self.budget, self.limit)
    }

    pub open spec fn refusal(self, now_us: u64, source: Source) -> Option<PushError> {
        if !source.ambient() && source.expires_at_us is None {
            Some(PushError::NoExpiry { priority: source.priority })
        } else if source.lapsed(now_us) {
            Some(PushError::AlreadyExpired { expires_at_us: source.expires_at_us->0 })
        } else if source.cost > self.budget {
            Some(PushError::NoRoom)
        } else {
            None
        }
    }

    /// The stack with `source` on it, in its place, and not what had its id.
    pub open spec fn pushed(self, source: Source) -> StackModel {
        let rest = without(self.active, source.id);
        StackModel {
            active: standing_ahead(rest, source).push(source) + standing_behind(rest, source),
            ..self
        }
    }

    pub open spec fn push_changes(self, source: Source) -> Seq<Change> {
        let after = self.pushed(source);
        let superseded = if place_of(self.active, source.id) is Some {
            seq![Change::Removed { id: source.id, reason: Removal::Superseded }]
        } else {
            Seq::empty()
        };
        superseded + admission_changes(after.active, after.budget, after.limit, self.admission())
    }

    /// The stack without `id`, which fades if it was showing.
    pub open spec fn popped(self, now_us: u64, id: Uuid) -> StackModel {
        match place_of(self.active, id) {
            None => self,
            Some(i) => StackModel {
                active: self.active.remove(i),
                fading: self.fading + fades(
                    seq![self.active[i]],
                    self.admission().admitted,
                    now_us,
                    Removal::Popped,
                ),
                ..self
            },
        }
    }

    pub open spec fn pop_changes(self, now_us: u64, id: Uuid) -> Seq<Change> {
        let after = self.popped(now_us, id);
        match place_of(self.active, id) {
            None => Seq::empty(),
            Some(i) => removal_changes(
                seq![self.active[i]],
                self.admission().admitted,
                Removal::Popped,
            ) + admission_changes(after.active, after.budget, after.limit, self.admission()),
        }
    }

    /// The stack with a new expiry on `id`.
    pub open spec fn renewed(self, id: Uuid, expires_at_us: u64) -> StackModel {
        match place_of(self.active, id) {
            None => self,
            Some(i) => StackModel {
                active: self.active.update(
                    i,
                    Source { expires_at_us: Some(expires_at_us), ..self.active[i] },
                ),
                ..self
            },
        }
    }

    pub open spec fn expired(self, now_us: u64) -> Seq<Source> {
        self.active.filter(|s: Source| s.lapsed(now_us))
    }

    /// Everything on its way out at `now_us`, what has just expired included.
    pub open spec fn leaving(self, now_us: u64) -> Seq<Fading> {
        self.fading + fades(
            self.expired(now_us),
            self.admission().admitted,
            now_us,
            Removal::Expired,
        )
    }

    /// The stack at `now_us`: what has lapsed fades if it was showing, and what has
    /// faded is gone.
    pub open spec fn advanced(self, now_us: u64) -> StackModel {
        StackModel {
            active: self.active.filter(|s: Source| !s.lapsed(now_us)),
            fading: self.leaving(now_us).filter(|f: Fading| !f.over(now_us)),
            ..self
        }
    }

    pub open spec fn advance_changes(self, now_us: u64) -> Seq<Change> {
        let after = self.advanced(now_us);
        removal_changes(
            self.expired(now_us),
            self.admission().admitted,
            Removal::Expired,
        ) + endings(
            self.leaving(now_us).filter(|f: Fading| f.over(now_us)),
        ) + admission_changes(after.active, after.budget, after.limit, self.admission())
    }
}

/// At most one source of a valid stack has a given id.
pub proof fn lemma_place(stack: StackModel, i: int)
    requires
        stack.valid(),
        0 <= i < stack.active.len(),
    ensures
        place_of(stack.active, stack.active[i].id) == Some(i),
{
    let id = stack.active[i].id;
    let p = choose|p: int| 0 <= p < stack.active.len() && #[trigger] stack.active[p].id == id;
    if p < i {
        assert(stack.active[p].ahead_of(stack.active[i]));
    } else if i < p {
        assert(stack.active[i].ahead_of(stack.active[p]));
    }
}

/// What holds of every stack, whatever was done to it: it is in order, nothing on
/// it is there twice, nothing on it costs more than the device has, and everything
/// above the ambient floor has an expiry.
pub proof fn law_every_stack_is_valid(stack: SourceStack)
    requires
        stack.wf(),
    ensures
        stack@.valid(),
{
}

/// What admission spends stays within the budget, and what it admits within the
/// count.
pub proof fn law_admission_stays_within_its_limits(sources: Seq<Source>, budget: int, limit: int)
    requires
        0 <= budget,
        0 <= limit,
    ensures
        0 <= admission(sources, budget, limit).spent <= budget,
        admission(sources, budget, limit).admitted.len() <= limit,
    decreases sources.len(),
{
    if sources.len() != 0 {
        law_admission_stays_within_its_limits(sources.drop_last(), budget, limit);
    }
}

/// Admission looks at what a source is called and costs, and at nothing else.
pub proof fn lemma_admission_ignores_the_rest(
    a: Seq<Source>,
    b: Seq<Source>,
    budget: int,
    limit: int,
)
    requires
        a.len() == b.len(),
        forall|i: int|
            #![trigger a[i]]
            #![trigger b[i]]
            0 <= i < a.len() ==> a[i].id == b[i].id && a[i].cost == b[i].cost,
    ensures
        admission(a, budget, limit) == admission(b, budget, limit),
    decreases a.len(),
{
    if a.len() != 0 {
        let (p, q) = (a.drop_last(), b.drop_last());
        assert forall|i: int|
            #![trigger p[i]]
            #![trigger q[i]]
            0 <= i < p.len() implies p[i].id == q[i].id && p[i].cost == q[i].cost by {
            assert(p[i] == a[i] && q[i] == b[i]);
        }
        lemma_admission_ignores_the_rest(p, q, budget, limit);
        assert(a[a.len() - 1].id == b[b.len() - 1].id);
    }
}

/// Everything on the list is either admitted or rejected, and nothing else is.
pub proof fn law_admitted_or_rejected(sources: Seq<Source>, budget: int, limit: int, id: Uuid)
    ensures
        (exists|i: int| 0 <= i < sources.len() && #[trigger] sources[i].id == id) <==> (admission(
            sources,
            budget,
            limit,
        ).admitted.contains(id) || admission(sources, budget, limit).rejected.contains(id)),
    decreases sources.len(),
{
    let now = admission(sources, budget, limit);
    if sources.len() == 0 {
    } else {
        let rest = sources.drop_last();
        let ahead = admission(rest, budget, limit);
        law_admitted_or_rejected(rest, budget, limit, id);
        if exists|i: int| 0 <= i < sources.len() && #[trigger] sources[i].id == id {
            let i = choose|i: int| 0 <= i < sources.len() && #[trigger] sources[i].id == id;
            if i < rest.len() {
                assert(rest[i].id == id);
                if ahead.admitted.contains(id) {
                    let k = choose|k: int| 0 <= k < ahead.admitted.len() && ahead.admitted[k] == id;
                    assert(now.admitted[k] == id);
                } else {
                    let k = choose|k: int| 0 <= k < ahead.rejected.len() && ahead.rejected[k] == id;
                    assert(now.rejected[k] == id);
                }
            } else if fits(ahead, sources.last(), budget, limit) {
                assert(now.admitted[ahead.admitted.len() as int] == id);
            } else {
                assert(now.rejected[ahead.rejected.len() as int] == id);
            }
        }
        if now.admitted.contains(id) || now.rejected.contains(id) {
            if sources.last().id == id {
                assert(sources[sources.len() - 1].id == id);
            } else {
                if now.admitted.contains(id) {
                    let k = choose|k: int| 0 <= k < now.admitted.len() && now.admitted[k] == id;
                    assert(ahead.admitted[k] == id);
                } else {
                    let k = choose|k: int| 0 <= k < now.rejected.len() && now.rejected[k] == id;
                    assert(ahead.rejected[k] == id);
                }
                let i = choose|i: int| 0 <= i < rest.len() && #[trigger] rest[i].id == id;
                assert(sources[i].id == id);
            }
        }
    }
}

/// Taking one source away keeps a stack valid.
proof fn lemma_without_valid(stack: StackModel, id: Uuid)
    requires
        stack.valid(),
    ensures
        (StackModel { active: without(stack.active, id), ..stack }).valid(),
        forall|i: int|
            0 <= i < without(stack.active, id).len() ==> (#[trigger] without(stack.active, id)[i]).id
                != id,
{
    let rest = without(stack.active, id);
    if let Some(p) = place_of(stack.active, id) {
        let a = stack.active;
        assert forall|i: int, j: int| 0 <= i < j < rest.len() implies (#[trigger] rest[i]).ahead_of(
            #[trigger] rest[j],
        ) && rest[i].id != rest[j].id by {
            let x = if i < p {
                i
            } else {
                i + 1
            };
            let y = if j < p {
                j
            } else {
                j + 1
            };
            assert(rest[i] == a[x] && rest[j] == a[y]);
            assert(a[x].ahead_of(a[y]));
        }
        assert forall|i: int| 0 <= i < rest.len() implies (#[trigger] rest[i]).id != id by {
            let x = if i < p {
                i
            } else {
                i + 1
            };
            assert(rest[i] == a[x]);
            if x < p {
                assert(a[x].ahead_of(a[p]));
            } else {
                assert(a[p].ahead_of(a[x]));
            }
        }
    }
}

/// Putting a source in its place keeps a stack valid.
proof fn lemma_pushed_valid(stack: StackModel, now_us: u64, source: Source)
    requires
        stack.valid(),
        stack.refusal(now_us, source) is None,
    ensures
        stack.pushed(source).valid(),
{
    let rest = without(stack.active, source.id);
    lemma_without_valid(stack, source.id);
    let r = |x: Source, y: Source| x.ahead_of(y) && x.id != y.id;
    let ahead = standing_ahead(rest, source);
    let behind = standing_behind(rest, source);
    lemma_filter_pairs(rest, |s: Source| s.ahead_of(source), r);
    lemma_filter_pairs(rest, |s: Source| !s.ahead_of(source), r);
    let all = stack.pushed(source).active;
    let n = ahead.len() as int;
    assert forall|i: int| 0 <= i < ahead.len() implies (#[trigger] ahead[i]).id != source.id
        && ahead[i].ahead_of(source) && ahead[i].cost <= stack.budget && (ahead[i].ambient()
        || ahead[i].expires_at_us is Some) by {
        assert(rest.contains(ahead[i]));
    }
    assert forall|i: int| 0 <= i < behind.len() implies (#[trigger] behind[i]).id != source.id
        && source.ahead_of(behind[i]) && behind[i].cost <= stack.budget && (behind[i].ambient()
        || behind[i].expires_at_us is Some) by {
        assert(rest.contains(behind[i]));
        if behind[i].id.key() == source.id.key() {
            lemma_key_injective(behind[i].id, source.id);
        }
    }
    assert forall|i: int, j: int| 0 <= i < j < all.len() implies (#[trigger] all[i]).ahead_of(
        #[trigger] all[j],
    ) && all[i].id != all[j].id by {
        if j < n {
            assert(all[i] == ahead[i] && all[j] == ahead[j]);
        } else if j == n {
            assert(all[i] == ahead[i] && all[j] == source);
        } else if i > n {
            assert(all[i] == behind[i - n - 1] && all[j] == behind[j - n - 1]);
        } else {
            assert(all[j] == behind[j - n - 1]);
            if i < n {
                assert(all[i] == ahead[i]);
                let b = behind[j - n - 1];
                let k = choose|k: int| 0 <= k < rest.len() && rest[k] == ahead[i];
                assert(rest.contains(ahead[i]));
                let m = choose|m: int| 0 <= m < rest.len() && rest[m] == b;
                assert(rest.contains(b));
                assert(rest[k].ahead_of(source) && source.ahead_of(rest[m]));
                if k > m {
                    assert(rest[m].ahead_of(rest[k]));
                }
            }
        }
    }
    assert forall|i: int| 0 <= i < all.len() implies {
        &&& (#[trigger] all[i]).cost <= stack.budget
        &&& all[i].ambient() || all[i].expires_at_us is Some
    } by {
        if i < n {
            assert(all[i] == ahead[i]);
        } else if i > n {
            assert(all[i] == behind[i - n - 1]);
        }
    }
}

/// Expiry keeps a stack valid.
proof fn lemma_advanced_valid(stack: StackModel, now_us: u64)
    requires
        stack.valid(),
    ensures
        stack.advanced(now_us).valid(),
{
    let r = |x: Source, y: Source| x.ahead_of(y) && x.id != y.id;
    lemma_filter_pairs(stack.active, |s: Source| !s.lapsed(now_us), r);
    let left = stack.advanced(now_us).active;
    assert forall|i: int, j: int| 0 <= i < j < left.len() implies (#[trigger] left[i]).ahead_of(
        #[trigger] left[j],
    ) && left[i].id != left[j].id by {
        assert(r(left[i], left[j]));
    }
    assert forall|i: int| 0 <= i < left.len() implies {
        &&& (#[trigger] left[i]).cost <= stack.budget
        &&& left[i].ambient() || left[i].expires_at_us is Some
    } by {
        assert(stack.active.contains(left[i]));
    }
}

/// One zone's stack of sources, with admission control.
#[derive(Clone, Debug)]
pub struct SourceStack {
    active: Vec<Source>,
    fading: Vec<Fading>,
    /// Per-pixel budget this device can spend across all admitted sources.
    budget: u32,
    /// Most concurrent sources this device will admit.
    max_concurrent: usize,
    /// Ids currently admitted, highest priority first.
    admitted: Vec<Uuid>,
    /// Ids currently rejected, kept so that a rejection is reported when it
    /// starts and not on every frame it continues.
    rejected: Vec<Uuid>,
}

impl View for SourceStack {
    type V = StackModel;

    closed spec fn view(&self) -> StackModel {
        StackModel {
            active: self.active@,
            fading: self.fading@,
            budget: self.budget as int,
            limit: self.max_concurrent as int,
        }
    }
}

impl SourceStack {
    /// The stack is valid, and what is recorded as admitted and rejected is what
    /// admission makes of it.
    pub closed spec fn wf(&self) -> bool {
        &&& self@.valid()
        &&& self.admitted@ == self@.admission().admitted
        &&& self.rejected@ == self@.admission().rejected
    }

    /// A stack for a device with `budget` per-pixel units and room for
    /// `max_concurrent` sources.
    ///
    /// `max_concurrent` is raised to [`CONCURRENCY_FLOOR`]: the answer to a
    /// device that cannot carry two sources is a lower frame rate, not a smaller
    /// stack.
    pub fn new(budget: u32, max_concurrent: usize) -> (stack: SourceStack)
        ensures
            stack.wf(),
            stack@ == StackModel::empty(budget as int, max_concurrent as int),
    {
        let stack = SourceStack {
            active: Vec::new(),
            fading: Vec::new(),
            budget,
            max_concurrent: if max_concurrent >= CONCURRENCY_FLOOR {
                max_concurrent
            } else {
                CONCURRENCY_FLOOR
            },
            admitted: Vec::new(),
            rejected: Vec::new(),
        };
        assert(stack@ =~= StackModel::empty(budget as int, max_concurrent as int));
        stack
    }

    pub fn budget(&self) -> (r: u32)
        ensures
            r == self@.budget,
    {
        self.budget
    }

    pub fn max_concurrent(&self) -> (r: usize)
        ensures
            r == self@.limit,
    {
        self.max_concurrent
    }

    /// Sources on the stack, highest priority first.
    pub fn active(&self) -> (r: &[Source])
        ensures
            r@ == self@.active,
    {
        self.active.as_slice()
    }

    /// Sources currently fading out.
    pub fn fading(&self) -> (r: &[Fading])
        ensures
            r@ == self@.fading,
    {
        self.fading.as_slice()
    }

    /// Ids that will actually render, highest priority first.
    pub fn admitted(&self) -> (r: &[Uuid])
        requires
            self.wf(),
        ensures
            r@ == self@.admission().admitted,
    {
        self.admitted.as_slice()
    }

    pub fn is_admitted(&self, id: Uuid) -> (r: bool)
        requires
            self.wf(),
        ensures
            r == self@.admission().admitted.contains(id),
    {
        holds(&self.admitted, id)
    }

    /// Where `id` is on the stack.
    fn place(&self, id: Uuid) -> (r: Option<usize>)
        requires
            self@.valid(),
        ensures
            r is Some == place_of(self@.active, id) is Some,
            r matches Some(i) ==> place_of(self@.active, id) == Some(i as int) && i
                < self@.active.len(),
    {
        let mut i: usize = 0;
        while i < self.active.len()
            invariant
                self@.valid(),
                i <= self.active@.len(),
                forall|k: int| 0 <= k < i ==> (#[trigger] self.active@[k]).id != id,
            decreases self.active@.len() - i,
        {
            if self.active[i].id == id {
                proof {
                    lemma_place(self@, i as int);
                }
                return Some(i);
            }
            i += 1;
        }
        None
    }

    /// The source that renders for a pixel this zone covers, if any: the one at
    /// the front of the stack.
    pub fn top(&self) -> (r: Option<&Source>)
        requires
            self.wf(),
        ensures
            self@.active.len() == 0 ==> r is None,
            self@.active.len() > 0 ==> r == Some(&self@.active[0]),
    {
        proof {
            law_the_front_is_admitted(self@);
        }
        if self.admitted.len() == 0 {
            return None;
        }
        let id = self.admitted[0];
        match self.place(id) {
            Some(i) => {
                proof {
                    lemma_place(self@, 0);
                }
                Some(&self.active[i])
            },
            None => {
                proof {
                    lemma_place(self@, 0);
                }
                None
            },
        }
    }

    /// Push a source, or say why not.
    pub fn push(&mut self, now_us: u64, source: Source, changes: &mut Vec<Change>) -> (r: Result<
        (),
        PushError,
    >)
        requires
            old(self).wf(),
        ensures
            final(self).wf(),
            match old(self)@.refusal(now_us, source) {
                Some(e) => {
                    &&& r == Err::<(), PushError>(e)
                    &&& final(self)@ == old(self)@
                    &&& final(changes)@ == old(changes)@
                },
                None => {
                    &&& r is Ok
                    &&& final(self)@ == old(self)@.pushed(source)
                    &&& final(changes)@ == old(changes)@ + old(self)@.push_changes(source)
                },
            },
    {
        if !source.is_ambient() && source.expires_at_us.is_none() {
            return Err(PushError::NoExpiry { priority: source.priority });
        }
        if let Some(at) = source.expires_at_us {
            if now_us >= at {
                // Accepting it and dropping it next frame would render it once.
                return Err(PushError::AlreadyExpired { expires_at_us: at });
            }
        }
        if source.cost > self.budget {
            // Nothing this device can drop would make room, so say so now rather
            // than after evicting everything else.
            return Err(PushError::NoRoom);
        }
        let ghost was = self@;
        let ghost reported = changes@;
        proof {
            lemma_pushed_valid(was, now_us, source);
        }

        // Pushing an id that is already present replaces it.
        if let Some(existing) = self.place(source.id) {
            let _replaced = self.active.remove(existing);
            changes.push(Change::Removed { id: source.id, reason: Removal::Superseded });
        }
        let ghost rest = self.active@;
        assert(rest == without(was.active, source.id));
        self.insert(source);
        assert(self@ =~= was.pushed(source));
        let ghost superseded = changes@;
        self.readmit(changes, Ghost(was));
        proof {
            let after = was.pushed(source);
            let tail = admission_changes(after.active, after.budget, after.limit, was.admission());
            assert(superseded + tail =~= reported + was.push_changes(source));
        }
        Ok(())
    }

    /// Remove a source, fading it out.
    ///
    /// Returns whether anything was there. A pop for a source that already
    /// expired is normal, not an error: the pusher and the expiry race, and both
    /// orders have to be fine.
    pub fn pop(&mut self, now_us: u64, id: Uuid, changes: &mut Vec<Change>) -> (r: bool)
        requires
            old(self).wf(),
        ensures
            final(self).wf(),
            r == place_of(old(self)@.active, id) is Some,
            final(self)@ == old(self)@.popped(now_us, id),
            final(changes)@ == old(changes)@ + old(self)@.pop_changes(now_us, id),
    {
        let ghost was = self@;
        let ghost reported = changes@;
        match self.place(id) {
            None => {
                assert(changes@ =~= reported + was.pop_changes(now_us, id));
                false
            },
            Some(at) => {
                proof {
                    lemma_without_valid(was, id);
                }
                let source = self.active.remove(at);
                self.begin_fade(now_us, source, Removal::Popped, changes);
                assert(self@ =~= was.popped(now_us, id));
                let ghost removed = changes@;
                self.readmit(changes, Ghost(was));
                proof {
                    let after = was.popped(now_us, id);
                    let tail = admission_changes(
                        after.active,
                        after.budget,
                        after.limit,
                        was.admission(),
                    );
                    assert(removed + tail =~= reported + was.pop_changes(now_us, id));
                }
                true
            },
        }
    }

    /// Extend a source's expiry.
    ///
    /// A renewal for something already gone is refused: bringing it back would
    /// be a visible flash from a message that arrived late.
    pub fn renew(&mut self, id: Uuid, expires_at_us: u64) -> (r: bool)
        requires
            old(self).wf(),
        ensures
            final(self).wf(),
            r == place_of(old(self)@.active, id) is Some,
            final(self)@ == old(self)@.renewed(id, expires_at_us),
    {
        let ghost was = self@;
        match self.place(id) {
            Some(i) => {
                let mut source = self.active[i];
                source.expires_at_us = Some(expires_at_us);
                self.active[i] = source;
                assert(self@ =~= was.renewed(id, expires_at_us));
                proof {
                    lemma_renewed_valid(was, id, expires_at_us);
                }
                true
            },
            None => false,
        }
    }

    /// Advance to `now_us`, expiring and finishing fades.
    ///
    /// Called every frame. Everything time-dependent happens here.
    pub fn advance(&mut self, now_us: u64, changes: &mut Vec<Change>)
        requires
            old(self).wf(),
        ensures
            final(self).wf(),
            final(self)@ == old(self)@.advanced(now_us),
            final(changes)@ == old(changes)@ + old(self)@.advance_changes(now_us),
    {
        let ghost was = self@;
        let ghost reported = changes@;
        proof {
            lemma_advanced_valid(was, now_us);
        }
        self.expire(now_us, changes);
        self.finish_fades(now_us, changes);
        assert(self@ =~= was.advanced(now_us));
        let ghost settled = changes@;
        self.readmit(changes, Ghost(was));
        proof {
            let after = was.advanced(now_us);
            let tail = admission_changes(after.active, after.budget, after.limit, was.admission());
            assert(settled + tail =~= reported + was.advance_changes(now_us));
        }
    }

    /// Take what has lapsed off the stack and begin its fade.
    fn expire(&mut self, now_us: u64, changes: &mut Vec<Change>)
        requires
            old(self).admitted@ == old(self)@.admission().admitted,
        ensures
            final(self)@ == (StackModel {
                active: old(self)@.advanced(now_us).active,
                fading: old(self)@.leaving(now_us),
                ..old(self)@
            }),
            final(self).admitted == old(self).admitted,
            final(self).rejected == old(self).rejected,
            final(changes)@ == old(changes)@ + removal_changes(
                old(self)@.expired(now_us),
                old(self)@.admission().admitted,
                Removal::Expired,
            ),
    {
        let ghost was = self@;
        let ghost shown = was.admission().admitted;
        let ghost lapsed = |s: Source| s.lapsed(now_us);
        let ghost live = |s: Source| !s.lapsed(now_us);
        let mut kept: Vec<Source> = Vec::new();
        let mut i: usize = 0;
        proof {
            reveal(Seq::filter);
            assert(was.active.take(0) =~= Seq::<Source>::empty());
            assert(self.fading@ =~= was.fading + fades(
                Seq::<Source>::empty().filter(lapsed),
                shown,
                now_us,
                Removal::Expired,
            ));
            assert(changes@ =~= old(changes)@ + removal_changes(
                Seq::<Source>::empty().filter(lapsed),
                shown,
                Removal::Expired,
            ));
        }
        while i < self.active.len()
            invariant
                i <= self.active@.len(),
                self.active@ == was.active,
                self.budget == was.budget,
                self.max_concurrent == was.limit,
                self.admitted == old(self).admitted,
                self.rejected == old(self).rejected,
                self.admitted@ == shown,
                was == old(self)@,
                lapsed == (|s: Source| s.lapsed(now_us)),
                live == (|s: Source| !s.lapsed(now_us)),
                kept@ == was.active.take(i as int).filter(live),
                self.fading@ == was.fading + fades(
                    was.active.take(i as int).filter(lapsed),
                    shown,
                    now_us,
                    Removal::Expired,
                ),
                changes@ == old(changes)@ + removal_changes(
                    was.active.take(i as int).filter(lapsed),
                    shown,
                    Removal::Expired,
                ),
            decreases self.active@.len() - i,
        {
            let source = self.active[i];
            proof {
                lemma_filter_take(was.active, i as int, lapsed);
                lemma_filter_take(was.active, i as int, live);
            }
            let ghost before = was.active.take(i as int).filter(lapsed);
            if source.has_expired(now_us) {
                let ghost (faded, told) = (self.fading@, changes@);
                self.begin_fade(now_us, source, Removal::Expired, changes);
                proof {
                    let longer = before.push(source);
                    assert(longer.drop_last() =~= before);
                    assert(seq![source].drop_last() =~= Seq::<Source>::empty());
                    reveal_with_fuel(fades, 2);
                    reveal_with_fuel(removal_changes, 2);
                    assert(self.fading@ =~= was.fading + fades(
                        longer,
                        shown,
                        now_us,
                        Removal::Expired,
                    ));
                    assert(changes@ =~= old(changes)@ + removal_changes(
                        longer,
                        shown,
                        Removal::Expired,
                    ));
                }
            } else {
                kept.push(source);
            }
            i += 1;
        }
        assert(was.active.take(i as int) =~= was.active);
        self.active = kept;
    }

    /// Drop the fades that are over.
    fn finish_fades(&mut self, now_us: u64, changes: &mut Vec<Change>)
        ensures
            final(self)@ == (StackModel {
                fading: old(self)@.fading.filter(|f: Fading| !f.over(now_us)),
                ..old(self)@
            }),
            final(self).admitted == old(self).admitted,
            final(self).rejected == old(self).rejected,
            final(changes)@ == old(changes)@ + endings(
                old(self)@.fading.filter(|f: Fading| f.over(now_us)),
            ),
    {
        let ghost was = self@;
        let ghost over = |f: Fading| f.over(now_us);
        let ghost running = |f: Fading| !f.over(now_us);
        let mut kept: Vec<Fading> = Vec::new();
        let mut i: usize = 0;
        proof {
            reveal(Seq::filter);
            assert(was.fading.take(0) =~= Seq::<Fading>::empty());
            assert(changes@ =~= old(changes)@ + endings(Seq::<Fading>::empty().filter(over)));
        }
        while i < self.fading.len()
            invariant
                i <= self.fading@.len(),
                self.fading@ == was.fading,
                self.active@ == was.active,
                self.budget == was.budget,
                self.max_concurrent == was.limit,
                self.admitted == old(self).admitted,
                self.rejected == old(self).rejected,
                was == old(self)@,
                over == (|f: Fading| f.over(now_us)),
                running == (|f: Fading| !f.over(now_us)),
                kept@ == was.fading.take(i as int).filter(running),
                changes@ == old(changes)@ + endings(was.fading.take(i as int).filter(over)),
            decreases self.fading@.len() - i,
        {
            let fade = self.fading[i];
            proof {
                lemma_filter_take(was.fading, i as int, over);
                lemma_filter_take(was.fading, i as int, running);
            }
            let ghost before = was.fading.take(i as int).filter(over);
            if fade.is_done(now_us) {
                changes.push(Change::FadeFinished(fade.source.id));
                assert(changes@ =~= old(changes)@ + endings(before.push(fade)));
            } else {
                kept.push(fade);
            }
            i += 1;
        }
        assert(was.fading.take(i as int) =~= was.fading);
        self.fading = kept;
    }

    /// Budget not currently claimed by an admitted source.
    pub fn spare_budget(&self) -> (r: u32)
        requires
            self.wf(),
        ensures
            r == self@.budget - self@.admission().spent,
    {
        let mut used: u32 = 0;
        let mut i: usize = 0;
        let ghost model = self@;
        let ghost (budget, limit) = (self@.budget, self@.limit);
        proof {
            law_admission_stays_within_its_limits(self@.active, budget, limit);
            assert(self@.active.take(0) =~= Seq::<Source>::empty());
        }
        while i < self.active.len()
            invariant
                self.wf(),
                model == self@,
                budget == self@.budget,
                limit == self@.limit,
                i <= self.active@.len(),
                used == admission(self@.active.take(i as int), budget, limit).spent,
                used <= budget,
            decreases self.active@.len() - i,
        {
            let source = self.active[i];
            let counted: bool = holds(&self.admitted, source.id);
            proof {
                let longer = self@.active.take(i + 1);
                assert(longer.drop_last() =~= self@.active.take(i as int));
                law_admission_stays_within_its_limits(longer, budget, limit);
                law_admitted_exactly_when_it_fits(self@, i as int);
            }
            if counted {
                used = used + source.cost;
            }
            i += 1;
        }
        assert(self@.active.take(i as int) =~= self@.active);
        self.budget.saturating_sub(used)
    }

    fn begin_fade(
        &mut self,
        now_us: u64,
        source: Source,
        reason: Removal,
        changes: &mut Vec<Change>,
    )
        ensures
            final(self)@ == (StackModel {
                fading: old(self)@.fading + fades(
                    seq![source],
                    old(self).admitted@,
                    now_us,
                    reason,
                ),
                ..old(self)@
            }),
            final(self).admitted == old(self).admitted,
            final(self).rejected == old(self).rejected,
            final(changes)@ == old(changes)@ + removal_changes(
                seq![source],
                old(self).admitted@,
                reason,
            ),
    {
        proof {
            reveal_with_fuel(fades, 2);
            reveal_with_fuel(removal_changes, 2);
            assert(seq![source].drop_last() =~= Seq::<Source>::empty());
        }
        changes.push(Change::Removed { id: source.id, reason });
        if source.fade_out_ms == 0 || !holds(&self.admitted, source.id) {
            // Nothing of it is showing, or nothing of it is to show any more.
            changes.push(Change::FadeFinished(source.id));
            return;
        }
        self.fading.push(Fading { source, started_at_us: now_us, reason });
    }

    /// Put a source in its place: behind everything that outranks it.
    fn insert(&mut self, source: Source)
        requires
            forall|i: int, j: int|
                0 <= i < j < old(self)@.active.len() ==> (#[trigger] old(self)@.active[i]).ahead_of(
                    #[trigger] old(self)@.active[j],
                ),
        ensures
            final(self)@ == (StackModel {
                active: standing_ahead(old(self)@.active, source).push(source) + standing_behind(
                    old(self)@.active,
                    source,
                ),
                ..old(self)@
            }),
            final(self).admitted == old(self).admitted,
            final(self).rejected == old(self).rejected,
    {
        let ghost rest = self@.active;
        let mut i: usize = 0;
        while i < self.active.len() && self.active[i].is_ahead_of(&source)
            invariant
                self@ == old(self)@,
                self.active@ == rest,
                i <= rest.len(),
                forall|k: int| 0 <= k < i ==> #[trigger] rest[k].ahead_of(source),
            decreases self.active@.len() - i,
        {
            i += 1;
        }
        proof {
            lemma_split(rest, source, i as int);
        }
        self.active.insert(i, source);
        assert(self.active@ =~= rest.take(i as int).push(source) + rest.skip(i as int));
    }

    /// Re-run admission from scratch.
    ///
    /// From scratch rather than incrementally, because "a source drops back in
    /// as soon as something above it expires" is only true if the whole stack is
    /// reconsidered.
    fn readmit(&mut self, changes: &mut Vec<Change>, Ghost(was): Ghost<StackModel>)
        requires
            old(self)@.valid(),
            old(self).admitted@ == was.admission().admitted,
            old(self).rejected@ == was.admission().rejected,
        ensures
            final(self).wf(),
            final(self)@ == old(self)@,
            final(changes)@ == old(changes)@ + admission_changes(
                old(self)@.active,
                old(self)@.budget,
                old(self)@.limit,
                was.admission(),
            ),
    {
        let mut spent: u32 = 0;
        let mut admitted: Vec<Uuid> = Vec::new();
        let mut rejected: Vec<Uuid> = Vec::new();
        let mut i: usize = 0;
        let ghost (active, budget, limit) = (self@.active, self@.budget, self@.limit);
        proof {
            assert(active.take(0) =~= Seq::<Source>::empty());
            assert(changes@ =~= old(changes)@ + admission_changes(
                active.take(0),
                budget,
                limit,
                was.admission(),
            ));
        }
        while i < self.active.len()
            invariant
                self@ == old(self)@,
                self@.valid(),
                active == self.active@,
                budget == self.budget,
                limit == self.max_concurrent,
                self.admitted@ == was.admission().admitted,
                self.rejected@ == was.admission().rejected,
                i <= self.active@.len(),
                admitted@ == admission(active.take(i as int), budget, limit).admitted,
                rejected@ == admission(active.take(i as int), budget, limit).rejected,
                spent == admission(active.take(i as int), budget, limit).spent,
                spent <= budget,
                changes@ == old(changes)@ + admission_changes(
                    active.take(i as int),
                    budget,
                    limit,
                    was.admission(),
                ),
            decreases self.active@.len() - i,
        {
            let s = self.active[i];
            let ghost told = changes@;
            let ghost earlier = admission_changes(
                active.take(i as int),
                budget,
                limit,
                was.admission(),
            );
            proof {
                assert(active.take(i + 1).drop_last() =~= active.take(i as int));
                assert(active.take(i + 1).last() == s);
            }
            let fits_budget: bool = s.cost <= self.budget - spent;
            let fits_count: bool = admitted.len() < self.max_concurrent;
            if fits_budget && fits_count {
                spent = spent + s.cost;
                admitted.push(s.id);
                if !holds(&self.admitted, s.id) {
                    changes.push(Change::Admitted(s.id));
                    assert(changes@ =~= old(changes)@ + earlier.push(Change::Admitted(s.id)));
                }
            } else {
                rejected.push(s.id);
                if !holds(&self.rejected, s.id) {
                    let spare: u32 = self.budget - spent;
                    changes.push(Change::Rejected { id: s.id, cost: s.cost, spare });
                    assert(changes@ =~= old(changes)@ + earlier.push(
                        Change::Rejected { id: s.id, cost: s.cost, spare },
                    ));
                }
            }
            i += 1;
        }
        assert(active.take(i as int) =~= active);
        self.admitted = admitted;
        self.rejected = rejected;
    }
}

/// In an ordered list, what stands ahead of a source is a first part and what
/// does not is the rest.
proof fn lemma_split(rest: Seq<Source>, source: Source, i: int)
    requires
        0 <= i <= rest.len(),
        forall|x: int, y: int|
            0 <= x < y < rest.len() ==> (#[trigger] rest[x]).ahead_of(#[trigger] rest[y]),
        forall|k: int| 0 <= k < i ==> #[trigger] rest[k].ahead_of(source),
        i < rest.len() ==> !rest[i].ahead_of(source),
    ensures
        standing_ahead(rest, source) == rest.take(i),
        standing_behind(rest, source) == rest.skip(i),
{
    assert forall|k: int| i <= k < rest.len() implies !(#[trigger] rest[k]).ahead_of(source) by {
        if k > i {
            assert(rest[i].ahead_of(rest[k]));
        }
    }
    lemma_filter_split(
        rest,
        i,
        |s: Source| s.ahead_of(source),
        |s: Source| !s.ahead_of(source),
    );
}

/// What is admitted from the front of a stack stays admitted as more is added
/// behind it: admission is decided by what stands ahead.
pub proof fn law_what_stands_behind_displaces_nothing(
    sources: Seq<Source>,
    n: int,
    budget: int,
    limit: int,
)
    requires
        0 <= n <= sources.len(),
    ensures
        admission(sources.take(n), budget, limit).admitted.is_prefix_of(
            admission(sources, budget, limit).admitted,
        ),
        admission(sources.take(n), budget, limit).rejected.is_prefix_of(
            admission(sources, budget, limit).rejected,
        ),
    decreases sources.len(),
{
    if n < sources.len() {
        let rest = sources.drop_last();
        law_what_stands_behind_displaces_nothing(rest, n, budget, limit);
        assert(rest.take(n) =~= sources.take(n));
    } else {
        assert(sources.take(n) =~= sources);
    }
}

/// A source of a valid stack is admitted exactly when it fits beside what was
/// admitted ahead of it.
pub proof fn law_admitted_exactly_when_it_fits(stack: StackModel, i: int)
    requires
        stack.valid(),
        0 <= i < stack.active.len(),
    ensures
        stack.admission().admitted.contains(stack.active[i].id) == fits(
            admission(stack.active.take(i), stack.budget, stack.limit),
            stack.active[i],
            stack.budget,
            stack.limit,
        ),
        stack.admission().rejected.contains(stack.active[i].id)
            == !stack.admission().admitted.contains(stack.active[i].id),
{
    let id = stack.active[i].id;
    let (budget, limit) = (stack.budget, stack.limit);
    let longer = stack.active.take(i + 1);
    let ahead = admission(stack.active.take(i), budget, limit);
    assert(longer.drop_last() =~= stack.active.take(i));
    assert(longer.last() == stack.active[i]);
    law_what_stands_behind_displaces_nothing(stack.active, i + 1, budget, limit);
    let now = admission(longer, budget, limit);
    let all = stack.admission();
    lemma_only_its_own_kind(stack, i, stack.active.len() as int);
    if fits(ahead, stack.active[i], budget, limit) {
        assert(now.admitted[ahead.admitted.len() as int] == id);
        assert(all.admitted[ahead.admitted.len() as int] == id);
    } else {
        assert(now.rejected[ahead.rejected.len() as int] == id);
        assert(all.rejected[ahead.rejected.len() as int] == id);
    }
}

/// An id is on the list for one source only.
proof fn lemma_only_its_own_kind(stack: StackModel, i: int, n: int)
    requires
        stack.valid(),
        0 <= i < stack.active.len(),
        0 <= n <= stack.active.len(),
    ensures
        ({
            let id = stack.active[i].id;
            let all = admission(stack.active.take(n), stack.budget, stack.limit);
            let ahead = admission(stack.active.take(i), stack.budget, stack.limit);
            let fit = fits(ahead, stack.active[i], stack.budget, stack.limit);
            &&& all.admitted.contains(id) ==> fit
            &&& all.rejected.contains(id) ==> !fit
            &&& n == stack.active.len() ==> all == stack.admission()
        }),
    decreases n,
{
    let id = stack.active[i].id;
    let part = stack.active.take(n);
    let all = admission(part, stack.budget, stack.limit);
    if n == stack.active.len() {
        assert(part =~= stack.active);
    }
    if n > 0 {
        lemma_only_its_own_kind(stack, i, n - 1);
        assert(part.drop_last() =~= stack.active.take(n - 1));
        let before = admission(stack.active.take(n - 1), stack.budget, stack.limit);
        if n - 1 != i {
            if n - 1 < i {
                assert(stack.active[n - 1].ahead_of(stack.active[i]));
            } else {
                assert(stack.active[i].ahead_of(stack.active[n - 1]));
            }
            assert(part.last().id != id);
            if all.admitted.contains(id) {
                let k = choose|k: int| 0 <= k < all.admitted.len() && all.admitted[k] == id;
                assert(before.admitted[k] == id);
            }
            if all.rejected.contains(id) {
                let k = choose|k: int| 0 <= k < all.rejected.len() && all.rejected[k] == id;
                assert(before.rejected[k] == id);
            }
        } else {
            let fit = fits(before, stack.active[i], stack.budget, stack.limit);
            if fit && all.rejected.contains(id) {
                assert(all.rejected == before.rejected);
            }
            if !fit && all.admitted.contains(id) {
                assert(all.admitted == before.admitted);
            }
        }
    }
}

/// What some sources cost together.
pub open spec fn total_cost(sources: Seq<Source>) -> int
    decreases sources.len(),
{
    if sources.len() == 0 {
        0
    } else {
        total_cost(sources.drop_last()) + sources.last().cost
    }
}

/// The admitted among the first `i` sources of a stack.
pub open spec fn admitted_ahead(stack: StackModel, i: int) -> Seq<Source> {
    stack.active.take(i).filter(|s: Source| stack.admission().admitted.contains(s.id))
}

/// Admission is the greedy choice down the stack: a source is in exactly when its
/// cost and that of everything admitted ahead of it stay within the budget, and
/// fewer than the limit were admitted ahead of it. What is in is named in the order
/// of the stack.
pub proof fn law_admission_is_the_greedy_choice(stack: SourceStack, i: int)
    requires
        stack.wf(),
        0 <= i < stack@.active.len(),
    ensures
        stack@.admission().admitted.contains(stack@.active[i].id) <==> total_cost(
            admitted_ahead(stack@, i),
        ) + stack@.active[i].cost <= stack@.budget && admitted_ahead(stack@, i).len()
            < stack@.limit,
        stack@.admission().admitted == admitted_ahead(
            stack@,
            stack@.active.len() as int,
        ).map_values(|s: Source| s.id),
{
    lemma_greedy(stack@, i);
    lemma_admitted_ahead(stack@, stack@.active.len() as int);
    assert(stack@.active.take(stack@.active.len() as int) =~= stack@.active);
}

proof fn lemma_greedy(stack: StackModel, i: int)
    requires
        stack.valid(),
        0 <= i < stack.active.len(),
    ensures
        stack.admission().admitted.contains(stack.active[i].id) <==> total_cost(
            admitted_ahead(stack, i),
        ) + stack.active[i].cost <= stack.budget && admitted_ahead(stack, i).len() < stack.limit,
{
    law_admitted_exactly_when_it_fits(stack, i);
    lemma_admitted_ahead(stack, i);
}

/// What admission made of the first `n` sources is what of them is in at the end.
proof fn lemma_admitted_ahead(stack: StackModel, n: int)
    requires
        stack.valid(),
        0 <= n <= stack.active.len(),
    ensures
        ({
            let ahead = admission(stack.active.take(n), stack.budget, stack.limit);
            &&& ahead.admitted == admitted_ahead(stack, n).map_values(|s: Source| s.id)
            &&& ahead.spent == total_cost(admitted_ahead(stack, n))
            &&& admitted_ahead(stack, n).len() == ahead.admitted.len()
            &&& 0 <= ahead.spent <= stack.budget
        }),
    decreases n,
{
    let p = |s: Source| stack.admission().admitted.contains(s.id);
    let name = |s: Source| s.id;
    let part = stack.active.take(n);
    law_admission_stays_within_its_limits(part, stack.budget, stack.limit);
    if n > 0 {
        let before = stack.active.take(n - 1);
        let last = stack.active[n - 1];
        lemma_admitted_ahead(stack, n - 1);
        law_admitted_exactly_when_it_fits(stack, n - 1);
        lemma_filter_take(stack.active, n - 1, p);
        assert(part.drop_last() =~= before);
        assert(before.filter(p).push(last).drop_last() =~= before.filter(p));
        assert(before.filter(p).push(last).map_values(name) =~= before.filter(p).map_values(
            name,
        ).push(last.id));
    } else {
        reveal(Seq::filter);
        assert(part =~= Seq::<Source>::empty());
        assert(admitted_ahead(stack, n) =~= Seq::<Source>::empty());
        assert(admitted_ahead(stack, n).map_values(name) =~= Seq::<Uuid>::empty());
    }
}

/// Whether a change is the news of one source of a stack: that it is in and was
/// not, or that it is out and was not, with the budget that was left at its place.
pub open spec fn is_news(was: StackModel, now: StackModel, i: int, change: Change) -> bool {
    let s = now.active[i];
    if now.admission().admitted.contains(s.id) {
        change == Change::Admitted(s.id) && !was.admission().admitted.contains(s.id)
    } else {
        &&& change matches Change::Rejected { id, cost, spare } && id == s.id && cost == s.cost
            && spare == now.budget - total_cost(admitted_ahead(now, i))
        &&& !was.admission().rejected.contains(s.id)
    }
}

/// Whether some changes tell of admission exactly what is news of it.
pub open spec fn tells_the_news(was: StackModel, now: StackModel, changes: Seq<Change>) -> bool {
    forall|change: Change|
        (#[trigger] changes.contains(change) && (change is Admitted || change is Rejected))
            <==> exists|i: int| 0 <= i < now.active.len() && #[trigger] is_news(was, now, i, change)
}

/// Something done to a stack.
pub ghost enum Deed {
    Push { now_us: u64, source: Source },
    Pop { now_us: u64, id: Uuid },
    Renew { id: Uuid, expires_at_us: u64 },
    Advance { now_us: u64 },
}

impl StackModel {
    /// The stack once something was done to it.
    pub open spec fn after(self, deed: Deed) -> StackModel {
        match deed {
            Deed::Push { now_us, source } => if self.refusal(now_us, source) is None {
                self.pushed(source)
            } else {
                self
            },
            Deed::Pop { now_us, id } => self.popped(now_us, id),
            Deed::Renew { id, expires_at_us } => self.renewed(id, expires_at_us),
            Deed::Advance { now_us } => self.advanced(now_us),
        }
    }

    /// What is reported of it.
    pub open spec fn told(self, deed: Deed) -> Seq<Change> {
        match deed {
            Deed::Push { now_us, source } => if self.refusal(now_us, source) is None {
                self.push_changes(source)
            } else {
                Seq::empty()
            },
            Deed::Pop { now_us, id } => self.pop_changes(now_us, id),
            Deed::Renew { .. } => Seq::empty(),
            Deed::Advance { now_us } => self.advance_changes(now_us),
        }
    }
}

/// What a new stack has come to after some deeds.
pub open spec fn lived(budget: u32, max_concurrent: usize, deeds: Seq<Deed>) -> StackModel
    decreases deeds.len(),
{
    if deeds.len() == 0 {
        StackModel::empty(budget as int, max_concurrent as int)
    } else {
        lived(budget, max_concurrent, deeds.drop_last()).after(deeds.last())
    }
}

/// Whatever was done to a stack since it was new, admission is the greedy choice down
/// it: a source is in exactly when its cost and that of everything admitted ahead of it
/// stay within the budget, and fewer than the limit were admitted ahead of it.
pub proof fn law_admission_is_greedy_after_any_history(
    budget: u32,
    max_concurrent: usize,
    deeds: Seq<Deed>,
    i: int,
)
    requires
        0 <= i < lived(budget, max_concurrent, deeds).active.len(),
    ensures
        ({
            let stack = lived(budget, max_concurrent, deeds);
            let s = stack.active[i];
            &&& stack.budget == budget
            &&& stack.admission().admitted.contains(s.id) <==> total_cost(admitted_ahead(stack, i))
                + s.cost <= budget && admitted_ahead(stack, i).len() < stack.limit
        }),
{
    lemma_lived(budget, max_concurrent, deeds);
    lemma_greedy(lived(budget, max_concurrent, deeds), i);
}

/// Whatever was done to a stack since it was new, whatever is done next tells of
/// admission exactly what is news of it.
pub proof fn law_changes_tell_the_news_after_any_history(
    budget: u32,
    max_concurrent: usize,
    deeds: Seq<Deed>,
    next: Deed,
)
    ensures
        ({
            let was = lived(budget, max_concurrent, deeds);
            tells_the_news(was, was.after(next), was.told(next))
        }),
{
    lemma_lived(budget, max_concurrent, deeds);
    lemma_tells_the_news(lived(budget, max_concurrent, deeds), next);
}

proof fn lemma_lived(budget: u32, max_concurrent: usize, deeds: Seq<Deed>)
    ensures
        lived(budget, max_concurrent, deeds).valid(),
        lived(budget, max_concurrent, deeds).budget == budget,
    decreases deeds.len(),
{
    if deeds.len() > 0 {
        let was = lived(budget, max_concurrent, deeds.drop_last());
        lemma_lived(budget, max_concurrent, deeds.drop_last());
        match deeds.last() {
            Deed::Push { now_us, source } => {
                if was.refusal(now_us, source) is None {
                    lemma_pushed_valid(was, now_us, source);
                }
            },
            Deed::Pop { now_us, id } => {
                lemma_without_valid(was, id);
            },
            Deed::Renew { id, expires_at_us } => {
                lemma_renewed_valid(was, id, expires_at_us);
            },
            Deed::Advance { now_us } => {
                lemma_advanced_valid(was, now_us);
            },
        }
    }
}

/// A new expiry keeps a stack valid, and nobody's admission depends on it.
proof fn lemma_renewed_valid(stack: StackModel, id: Uuid, expires_at_us: u64)
    requires
        stack.valid(),
    ensures
        stack.renewed(id, expires_at_us).valid(),
        stack.renewed(id, expires_at_us).admission() == stack.admission(),
{
    let (a, b) = (stack.active, stack.renewed(id, expires_at_us).active);
    assert forall|x: int, y: int| 0 <= x < y < b.len() implies (#[trigger] b[x]).ahead_of(
        #[trigger] b[y],
    ) && b[x].id != b[y].id by {
        assert(a[x].ahead_of(a[y]) && a[x].id != a[y].id);
    }
    lemma_admission_ignores_the_rest(b, a, stack.budget, stack.limit);
}

/// Every change of admission is told, and nothing else is told of it: what a push,
/// a removal or the passing of time reports of who is in and who is out is news,
/// each with the budget that was left where it was turned away. A renewal changes
/// nobody's admission.
pub proof fn law_changes_tell_the_news(
    stack: SourceStack,
    now_us: u64,
    source: Source,
    id: Uuid,
    expires_at_us: u64,
)
    requires
        stack.wf(),
    ensures
        stack@.refusal(now_us, source) is None ==> tells_the_news(
            stack@,
            stack@.pushed(source),
            stack@.push_changes(source),
        ),
        tells_the_news(stack@, stack@.popped(now_us, id), stack@.pop_changes(now_us, id)),
        tells_the_news(stack@, stack@.advanced(now_us), stack@.advance_changes(now_us)),
        stack@.renewed(id, expires_at_us).admission() == stack@.admission(),
{
    lemma_tells_the_news(stack@, Deed::Push { now_us, source });
    lemma_tells_the_news(stack@, Deed::Pop { now_us, id });
    lemma_tells_the_news(stack@, Deed::Advance { now_us });
    lemma_renewed_valid(stack@, id, expires_at_us);
}

proof fn lemma_tells_the_news(was: StackModel, deed: Deed)
    requires
        was.valid(),
    ensures
        tells_the_news(was, was.after(deed), was.told(deed)),
{
    lemma_silence_is_no_news(was, was);
    match deed {
        Deed::Push { now_us, source } => {
            if was.refusal(now_us, source) is None {
                lemma_pushed_valid(was, now_us, source);
                let superseded = if place_of(was.active, source.id) is Some {
                    seq![Change::Removed { id: source.id, reason: Removal::Superseded }]
                } else {
                    Seq::empty()
                };
                lemma_tells(was, was.pushed(source), superseded);
            }
        },
        Deed::Pop { now_us, id } => {
            if let Some(i) = place_of(was.active, id) {
                let leaving = seq![was.active[i]];
                lemma_without_valid(was, id);
                assert(was.popped(now_us, id).valid());
                lemma_removals_are_no_news(leaving, was.admission().admitted, Removal::Popped);
                lemma_tells(
                    was,
                    was.popped(now_us, id),
                    removal_changes(leaving, was.admission().admitted, Removal::Popped),
                );
            }
        },
        Deed::Renew { id, expires_at_us } => {
            lemma_renewed_valid(was, id, expires_at_us);
            lemma_silence_is_no_news(was, was.renewed(id, expires_at_us));
        },
        Deed::Advance { now_us } => {
            let (lapsed, over) = (
                was.expired(now_us),
                was.leaving(now_us).filter(|f: Fading| f.over(now_us)),
            );
            lemma_advanced_valid(was, now_us);
            lemma_removals_are_no_news(lapsed, was.admission().admitted, Removal::Expired);
            lemma_tells(
                was,
                was.advanced(now_us),
                removal_changes(lapsed, was.admission().admitted, Removal::Expired) + endings(over),
            );
        },
    }
}

/// Where admission stays as it was there is nothing to tell of it.
proof fn lemma_silence_is_no_news(was: StackModel, now: StackModel)
    requires
        now.valid(),
        now.admission() == was.admission(),
    ensures
        tells_the_news(was, now, Seq::empty()),
{
    assert forall|change: Change, i: int| 0 <= i < now.active.len() implies !#[trigger] is_news(
        was,
        now,
        i,
        change,
    ) by {
        law_admitted_exactly_when_it_fits(now, i);
    }
}

/// What is told of sources that leave says nothing of admission.
proof fn lemma_removals_are_no_news(leaving: Seq<Source>, shown: Seq<Uuid>, reason: Removal)
    ensures
        ({
            let told = removal_changes(leaving, shown, reason);
            forall|i: int|
                0 <= i < told.len() ==> !(#[trigger] told[i] is Admitted) && !(told[i] is Rejected)
        }),
    decreases leaving.len(),
{
    if leaving.len() > 0 {
        lemma_removals_are_no_news(leaving.drop_last(), shown, reason);
    }
}

/// Changes that say nothing of admission, and then what admission reports, tell the
/// news.
proof fn lemma_tells(was: StackModel, now: StackModel, other: Seq<Change>)
    requires
        now.valid(),
        forall|i: int|
            0 <= i < other.len() ==> !(#[trigger] other[i] is Admitted) && !(other[i] is Rejected),
    ensures
        tells_the_news(
            was,
            now,
            other + admission_changes(now.active, now.budget, now.limit, was.admission()),
        ),
{
    let n = now.active.len() as int;
    let told = admission_changes(now.active, now.budget, now.limit, was.admission());
    assert(now.active.take(n) =~= now.active);
    let all = other + told;
    assert forall|change: Change|
        (#[trigger] all.contains(change) && (change is Admitted || change is Rejected))
            <==> exists|i: int| 0 <= i < now.active.len() && #[trigger] is_news(
            was,
            now,
            i,
            change,
        ) by {
        lemma_news(was, now, n, change);
        if all.contains(change) && (change is Admitted || change is Rejected) {
            let k = all.index_of(change);
            if k < other.len() {
                assert(other[k] == change);
            }
            assert(told[k - other.len()] == change);
        }
        if told.contains(change) {
            assert(all[other.len() + told.index_of(change)] == change);
        }
    }
}

proof fn lemma_news(was: StackModel, now: StackModel, n: int, change: Change)
    requires
        now.valid(),
        0 <= n <= now.active.len(),
    ensures
        admission_changes(
            now.active.take(n),
            now.budget,
            now.limit,
            was.admission(),
        ).contains(change) <==> exists|i: int| 0 <= i < n && #[trigger] is_news(was, now, i, change),
    decreases n,
{
    if n > 0 {
        let part = now.active.take(n);
        let s = now.active[n - 1];
        let earlier = admission_changes(
            now.active.take(n - 1),
            now.budget,
            now.limit,
            was.admission(),
        );
        let told = admission_changes(part, now.budget, now.limit, was.admission());
        lemma_news(was, now, n - 1, change);
        law_admitted_exactly_when_it_fits(now, n - 1);
        lemma_admitted_ahead(now, n - 1);
        assert(part.drop_last() =~= now.active.take(n - 1));
        assert(part.last() == s);
        if told.contains(change) {
            let k = told.index_of(change);
            if k < earlier.len() {
                assert(earlier[k] == change);
            } else {
                assert(is_news(was, now, n - 1, change));
            }
        }
        if earlier.contains(change) {
            assert(told[earlier.index_of(change)] == change);
        }
        if is_news(was, now, n - 1, change) {
            assert(told == earlier.push(change));
            assert(told[earlier.len() as int] == change);
        }
    } else {
        assert(now.active.take(0).len() == 0);
    }
}

/// Only what was showing fades: whatever a removal or the passing of time sets fading
/// was admitted until then, so that what was turned away never shows, not even on its
/// way out.
pub proof fn law_only_what_showed_fades(stack: StackModel, now_us: u64, id: Uuid, fade: Fading)
    ensures
        stack.popped(now_us, id).fading.contains(fade) ==> stack.fading.contains(fade)
            || stack.admission().admitted.contains(fade.source.id),
        stack.advanced(now_us).fading.contains(fade) ==> stack.fading.contains(fade)
            || stack.admission().admitted.contains(fade.source.id),
{
    let shown = stack.admission().admitted;
    if let Some(i) = place_of(stack.active, id) {
        lemma_fades_showed(
            stack.fading,
            seq![stack.active[i]],
            shown,
            now_us,
            Removal::Popped,
            fade,
        );
    }
    let leaving = stack.leaving(now_us);
    lemma_fades_showed(
        stack.fading,
        stack.expired(now_us),
        shown,
        now_us,
        Removal::Expired,
        fade,
    );
    if stack.advanced(now_us).fading.contains(fade) {
        leaving.lemma_filter_contains_rev(|f: Fading| !f.over(now_us), fade);
    }
}

proof fn lemma_fades_showed(
    fading: Seq<Fading>,
    leaving: Seq<Source>,
    shown: Seq<Uuid>,
    started_at_us: u64,
    reason: Removal,
    fade: Fading,
)
    ensures
        (fading + fades(leaving, shown, started_at_us, reason)).contains(fade) ==> fading.contains(
            fade,
        ) || shown.contains(fade.source.id),
    decreases leaving.len(),
{
    let begun = fades(leaving, shown, started_at_us, reason);
    let all = fading + begun;
    if leaving.len() > 0 {
        let rest = leaving.drop_last();
        lemma_fades_showed(fading, rest, shown, started_at_us, reason, fade);
        let earlier = fading + fades(rest, shown, started_at_us, reason);
        if all.contains(fade) {
            let k = all.index_of(fade);
            if k < earlier.len() {
                assert(earlier[k] == fade);
            }
        }
    } else {
        assert(all =~= fading);
    }
}

/// The source at the front of a stack is always admitted, and first.
pub proof fn law_the_front_is_admitted(stack: StackModel)
    requires
        stack.valid(),
    ensures
        stack.active.len() == 0 ==> stack.admission().admitted.len() == 0,
        stack.active.len() > 0 ==> stack.admission().admitted.len() > 0
            && stack.admission().admitted[0] == stack.active[0].id,
{
    if stack.active.len() > 0 {
        let front = stack.active.take(1);
        assert(front.drop_last() =~= Seq::<Source>::empty());
        reveal_with_fuel(admission, 2);
        assert(front.last() == stack.active[0]);
        law_what_stands_behind_displaces_nothing(stack.active, 1, stack.budget, stack.limit);
        assert(admission(front, stack.budget, stack.limit).admitted[0] == stack.active[0].id);
    }
}

/// The order of the stack is total between sources of different ids, and agrees
/// with outranking, so two devices cannot resolve one stack differently. Nothing
/// outranks itself.
pub proof fn law_order_is_total(a: Source, b: Source, c: Source)
    ensures
        !a.over(a),
        a.over(b) ==> a.ahead_of(b),
        a.ahead_of(b) ==> !b.ahead_of(a),
        a.ahead_of(b) && b.ahead_of(c) ==> a.ahead_of(c),
        a.id != b.id ==> a.ahead_of(b) || b.ahead_of(a),
{
    if a.id.key() == b.id.key() {
        lemma_key_injective(a.id, b.id);
    }
}

/// What is on a stack after a push: the new source, and everything that has
/// another id.
proof fn lemma_pushed_contains(stack: StackModel, source: Source, s: Source)
    requires
        stack.valid(),
    ensures
        stack.pushed(source).active.contains(s) <==> (s == source || stack.active.contains(s)
            && s.id != source.id),
{
    let rest = without(stack.active, source.id);
    lemma_without_valid(stack, source.id);
    let p = |x: Source| x.ahead_of(source);
    let q = |x: Source| !x.ahead_of(source);
    let (ahead, behind) = (standing_ahead(rest, source), standing_behind(rest, source));
    let all = stack.pushed(source).active;
    let n = ahead.len() as int;
    assert(all[n] == source);
    if rest.contains(s) {
        let k = choose|k: int| 0 <= k < rest.len() && rest[k] == s;
        if p(s) {
            rest.lemma_filter_contains(p, k);
            let i = choose|i: int| 0 <= i < ahead.len() && ahead[i] == s;
            assert(all[i] == s);
        } else {
            rest.lemma_filter_contains(q, k);
            let i = choose|i: int| 0 <= i < behind.len() && behind[i] == s;
            assert(all[n + 1 + i] == s);
        }
    }
    if all.contains(s) && s != source {
        let i = choose|i: int| 0 <= i < all.len() && all[i] == s;
        if i < n {
            assert(ahead[i] == s);
            assert(ahead.contains(s));
            rest.lemma_filter_contains_rev(p, s);
        } else {
            assert(behind[i - n - 1] == s);
            assert(behind.contains(s));
            rest.lemma_filter_contains_rev(q, s);
        }
    }
    assert(rest.contains(s) <==> stack.active.contains(s) && s.id != source.id) by {
        if stack.active.contains(s) && s.id != source.id {
            let k = choose|k: int| 0 <= k < stack.active.len() && stack.active[k] == s;
            if let Some(at) = place_of(stack.active, source.id) {
                assert(rest[if k < at {
                    k
                } else {
                    k - 1
                }] == s);
            }
        }
        if rest.contains(s) {
            let k = choose|k: int| 0 <= k < rest.len() && rest[k] == s;
            if let Some(at) = place_of(stack.active, source.id) {
                assert(stack.active[if k < at {
                    k
                } else {
                    k + 1
                }] == s);
            }
        }
    }
}

/// Two stacks of one device kind that hold the same sources resolve identically.
pub proof fn law_same_sources_same_outcome(a: StackModel, b: StackModel)
    requires
        a.valid(),
        b.valid(),
        a.budget == b.budget,
        a.limit == b.limit,
        forall|s: Source| #[trigger] a.active.contains(s) <==> b.active.contains(s),
    ensures
        a.active == b.active,
        a.admission() == b.admission(),
{
    lemma_one_strict_order(a.active, b.active, |x: Source, y: Source| x.ahead_of(y));
}

/// The order in which two sources are pushed does not matter.
pub proof fn law_push_order_does_not_matter(
    stack: StackModel,
    now_us: u64,
    x: Source,
    y: Source,
)
    requires
        stack.valid(),
        stack.refusal(now_us, x) is None,
        stack.refusal(now_us, y) is None,
        x.id != y.id,
    ensures
        stack.pushed(x).pushed(y) == stack.pushed(y).pushed(x),
{
    let (a, b) = (stack.pushed(x).pushed(y), stack.pushed(y).pushed(x));
    lemma_pushed_valid(stack, now_us, x);
    lemma_pushed_valid(stack.pushed(x), now_us, y);
    lemma_pushed_valid(stack, now_us, y);
    lemma_pushed_valid(stack.pushed(y), now_us, x);
    assert forall|s: Source| #[trigger] a.active.contains(s) <==> b.active.contains(s) by {
        lemma_pushed_contains(stack, x, s);
        lemma_pushed_contains(stack.pushed(x), y, s);
        lemma_pushed_contains(stack, y, s);
        lemma_pushed_contains(stack.pushed(y), x, s);
    }
    law_same_sources_same_outcome(a, b);
    assert(a =~= b);
}

/// A push replaces what had its id, and touches nothing else.
pub proof fn law_push_replaces_its_own_id(stack: StackModel, source: Source, s: Source)
    requires
        stack.valid(),
    ensures
        stack.pushed(source).active.contains(source),
        stack.pushed(source).active.contains(s) && s != source ==> s.id != source.id
            && stack.active.contains(s),
        stack.active.contains(s) && s.id != source.id ==> stack.pushed(source).active.contains(s),
        stack.pushed(source).fading == stack.fading,
{
    lemma_pushed_contains(stack, source, s);
    lemma_pushed_contains(stack, source, source);
}

/// Admission that changed nothing has nothing to report.
proof fn lemma_unchanged_is_silent(stack: StackModel, n: int)
    requires
        stack.valid(),
        0 <= n <= stack.active.len(),
    ensures
        admission_changes(stack.active.take(n), stack.budget, stack.limit, stack.admission())
            == Seq::<Change>::empty(),
    decreases n,
{
    if n > 0 {
        lemma_unchanged_is_silent(stack, n - 1);
        assert(stack.active.take(n).drop_last() =~= stack.active.take(n - 1));
        law_admitted_exactly_when_it_fits(stack, n - 1);
    }
}

/// A settled stack says nothing: with nothing to expire and no fade to end, a
/// frame changes nothing and reports nothing.
pub proof fn law_settled_stack_is_silent(stack: StackModel, now_us: u64)
    requires
        stack.valid(),
        forall|i: int| 0 <= i < stack.active.len() ==> !(#[trigger] stack.active[i]).lapsed(now_us),
        forall|i: int| 0 <= i < stack.fading.len() ==> !(#[trigger] stack.fading[i]).over(now_us),
    ensures
        stack.advanced(now_us) == stack,
        stack.advance_changes(now_us) == Seq::<Change>::empty(),
{
    lemma_filter_all(stack.active, |s: Source| !s.lapsed(now_us));
    lemma_filter_none(stack.active, |s: Source| s.lapsed(now_us));
    assert(stack.leaving(now_us) =~= stack.fading);
    lemma_filter_all(stack.fading, |f: Fading| !f.over(now_us));
    lemma_filter_none(stack.fading, |f: Fading| f.over(now_us));
    assert(stack.advanced(now_us) =~= stack);
    lemma_unchanged_is_silent(stack, stack.active.len() as int);
    assert(stack.active.take(stack.active.len() as int) =~= stack.active);
    assert(stack.advance_changes(now_us) =~= Seq::<Change>::empty());
}

/// One frame settles a stack for its instant: doing it again changes nothing.
pub proof fn law_advance_settles(stack: StackModel, now_us: u64)
    requires
        stack.valid(),
    ensures
        stack.advanced(now_us).valid(),
        stack.advanced(now_us).advanced(now_us) == stack.advanced(now_us),
        stack.advanced(now_us).advance_changes(now_us) == Seq::<Change>::empty(),
{
    let after = stack.advanced(now_us);
    lemma_advanced_valid(stack, now_us);
    lemma_filter_pairs(stack.active, |s: Source| !s.lapsed(now_us), |x: Source, y: Source| true);
    lemma_filter_pairs(
        stack.leaving(now_us),
        |f: Fading| !f.over(now_us),
        |x: Fading, y: Fading| true,
    );
    law_settled_stack_is_silent(after, now_us);
}

/// Nothing outlives its expiry, and everything above the ambient floor has one.
pub proof fn law_nothing_outlives_its_expiry(stack: StackModel, now_us: u64, s: Source)
    requires
        stack.valid(),
        stack.active.contains(s),
    ensures
        !s.ambient() ==> s.expires_at_us is Some,
        stack.advanced(now_us).active.contains(s) <==> !s.lapsed(now_us),
{
    let live = |s: Source| !s.lapsed(now_us);
    let k = choose|k: int| 0 <= k < stack.active.len() && stack.active[k] == s;
    if live(s) {
        stack.active.lemma_filter_contains(live, k);
    } else {
        lemma_filter_pairs(stack.active, live, |x: Source, y: Source| true);
    }
    assert(!stack.active[k].ambient() ==> stack.active[k].expires_at_us is Some);
}

/// When what rendered lapses, what renders is the highest of what is left.
pub proof fn law_expiry_falls_back_to_what_was_underneath(
    stack: StackModel,
    now_us: u64,
    s: Source,
)
    requires
        stack.valid(),
        stack.active.contains(s),
        !s.lapsed(now_us),
    ensures
        ({
            let left = stack.advanced(now_us).active;
            &&& left.len() > 0
            &&& stack.active.contains(left[0])
            &&& left[0] == s || left[0].ahead_of(s)
        }),
{
    let left = stack.advanced(now_us).active;
    law_nothing_outlives_its_expiry(stack, now_us, s);
    lemma_advanced_valid(stack, now_us);
    let k = choose|k: int| 0 <= k < left.len() && left[k] == s;
    if k > 0 {
        assert(left[0].ahead_of(left[k]));
    }
    lemma_filter_pairs(stack.active, |s: Source| !s.lapsed(now_us), |x: Source, y: Source| true);
}

/// A source that was popped is gone: another pop, or a renewal, finds nothing.
pub proof fn law_popped_is_gone(stack: StackModel, now_us: u64, id: Uuid)
    requires
        stack.valid(),
    ensures
        place_of(stack.popped(now_us, id).active, id) is None,
{
    lemma_without_valid(stack, id);
}

/// A source that lapsed cannot be renewed.
pub proof fn law_lapsed_is_gone(stack: StackModel, now_us: u64, s: Source)
    requires
        stack.valid(),
        stack.active.contains(s),
        s.lapsed(now_us),
    ensures
        place_of(stack.advanced(now_us).active, s.id) is None,
{
    let left = stack.advanced(now_us).active;
    lemma_filter_pairs(stack.active, |s: Source| !s.lapsed(now_us), |x: Source, y: Source| true);
    let k = choose|k: int| 0 <= k < stack.active.len() && stack.active[k] == s;
    assert forall|i: int| 0 <= i < left.len() implies (#[trigger] left[i]).id != s.id by {
        assert(stack.active.contains(left[i]));
        let m = choose|m: int| 0 <= m < stack.active.len() && stack.active[m] == left[i];
        lemma_place(stack, m);
        lemma_place(stack, k);
    }
}

/// A fade in shows nothing until it starts, everything once it is over, and
/// never less than it did.
pub proof fn law_fade_in(s: Source, now_us: u64, later_us: u64)
    requires
        now_us <= later_us,
    ensures
        0 <= s.fade_in(now_us) <= s.fade_in(later_us) <= 65_536,
        s.fade_in_ms == 0 ==> s.fade_in(now_us) == 65_536,
        s.fade_in_ms > 0 && now_us <= s.pushed_at_us ==> s.fade_in(now_us) == 0,
        now_us >= s.pushed_at_us + s.fade_in_ms * 1_000 ==> s.fade_in(now_us) == 65_536,
{
    let at = s.pushed_at_us as int;
    law_fades_run_one_way(
        past(now_us as int, at),
        past(later_us as int, at),
        s.fade_in_ms * 1_000,
    );
}

/// A fade is even: as much of it has passed as of its time, to within one 65 536th, and
/// the whole of it once the whole of its time has.
pub proof fn law_fades_are_even(elapsed_us: int, span_us: int)
    requires
        0 <= elapsed_us,
        0 <= span_us,
    ensures
        ({
            let passed = fade_fraction(elapsed_us, span_us);
            &&& elapsed_us >= span_us ==> passed == 65_536
            &&& elapsed_us < span_us ==> passed * span_us <= elapsed_us * 65_536 < passed * span_us
                + span_us
        }),
{
    if elapsed_us < span_us {
        let (a, q) = (elapsed_us * 65_536, elapsed_us * 65_536 / span_us);
        assert(q * span_us <= a < q * span_us + span_us) by (nonlinear_arith)
            requires
                span_us > 0,
                q == a / span_us,
        ;
    }
}

/// A source fades in over its own time from when it was pushed, and out over its own
/// time from when that began; it is gone when that is over and not before.
pub proof fn law_fades_take_their_own_time(s: Source, f: Fading, now_us: u64)
    ensures
        now_us >= s.pushed_at_us && s.fade_in_ms > 0 ==> s.fade_in(now_us) == fade_fraction(
            now_us - s.pushed_at_us,
            1_000 * s.fade_in_ms,
        ),
        now_us >= f.started_at_us ==> f.faded(now_us) == fade_fraction(
            now_us - f.started_at_us,
            1_000 * f.source.fade_out_ms,
        ),
        f.over(now_us) <==> f.source.fade_out_ms == 0 || now_us >= f.started_at_us + 1_000
            * f.source.fade_out_ms,
        f.over(now_us) <==> f.faded(now_us) == 65_536,
{
    law_fades_run_one_way(
        past(now_us as int, f.started_at_us as int),
        past(now_us as int, f.started_at_us as int),
        f.source.fade_out_ms * 1_000,
    );
}

/// Who takes a pixel from whom: the higher priority, of equals the later push. In the
/// stack the higher identity, byte by byte, settles what that leaves open.
pub proof fn law_who_outranks_whom(a: Source, b: Source)
    ensures
        a.priority != b.priority ==> (a.over(b) <==> a.priority > b.priority),
        a.priority == b.priority ==> (a.over(b) <==> a.pushed_at_us > b.pushed_at_us),
        a.over(b) ==> a.ahead_of(b) && !b.ahead_of(a),
        !a.over(b) && !b.over(a) ==> (a.ahead_of(b) <==> byte_order(b.id.0@, a.id.0@)),
        a.ambient() <==> a.priority < 64,
        forall|now_us: u64| #[trigger]
            a.lapsed(now_us) <==> a.expires_at_us is Some && a.expires_at_us->0 <= now_us,
{
    lemma_byte_order_is_numeric(b.id.0@, a.id.0@);
}

/// What is refused, and why: what is not ambient and never expires, what has expired
/// already, and what alone costs more than the device has. Nothing else is.
pub proof fn law_what_is_refused(stack: StackModel, now_us: u64, source: Source)
    ensures
        ({
            let endless = source.priority >= 64 && source.expires_at_us is None;
            let late = source.expires_at_us is Some && source.expires_at_us->0 <= now_us;
            let refused = stack.refusal(now_us, source);
            &&& refused is None <==> !endless && !late && source.cost <= stack.budget
            &&& endless ==> refused == Some(PushError::NoExpiry { priority: source.priority })
            &&& late ==> refused == Some(
                PushError::AlreadyExpired { expires_at_us: source.expires_at_us->0 },
            )
            &&& !endless && !late && source.cost > stack.budget ==> refused == Some(
                PushError::NoRoom,
            )
        }),
{
}

/// What a push does: the source is on the stack and everything of another id with it,
/// highest first. What had its id is reported as superseded, first, and does not fade.
pub proof fn law_what_a_push_does(stack: StackModel, now_us: u64, source: Source, s: Source)
    requires
        stack.valid(),
        stack.refusal(now_us, source) is None,
    ensures
        ({
            let after = stack.pushed(source);
            let told = stack.push_changes(source);
            let again = exists|i: int|
                0 <= i < stack.active.len() && #[trigger] stack.active[i].id == source.id;
            &&& after.active.contains(s) <==> s == source || s.id != source.id
                && stack.active.contains(s)
            &&& forall|i: int, j: int|
                0 <= i < j < after.active.len() ==> (#[trigger] after.active[i]).ahead_of(
                    #[trigger] after.active[j],
                )
            &&& after.fading == stack.fading
            &&& after.budget == stack.budget && after.limit == stack.limit
            &&& again ==> told.len() > 0 && told[0] == (Change::Removed {
                id: source.id,
                reason: Removal::Superseded,
            })
            &&& forall|i: int|
                (if again {
                    1int
                } else {
                    0
                }) <= i < told.len() ==> (#[trigger] told[i]) is Admitted || told[i] is Rejected
        }),
{
    lemma_pushed_valid(stack, now_us, source);
    lemma_pushed_contains(stack, source, s);
    let after = stack.pushed(source);
    lemma_admission_tells_admission(
        after.active,
        after.budget,
        after.limit,
        stack.admission(),
    );
}

proof fn lemma_admission_tells_admission(
    sources: Seq<Source>,
    budget: int,
    limit: int,
    was: Admission,
)
    ensures
        ({
            let told = admission_changes(sources, budget, limit, was);
            forall|i: int|
                0 <= i < told.len() ==> (#[trigger] told[i]) is Admitted || told[i] is Rejected
        }),
    decreases sources.len(),
{
    if sources.len() > 0 {
        lemma_admission_tells_admission(sources.drop_last(), budget, limit, was);
    }
}

/// What a removal does: the source of that id leaves, the rest stay in their order, and
/// it fades from now if it was showing and has a time to fade out. It is told first.
pub proof fn law_what_a_removal_does(stack: StackModel, now_us: u64, i: int)
    requires
        stack.valid(),
        0 <= i < stack.active.len(),
    ensures
        ({
            let source = stack.active[i];
            let after = stack.popped(now_us, source.id);
            let told = stack.pop_changes(now_us, source.id);
            let fades = source.fade_out_ms > 0 && stack.admission().admitted.contains(source.id);
            &&& after.active == stack.active.take(i) + stack.active.skip(i + 1)
            &&& fades ==> after.fading == stack.fading.push(
                Fading { source, started_at_us: now_us, reason: Removal::Popped },
            )
            &&& !fades ==> after.fading == stack.fading
            &&& told.len() > 0 && told[0] == (Change::Removed {
                id: source.id,
                reason: Removal::Popped,
            })
            &&& !fades ==> told.len() > 1 && told[1] == Change::FadeFinished(source.id)
            &&& after.budget == stack.budget && after.limit == stack.limit
        }),
{
    lemma_place(stack, i);
    let source = stack.active[i];
    let after = stack.popped(now_us, source.id);
    let one = seq![source];
    assert(one.drop_last() =~= Seq::<Source>::empty());
    reveal_with_fuel(fades, 2);
    reveal_with_fuel(removal_changes, 2);
    assert(after.active =~= stack.active.take(i) + stack.active.skip(i + 1));
    if fades_away(source, stack.admission().admitted) {
        assert(after.fading =~= stack.fading.push(
            Fading { source, started_at_us: now_us, reason: Removal::Popped },
        ));
    } else {
        assert(after.fading =~= stack.fading);
    }
}

/// Removing what is not there does nothing, and tells nothing.
pub proof fn law_removing_nothing_does_nothing(stack: StackModel, now_us: u64, id: Uuid)
    requires
        forall|i: int| 0 <= i < stack.active.len() ==> (#[trigger] stack.active[i]).id != id,
    ensures
        stack.popped(now_us, id) == stack,
        stack.pop_changes(now_us, id).len() == 0,
        forall|expires_at_us: u64| #[trigger] stack.renewed(id, expires_at_us) == stack,
{
}

/// A renewal gives one source another expiry and changes nothing else.
pub proof fn law_a_renewal_moves_the_expiry(stack: StackModel, i: int, expires_at_us: u64)
    requires
        stack.valid(),
        0 <= i < stack.active.len(),
    ensures
        ({
            let after = stack.renewed(stack.active[i].id, expires_at_us);
            &&& after.active.len() == stack.active.len()
            &&& after.active[i] == (Source {
                expires_at_us: Some(expires_at_us),
                ..stack.active[i]
            })
            &&& forall|k: int|
                0 <= k < stack.active.len() && k != i ==> #[trigger] after.active[k]
                    == stack.active[k]
            &&& after.fading == stack.fading
            &&& after.budget == stack.budget && after.limit == stack.limit
        }),
{
    lemma_place(stack, i);
}

/// What time does: what has reached its expiry leaves and what has not stays in its
/// order; of those that leave, the ones that were showing and have a time to fade out
/// fade from now; and a fade that is over is gone.
pub proof fn law_what_time_does(stack: StackModel, now_us: u64, s: Source, f: Fading)
    requires
        stack.valid(),
    ensures
        ({
            let after = stack.advanced(now_us);
            let began = stack.active.contains(f.source) && f.source.expires_at_us is Some
                && f.source.expires_at_us->0 <= now_us && f.source.fade_out_ms > 0
                && stack.admission().admitted.contains(f.source.id) && f.started_at_us == now_us
                && f.reason is Expired;
            let goes_on = stack.fading.contains(f) && f.source.fade_out_ms > 0 && now_us
                < f.started_at_us + 1_000 * f.source.fade_out_ms;
            &&& after.active.contains(s) <==> stack.active.contains(s) && (s.expires_at_us is None
                || now_us < s.expires_at_us->0)
            &&& forall|i: int, j: int|
                0 <= i < j < after.active.len() ==> (#[trigger] after.active[i]).ahead_of(
                    #[trigger] after.active[j],
                )
            &&& after.fading.contains(f) <==> goes_on || began
            &&& after.budget == stack.budget && after.limit == stack.limit
        }),
{
    let after = stack.advanced(now_us);
    lemma_advanced_valid(stack, now_us);
    let live = |x: Source| !x.lapsed(now_us);
    let lapsed = |x: Source| x.lapsed(now_us);
    let on = |x: Fading| !x.over(now_us);
    lemma_filter_holds(stack.active, live, s);
    lemma_filter_holds(stack.active, lapsed, f.source);
    lemma_filter_holds(stack.leaving(now_us), on, f);
    let begun = fades(
        stack.expired(now_us),
        stack.admission().admitted,
        now_us,
        Removal::Expired,
    );
    lemma_fades_hold(stack.expired(now_us), stack.admission().admitted, now_us, Removal::Expired, f);
    let all = stack.fading + begun;
    assert(all.contains(f) <==> stack.fading.contains(f) || begun.contains(f)) by {
        if all.contains(f) {
            let k = all.index_of(f);
            if k < stack.fading.len() {
                assert(stack.fading[k] == f);
            } else {
                assert(begun[k - stack.fading.len()] == f);
            }
        }
        if stack.fading.contains(f) {
            assert(all[stack.fading.index_of(f)] == f);
        }
        if begun.contains(f) {
            assert(all[stack.fading.len() + begun.index_of(f)] == f);
        }
    }
}

/// What time tells: of every source that reached its expiry, that it left, and of every
/// fade that is over or never was, that it finished.
pub proof fn law_what_time_tells(stack: StackModel, now_us: u64, s: Source, f: Fading)
    requires
        stack.valid(),
    ensures
        ({
            let told = stack.advance_changes(now_us);
            let gone = stack.active.contains(s) && s.expires_at_us is Some && s.expires_at_us->0
                <= now_us;
            &&& gone ==> told.contains(Change::Removed { id: s.id, reason: Removal::Expired })
            &&& gone && (s.fade_out_ms == 0 || !stack.admission().admitted.contains(s.id))
                ==> told.contains(Change::FadeFinished(s.id))
            &&& stack.fading.contains(f) && now_us >= f.started_at_us + 1_000
                * f.source.fade_out_ms ==> told.contains(Change::FadeFinished(f.source.id))
        }),
{
    let told = stack.advance_changes(now_us);
    let shown = stack.admission().admitted;
    let lapsed = |x: Source| x.lapsed(now_us);
    let done = |x: Fading| x.over(now_us);
    let left = removal_changes(stack.expired(now_us), shown, Removal::Expired);
    let over = stack.leaving(now_us).filter(done);
    let ended = endings(over);
    let after = stack.advanced(now_us);
    let news = admission_changes(after.active, after.budget, after.limit, stack.admission());
    assert(told =~= left + ended + news);
    lemma_filter_holds(stack.active, lapsed, s);
    if stack.active.contains(s) && s.lapsed(now_us) {
        lemma_removals_tell(stack.expired(now_us), shown, Removal::Expired, s);
        let k = left.index_of(Change::Removed { id: s.id, reason: Removal::Expired });
        assert(told[k] == left[k]);
        if !fades_away(s, shown) {
            let j = left.index_of(Change::FadeFinished(s.id));
            assert(told[j] == left[j]);
        }
    }
    if stack.fading.contains(f) && f.over(now_us) {
        let all = stack.leaving(now_us);
        assert(all[stack.fading.index_of(f)] == f);
        lemma_filter_holds(all, done, f);
        let k = over.index_of(f);
        assert(ended[k] == Change::FadeFinished(f.source.id));
        assert(told[left.len() + k] == ended[k]);
    }
}

proof fn lemma_filter_holds<A>(all: Seq<A>, p: spec_fn(A) -> bool, x: A)
    ensures
        all.filter(p).contains(x) <==> all.contains(x) && p(x),
{
    if all.contains(x) && p(x) {
        all.lemma_filter_contains(p, all.index_of(x));
    }
    if all.filter(p).contains(x) {
        all.lemma_filter_contains_rev(p, x);
        all.lemma_filter_pred(p, all.filter(p).index_of(x));
    }
}

proof fn lemma_fades_hold(
    leaving: Seq<Source>,
    shown: Seq<Uuid>,
    started_at_us: u64,
    reason: Removal,
    f: Fading,
)
    ensures
        fades(leaving, shown, started_at_us, reason).contains(f) <==> leaving.contains(f.source)
            && fades_away(f.source, shown) && f.started_at_us == started_at_us && f.reason
            == reason,
    decreases leaving.len(),
{
    let all = fades(leaving, shown, started_at_us, reason);
    if leaving.len() > 0 {
        let rest = leaving.drop_last();
        let earlier = fades(rest, shown, started_at_us, reason);
        lemma_fades_hold(rest, shown, started_at_us, reason, f);
        if leaving.contains(f.source) && !rest.contains(f.source) {
            let k = leaving.index_of(f.source);
            if k < rest.len() {
                assert(rest[k] == f.source);
            }
        }
        if rest.contains(f.source) {
            assert(leaving[rest.index_of(f.source)] == f.source);
        }
        assert(leaving[leaving.len() - 1] == leaving.last());
        if all.contains(f) && !earlier.contains(f) {
            let k = all.index_of(f);
            if k < earlier.len() {
                assert(earlier[k] == f);
            }
        }
        if earlier.contains(f) {
            assert(all[earlier.index_of(f)] == f);
        }
        if fades_away(leaving.last(), shown) {
            assert(all[earlier.len() as int] == (Fading {
                source: leaving.last(),
                started_at_us,
                reason,
            }));
        }
    }
}

proof fn lemma_removals_tell(leaving: Seq<Source>, shown: Seq<Uuid>, reason: Removal, s: Source)
    requires
        leaving.contains(s),
    ensures
        removal_changes(leaving, shown, reason).contains(Change::Removed { id: s.id, reason }),
        !fades_away(s, shown) ==> removal_changes(leaving, shown, reason).contains(
            Change::FadeFinished(s.id),
        ),
    decreases leaving.len(),
{
    let rest = leaving.drop_last();
    let earlier = removal_changes(rest, shown, reason);
    let all = removal_changes(leaving, shown, reason);
    let n = earlier.len() as int;
    let (removed, finished) = (
        Change::Removed { id: s.id, reason },
        Change::FadeFinished(s.id),
    );
    if rest.contains(s) {
        lemma_removals_tell(rest, shown, reason, s);
        assert(all[earlier.index_of(removed)] == removed);
        if !fades_away(s, shown) {
            assert(all[earlier.index_of(finished)] == finished);
        }
    } else {
        let k = leaving.index_of(s);
        if k < rest.len() {
            assert(rest[k] == s);
        }
        assert(all[n] == removed);
        if !fades_away(s, shown) {
            assert(all[n + 1] == finished);
        }
    }
}

/// A new stack is empty, has the device's budget, and room for two at least. What is
/// spent is what the admitted cost.
pub proof fn law_a_new_stack_is_empty(budget: u32, max_concurrent: usize, stack: StackModel)
    ensures
        ({
            let new = StackModel::empty(budget as int, max_concurrent as int);
            &&& new.active.len() == 0 && new.fading.len() == 0
            &&& new.budget == budget
            &&& new.limit >= 2 && new.limit >= max_concurrent
            &&& new.limit == 2 || new.limit == max_concurrent
        }),
        stack.valid() ==> stack.admission().spent == total_cost(
            admitted_ahead(stack, stack.active.len() as int),
        ),
{
    if stack.valid() {
        lemma_admitted_ahead(stack, stack.active.len() as int);
        assert(stack.active.take(stack.active.len() as int) =~= stack.active);
    }
}

} // verus!
