//! Zones and projections.
//!
//! A zone is a **selector, evaluated on each device against its own LEDs** —
//! never resolved centrally into a pixel list. So a zone record replicates as
//! its selector rather than as a list of pixels, and a device moved to a new
//! position joins and leaves zones by itself with no publish step.
//!
//! Explicit sets are predictable and are what "this specific strip" means.
//! Geometric predicates survive rewiring and pick up new devices, which is what
//! "the bottom of the room" means. Being able to union and subtract them is what
//! makes both usable together.
//!
//! **A geometric clause never selects a device with synthetic coordinates.** A
//! synthetic device's coordinates are arbitrary, so `z < 0.3` would select it
//! essentially at random. Naming a device explicitly still selects it.
//!
//! Membership is recomputed on a device root change, a mapping change, or a zone
//! record change — never per frame.

use vstd::prelude::*;

use crate::lists::{lemma_filter_none, lemma_filter_pairs, lemma_filter_take};
use crate::num::{capped, most, most_of};
use crate::order::{in_order, sort, Ranked};
use crate::q16::{
    angle, clamp_unit, difference, greater, greater_of, is_arithmetic, length, lesser, lesser_of,
    magnitude, product, quotient, ratio, remainder, sum, unit_interval, whole_turn, Op, Q16,
};
use crate::uuid::Uuid;

verus! {

/// Why zone membership might need recomputing.
///
/// Separate causes because they settle differently.
#[derive(Clone, Copy, PartialEq, Eq, Debug, Structural)]
pub enum Resettle {
    /// The device's own root moved: the flickery one. An AR session refining a
    /// position emits these for as long as somebody points a phone at the
    /// device.
    RootMoved,
    /// The device's LED coordinates or map quality changed. Arrives from the
    /// same session as `RootMoved`, so it settles the same way.
    MappingChanged,
    /// A zone record was created, edited or deleted: somebody's deliberate act,
    /// so it applies at once.
    ZoneChanged,
}

/// How long a moved device waits for its position to stop changing.
pub const SETTLE_US: u64 = 500_000;

/// Decides when zone membership is worth recomputing.
///
/// It takes causes and a clock and answers a question; the caller does the
/// resolving. Waiting for quiet means a device shows its old membership
/// throughout a move and its new membership once.
#[derive(Clone, Copy, Debug)]
pub struct Settling {
    pending: bool,
    /// When the work becomes due. Already past for a cause that does not wait.
    due_at_us: u64,
}

impl View for Settling {
    type V = Option<u64>;

    /// When the waiting work is due, if any is waiting.
    closed spec fn view(&self) -> Option<u64> {
        if self.pending {
            Some(self.due_at_us)
        } else {
            None
        }
    }
}

/// When work that `cause` asks for at `now_us` may be done.
pub open spec fn ready_at(now_us: u64, cause: Resettle) -> int {
    match cause {
        Resettle::ZoneChanged => now_us as int,
        _ => capped(now_us + SETTLE_US),
    }
}

/// What is waiting once `cause` has come at `now_us`: the later of two deadlines
/// wins, so a move in progress keeps pushing the work out.
pub open spec fn touched(waiting: Option<u64>, now_us: u64, cause: Resettle) -> Option<u64> {
    match waiting {
        Some(due) => Some(most(due as int, ready_at(now_us, cause)) as u64),
        None => Some(ready_at(now_us, cause) as u64),
    }
}

/// Whether what is waiting may be done.
pub open spec fn due(waiting: Option<u64>, now_us: u64) -> bool {
    waiting matches Some(at) && now_us >= at
}

impl Default for Settling {
    fn default() -> (s: Settling)
        ensures
            s@ == None::<u64>,
    {
        Settling { pending: false, due_at_us: 0 }
    }
}

impl Settling {
    pub fn new() -> (s: Settling)
        ensures
            s@ == None::<u64>,
    {
        Settling { pending: false, due_at_us: 0 }
    }

    /// Note that something happened which membership depends on.
    pub fn touch(&mut self, now_us: u64, cause: Resettle)
        ensures
            final(self)@ == touched(old(self)@, now_us, cause),
    {
        let ready: u64 = match cause {
            Resettle::RootMoved | Resettle::MappingChanged => now_us.saturating_add(SETTLE_US),
            Resettle::ZoneChanged => now_us,
        };
        self.due_at_us = if self.pending {
            most_of(self.due_at_us, ready)
        } else {
            ready
        };
        self.pending = true;
    }

    /// Whether membership should be recomputed now.
    pub fn is_due(&self, now_us: u64) -> (r: bool)
        ensures
            r == due(self@, now_us),
    {
        self.pending && now_us >= self.due_at_us
    }

    /// Whether anything is waiting, due or not.
    pub fn is_pending(&self) -> (r: bool)
        ensures
            r == (self@ is Some),
    {
        self.pending
    }

    /// When to wake up, for a caller scheduling a timer.
    ///
    /// `None` when nothing is waiting, so a settled device stays asleep.
    pub fn due_at(&self) -> (r: Option<u64>)
        ensures
            r == self@,
    {
        if self.pending {
            Some(self.due_at_us)
        } else {
            None
        }
    }

    /// Record that the caller has recomputed.
    pub fn settled(&mut self)
        ensures
            final(self)@ == None::<u64>,
    {
        self.pending = false;
        self.due_at_us = 0;
    }
}

/// A move in progress keeps pushing the work out: nothing is due until the
/// position has been still for the whole wait.
pub proof fn law_nothing_is_due_mid_move(
    waiting: Option<u64>,
    moved_us: u64,
    now_us: u64,
    cause: Resettle,
)
    requires
        !(cause is ZoneChanged),
        now_us < moved_us + SETTLE_US,
        now_us < u64::MAX,
    ensures
        !due(touched(waiting, moved_us, cause), now_us),
{
}

/// With nothing else waiting, a zone edit is due at once and a moved device once
/// it has been still.
pub proof fn law_quiet_makes_work_due(touched_us: u64, now_us: u64, cause: Resettle)
    requires
        now_us >= touched_us,
        cause is ZoneChanged || now_us >= capped(touched_us + SETTLE_US),
    ensures
        due(touched(None, touched_us, cause), now_us),
{
}

/// No cause brings waiting work forward.
pub proof fn law_nothing_pulls_work_forward(
    waiting: Option<u64>,
    touched_us: u64,
    cause: Resettle,
    now_us: u64,
)
    requires
        waiting is Some,
    ensures
        due(touched(waiting, touched_us, cause), now_us) ==> due(waiting, now_us),
        touched(waiting, touched_us, cause)->0 >= waiting->0,
{
}

/// How much a device's coordinates can be trusted.
///
/// Ordered, so "rough or better" is a comparison.
#[derive(Clone, Copy, PartialEq, Eq, PartialOrd, Ord, Debug, Structural)]
pub enum MapQuality {
    /// Declared topology laid out along an arbitrary axis at an arbitrary
    /// origin: nothing geometric may rely on it.
    Synthetic,
    /// Placed by hand.
    Rough,
    /// Measured, from an AR mapping session.
    Mapped,
}

impl MapQuality {
    /// Whether a geometric predicate may select this device.
    pub fn is_geometrically_trustworthy(self) -> (r: bool)
        ensures
            r == !(self is Synthetic),
    {
        match self {
            MapQuality::Synthetic => false,
            MapQuality::Rough | MapQuality::Mapped => true,
        }
    }
}

/// One LED, with the coordinates every device always has.
#[derive(Clone, Copy, PartialEq, Eq, Debug)]
pub struct Led {
    /// Index within the device.
    pub index: u16,
    /// World coordinates in metres. Arbitrary when the device is synthetic.
    pub world: [Q16; 3],
    /// Coordinates relative to the device root.
    pub local: [Q16; 3],
}

/// This device's own LEDs, which is all it can evaluate a zone against.
#[derive(Clone, Debug)]
pub struct DeviceLeds {
    pub device: Uuid,
    pub quality: MapQuality,
    pub leds: Vec<Led>,
}

/// Which coordinate a comparison reads.
#[derive(Clone, Copy, PartialEq, Eq, Debug, Structural)]
pub enum Axis {
    X,
    Y,
    Z,
}

impl Axis {
    pub open spec fn along(self, p: [Q16; 3]) -> Q16 {
        match self {
            Axis::X => p[0],
            Axis::Y => p[1],
            Axis::Z => p[2],
        }
    }

    pub fn of(self, p: &[Q16; 3]) -> (r: Q16)
        ensures
            r == self.along(*p),
    {
        match self {
            Axis::X => p[0],
            Axis::Y => p[1],
            Axis::Z => p[2],
        }
    }
}

/// A comparison of two numbers.
#[derive(Clone, Copy, PartialEq, Eq, Debug, Structural)]
pub enum CmpOp {
    Lt,
    Le,
    Gt,
    Ge,
}

impl CmpOp {
    pub open spec fn compares(self, a: Q16, b: Q16) -> bool {
        match self {
            CmpOp::Lt => a.0 < b.0,
            CmpOp::Le => a.0 <= b.0,
            CmpOp::Gt => a.0 > b.0,
            CmpOp::Ge => a.0 >= b.0,
        }
    }

    pub fn holds(self, a: Q16, b: Q16) -> (r: bool)
        ensures
            r == self.compares(a, b),
    {
        match self {
            CmpOp::Lt => a.0 < b.0,
            CmpOp::Le => a.0 <= b.0,
            CmpOp::Gt => a.0 > b.0,
            CmpOp::Ge => a.0 >= b.0,
        }
    }
}

/// How far apart two points are.
pub open spec fn distance<F: Fn(Op, Q16, Q16, Q16) -> Q16>(
    unit: &F,
    p: [Q16; 3],
    q: [Q16; 3],
) -> Q16 {
    length(
        unit,
        difference(unit, p[0], q[0]),
        difference(unit, p[1], q[1]),
        difference(unit, p[2], q[2]),
    )
}

/// Distances, as `unit` works them out.
pub open spec fn measured<F: Fn(Op, Q16, Q16, Q16) -> Q16>(unit: &F) -> spec_fn(
    [Q16; 3],
    [Q16; 3],
) -> Q16 {
    |p: [Q16; 3], q: [Q16; 3]| distance(unit, p, q)
}

fn distance_between<F: Fn(Op, Q16, Q16, Q16) -> Q16>(
    unit: &F,
    p: &[Q16; 3],
    q: &[Q16; 3],
) -> (r: Q16)
    requires
        is_arithmetic(*unit),
    ensures
        r == distance(unit, *p, *q),
{
    length(
        unit,
        difference(unit, p[0], q[0]),
        difference(unit, p[1], q[1]),
        difference(unit, p[2], q[2]),
    )
}

/// A geometric test on one LED's world position.
#[derive(PartialEq, Debug)]
pub enum Predicate {
    Compare { axis: Axis, op: CmpOp, value: Q16 },
    /// Within `radius` of a point.
    Near { point: [Q16; 3], radius: Q16 },
    All(Vec<Predicate>),
    Any(Vec<Predicate>),
    Not(Box<Predicate>),
}

impl Predicate {
    /// Whether a point passes the test, with distances as `measure` gives them.
    pub open spec fn passes_by(
        self,
        measure: spec_fn([Q16; 3], [Q16; 3]) -> Q16,
        world: [Q16; 3],
    ) -> bool
        decreases self,
    {
        match self {
            Predicate::Compare { axis, op, value } => op.compares(axis.along(world), value),
            Predicate::Near { point, radius } => measure(world, point).0 < radius.0,
            Predicate::All(ps) => forall|i: int|
                0 <= i < ps@.len() ==> (#[trigger] ps@[i]).passes_by(measure, world),
            Predicate::Any(ps) => exists|i: int|
                0 <= i < ps@.len() && (#[trigger] ps@[i]).passes_by(measure, world),
            Predicate::Not(p) => !p.passes_by(measure, world),
        }
    }

    /// Whether a point passes the test.
    pub open spec fn passes<F: Fn(Op, Q16, Q16, Q16) -> Q16>(
        self,
        unit: &F,
        world: [Q16; 3],
    ) -> bool {
        self.passes_by(measured(unit), world)
    }

    pub fn holds<F: Fn(Op, Q16, Q16, Q16) -> Q16>(&self, unit: &F, world: &[Q16; 3]) -> (r: bool)
        requires
            is_arithmetic(*unit),
        ensures
            r == self.passes(unit, *world),
        decreases self,
    {
        match self {
            Predicate::Compare { axis, op, value } => op.holds(axis.of(world), *value),
            Predicate::Near { point, radius } => distance_between(unit, world, point).0 < radius.0,
            Predicate::All(ps) => {
                let mut i: usize = 0;
                #[verifier::loop_isolation(false)]
                while i < ps.len()
                    invariant
                        is_arithmetic(*unit),
                        *self == Predicate::All(*ps),
                        i <= ps@.len(),
                        forall|k: int| 0 <= k < i ==> (#[trigger] ps@[k]).passes(unit, *world),
                    decreases ps@.len() - i,
                {
                    if !ps[i].holds(unit, world) {
                        return false;
                    }
                    i += 1;
                }
                true
            },
            Predicate::Any(ps) => {
                let mut i: usize = 0;
                #[verifier::loop_isolation(false)]
                while i < ps.len()
                    invariant
                        is_arithmetic(*unit),
                        *self == Predicate::Any(*ps),
                        i <= ps@.len(),
                        forall|k: int| 0 <= k < i ==> !(#[trigger] ps@[k]).passes(unit, *world),
                    decreases ps@.len() - i,
                {
                    if ps[i].holds(unit, world) {
                        return true;
                    }
                    i += 1;
                }
                false
            },
            Predicate::Not(p) => !p.holds(unit, world),
        }
    }
}

/// One term of a zone selector.
#[derive(PartialEq, Debug)]
pub enum Clause {
    /// Name a device, optionally a range of its LEDs: `[from, to)`.
    ///
    /// Naming a device selects it whatever its mapping quality.
    Device { device: Uuid, leds: Option<(u16, u16)> },
    /// A geometric test. Never matches a synthetic device.
    Where(Predicate),
}

impl Clause {
    /// Whether this clause selects an LED of `device`, whose coordinates are
    /// `trusted` or not.
    pub open spec fn selects<F: Fn(Op, Q16, Q16, Q16) -> Q16>(
        self,
        unit: &F,
        device: Uuid,
        trusted: bool,
        led: Led,
    ) -> bool {
        match self {
            Clause::Device { device: named, leds } => named == device && (leds matches Some((
                from,
                to,
            )) ==> from <= led.index < to),
            Clause::Where(p) => trusted && p.passes(unit, led.world),
        }
    }

    /// Whether this clause selects `led`, an LED of `device`.
    pub fn matches<F: Fn(Op, Q16, Q16, Q16) -> Q16>(
        &self,
        unit: &F,
        device: Uuid,
        trusted: bool,
        led: &Led,
    ) -> (r: bool)
        requires
            is_arithmetic(*unit),
        ensures
            r == self.selects(unit, device, trusted, *led),
    {
        match self {
            Clause::Device { device: named, leds } => {
                if *named != device {
                    return false;
                }
                match leds {
                    Some((from, to)) => led.index >= *from && led.index < *to,
                    None => true,
                }
            },
            // Arbitrary coordinates would match at random.
            Clause::Where(p) => trusted && p.holds(unit, &led.world),
        }
    }
}

/// Whether any of the clauses selects an LED.
pub open spec fn any_selects<F: Fn(Op, Q16, Q16, Q16) -> Q16>(
    clauses: Seq<Clause>,
    unit: &F,
    device: Uuid,
    trusted: bool,
    led: Led,
) -> bool {
    exists|i: int|
        0 <= i < clauses.len() && (#[trigger] clauses[i]).selects(unit, device, trusted, led)
}

fn any_matches<F: Fn(Op, Q16, Q16, Q16) -> Q16>(
    clauses: &Vec<Clause>,
    unit: &F,
    device: Uuid,
    trusted: bool,
    led: &Led,
) -> (r: bool)
    requires
        is_arithmetic(*unit),
    ensures
        r == any_selects(clauses@, unit, device, trusted, *led),
{
    let mut i: usize = 0;
    while i < clauses.len()
        invariant
            is_arithmetic(*unit),
            i <= clauses@.len(),
            forall|k: int|
                0 <= k < i ==> !(#[trigger] clauses@[k]).selects(unit, device, trusted, *led),
        decreases clauses@.len() - i,
    {
        if clauses[i].matches(unit, device, trusted, led) {
            assert(clauses@[i as int].selects(unit, device, trusted, *led));
            return true;
        }
        i += 1;
    }
    false
}

/// What `u` means for a zone's pixels.
///
/// An effect written for a 1D strip must still work on a mapped 3D device. `x`,
/// `y` and `z` stay world coordinates regardless.
#[derive(Clone, Copy, PartialEq, Eq, Debug)]
pub enum Projection {
    /// Index along the physical strip. The default, and correct for an unmapped
    /// device.
    Strip,
    /// Position projected onto a vector, normalised over the zone's bounds.
    Axis([Q16; 3]),
    /// Distance from a point, normalised over the zone's bounds.
    Radial([Q16; 3]),
    /// Angle around an axis, in turns. Good for rings and ceilings.
    Angle(Axis),
    /// A rectangle, giving effects a `uv` pair as well as `u`.
    Grid { width: u16, height: u16 },
}

/// A zone: what it covers, and what `u` means inside it.
#[derive(PartialEq, Debug)]
pub struct Zone {
    pub id: Uuid,
    pub included: Vec<Clause>,
    pub excluded: Vec<Clause>,
    pub projection: Projection,
}

/// The extent of a zone's members, for normalising a projection.
///
/// Computed once when membership is resolved.
#[derive(Clone, Copy, PartialEq, Eq, Debug)]
pub struct Bounds {
    pub min: [Q16; 3],
    pub max: [Q16; 3],
    /// How many LEDs of this device the zone covers.
    pub count: u16,
}

/// Point by point, the smaller of two.
pub open spec fn low_corner(p: [Q16; 3], q: [Q16; 3]) -> [Q16; 3] {
    [lesser(p[0], q[0]), lesser(p[1], q[1]), lesser(p[2], q[2])]
}

/// Point by point, the larger of two.
pub open spec fn high_corner(p: [Q16; 3], q: [Q16; 3]) -> [Q16; 3] {
    [greater(p[0], q[0]), greater(p[1], q[1]), greater(p[2], q[2])]
}

/// The box around some LEDs, and how many they are.
pub open spec fn extent(leds: Seq<Led>) -> Bounds
    decreases leds.len(),
{
    if leds.len() == 0 {
        Bounds {
            min: [Q16(i32::MAX), Q16(i32::MAX), Q16(i32::MAX)],
            max: [Q16(i32::MIN), Q16(i32::MIN), Q16(i32::MIN)],
            count: 0,
        }
    } else {
        let rest = extent(leds.drop_last());
        Bounds {
            min: low_corner(rest.min, leds.last().world),
            max: high_corner(rest.max, leds.last().world),
            count: if rest.count < u16::MAX {
                (rest.count + 1) as u16
            } else {
                rest.count
            },
        }
    }
}

/// The middle of a box.
pub open spec fn middle<F: Fn(Op, Q16, Q16, Q16) -> Q16>(unit: &F, bounds: Bounds) -> [Q16; 3] {
    [
        product(unit, sum(unit, bounds.min[0], bounds.max[0]), Q16::half()),
        product(unit, sum(unit, bounds.min[1], bounds.max[1]), Q16::half()),
        product(unit, sum(unit, bounds.min[2], bounds.max[2]), Q16::half()),
    ]
}

impl Bounds {
    fn empty() -> (b: Bounds)
        ensures
            b == extent(Seq::empty()),
    {
        Bounds {
            min: [Q16(i32::MAX), Q16(i32::MAX), Q16(i32::MAX)],
            max: [Q16(i32::MIN), Q16(i32::MIN), Q16(i32::MIN)],
            count: 0,
        }
    }

    fn take_in(&mut self, led: &Led, Ghost(members): Ghost<Seq<Led>>)
        requires
            *old(self) == extent(members),
        ensures
            *final(self) == extent(members.push(*led)),
    {
        assert(members.push(*led).drop_last() =~= members);
        let (lo, hi, here) = (self.min, self.max, led.world);
        self.min =
        [
            lesser_of(lo[0], here[0]),
            lesser_of(lo[1], here[1]),
            lesser_of(lo[2], here[2]),
        ];
        self.max =
        [
            greater_of(hi[0], here[0]),
            greater_of(hi[1], here[1]),
            greater_of(hi[2], here[2]),
        ];
        self.count = self.count.saturating_add(1);
    }

    /// How far the box reaches along an axis.
    pub fn span<F: Fn(Op, Q16, Q16, Q16) -> Q16>(&self, unit: &F, axis: Axis) -> (r: Q16)
        requires
            is_arithmetic(*unit),
        ensures
            r == difference(unit, axis.along(self.max), axis.along(self.min)),
    {
        difference(unit, axis.of(&self.max), axis.of(&self.min))
    }

    /// The middle of the box.
    pub fn centre<F: Fn(Op, Q16, Q16, Q16) -> Q16>(&self, unit: &F) -> (r: [Q16; 3])
        requires
            is_arithmetic(*unit),
        ensures
            r == middle(unit, *self),
    {
        [
            product(unit, sum(unit, self.min[0], self.max[0]), Q16::half()),
            product(unit, sum(unit, self.min[1], self.max[1]), Q16::half()),
            product(unit, sum(unit, self.min[2], self.max[2]), Q16::half()),
        ]
    }
}

/// Which of this device's LEDs a zone covers, and their extent.
#[derive(Clone, PartialEq, Eq, Debug)]
pub struct Membership {
    pub zone: Uuid,
    /// Indices into the device's LED list, ascending.
    pub leds: Vec<u16>,
    pub bounds: Bounds,
}

impl Ranked for u16 {
    open spec fn at_most(self, other: u16) -> bool {
        self <= other
    }

    proof fn total(a: u16, b: u16) {
    }

    proof fn transitive(a: u16, b: u16, c: u16) {
    }

    fn is_at_most(&self, other: &u16) -> (r: bool) {
        *self <= *other
    }
}

/// Whether `indices` are those of some LEDs, each as often as it occurs, in
/// ascending order.
pub open spec fn names_ascending(indices: Seq<u16>, leds: Seq<Led>) -> bool {
    &&& in_order(indices)
    &&& indices.to_multiset() == leds.map_values(|led: Led| led.index).to_multiset()
}

impl Membership {
    pub fn is_empty(&self) -> (r: bool)
        ensures
            r == (self.leds@.len() == 0),
    {
        self.leds.len() == 0
    }

    pub fn contains(&self, index: u16) -> (r: bool)
        ensures
            r == self.leds@.contains(index),
    {
        let mut i: usize = 0;
        while i < self.leds.len()
            invariant
                i <= self.leds@.len(),
                forall|k: int| 0 <= k < i ==> self.leds@[k] != index,
            decreases self.leds@.len() - i,
        {
            if self.leds[i] == index {
                assert(self.leds@[i as int] == index);
                return true;
            }
            i += 1;
        }
        false
    }
}

impl Zone {
    /// Whether this zone covers an LED: some clause takes it in and none takes
    /// it out.
    pub open spec fn covers<F: Fn(Op, Q16, Q16, Q16) -> Q16>(
        self,
        unit: &F,
        device: Uuid,
        trusted: bool,
        led: Led,
    ) -> bool {
        any_selects(self.included@, unit, device, trusted, led) && !any_selects(
            self.excluded@,
            unit,
            device,
            trusted,
            led,
        )
    }

    /// The LEDs of a device that this zone covers.
    pub open spec fn members<F: Fn(Op, Q16, Q16, Q16) -> Q16>(
        self,
        unit: &F,
        device: Uuid,
        trusted: bool,
        leds: Seq<Led>,
    ) -> Seq<Led> {
        leds.filter(|led: Led| self.covers(unit, device, trusted, led))
    }

    /// Whether this is what the zone comes to on a device.
    pub open spec fn resolves_to<F: Fn(Op, Q16, Q16, Q16) -> Q16>(
        self,
        unit: &F,
        dev: DeviceLeds,
        m: Membership,
    ) -> bool {
        let members = self.members(unit, dev.device, !(dev.quality is Synthetic), dev.leds@);
        &&& m.zone == self.id
        &&& names_ascending(m.leds@, members)
        &&& m.bounds == extent(members)
    }

    /// Whether placing a device would be enough for the zone to cover some of it.
    pub open spec fn wants_placing<F: Fn(Op, Q16, Q16, Q16) -> Q16>(
        self,
        unit: &F,
        dev: DeviceLeds,
    ) -> bool {
        &&& dev.quality is Synthetic
        &&& self.members(unit, dev.device, false, dev.leds@).len() == 0
        &&& self.members(unit, dev.device, true, dev.leds@).len() > 0
    }

    fn takes<F: Fn(Op, Q16, Q16, Q16) -> Q16>(
        &self,
        unit: &F,
        device: Uuid,
        trusted: bool,
        led: &Led,
    ) -> (r: bool)
        requires
            is_arithmetic(*unit),
        ensures
            r == self.covers(unit, device, trusted, *led),
    {
        any_matches(&self.included, unit, device, trusted, led) && !any_matches(
            &self.excluded,
            unit,
            device,
            trusted,
            led,
        )
    }

    /// Resolve this zone against one device's LEDs.
    ///
    /// Call on a device root change, a mapping change, or a zone record change —
    /// **not per frame**.
    pub fn resolve<F: Fn(Op, Q16, Q16, Q16) -> Q16>(&self, unit: &F, dev: &DeviceLeds) -> (m:
        Membership)
        requires
            is_arithmetic(*unit),
        ensures
            m.zone == self.id,
            names_ascending(
                m.leds@,
                self.members(unit, dev.device, !(dev.quality is Synthetic), dev.leds@),
            ),
            m.bounds == extent(
                self.members(unit, dev.device, !(dev.quality is Synthetic), dev.leds@),
            ),
            self.resolves_to(unit, *dev, m),
    {
        let trusted: bool = dev.quality.is_geometrically_trustworthy();
        let ghost covered = |led: Led| self.covers(unit, dev.device, trusted, led);
        let ghost name = |led: Led| led.index;
        let mut leds: Vec<u16> = Vec::new();
        let mut bounds = Bounds::empty();
        let mut i: usize = 0;
        proof {
            reveal(Seq::filter);
            assert(dev.leds@.take(0) =~= Seq::<Led>::empty());
            assert(leds@ =~= dev.leds@.take(0).filter(covered).map_values(name));
        }
        while i < dev.leds.len()
            invariant
                is_arithmetic(*unit),
                trusted == !(dev.quality is Synthetic),
                covered == (|led: Led| self.covers(unit, dev.device, trusted, led)),
                name == (|led: Led| led.index),
                i <= dev.leds@.len(),
                leds@ == dev.leds@.take(i as int).filter(covered).map_values(name),
                bounds == extent(dev.leds@.take(i as int).filter(covered)),
            decreases dev.leds@.len() - i,
        {
            let led = dev.leds[i];
            let ghost before = dev.leds@.take(i as int).filter(covered);
            proof {
                lemma_filter_take(dev.leds@, i as int, covered);
            }
            if self.takes(unit, dev.device, trusted, &led) {
                leds.push(led.index);
                bounds.take_in(&led, Ghost(before));
                assert(leds@ =~= before.push(led).map_values(name));
            }
            i += 1;
        }
        assert(dev.leds@.take(i as int) =~= dev.leds@);
        // A device may list its LEDs in any order; `u` along a strip goes by index.
        sort(&mut leds);
        Membership { zone: self.id, leds, bounds }
    }

    /// Whether this zone would select `dev` if only its mapping were better.
    ///
    /// The app needs this to say "the ceiling strip is not in this zone because
    /// it has not been placed", with a route to placing it.
    pub fn excluded_for_mapping<F: Fn(Op, Q16, Q16, Q16) -> Q16>(
        &self,
        unit: &F,
        dev: &DeviceLeds,
    ) -> (r: bool)
        requires
            is_arithmetic(*unit),
        ensures
            r == (dev.quality is Synthetic && self.members(
                unit,
                dev.device,
                false,
                dev.leds@,
            ).len() == 0 && self.members(unit, dev.device, true, dev.leds@).len() > 0),
            r == self.wants_placing(unit, *dev),
    {
        if dev.quality.is_geometrically_trustworthy() {
            return false;
        }
        if self.takes_any(unit, dev, false) {
            return false;
        }
        // Would any LED match if the coordinates were trusted?
        self.takes_any(unit, dev, true)
    }

    fn takes_any<F: Fn(Op, Q16, Q16, Q16) -> Q16>(
        &self,
        unit: &F,
        dev: &DeviceLeds,
        trusted: bool,
    ) -> (r: bool)
        requires
            is_arithmetic(*unit),
        ensures
            r == (self.members(unit, dev.device, trusted, dev.leds@).len() > 0),
    {
        let ghost covered = |led: Led| self.covers(unit, dev.device, trusted, led);
        let mut i: usize = 0;
        while i < dev.leds.len()
            invariant
                is_arithmetic(*unit),
                covered == (|led: Led| self.covers(unit, dev.device, trusted, led)),
                i <= dev.leds@.len(),
                forall|k: int| 0 <= k < i ==> !covered(#[trigger] dev.leds@[k]),
            decreases dev.leds@.len() - i,
        {
            if self.takes(unit, dev.device, trusted, &dev.leds[i]) {
                assert(covered(dev.leds@[i as int]));
                proof {
                    dev.leds@.lemma_filter_contains(covered, i as int);
                }
                return true;
            }
            i += 1;
        }
        proof {
            lemma_filter_none(dev.leds@, covered);
        }
        false
    }
}

/// Where a pixel sits inside a source's zone.
///
/// **`u` is per-source, not per-pixel.** Zones may overlap and two overlapping
/// zones may declare different projections, so a pixel covered by three sources
/// has three different values of `u` in one frame, and that is correct.
#[derive(Clone, Copy, PartialEq, Eq, Debug)]
pub struct Projected {
    pub u: Q16,
    /// Set only for a grid.
    pub uv: Option<(Q16, Q16)>,
}

/// How far along a list of `count` the place `ordinal` is: nothing at the first,
/// everything at the last.
pub open spec fn fraction_along<F: Fn(Op, Q16, Q16, Q16) -> Q16>(
    unit: &F,
    ordinal: int,
    count: int,
) -> Q16 {
    if count <= 1 {
        Q16::zero()
    } else {
        unit_interval(ratio(unit, ordinal as i32, (count - 1) as i32))
    }
}

/// How far `value` is from `lo` to `hi`, held to that range. Along no distance at
/// all, zero is the only answer that is not arbitrary.
pub open spec fn normalised<F: Fn(Op, Q16, Q16, Q16) -> Q16>(
    unit: &F,
    value: Q16,
    lo: Q16,
    hi: Q16,
) -> Q16 {
    let span = difference(unit, hi, lo);
    if span.0 == 0 {
        Q16::zero()
    } else {
        unit_interval(quotient(unit, difference(unit, value, lo), span))
    }
}

/// The component of `p` along `v`, where `v` is a unit vector.
pub open spec fn component<F: Fn(Op, Q16, Q16, Q16) -> Q16>(
    unit: &F,
    p: [Q16; 3],
    v: [Q16; 3],
) -> Q16 {
    sum(
        unit,
        sum(unit, product(unit, p[0], v[0]), product(unit, p[1], v[1])),
        product(unit, p[2], v[2]),
    )
}

/// The least component along `v` that a point of the box can have: each axis gives
/// the lesser of its two ends.
pub open spec fn least_component<F: Fn(Op, Q16, Q16, Q16) -> Q16>(
    unit: &F,
    bounds: Bounds,
    v: [Q16; 3],
) -> Q16 {
    let end = |k: int|
        lesser(product(unit, bounds.min[k], v[k]), product(unit, bounds.max[k], v[k]));
    sum(unit, sum(unit, end(0), end(1)), end(2))
}

/// The greatest component along `v` that a point of the box can have.
pub open spec fn greatest_component<F: Fn(Op, Q16, Q16, Q16) -> Q16>(
    unit: &F,
    bounds: Bounds,
    v: [Q16; 3],
) -> Q16 {
    let end = |k: int|
        greater(product(unit, bounds.min[k], v[k]), product(unit, bounds.max[k], v[k]));
    sum(unit, sum(unit, end(0), end(1)), end(2))
}

/// The further of two coordinates from a third.
pub open spec fn furthest<F: Fn(Op, Q16, Q16, Q16) -> Q16>(
    unit: &F,
    hi: Q16,
    lo: Q16,
    from: Q16,
) -> Q16 {
    greater(
        magnitude(unit, difference(unit, hi, from)),
        magnitude(unit, difference(unit, lo, from)),
    )
}

/// How far the far corner of a box is from a point.
pub open spec fn reach<F: Fn(Op, Q16, Q16, Q16) -> Q16>(
    unit: &F,
    bounds: Bounds,
    from: [Q16; 3],
) -> Q16 {
    length(
        unit,
        furthest(unit, bounds.max[0], bounds.min[0], from[0]),
        furthest(unit, bounds.max[1], bounds.min[1], from[1]),
        furthest(unit, bounds.max[2], bounds.min[2], from[2]),
    )
}

/// Where a point is around an axis of the box, in turns.
pub open spec fn turned<F: Fn(Op, Q16, Q16, Q16) -> Q16>(
    unit: &F,
    axis: Axis,
    world: [Q16; 3],
    bounds: Bounds,
) -> Q16 {
    let centre = middle(unit, bounds);
    let x = difference(unit, world[0], centre[0]);
    let y = difference(unit, world[1], centre[1]);
    let z = difference(unit, world[2], centre[2]);
    let bearing = match axis {
        Axis::X => angle(unit, z, y),
        Axis::Y => angle(unit, x, z),
        Axis::Z => angle(unit, y, x),
    };
    remainder(unit, quotient(unit, bearing, whole_turn(unit)))
}

/// A size, taken as one where it is zero.
pub open spec fn at_least_one(n: u16) -> int {
    if n == 0 {
        1
    } else {
        n as int
    }
}

impl Projection {
    /// Where `led` sits, given the zone's extent and the LED's place among its
    /// members.
    pub open spec fn places<F: Fn(Op, Q16, Q16, Q16) -> Q16>(
        self,
        unit: &F,
        led: Led,
        bounds: Bounds,
        ordinal: u16,
    ) -> Projected {
        match self {
            Projection::Strip => Projected {
                u: fraction_along(unit, ordinal as int, bounds.count as int),
                uv: None,
            },
            Projection::Axis(v) => Projected {
                u: normalised(
                    unit,
                    component(unit, led.world, v),
                    least_component(unit, bounds, v),
                    greatest_component(unit, bounds, v),
                ),
                uv: None,
            },
            Projection::Radial(p) => Projected {
                u: normalised(
                    unit,
                    distance(unit, led.world, p),
                    Q16::zero(),
                    reach(unit, bounds, p),
                ),
                uv: None,
            },
            Projection::Angle(axis) => Projected {
                u: turned(unit, axis, led.world, bounds),
                uv: None,
            },
            Projection::Grid { width, height } => {
                let (w, h) = (at_least_one(width), at_least_one(height));
                let row = ordinal as int / w;
                Projected {
                    u: fraction_along(unit, ordinal as int, bounds.count as int),
                    uv: Some(
                        (
                            fraction_along(unit, ordinal as int % w, w),
                            fraction_along(
                                unit,
                                if row < h {
                                    row
                                } else {
                                    h - 1
                                },
                                h,
                            ),
                        ),
                    ),
                }
            },
        }
    }

    /// Where `led` sits, given the zone's extent and its position in the
    /// membership list.
    ///
    /// `ordinal` is the LED's position among the zone's members — the physical
    /// order along the strip, not the raw device index, so a zone covering LEDs
    /// 40..60 still runs `u` from 0 to 1 across them.
    pub fn project<F: Fn(Op, Q16, Q16, Q16) -> Q16>(
        &self,
        unit: &F,
        led: &Led,
        bounds: &Bounds,
        ordinal: u16,
    ) -> (r: Projected)
        requires
            is_arithmetic(*unit),
        ensures
            r == self.places(unit, *led, *bounds, ordinal),
    {
        match self {
            Projection::Strip => Projected {
                u: fraction(unit, ordinal, bounds.count),
                uv: None,
            },
            Projection::Axis(v) => {
                // Normalised over the zone's extent along the same vector:
                // anything else would make `u` depend on how the zone happens to
                // be shaped.
                let here = dot(unit, &led.world, v);
                let (lo, hi) = extent_along(unit, bounds, v);
                Projected { u: normalise(unit, here, lo, hi), uv: None }
            },
            Projection::Radial(p) => {
                let d = distance_between(unit, &led.world, p);
                // The far corner of the zone's box is the furthest anything in it
                // can be, so it is the natural normaliser.
                let far = length(
                    unit,
                    further_of(unit, bounds.max[0], bounds.min[0], p[0]),
                    further_of(unit, bounds.max[1], bounds.min[1], p[1]),
                    further_of(unit, bounds.max[2], bounds.min[2], p[2]),
                );
                Projected { u: normalise(unit, d, Q16::zero(), far), uv: None }
            },
            Projection::Angle(axis) => {
                let centre = bounds.centre(unit);
                let (a, b) = match axis {
                    Axis::X => (
                        difference(unit, led.world[1], centre[1]),
                        difference(unit, led.world[2], centre[2]),
                    ),
                    Axis::Y => (
                        difference(unit, led.world[2], centre[2]),
                        difference(unit, led.world[0], centre[0]),
                    ),
                    Axis::Z => (
                        difference(unit, led.world[0], centre[0]),
                        difference(unit, led.world[1], centre[1]),
                    ),
                };
                // In turns, not radians: an effect wanting one rotation per
                // second then needs no constant anywhere.
                let turns = quotient(unit, angle(unit, b, a), whole_turn(unit));
                Projected { u: remainder(unit, turns), uv: None }
            },
            Projection::Grid { width, height } => {
                let w: u16 = if *width == 0 {
                    1
                } else {
                    *width
                };
                let h: u16 = if *height == 0 {
                    1
                } else {
                    *height
                };
                let col: u16 = ordinal % w;
                let down: u16 = ordinal / w;
                let row: u16 = if down < h {
                    down
                } else {
                    h - 1
                };
                let u = fraction(unit, col, w);
                let v = fraction(unit, row, h);
                Projected {
                    // `u` stays meaningful on a grid so a 1D effect still runs on
                    // a panel.
                    u: fraction(unit, ordinal, bounds.count),
                    uv: Some((u, v)),
                }
            },
        }
    }

    pub fn is_grid(&self) -> (r: bool)
        ensures
            r == (self is Grid),
    {
        match self {
            Projection::Grid { .. } => true,
            _ => false,
        }
    }
}

/// `ordinal / (count - 1)`, so the first LED is 0 and the last is exactly 1.
///
/// Dividing by `count` instead would make the last LED fall short of 1 — visible
/// as a dark final pixel on every gradient.
fn fraction<F: Fn(Op, Q16, Q16, Q16) -> Q16>(unit: &F, ordinal: u16, count: u16) -> (r: Q16)
    requires
        is_arithmetic(*unit),
    ensures
        r == fraction_along(unit, ordinal as int, count as int),
{
    if count <= 1 {
        return Q16::zero();
    }
    clamp_unit(ratio(unit, ordinal as i32, (count - 1) as i32))
}

fn normalise<F: Fn(Op, Q16, Q16, Q16) -> Q16>(unit: &F, value: Q16, lo: Q16, hi: Q16) -> (r: Q16)
    requires
        is_arithmetic(*unit),
    ensures
        r == normalised(unit, value, lo, hi),
{
    let span = difference(unit, hi, lo);
    if span.0 == 0 {
        return Q16::zero();
    }
    clamp_unit(quotient(unit, difference(unit, value, lo), span))
}

fn dot<F: Fn(Op, Q16, Q16, Q16) -> Q16>(unit: &F, p: &[Q16; 3], v: &[Q16; 3]) -> (r: Q16)
    requires
        is_arithmetic(*unit),
    ensures
        r == component(unit, *p, *v),
{
    sum(
        unit,
        sum(unit, product(unit, p[0], v[0]), product(unit, p[1], v[1])),
        product(unit, p[2], v[2]),
    )
}

/// The least and the greatest component along `v` over a box. Each axis chooses its
/// own end: along a vector of mixed signs neither extreme is at the box's lowest or
/// highest corner.
fn extent_along<F: Fn(Op, Q16, Q16, Q16) -> Q16>(unit: &F, bounds: &Bounds, v: &[Q16; 3]) -> (r: (
    Q16,
    Q16,
))
    requires
        is_arithmetic(*unit),
    ensures
        r.0 == least_component(unit, *bounds, *v),
        r.1 == greatest_component(unit, *bounds, *v),
{
    let low = [
        product(unit, bounds.min[0], v[0]),
        product(unit, bounds.min[1], v[1]),
        product(unit, bounds.min[2], v[2]),
    ];
    let high = [
        product(unit, bounds.max[0], v[0]),
        product(unit, bounds.max[1], v[1]),
        product(unit, bounds.max[2], v[2]),
    ];
    (
        sum(
            unit,
            sum(unit, lesser_of(low[0], high[0]), lesser_of(low[1], high[1])),
            lesser_of(low[2], high[2]),
        ),
        sum(
            unit,
            sum(unit, greater_of(low[0], high[0]), greater_of(low[1], high[1])),
            greater_of(low[2], high[2]),
        ),
    )
}

fn further_of<F: Fn(Op, Q16, Q16, Q16) -> Q16>(unit: &F, hi: Q16, lo: Q16, from: Q16) -> (r: Q16)
    requires
        is_arithmetic(*unit),
    ensures
        r == furthest(unit, hi, lo, from),
{
    greater_of(
        magnitude(unit, difference(unit, hi, from)),
        magnitude(unit, difference(unit, lo, from)),
    )
}

/// A geometric clause never selects a device with synthetic coordinates.
pub proof fn law_geometry_never_selects_the_unplaced<F: Fn(Op, Q16, Q16, Q16) -> Q16>(
    test: Predicate,
    unit: &F,
    device: Uuid,
    led: Led,
)
    ensures
        !Clause::Where(test).selects(unit, device, false, led),
{
}

/// Naming a device selects its LEDs whatever its coordinates are worth, and no
/// LED of any other device.
pub proof fn law_naming_is_enough<F: Fn(Op, Q16, Q16, Q16) -> Q16>(
    named: Uuid,
    unit: &F,
    device: Uuid,
    trusted: bool,
    led: Led,
)
    ensures
        (Clause::Device { device: named, leds: None }).selects(unit, device, trusted, led) == (named
            == device),
{
}

/// A zone that is all geometry covers nothing on a device that was not placed.
pub proof fn law_the_unplaced_are_left_out<F: Fn(Op, Q16, Q16, Q16) -> Q16>(
    zone: Zone,
    unit: &F,
    device: Uuid,
    leds: Seq<Led>,
)
    requires
        ({
            let terms = zone.included@;
            forall|i: int| 0 <= i < terms.len() ==> #[trigger] terms[i] is Where
        }),
    ensures
        zone.members(unit, device, false, leds) == Seq::<Led>::empty(),
{
    lemma_filter_none(leds, |led: Led| zone.covers(unit, device, false, led));
}

/// Exactly what is taken in and not taken out is a member.
pub proof fn law_members_are_what_is_covered<F: Fn(Op, Q16, Q16, Q16) -> Q16>(
    zone: Zone,
    unit: &F,
    device: Uuid,
    trusted: bool,
    leds: Seq<Led>,
    led: Led,
)
    ensures
        zone.members(unit, device, trusted, leds).contains(led) <==> leds.contains(led)
            && zone.covers(unit, device, trusted, led),
{
    let covered = |led: Led| zone.covers(unit, device, trusted, led);
    if leds.contains(led) && covered(led) {
        leds.lemma_filter_contains(covered, leds.index_of(led));
    }
    if leds.filter(covered).contains(led) {
        leds.lemma_filter_contains_rev(covered, led);
        leds.lemma_filter_pred(covered, leds.filter(covered).index_of(led));
    }
}

/// A membership ascends whatever order the device lists its LEDs in: it names
/// exactly what is covered, no index before a smaller one, and none twice where the
/// device numbers each LED differently.
pub proof fn law_members_ascend<F: Fn(Op, Q16, Q16, Q16) -> Q16>(
    zone: Zone,
    unit: &F,
    device: Uuid,
    trusted: bool,
    leds: Seq<Led>,
    indices: Seq<u16>,
)
    requires
        names_ascending(indices, zone.members(unit, device, trusted, leds)),
    ensures
        forall|i: int, j: int|
            0 <= i < j < indices.len() ==> #[trigger] indices[i] <= #[trigger] indices[j],
        forall|index: u16| #[trigger]
            indices.contains(index) <==> exists|led: Led| #[trigger]
                leds.contains(led) && zone.covers(unit, device, trusted, led) && led.index == index,
        leds.map_values(|led: Led| led.index).no_duplicates() ==> forall|i: int, j: int|
            0 <= i < j < indices.len() ==> #[trigger] indices[i] < #[trigger] indices[j],
{
    broadcast use vstd::seq_lib::group_to_multiset_ensures;

    let covered = |led: Led| zone.covers(unit, device, trusted, led);
    let name = |led: Led| led.index;
    let members = zone.members(unit, device, trusted, leds);
    let named = members.map_values(name);
    assert forall|i: int, j: int| 0 <= i < j < indices.len() implies #[trigger] indices[i]
        <= #[trigger] indices[j] by {
        assert(indices[i].at_most(indices[j]));
    }
    assert forall|index: u16| #[trigger] indices.contains(index) <==> exists|led: Led| #[trigger]
        leds.contains(led) && covered(led) && led.index == index by {
        assert(indices.contains(index) <==> indices.to_multiset().count(index) > 0);
        assert(named.contains(index) <==> named.to_multiset().count(index) > 0);
        if named.contains(index) {
            let k = choose|k: int| 0 <= k < named.len() && named[k] == index;
            assert(members.contains(members[k]));
            law_members_are_what_is_covered(zone, unit, device, trusted, leds, members[k]);
        }
        if exists|led: Led| #[trigger]
            leds.contains(led) && covered(led) && led.index == index {
            let led = choose|led: Led| #[trigger]
                leds.contains(led) && covered(led) && led.index == index;
            law_members_are_what_is_covered(zone, unit, device, trusted, leds, led);
            let k = choose|k: int| 0 <= k < members.len() && members[k] == led;
            assert(named[k] == index);
        }
    }
    if leds.map_values(name).no_duplicates() {
        let apart = |a: Led, b: Led| a.index != b.index;
        assert forall|i: int, j: int| 0 <= i < j < leds.len() implies apart(
            #[trigger] leds[i],
            #[trigger] leds[j],
        ) by {
            assert(leds.map_values(name)[i] != leds.map_values(name)[j]);
        }
        lemma_filter_pairs(leds, covered, apart);
        assert forall|i: int, j: int| 0 <= i < named.len() && 0 <= j < named.len() && i
            != j implies #[trigger] named[i] != #[trigger] named[j] by {
            if i < j {
                assert(apart(members[i], members[j]));
            } else {
                assert(apart(members[j], members[i]));
            }
        }
        named.lemma_multiset_has_no_duplicates();
        indices.lemma_multiset_has_no_duplicates_conv();
        assert forall|i: int, j: int| 0 <= i < j < indices.len() implies #[trigger] indices[i]
            < #[trigger] indices[j] by {
            assert(indices[i].at_most(indices[j]));
            assert(indices[i] != indices[j]);
        }
    }
}

/// The box around some LEDs holds each of them, and is no larger than they make
/// it.
pub proof fn law_bounds_fit_their_members(leds: Seq<Led>, axis: Axis)
    requires
        leds.len() > 0,
    ensures
        forall|i: int|
            0 <= i < leds.len() ==> axis.along(extent(leds).min).0 <= axis.along(
                (#[trigger] leds[i]).world,
            ).0 <= axis.along(extent(leds).max).0,
        exists|i: int|
            0 <= i < leds.len() && axis.along((#[trigger] leds[i]).world) == axis.along(
                extent(leds).min,
            ),
        exists|i: int|
            0 <= i < leds.len() && axis.along((#[trigger] leds[i]).world) == axis.along(
                extent(leds).max,
            ),
    decreases leds.len(),
{
    let rest = leds.drop_last();
    let last = leds.len() - 1;
    assert(leds[last] == leds.last());
    if rest.len() > 0 {
        law_bounds_fit_their_members(rest, axis);
        let i = choose|i: int|
            0 <= i < rest.len() && axis.along((#[trigger] rest[i]).world) == axis.along(
                extent(rest).min,
            );
        let j = choose|j: int|
            0 <= j < rest.len() && axis.along((#[trigger] rest[j]).world) == axis.along(
                extent(rest).max,
            );
        assert(leds[i] == rest[i] && leds[j] == rest[j]);
        assert forall|k: int| 0 <= k < leds.len() implies axis.along(extent(leds).min).0
            <= axis.along((#[trigger] leds[k]).world).0 <= axis.along(extent(leds).max).0 by {
            if k < last {
                assert(rest[k] == leds[k]);
            }
        }
    } else {
        assert(rest =~= Seq::<Led>::empty());
        assert(extent(rest).min[0] == Q16(i32::MAX) && extent(rest).max[0] == Q16(i32::MIN));
        assert(extent(rest).min[1] == Q16(i32::MAX) && extent(rest).max[1] == Q16(i32::MIN));
        assert(extent(rest).min[2] == Q16(i32::MAX) && extent(rest).max[2] == Q16(i32::MIN));
    }
}

/// Bounds count what they were taken over.
pub proof fn law_bounds_count_their_members(leds: Seq<Led>)
    ensures
        extent(leds).count == if leds.len() < u16::MAX {
            leds.len() as int
        } else {
            u16::MAX as int
        },
    decreases leds.len(),
{
    if leds.len() > 0 {
        law_bounds_count_their_members(leds.drop_last());
    }
}

/// `u` stays between nothing and everything, whatever the arithmetic says, for
/// every projection but the angular one, and so does `uv`. Only a grid has `uv`.
pub proof fn law_projections_stay_within_one<F: Fn(Op, Q16, Q16, Q16) -> Q16>(
    projection: Projection,
    unit: &F,
    led: Led,
    bounds: Bounds,
    ordinal: u16,
)
    ensures
        !(projection is Angle) ==> 0 <= projection.places(unit, led, bounds, ordinal).u.0
            <= Q16::one().0,
        (projection.places(unit, led, bounds, ordinal).uv is Some) == (projection is Grid),
        projection.places(unit, led, bounds, ordinal).uv matches Some((u, v)) ==> 0 <= u.0
            <= Q16::one().0 && 0 <= v.0 <= Q16::one().0,
{
}

/// Where the arithmetic takes nothing over anything for nothing, and anything
/// over itself for one, a strip runs from zero at its first LED to exactly one at
/// its last. A strip of a single LED is at zero.
pub proof fn law_strips_run_from_zero_to_one<F: Fn(Op, Q16, Q16, Q16) -> Q16>(
    unit: &F,
    led: Led,
    bounds: Bounds,
)
    requires
        bounds.count > 0,
        ratio(unit, 0, (bounds.count - 1) as i32) == Q16::zero(),
        ratio(unit, (bounds.count - 1) as i32, (bounds.count - 1) as i32) == Q16::one(),
    ensures
        Projection::Strip.places(unit, led, bounds, 0).u == Q16::zero(),
        bounds.count > 1 ==> Projection::Strip.places(
            unit,
            led,
            bounds,
            (bounds.count - 1) as u16,
        ).u == Q16::one(),
{
}

/// A radial projection measures from its own point: `u` of an LED is its distance from
/// the point, over the distance from the point to the furthest corner of the zone's box.
pub proof fn law_radial_measures_from_its_point<F: Fn(Op, Q16, Q16, Q16) -> Q16>(
    unit: &F,
    led: Led,
    bounds: Bounds,
    point: [Q16; 3],
    ordinal: u16,
)
    ensures
        ({
            let at = Projection::Radial(point).places(unit, led, bounds, ordinal);
            let away = length(
                unit,
                difference(unit, led.world[0], point[0]),
                difference(unit, led.world[1], point[1]),
                difference(unit, led.world[2], point[2]),
            );
            let side = |k: int|
                {
                    let up = magnitude(unit, difference(unit, bounds.max[k], point[k]));
                    let down = magnitude(unit, difference(unit, bounds.min[k], point[k]));
                    if up.0 >= down.0 {
                        up
                    } else {
                        down
                    }
                };
            let far = difference(unit, length(unit, side(0), side(1), side(2)), Q16(0));
            &&& at.uv is None
            &&& far.0 == 0 ==> at.u == Q16(0)
            &&& far.0 != 0 ==> at.u == unit_interval(
                quotient(unit, difference(unit, away, Q16(0)), far),
            )
        }),
{
}

/// The point of a radial projection is at zero and the corner furthest from it at one,
/// where the arithmetic finds no distance from a point to itself and takes nothing over
/// anything for nothing and anything over itself for one.
pub proof fn law_ripples_start_at_their_point<F: Fn(Op, Q16, Q16, Q16) -> Q16>(
    unit: &F,
    led: Led,
    bounds: Bounds,
    point: [Q16; 3],
    ordinal: u16,
)
    requires
        forall|a: Q16| #[trigger] difference(unit, a, a) == Q16(0),
        forall|a: Q16| #[trigger] difference(unit, a, Q16(0)) == a,
        forall|a: Q16| a.0 != 0 ==> #[trigger] quotient(unit, Q16(0), a) == Q16(0),
        forall|a: Q16| a.0 != 0 ==> #[trigger] quotient(unit, a, a) == Q16(65_536),
        length(unit, Q16(0), Q16(0), Q16(0)) == Q16(0),
    ensures
        led.world == point ==> Projection::Radial(point).places(unit, led, bounds, ordinal).u
            == Q16(0),
        distance(unit, led.world, point) == reach(unit, bounds, point) && reach(
            unit,
            bounds,
            point,
        ).0 != 0 ==> Projection::Radial(point).places(unit, led, bounds, ordinal).u == Q16(65_536),
{
}

/// A distance is the length of the difference, axis by axis.
pub proof fn law_a_distance_is_the_length_of_the_difference<F: Fn(Op, Q16, Q16, Q16) -> Q16>(
    unit: &F,
    p: [Q16; 3],
    q: [Q16; 3],
)
    ensures
        distance(unit, p, q) == length(
            unit,
            difference(unit, p[0], q[0]),
            difference(unit, p[1], q[1]),
            difference(unit, p[2], q[2]),
        ),
{
}

/// An axis projection places an LED by its component along the vector, from the least
/// that the zone's box has to the greatest.
pub proof fn law_an_axis_runs_along_its_vector<F: Fn(Op, Q16, Q16, Q16) -> Q16>(
    unit: &F,
    led: Led,
    bounds: Bounds,
    v: [Q16; 3],
    ordinal: u16,
)
    ensures
        ({
            let at = Projection::Axis(v).places(unit, led, bounds, ordinal);
            let along = |x: Q16, y: Q16, z: Q16| sum(unit, sum(unit, x, y), z);
            let here = along(
                product(unit, led.world[0], v[0]),
                product(unit, led.world[1], v[1]),
                product(unit, led.world[2], v[2]),
            );
            let start = |k: int| product(unit, bounds.min[k], v[k]);
            let end = |k: int| product(unit, bounds.max[k], v[k]);
            let low = |k: int|
                if start(k).0 <= end(k).0 {
                    start(k)
                } else {
                    end(k)
                };
            let high = |k: int|
                if start(k).0 <= end(k).0 {
                    end(k)
                } else {
                    start(k)
                };
            let from = along(low(0), low(1), low(2));
            let span = difference(unit, along(high(0), high(1), high(2)), from);
            &&& at.uv is None
            &&& span.0 == 0 ==> at.u == Q16(0)
            &&& span.0 != 0 ==> at.u == unit_interval(
                quotient(unit, difference(unit, here, from), span),
            )
        }),
{
}

/// The angle of an LED is that around the middle of the zone's box, in the plane across
/// the axis, in turns: half way along each side of the box is its middle.
pub proof fn law_an_angle_turns_around_the_middle<F: Fn(Op, Q16, Q16, Q16) -> Q16>(
    unit: &F,
    led: Led,
    bounds: Bounds,
    axis: Axis,
    ordinal: u16,
)
    ensures
        ({
            let at = Projection::Angle(axis).places(unit, led, bounds, ordinal);
            let off = |k: int|
                difference(
                    unit,
                    led.world[k],
                    product(unit, sum(unit, bounds.min[k], bounds.max[k]), Q16(32_768)),
                );
            let turns = |rise: Q16, run: Q16|
                remainder(unit, quotient(unit, angle(unit, rise, run), whole_turn(unit)));
            &&& at.uv is None
            &&& axis is X ==> at.u == turns(off(2), off(1))
            &&& axis is Y ==> at.u == turns(off(0), off(2))
            &&& axis is Z ==> at.u == turns(off(1), off(0))
        }),
{
}

/// A strip places an LED by how many members stand before it, of those that can; nothing
/// of where it is in the world counts.
pub proof fn law_a_strip_counts_its_members<F: Fn(Op, Q16, Q16, Q16) -> Q16>(
    unit: &F,
    led: Led,
    bounds: Bounds,
    ordinal: u16,
)
    ensures
        ({
            let at = Projection::Strip.places(unit, led, bounds, ordinal);
            &&& at.uv is None
            &&& bounds.count <= 1 ==> at.u == Q16(0)
            &&& bounds.count > 1 ==> at.u == unit_interval(
                ratio(unit, ordinal as i32, (bounds.count - 1) as i32),
            )
        }),
{
}

/// A grid is filled row by row: the member in column `column` of row `row` is that far
/// along the width and along the height, and as far along the whole as on a strip. What
/// is past the last row is on it.
pub proof fn law_a_grid_fills_row_by_row<F: Fn(Op, Q16, Q16, Q16) -> Q16>(
    unit: &F,
    led: Led,
    bounds: Bounds,
    width: u16,
    height: u16,
    row: int,
    column: int,
    ordinal: u16,
)
    requires
        0 < width,
        0 < height,
        0 <= column < width,
        0 <= row,
        ordinal == row * width + column,
    ensures
        ({
            let at = (Projection::Grid { width, height }).places(unit, led, bounds, ordinal);
            let (across, down) = at.uv->0;
            let line = if row < height {
                row
            } else {
                height - 1
            };
            &&& at.u == Projection::Strip.places(unit, led, bounds, ordinal).u
            &&& at.uv is Some
            &&& width == 1 ==> across == Q16(0)
            &&& width > 1 ==> across == unit_interval(
                ratio(unit, column as i32, (width - 1) as i32),
            )
            &&& height == 1 ==> down == Q16(0)
            &&& height > 1 ==> down == unit_interval(
                ratio(unit, line as i32, (height - 1) as i32),
            )
        }),
{
    assert(ordinal as int / width as int == row && ordinal as int % width as int == column)
        by (nonlinear_arith)
        requires
            0 < width,
            0 <= column < width,
            0 <= row,
            ordinal == row * width + column,
    ;
}

/// A grid without a width or a height has one.
pub proof fn law_a_grid_has_at_least_one_cell<F: Fn(Op, Q16, Q16, Q16) -> Q16>(
    unit: &F,
    led: Led,
    bounds: Bounds,
    width: u16,
    height: u16,
    ordinal: u16,
)
    ensures
        (Projection::Grid { width: 0, height }).places(unit, led, bounds, ordinal) == (
        Projection::Grid { width: 1, height }).places(unit, led, bounds, ordinal),
        (Projection::Grid { width, height: 0 }).places(unit, led, bounds, ordinal) == (
        Projection::Grid { width, height: 1 }).places(unit, led, bounds, ordinal),
{
}

/// What a geometric test means, form by form: a comparison reads one coordinate, nearness
/// is a distance below the radius, and the others combine tests as their names say.
pub proof fn law_what_a_test_means<F: Fn(Op, Q16, Q16, Q16) -> Q16>(
    test: Predicate,
    unit: &F,
    world: [Q16; 3],
)
    ensures
        test matches Predicate::Compare { axis, op, value } ==> {
            let here = match axis {
                Axis::X => world[0],
                Axis::Y => world[1],
                Axis::Z => world[2],
            };
            test.passes(unit, world) <==> match op {
                CmpOp::Lt => here.0 < value.0,
                CmpOp::Le => here.0 < value.0 || here.0 == value.0,
                CmpOp::Gt => value.0 < here.0,
                CmpOp::Ge => value.0 < here.0 || here.0 == value.0,
            }
        },
        test matches Predicate::Near { point, radius } ==> (test.passes(unit, world) <==> length(
            unit,
            difference(unit, world[0], point[0]),
            difference(unit, world[1], point[1]),
            difference(unit, world[2], point[2]),
        ).0 < radius.0),
        test matches Predicate::All(parts) ==> (test.passes(unit, world) <==> forall|i: int|
            0 <= i < parts@.len() ==> (#[trigger] parts@[i]).passes(unit, world)),
        test matches Predicate::Any(parts) ==> (test.passes(unit, world) <==> exists|i: int|
            0 <= i < parts@.len() && (#[trigger] parts@[i]).passes(unit, world)),
        test matches Predicate::Not(other) ==> (test.passes(unit, world) <==> !other.passes(
            unit,
            world,
        )),
{
}

/// A named device is selected from the first of its range to before the last, whatever
/// its mapping; a test selects what it holds of on a device that was placed.
pub proof fn law_what_a_clause_selects<F: Fn(Op, Q16, Q16, Q16) -> Q16>(
    clause: Clause,
    unit: &F,
    device: Uuid,
    trusted: bool,
    led: Led,
)
    ensures
        clause matches Clause::Device { device: named, leds: None } ==> (clause.selects(
            unit,
            device,
            trusted,
            led,
        ) <==> named == device),
        clause matches Clause::Device { device: named, leds: Some(run) } ==> (clause.selects(
            unit,
            device,
            trusted,
            led,
        ) <==> named == device && led.index >= run.0 && led.index < run.1),
        clause matches Clause::Where(test) ==> (clause.selects(unit, device, trusted, led)
            <==> trusted && test.passes(unit, led.world)),
{
}

/// A zone covers what at least one of its terms takes in and none takes out.
pub proof fn law_what_a_zone_covers<F: Fn(Op, Q16, Q16, Q16) -> Q16>(
    zone: Zone,
    unit: &F,
    device: Uuid,
    trusted: bool,
    led: Led,
)
    ensures
        zone.covers(unit, device, trusted, led) <==> (exists|i: int|
            0 <= i < zone.included@.len() && (#[trigger] zone.included@[i]).selects(
                unit,
                device,
                trusted,
                led,
            )) && !(exists|i: int|
            0 <= i < zone.excluded@.len() && (#[trigger] zone.excluded@[i]).selects(
                unit,
                device,
                trusted,
                led,
            )),
{
}

/// What waits: a zone edit for nothing, anything that moves for half a second of quiet,
/// and both for the later of the two.
pub proof fn law_how_long_work_waits(waiting: Option<u64>, now_us: u64, cause: Resettle, at_us: u64)
    requires
        now_us < 0x8000_0000_0000_0000,
    ensures
        ({
            let quiet = if cause is ZoneChanged {
                now_us as int
            } else {
                now_us + 500_000
            };
            &&& touched(waiting, now_us, cause) is Some
            &&& due(touched(waiting, now_us, cause), at_us) <==> at_us >= quiet && (
            waiting matches Some(earlier) ==> at_us >= earlier)
        }),
        !due(None, at_us),
{
}

/// The middle of a box is half way between its ends, axis by axis, and a coordinate is
/// read along its own axis.
pub proof fn law_the_middle_is_half_way<F: Fn(Op, Q16, Q16, Q16) -> Q16>(
    unit: &F,
    bounds: Bounds,
    p: [Q16; 3],
)
    ensures
        forall|k: int|
            0 <= k < 3 ==> #[trigger] middle(unit, bounds)[k] == product(
                unit,
                sum(unit, bounds.min[k], bounds.max[k]),
                Q16(32_768),
            ),
        Axis::X.along(p) == p[0],
        Axis::Y.along(p) == p[1],
        Axis::Z.along(p) == p[2],
{
}

/// What a zone comes to on a device: the indices of exactly the LEDs it covers, ascending,
/// each coordinate of each of them within the box, and as many as there are.
pub proof fn law_what_a_zone_comes_to<F: Fn(Op, Q16, Q16, Q16) -> Q16>(
    zone: Zone,
    unit: &F,
    dev: DeviceLeds,
    m: Membership,
    led: Led,
    axis: Axis,
)
    requires
        zone.resolves_to(unit, dev, m),
        dev.leds@.contains(led),
        zone.covers(unit, dev.device, !(dev.quality is Synthetic), led),
    ensures
        m.zone == zone.id,
        m.leds@.contains(led.index),
        axis.along(m.bounds.min).0 <= axis.along(led.world).0 <= axis.along(m.bounds.max).0,
        m.leds@.len() < u16::MAX ==> m.bounds.count == m.leds@.len(),
        forall|i: int, j: int|
            0 <= i < j < m.leds@.len() ==> #[trigger] m.leds@[i] <= #[trigger] m.leds@[j],
{
    broadcast use vstd::seq_lib::group_to_multiset_ensures;

    let trusted = !(dev.quality is Synthetic);
    let members = zone.members(unit, dev.device, trusted, dev.leds@);
    let named = members.map_values(|l: Led| l.index);
    law_members_ascend(zone, unit, dev.device, trusted, dev.leds@, m.leds@);
    law_members_are_what_is_covered(zone, unit, dev.device, trusted, dev.leds@, led);
    law_bounds_fit_their_members(members, axis);
    law_bounds_count_their_members(members);
    let k = members.index_of(led);
    assert(members[k] == led);
    assert(m.leds@.to_multiset().len() == named.to_multiset().len());
}

/// A zone has nothing of a device that it covers nothing of.
pub proof fn law_a_zone_has_nothing_else<F: Fn(Op, Q16, Q16, Q16) -> Q16>(
    zone: Zone,
    unit: &F,
    dev: DeviceLeds,
    m: Membership,
    index: u16,
)
    requires
        zone.resolves_to(unit, dev, m),
        m.leds@.contains(index),
    ensures
        exists|led: Led| #[trigger]
            dev.leds@.contains(led) && led.index == index && zone.covers(
                unit,
                dev.device,
                !(dev.quality is Synthetic),
                led,
            ),
{
    let trusted = !(dev.quality is Synthetic);
    law_members_ascend(zone, unit, dev.device, trusted, dev.leds@, m.leds@);
    let led = choose|led: Led| #[trigger]
        dev.leds@.contains(led) && zone.covers(unit, dev.device, trusted, led) && led.index
            == index;
    assert(dev.leds@.contains(led));
}

/// A device is left out for its mapping where it was not placed, nothing of it is covered
/// as it is, and something of it would be if it were.
pub proof fn law_what_placing_would_bring<F: Fn(Op, Q16, Q16, Q16) -> Q16>(
    zone: Zone,
    unit: &F,
    dev: DeviceLeds,
)
    ensures
        zone.wants_placing(unit, dev) <==> {
            &&& dev.quality is Synthetic
            &&& forall|i: int|
                0 <= i < dev.leds@.len() ==> !zone.covers(
                    unit,
                    dev.device,
                    false,
                    #[trigger] dev.leds@[i],
                )
            &&& exists|i: int|
                0 <= i < dev.leds@.len() && zone.covers(
                    unit,
                    dev.device,
                    true,
                    #[trigger] dev.leds@[i],
                )
        },
{
    let (device, leds) = (dev.device, dev.leds@);
    let (as_is, placed) = (
        zone.members(unit, device, false, leds),
        zone.members(unit, device, true, leds),
    );
    if as_is.len() > 0 {
        law_members_are_what_is_covered(zone, unit, device, false, leds, as_is[0]);
        assert(as_is.contains(as_is[0]));
        assert(leds[leds.index_of(as_is[0])] == as_is[0]);
    }
    if placed.len() > 0 {
        law_members_are_what_is_covered(zone, unit, device, true, leds, placed[0]);
        assert(placed.contains(placed[0]));
        assert(leds[leds.index_of(placed[0])] == placed[0]);
    }
    assert forall|i: int| 0 <= i < leds.len() && zone.covers(
        unit,
        device,
        false,
        #[trigger] leds[i],
    ) implies as_is.len() > 0 by {
        law_members_are_what_is_covered(zone, unit, device, false, leds, leds[i]);
        assert(leds.contains(leds[i]));
    }
    assert forall|i: int| 0 <= i < leds.len() && zone.covers(
        unit,
        device,
        true,
        #[trigger] leds[i],
    ) implies placed.len() > 0 by {
        law_members_are_what_is_covered(zone, unit, device, true, leds, leds[i]);
        assert(leds.contains(leds[i]));
    }
}

} // verus!
