//! Gateway policy for unauthenticated integrations.
//!
//! Art-Net, E1.31, plain MQTT and HTTP have no useful authentication. They are
//! still worth supporting, because they are how the rest of the lighting world
//! talks — so they terminate at a gateway device, under a policy that bounds what
//! they can do.
//!
//! An integration is **explicitly bound** to a pixel range and a priority
//! ceiling. It cannot reach a pixel outside its range, cannot outrank the
//! ceiling, and **can never push a program**. The bound is enforced here rather
//! than trusted from the source, because the source is by definition untrusted.
//!
//! A console sending priority 255 is a console doing what consoles do: clamping
//! it does what the operator meant, within what they are allowed. An out-of-range
//! *pixel* has no sensible reinterpretation, so those pixels are dropped and
//! counted.

use vstd::prelude::*;

use crate::lists::{lemma_filter_pairs, lemma_filter_take};
use crate::num::{capped, least, most, past};
use crate::sources::{Source, StackModel, AMBIENT_FLOOR_MAX};
use crate::uuid::Uuid;

verus! {

/// A protocol that arrives without credentials.
#[derive(Clone, Copy, PartialEq, Eq, Debug, Structural)]
pub enum Protocol {
    ArtNet,
    E131,
    Ddp,
    /// Plain MQTT, with no per-message authentication.
    Mqtt,
    Http,
}

/// The lease every gateway source gets whether the integration asked for one or
/// not.
///
/// Art-Net and E1.31 have no concept of releasing a claim, so a console that is
/// switched off would otherwise hold a room forever.
pub const DEFAULT_LEASE_US: u64 = 5_000_000;

/// What an integration is allowed to do.
#[derive(Clone, Copy, PartialEq, Eq, Debug)]
pub struct Binding {
    pub id: Uuid,
    pub protocol: Protocol,
    /// The zone its pixels land in.
    pub zone: Uuid,
    /// Half-open range of pixel indices it may address.
    pub pixels: (u16, u16),
    /// The highest priority it may claim.
    pub priority_ceiling: u8,
}

/// The highest ceiling a gateway binding may be configured with.
///
/// Below the system-health band. A gateway that could outrank a smoke alarm
/// indicator is a gateway that can hide it.
pub const MAX_GATEWAY_PRIORITY: u8 = 191;

/// Why a binding is not usable.
#[derive(Clone, Copy, PartialEq, Eq, Debug, Structural)]
pub enum BindingError {
    /// A ceiling above what a gateway may ever be given.
    CeilingTooHigh { asked: u8, max: u8 },
    /// An empty or inverted pixel range.
    EmptyRange,
}

impl Binding {
    /// What is wrong with this binding, if anything is.
    pub open spec fn fault(self) -> Option<BindingError> {
        if self.priority_ceiling > MAX_GATEWAY_PRIORITY {
            Some(
                BindingError::CeilingTooHigh {
                    asked: self.priority_ceiling,
                    max: MAX_GATEWAY_PRIORITY,
                },
            )
        } else if self.pixels.0 >= self.pixels.1 {
            Some(BindingError::EmptyRange)
        } else {
            None
        }
    }

    pub open spec fn has(self, pixel: int) -> bool {
        self.pixels.0 <= pixel < self.pixels.1
    }

    /// Check a binding before it is ever used.
    ///
    /// Configuration is checked once here rather than on every frame, so a
    /// nonsensical binding is refused when someone writes it.
    pub fn validate(&self) -> (r: Result<(), BindingError>)
        ensures
            match self.fault() {
                Some(e) => r == Err::<(), BindingError>(e),
                None => r is Ok,
            },
    {
        if self.priority_ceiling > MAX_GATEWAY_PRIORITY {
            return Err(
                BindingError::CeilingTooHigh {
                    asked: self.priority_ceiling,
                    max: MAX_GATEWAY_PRIORITY,
                },
            );
        }
        if self.pixels.0 >= self.pixels.1 {
            return Err(BindingError::EmptyRange);
        }
        Ok(())
    }

    pub fn covers(&self, pixel: u16) -> (r: bool)
        ensures
            r == self.has(pixel as int),
    {
        pixel >= self.pixels.0 && pixel < self.pixels.1
    }

    pub fn pixel_count(&self) -> (r: u16)
        ensures
            r == past(self.pixels.1 as int, self.pixels.0 as int),
    {
        self.pixels.1.saturating_sub(self.pixels.0)
    }
}

/// What an integration asked for.
#[derive(Clone, Copy, PartialEq, Eq, Debug, Structural)]
pub struct Ingress {
    /// The first pixel the data addresses.
    pub offset: u16,
    /// How many pixels follow.
    pub count: u16,
    /// The priority claimed, if the protocol has one.
    pub priority: Option<u8>,
}

impl Ingress {
    /// Where the data ends, which is no further than pixels can be counted.
    pub open spec fn end(self) -> int {
        least(self.offset + self.count, u16::MAX as int)
    }

    /// The priority asked for. A protocol that has none asks for the ambient
    /// floor: defaulting high would let any node on the network take a room
    /// simply by connecting.
    pub open spec fn asked_priority(self) -> int {
        match self.priority {
            Some(p) => p as int,
            None => AMBIENT_FLOOR_MAX as int,
        }
    }
}

/// What the gateway will actually do.
#[derive(Clone, Copy, PartialEq, Eq, Debug)]
pub struct Admitted {
    /// The source to push, already clamped.
    pub source: Source,
    /// The pixel range that survived the bound, half-open.
    pub pixels: (u16, u16),
    /// Pixels dropped for falling outside the binding: counted rather than
    /// silent, so an app can say what most of a console is doing.
    pub clipped: u16,
    /// Whether the claimed priority had to be lowered.
    pub priority_clamped: bool,
}

/// Why an ingress was refused outright.
#[derive(Clone, Copy, PartialEq, Eq, Debug, Structural)]
pub enum Refusal {
    /// Nothing it addressed is inside the binding.
    OutsideBinding,
    /// The binding itself is not usable.
    BadBinding(BindingError),
}

/// The part of the data that the binding allows: where it starts and ends.
pub open spec fn overlap(binding: Binding, ingress: Ingress) -> (int, int) {
    (
        most(ingress.offset as int, binding.pixels.0 as int),
        least(ingress.end(), binding.pixels.1 as int),
    )
}

/// What becomes of an incoming frame.
pub open spec fn admission(
    binding: Binding,
    ingress: Ingress,
    source_id: Uuid,
    now_us: u64,
) -> Result<Admitted, Refusal> {
    let (from, to) = overlap(binding, ingress);
    let priority = least(ingress.asked_priority(), binding.priority_ceiling as int);
    match binding.fault() {
        Some(e) => Err(Refusal::BadBinding(e)),
        None => if from >= to {
            Err(Refusal::OutsideBinding)
        } else {
            Ok(
                Admitted {
                    source: Source {
                        id: source_id,
                        zone: binding.zone,
                        scene: Uuid::nil(),
                        priority: priority as u8,
                        expires_at_us: Some(capped(now_us + DEFAULT_LEASE_US) as u64),
                        fade_in_ms: 0,
                        fade_out_ms: 0,
                        pushed_at_us: now_us,
                        cost: 0,
                    },
                    pixels: (from as u16, to as u16),
                    clipped: past(ingress.count as int, to - from) as u16,
                    priority_clamped: priority < ingress.asked_priority(),
                },
            )
        },
    }
}

/// Apply a binding to an incoming frame.
///
/// `now_us` and `source_id` come from the caller: the shell knows the clock and
/// mints the id.
pub fn apply(binding: &Binding, ingress: &Ingress, source_id: Uuid, now_us: u64) -> (r: Result<
    Admitted,
    Refusal,
>)
    ensures
        r == admission(*binding, *ingress, source_id, now_us),
{
    match binding.validate() {
        Err(e) => {
            return Err(Refusal::BadBinding(e));
        },
        Ok(()) => {},
    }
    let asked_to: u16 = ingress.offset.saturating_add(ingress.count);
    let from: u16 = if ingress.offset >= binding.pixels.0 {
        ingress.offset
    } else {
        binding.pixels.0
    };
    let to: u16 = if asked_to <= binding.pixels.1 {
        asked_to
    } else {
        binding.pixels.1
    };
    if from >= to {
        return Err(Refusal::OutsideBinding);
    }
    let clipped: u16 = ingress.count.saturating_sub(to - from);
    let asked_priority: u8 = match ingress.priority {
        Some(p) => p,
        None => AMBIENT_FLOOR_MAX,
    };
    let priority: u8 = if asked_priority <= binding.priority_ceiling {
        asked_priority
    } else {
        binding.priority_ceiling
    };
    Ok(
        Admitted {
            source: Source {
                id: source_id,
                zone: binding.zone,
                // A gateway pushes pixels, never a program: there is no scene,
                // the data *is* the content.
                scene: Uuid::nil(),
                priority,
                // Always leased, whatever the protocol thinks.
                expires_at_us: Some(now_us.saturating_add(DEFAULT_LEASE_US)),
                fade_in_ms: 0,
                fade_out_ms: 0,
                pushed_at_us: now_us,
                cost: 0,
            },
            pixels: (from, to),
            clipped,
            priority_clamped: priority < asked_priority,
        },
    )
}

/// Every binding this gateway holds.
#[derive(Clone, Debug)]
pub struct Gateway {
    bindings: Vec<Binding>,
}

/// The bindings with any other id.
pub open spec fn others(bindings: Seq<Binding>, id: Uuid) -> Seq<Binding> {
    bindings.filter(|b: Binding| b.id != id)
}

/// Whether every binding is usable and has an id of its own.
pub open spec fn well_bound(bindings: Seq<Binding>) -> bool {
    &&& forall|i: int| 0 <= i < bindings.len() ==> (#[trigger] bindings[i]).fault() is None
    &&& forall|i: int, j: int|
        0 <= i < j < bindings.len() ==> (#[trigger] bindings[i]).id != (#[trigger] bindings[j]).id
}

impl View for Gateway {
    type V = Seq<Binding>;

    closed spec fn view(&self) -> Seq<Binding> {
        self.bindings@
    }
}

impl Default for Gateway {
    fn default() -> (g: Gateway)
        ensures
            g@ == Seq::<Binding>::empty(),
    {
        Gateway { bindings: Vec::new() }
    }
}

impl Gateway {
    pub fn new() -> (g: Gateway)
        ensures
            g@ == Seq::<Binding>::empty(),
    {
        Gateway::default()
    }

    /// Add a binding, checking it first, in place of any other with its id.
    pub fn bind(&mut self, binding: Binding) -> (r: Result<(), BindingError>)
        ensures
            match binding.fault() {
                Some(e) => r == Err::<(), BindingError>(e) && final(self)@ == old(self)@,
                None => r is Ok && final(self)@ == others(old(self)@, binding.id).push(binding),
            },
            well_bound(old(self)@) ==> well_bound(final(self)@),
    {
        match binding.validate() {
            Err(e) => {
                return Err(e);
            },
            Ok(()) => {},
        }
        proof {
            lemma_others(self@, binding.id);
        }
        self.drop_id(binding.id);
        self.bindings.push(binding);
        Ok(())
    }

    /// Drop a binding, and say whether there was one.
    pub fn unbind(&mut self, id: Uuid) -> (r: bool)
        ensures
            final(self)@ == others(old(self)@, id),
            r == exists|i: int| 0 <= i < old(self)@.len() && (#[trigger] old(self)@[i]).id == id,
            well_bound(old(self)@) ==> well_bound(final(self)@),
    {
        proof {
            lemma_others(self@, id);
        }
        let before: usize = self.bindings.len();
        self.drop_id(id);
        self.bindings.len() != before
    }

    fn drop_id(&mut self, id: Uuid)
        ensures
            final(self)@ == others(old(self)@, id),
    {
        let mut kept: Vec<Binding> = Vec::new();
        let mut i: usize = 0;
        let ghost was = self@;
        let ghost other = |b: Binding| b.id != id;
        proof {
            reveal(Seq::filter);
            assert(was.take(0).filter(other) =~= Seq::<Binding>::empty());
        }
        while i < self.bindings.len()
            invariant
                was == self@,
                was == old(self)@,
                other == (|b: Binding| b.id != id),
                i <= was.len(),
                kept@ == was.take(i as int).filter(other),
            decreases was.len() - i,
        {
            let b = self.bindings[i];
            proof {
                lemma_filter_take(was, i as int, other);
            }
            if b.id != id {
                kept.push(b);
            }
            i += 1;
        }
        assert(was.take(i as int) =~= was);
        self.bindings = kept;
    }

    pub fn len(&self) -> (n: usize)
        ensures
            n == self@.len(),
    {
        self.bindings.len()
    }

    pub fn is_empty(&self) -> (r: bool)
        ensures
            r == (self@.len() == 0),
    {
        self.bindings.len() == 0
    }

    /// The first binding with an id: the only one, in a gateway that was built by
    /// [`Gateway::bind`].
    pub fn get(&self, id: Uuid) -> (r: Option<&Binding>)
        ensures
            match r {
                Some(b) => exists|i: int|
                    0 <= i < self@.len() && #[trigger] self@[i] == *b && b.id == id && forall|j: int|
                        0 <= j < i ==> (#[trigger] self@[j]).id != id,
                None => forall|j: int| 0 <= j < self@.len() ==> (#[trigger] self@[j]).id != id,
            },
    {
        let mut i: usize = 0;
        while i < self.bindings.len()
            invariant
                i <= self@.len(),
                forall|j: int| 0 <= j < i ==> (#[trigger] self@[j]).id != id,
            decreases self@.len() - i,
        {
            if self.bindings[i].id == id {
                assert(self@[i as int] == self.bindings@[i as int]);
                return Some(&self.bindings[i]);
            }
            i += 1;
        }
        None
    }

    /// Whether this gateway would ever accept a program from an integration.
    ///
    /// It would not. A program is signed code that runs on every device in the
    /// mesh; accepting one over a channel anybody can speak would make signing
    /// programs pointless.
    pub fn accepts_programs(&self) -> (r: bool)
        ensures
            !r,
    {
        false
    }
}

proof fn lemma_others(bindings: Seq<Binding>, id: Uuid)
    ensures
        well_bound(bindings) ==> well_bound(others(bindings, id)),
        forall|i: int| 0 <= i < others(bindings, id).len() ==> (#[trigger] others(bindings, id)[i]).id
            != id,
        others(bindings, id).len() <= bindings.len(),
        (others(bindings, id).len() != bindings.len()) == exists|i: int|
            0 <= i < bindings.len() && (#[trigger] bindings[i]).id == id,
    decreases bindings.len(),
{
    let other = |b: Binding| b.id != id;
    let left = others(bindings, id);
    bindings.lemma_filter_len(other);
    lemma_filter_pairs(bindings, other, |a: Binding, b: Binding| true);
    if well_bound(bindings) {
        lemma_filter_pairs(bindings, other, |a: Binding, b: Binding| a.id != b.id);
        assert forall|i: int| 0 <= i < left.len() implies (#[trigger] left[i]).fault() is None by {
            assert(bindings.contains(left[i]));
        }
    }
    lemma_missing(bindings, id);
}

proof fn lemma_missing(bindings: Seq<Binding>, id: Uuid)
    ensures
        others(bindings, id).len() <= bindings.len(),
        (others(bindings, id).len() != bindings.len()) == exists|i: int|
            0 <= i < bindings.len() && (#[trigger] bindings[i]).id == id,
    decreases bindings.len(),
{
    reveal(Seq::filter);
    if bindings.len() > 0 {
        let rest = bindings.drop_last();
        let last = bindings.len() - 1;
        lemma_missing(rest, id);
        if exists|i: int| 0 <= i < rest.len() && (#[trigger] rest[i]).id == id {
            let i = choose|i: int| 0 <= i < rest.len() && (#[trigger] rest[i]).id == id;
            assert(bindings[i].id == id);
        }
        if exists|i: int| 0 <= i < bindings.len() && (#[trigger] bindings[i]).id == id {
            let i = choose|i: int| 0 <= i < bindings.len() && (#[trigger] bindings[i]).id == id;
            if i < last {
                assert(rest[i].id == id);
            }
        }
        assert(bindings[last] == bindings.last());
    }
}

/// Whatever an integration asks for, what it gets stays inside its binding: its
/// pixels, its ceiling, a lease, no scene, and no more than it sent.
pub proof fn law_a_binding_bounds_everything(
    binding: Binding,
    ingress: Ingress,
    source_id: Uuid,
    now_us: u64,
)
    ensures
        admission(binding, ingress, source_id, now_us) matches Ok(out) ==> {
            &&& out.pixels.0 < out.pixels.1
            &&& forall|p: int|
                out.pixels.0 <= p < out.pixels.1 ==> #[trigger] binding.has(p) && ingress.offset
                    <= p < ingress.offset + ingress.count
            &&& out.source.priority <= binding.priority_ceiling <= MAX_GATEWAY_PRIORITY
            &&& out.source.expires_at_us is Some
            &&& out.source.scene == Uuid::nil()
            &&& out.source.zone == binding.zone
            &&& out.clipped == ingress.count - (out.pixels.1 - out.pixels.0)
        },
{
}

/// Nothing that could have been shown is dropped: every pixel that the data
/// addresses and the binding allows is in the range.
pub proof fn law_nothing_allowed_is_dropped(
    binding: Binding,
    ingress: Ingress,
    source_id: Uuid,
    now_us: u64,
    pixel: u16,
)
    requires
        binding.fault() is None,
        binding.has(pixel as int),
        ingress.offset <= pixel < ingress.offset + ingress.count,
    ensures
        admission(binding, ingress, source_id, now_us) matches Ok(out) && out.pixels.0 <= pixel
            < out.pixels.1,
{
}

/// A gateway source never meets the rule against sources that do not expire, and
/// is never too dear: a stack refuses it only when its lease has already run out.
pub proof fn law_a_gateway_source_can_be_pushed(
    binding: Binding,
    ingress: Ingress,
    source_id: Uuid,
    now_us: u64,
    stack: StackModel,
)
    requires
        stack.valid(),
        now_us < u64::MAX,
    ensures
        admission(binding, ingress, source_id, now_us) matches Ok(out) ==> stack.refusal(
            now_us,
            out.source,
        ) is None,
{
}

/// Binding an id again replaces what it had: one id, one grant.
pub proof fn law_rebinding_replaces(bindings: Seq<Binding>, binding: Binding)
    requires
        well_bound(bindings),
        binding.fault() is None,
    ensures
        well_bound(others(bindings, binding.id).push(binding)),
        others(others(bindings, binding.id).push(binding), binding.id) == others(
            bindings,
            binding.id,
        ),
{
    let other = |b: Binding| b.id != binding.id;
    lemma_others(bindings, binding.id);
    let left = others(bindings, binding.id);
    crate::lists::lemma_filter_push(left, binding, other);
    crate::lists::lemma_filter_all(left, other);
}

/// What is wrong with a binding: a ceiling from the bands that no gateway may reach, or a
/// range with nothing in it. A pixel is its own from the first of the range to before the
/// last.
pub proof fn law_what_is_wrong_with_a_binding(binding: Binding, pixel: u16)
    ensures
        binding.priority_ceiling >= 192 ==> binding.fault() == Some(
            BindingError::CeilingTooHigh { asked: binding.priority_ceiling, max: 191 },
        ),
        binding.priority_ceiling < 192 && binding.pixels.1 <= binding.pixels.0 ==> binding.fault()
            == Some(BindingError::EmptyRange),
        binding.priority_ceiling < 192 && binding.pixels.0 < binding.pixels.1
            ==> binding.fault() is None,
        binding.has(pixel as int) <==> pixel >= binding.pixels.0 && pixel < binding.pixels.1,
{
}

/// What a gateway grants: exactly the pixels that the data addresses and the binding has,
/// at the priority that was asked for as far as the ceiling lets, or at the ambient floor
/// where none was; from now, for five seconds; in the binding's zone, under the caller's
/// id, without a scene. What was dropped is counted, and whether the priority was
/// lowered is said.
pub proof fn law_what_a_gateway_grants(
    binding: Binding,
    ingress: Ingress,
    source_id: Uuid,
    now_us: u64,
    pixel: u16,
)
    requires
        binding.fault() is None,
        now_us <= u64::MAX - 5_000_000,
    ensures
        ({
            let addressed = ingress.offset <= pixel < ingress.offset + ingress.count;
            let asked = if ingress.priority is Some {
                ingress.priority->0
            } else {
                63
            };
            match admission(binding, ingress, source_id, now_us) {
                Err(e) => e == Refusal::OutsideBinding && !(addressed && binding.has(
                    pixel as int,
                )),
                Ok(out) => {
                    let (from, to) = out.pixels;
                    &&& from < to
                    &&& from <= pixel < to <==> addressed && binding.has(pixel as int)
                    &&& out.clipped + (to - from) == ingress.count
                    &&& asked <= binding.priority_ceiling ==> out.source.priority == asked
                        && !out.priority_clamped
                    &&& asked > binding.priority_ceiling ==> out.source.priority
                        == binding.priority_ceiling && out.priority_clamped
                    &&& out.source.id == source_id
                    &&& out.source.zone == binding.zone
                    &&& out.source.scene.0@ == Seq::new(16, |i: int| 0u8)
                    &&& out.source.pushed_at_us == now_us
                    &&& out.source.expires_at_us == Some((now_us + 5_000_000) as u64)
                    &&& out.source.fade_in_ms == 0 && out.source.fade_out_ms == 0
                    &&& out.source.cost == 0
                },
            }
        }),
{
    assert(Uuid::nil().0@ =~= Seq::new(16, |i: int| 0u8));
}

/// A binding that is wrong grants nothing, and the reason is what is wrong with it.
pub proof fn law_a_bad_binding_grants_nothing(
    binding: Binding,
    ingress: Ingress,
    source_id: Uuid,
    now_us: u64,
)
    ensures
        binding.fault() is Some ==> admission(binding, ingress, source_id, now_us) == Err::<
            Admitted,
            Refusal,
        >(Refusal::BadBinding(binding.fault()->0)),
{
}

/// Dropping an id drops what has it and nothing else.
pub proof fn law_dropping_an_id_keeps_the_others(bindings: Seq<Binding>, id: Uuid, b: Binding)
    ensures
        others(bindings, id).contains(b) <==> bindings.contains(b) && b.id != id,
{
    let other = |x: Binding| x.id != id;
    if bindings.contains(b) && b.id != id {
        bindings.lemma_filter_contains(other, bindings.index_of(b));
    }
    if others(bindings, id).contains(b) {
        bindings.lemma_filter_contains_rev(other, b);
        bindings.lemma_filter_pred(other, others(bindings, id).index_of(b));
    }
}

} // verus!
