//! Fixed-point numbers, and the arithmetic a host supplies for them.
//!
//! A [`Q16`] is a count of 65 536ths. Two things about it are the same
//! everywhere and are written here: how it is stored and how it is ordered.
//! How a product is rounded, or what a sum does at the end of the range, is
//! decided by the machine that runs the effects — the compositor has to agree
//! with it bit for bit, so it must not have an opinion of its own. That
//! arithmetic is passed in, as one function that performs one [`Op`] at a time.

use vstd::prelude::*;

verus! {

/// A fixed-point number, in 65 536ths.
#[derive(Clone, Copy, PartialEq, Eq, PartialOrd, Ord, Default, Debug, Structural)]
pub struct Q16(pub i32);

/// One operation of a host's fixed-point arithmetic. Operands an operation does
/// not read are zero.
#[derive(Clone, Copy, PartialEq, Eq, Debug, Structural)]
pub enum Op {
    /// `a + b`.
    Add,
    /// `a - b`.
    Sub,
    /// `a * b`.
    Mul,
    /// `a / b`, or zero where there is no quotient.
    Div,
    /// `a` without its sign.
    Abs,
    /// `a` without its whole part.
    Fract,
    /// The length of the vector `(a, b, c)`.
    Length,
    /// The angle of the point with ordinate `a` and abscissa `b`.
    Angle,
    /// The raw integers `a` over `b`, as a number.
    Ratio,
    /// From `a` toward `b`, by the fraction `c`.
    Lerp,
    /// A whole turn, as an angle.
    Turn,
    /// The cosine of `a`, an angle in turns.
    Cos,
    /// The sine of `a`, an angle in turns.
    Sin,
    /// The binary logarithm of `a`, or zero where there is none.
    Log2,
    /// Two to the power `a`.
    Exp2,
}

/// Whether `unit` is arithmetic: it answers every question, and always the same
/// way.
pub open spec fn is_arithmetic<F: Fn(Op, Q16, Q16, Q16) -> Q16>(unit: F) -> bool {
    &&& forall|op: Op, a: Q16, b: Q16, c: Q16| #[trigger] call_requires(unit, (op, a, b, c))
    &&& forall|op: Op, a: Q16, b: Q16, c: Q16, r: Q16, s: Q16|
        #[trigger] call_ensures(unit, (op, a, b, c), r) && #[trigger] call_ensures(
            unit,
            (op, a, b, c),
            s,
        ) ==> r == s
}

/// What `unit` answers.
pub open spec fn answer<F: Fn(Op, Q16, Q16, Q16) -> Q16>(
    unit: F,
    op: Op,
    a: Q16,
    b: Q16,
    c: Q16,
) -> Q16 {
    choose|r: Q16| call_ensures(unit, (op, a, b, c), r)
}

/// Perform one operation: what `unit` answers is what it says when it is asked.
pub fn perform<F: Fn(Op, Q16, Q16, Q16) -> Q16>(unit: &F, op: Op, a: Q16, b: Q16, c: Q16) -> (r:
    Q16)
    requires
        is_arithmetic(*unit),
    ensures
        r == answer(*unit, op, a, b, c),
        call_ensures(*unit, (op, a, b, c), r),
{
    let r = unit(op, a, b, c);
    assert(call_ensures(*unit, (op, a, b, c), r));
    r
}

/// `a + b`.
#[verifier::allow_in_spec]
pub fn sum<F: Fn(Op, Q16, Q16, Q16) -> Q16>(unit: &F, a: Q16, b: Q16) -> Q16
    requires
        is_arithmetic(*unit),
    returns
        answer(*unit, Op::Add, a, b, Q16::zero()),
{
    perform(unit, Op::Add, a, b, Q16::zero())
}

/// `a - b`.
#[verifier::allow_in_spec]
pub fn difference<F: Fn(Op, Q16, Q16, Q16) -> Q16>(unit: &F, a: Q16, b: Q16) -> Q16
    requires
        is_arithmetic(*unit),
    returns
        answer(*unit, Op::Sub, a, b, Q16::zero()),
{
    perform(unit, Op::Sub, a, b, Q16::zero())
}

/// `a * b`.
#[verifier::allow_in_spec]
pub fn product<F: Fn(Op, Q16, Q16, Q16) -> Q16>(unit: &F, a: Q16, b: Q16) -> Q16
    requires
        is_arithmetic(*unit),
    returns
        answer(*unit, Op::Mul, a, b, Q16::zero()),
{
    perform(unit, Op::Mul, a, b, Q16::zero())
}

/// `a / b`, or zero where there is no quotient.
#[verifier::allow_in_spec]
pub fn quotient<F: Fn(Op, Q16, Q16, Q16) -> Q16>(unit: &F, a: Q16, b: Q16) -> Q16
    requires
        is_arithmetic(*unit),
    returns
        answer(*unit, Op::Div, a, b, Q16::zero()),
{
    perform(unit, Op::Div, a, b, Q16::zero())
}

/// `a` without its sign.
#[verifier::allow_in_spec]
pub fn magnitude<F: Fn(Op, Q16, Q16, Q16) -> Q16>(unit: &F, a: Q16) -> Q16
    requires
        is_arithmetic(*unit),
    returns
        answer(*unit, Op::Abs, a, Q16::zero(), Q16::zero()),
{
    perform(unit, Op::Abs, a, Q16::zero(), Q16::zero())
}

/// `a` without its whole part.
#[verifier::allow_in_spec]
pub fn remainder<F: Fn(Op, Q16, Q16, Q16) -> Q16>(unit: &F, a: Q16) -> Q16
    requires
        is_arithmetic(*unit),
    returns
        answer(*unit, Op::Fract, a, Q16::zero(), Q16::zero()),
{
    perform(unit, Op::Fract, a, Q16::zero(), Q16::zero())
}

/// The length of the vector `(a, b, c)`.
#[verifier::allow_in_spec]
pub fn length<F: Fn(Op, Q16, Q16, Q16) -> Q16>(unit: &F, a: Q16, b: Q16, c: Q16) -> Q16
    requires
        is_arithmetic(*unit),
    returns
        answer(*unit, Op::Length, a, b, c),
{
    perform(unit, Op::Length, a, b, c)
}

/// The angle of the point with ordinate `a` and abscissa `b`.
#[verifier::allow_in_spec]
pub fn angle<F: Fn(Op, Q16, Q16, Q16) -> Q16>(unit: &F, a: Q16, b: Q16) -> Q16
    requires
        is_arithmetic(*unit),
    returns
        answer(*unit, Op::Angle, a, b, Q16::zero()),
{
    perform(unit, Op::Angle, a, b, Q16::zero())
}

/// From `a` toward `b`, by the fraction `c`.
#[verifier::allow_in_spec]
pub fn between<F: Fn(Op, Q16, Q16, Q16) -> Q16>(unit: &F, a: Q16, b: Q16, c: Q16) -> Q16
    requires
        is_arithmetic(*unit),
    returns
        answer(*unit, Op::Lerp, a, b, c),
{
    perform(unit, Op::Lerp, a, b, c)
}

/// A whole turn, as an angle.
#[verifier::allow_in_spec]
pub fn whole_turn<F: Fn(Op, Q16, Q16, Q16) -> Q16>(unit: &F) -> Q16
    requires
        is_arithmetic(*unit),
    returns
        answer(*unit, Op::Turn, Q16::zero(), Q16::zero(), Q16::zero()),
{
    perform(unit, Op::Turn, Q16::zero(), Q16::zero(), Q16::zero())
}

/// The cosine of `a`, an angle in turns.
#[verifier::allow_in_spec]
pub fn cosine<F: Fn(Op, Q16, Q16, Q16) -> Q16>(unit: &F, a: Q16) -> Q16
    requires
        is_arithmetic(*unit),
    returns
        answer(*unit, Op::Cos, a, Q16::zero(), Q16::zero()),
{
    perform(unit, Op::Cos, a, Q16::zero(), Q16::zero())
}

/// The sine of `a`, an angle in turns.
#[verifier::allow_in_spec]
pub fn sine<F: Fn(Op, Q16, Q16, Q16) -> Q16>(unit: &F, a: Q16) -> Q16
    requires
        is_arithmetic(*unit),
    returns
        answer(*unit, Op::Sin, a, Q16::zero(), Q16::zero()),
{
    perform(unit, Op::Sin, a, Q16::zero(), Q16::zero())
}

/// The binary logarithm of `a`, or zero where there is none.
#[verifier::allow_in_spec]
pub fn log2<F: Fn(Op, Q16, Q16, Q16) -> Q16>(unit: &F, a: Q16) -> Q16
    requires
        is_arithmetic(*unit),
    returns
        answer(*unit, Op::Log2, a, Q16::zero(), Q16::zero()),
{
    perform(unit, Op::Log2, a, Q16::zero(), Q16::zero())
}

/// Two to the power `a`.
#[verifier::allow_in_spec]
pub fn exp2<F: Fn(Op, Q16, Q16, Q16) -> Q16>(unit: &F, a: Q16) -> Q16
    requires
        is_arithmetic(*unit),
    returns
        answer(*unit, Op::Exp2, a, Q16::zero(), Q16::zero()),
{
    perform(unit, Op::Exp2, a, Q16::zero(), Q16::zero())
}

/// The raw integers `a` over `b`, as a number.
#[verifier::allow_in_spec]
pub fn ratio<F: Fn(Op, Q16, Q16, Q16) -> Q16>(unit: &F, a: i32, b: i32) -> Q16
    requires
        is_arithmetic(*unit),
    returns
        answer(*unit, Op::Ratio, Q16(a), Q16(b), Q16::zero()),
{
    perform(unit, Op::Ratio, Q16(a), Q16(b), Q16::zero())
}

impl Q16 {
    #[verifier::allow_in_spec]
    pub fn zero() -> Q16
        returns
            Q16(0),
    {
        Q16(0)
    }

    #[verifier::allow_in_spec]
    pub fn half() -> Q16
        returns
            Q16(32_768),
    {
        Q16(32_768)
    }

    #[verifier::allow_in_spec]
    pub fn one() -> Q16
        returns
            Q16(65_536),
    {
        Q16(65_536)
    }

    /// A whole number.
    pub fn from_int(v: i16) -> (r: Q16)
        ensures
            r.0 == v * 65_536,
    {
        Q16(v as i32 * 65_536)
    }
}

/// `v`, held between zero and one.
pub open spec fn unit_interval(v: Q16) -> Q16 {
    if v.0 < 0 {
        Q16::zero()
    } else if v.0 > 65_536 {
        Q16::one()
    } else {
        v
    }
}

/// [`unit_interval`], computed.
pub fn clamp_unit(v: Q16) -> (r: Q16)
    ensures
        r == unit_interval(v),
{
    if v.0 < 0 {
        Q16::zero()
    } else if v.0 > 65_536 {
        Q16::one()
    } else {
        v
    }
}

/// The smaller of two numbers.
pub open spec fn lesser(a: Q16, b: Q16) -> Q16 {
    if b.0 < a.0 {
        b
    } else {
        a
    }
}

/// The larger of two numbers.
pub open spec fn greater(a: Q16, b: Q16) -> Q16 {
    if b.0 > a.0 {
        b
    } else {
        a
    }
}

pub fn lesser_of(a: Q16, b: Q16) -> (r: Q16)
    ensures
        r == lesser(a, b),
{
    if b.0 < a.0 {
        b
    } else {
        a
    }
}

pub fn greater_of(a: Q16, b: Q16) -> (r: Q16)
    ensures
        r == greater(a, b),
{
    if b.0 > a.0 {
        b
    } else {
        a
    }
}

/// Each operation asks the arithmetic for itself, of its own operands in their order.
pub proof fn law_each_operation_asks_for_itself<F: Fn(Op, Q16, Q16, Q16) -> Q16>(
    unit: &F,
    a: Q16,
    b: Q16,
    c: Q16,
)
    ensures
        sum(unit, a, b) == answer(*unit, Op::Add, a, b, Q16(0)),
        difference(unit, a, b) == answer(*unit, Op::Sub, a, b, Q16(0)),
        product(unit, a, b) == answer(*unit, Op::Mul, a, b, Q16(0)),
        quotient(unit, a, b) == answer(*unit, Op::Div, a, b, Q16(0)),
        magnitude(unit, a) == answer(*unit, Op::Abs, a, Q16(0), Q16(0)),
        remainder(unit, a) == answer(*unit, Op::Fract, a, Q16(0), Q16(0)),
        length(unit, a, b, c) == answer(*unit, Op::Length, a, b, c),
        angle(unit, a, b) == answer(*unit, Op::Angle, a, b, Q16(0)),
        between(unit, a, b, c) == answer(*unit, Op::Lerp, a, b, c),
        whole_turn(unit) == answer(*unit, Op::Turn, Q16(0), Q16(0), Q16(0)),
        cosine(unit, a) == answer(*unit, Op::Cos, a, Q16(0), Q16(0)),
        sine(unit, a) == answer(*unit, Op::Sin, a, Q16(0), Q16(0)),
        log2(unit, a) == answer(*unit, Op::Log2, a, Q16(0), Q16(0)),
        exp2(unit, a) == answer(*unit, Op::Exp2, a, Q16(0), Q16(0)),
        ratio(unit, a.0, b.0) == answer(*unit, Op::Ratio, a, b, Q16(0)),
{
}

/// A number held between zero and one is there, and stays what it was if it was there
/// already. The smaller and the larger of two numbers are one of them each.
pub proof fn law_holding_and_choosing(v: Q16, a: Q16, b: Q16)
    ensures
        0 <= unit_interval(v).0 <= 65_536,
        0 <= v.0 <= 65_536 ==> unit_interval(v) == v,
        v.0 < 0 ==> unit_interval(v).0 == 0,
        v.0 > 65_536 ==> unit_interval(v).0 == 65_536,
        lesser(a, b) == a || lesser(a, b) == b,
        lesser(a, b).0 <= a.0 && lesser(a, b).0 <= b.0,
        greater(a, b) == a || greater(a, b) == b,
        greater(a, b).0 >= a.0 && greater(a, b).0 >= b.0,
        Q16::zero().0 == 0 && Q16::half().0 * 2 == Q16::one().0 && Q16::one().0 == 65_536,
{
}

} // verus!
