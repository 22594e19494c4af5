//! Integer arithmetic that stops at the ends of its range.

use vstd::prelude::*;

verus! {

/// `v`, or the largest time there is.
pub open spec fn capped(v: int) -> int {
    if v > u64::MAX {
        u64::MAX as int
    } else {
        v
    }
}

/// How far `a` is past `b`: zero when it is not.
pub open spec fn past(a: int, b: int) -> int {
    if a > b {
        a - b
    } else {
        0
    }
}

pub open spec fn least(a: int, b: int) -> int {
    if a <= b {
        a
    } else {
        b
    }
}

pub open spec fn most(a: int, b: int) -> int {
    if a >= b {
        a
    } else {
        b
    }
}

/// `v / 2`, dropping the fraction.
pub open spec fn halved(v: int) -> int {
    if v >= 0 {
        v / 2
    } else {
        -((-v) / 2)
    }
}

pub fn least_of(a: u64, b: u64) -> (r: u64)
    ensures
        r == least(a as int, b as int),
{
    if a <= b {
        a
    } else {
        b
    }
}

pub fn most_of(a: u64, b: u64) -> (r: u64)
    ensures
        r == most(a as int, b as int),
{
    if a >= b {
        a
    } else {
        b
    }
}

/// `v / d`, rounded down.
pub fn floor_div(v: i64, d: i64) -> (r: i64)
    requires
        0 < d,
        v > i64::MIN,
    ensures
        r == v as int / d as int,
{
    if v >= 0 {
        ((v as u64) / (d as u64)) as i64
    } else {
        let m: u64 = (-v) as u64;
        let q: u64 = (m - 1) / (d as u64);
        proof {
            let (x, y) = (v as int, d as int);
            let k = q as int;
            assert(k == (-x - 1) / y);
            assert(x / y == -k - 1) by (nonlinear_arith)
                requires
                    x < 0,
                    y > 0,
                    k == (-x - 1) / y,
            ;
        }
        -(q as i64) - 1
    }
}

/// The integer nearest to `v` that a 32-bit number can hold.
pub open spec fn held(v: int) -> int {
    if v > i32::MAX {
        i32::MAX as int
    } else if v < i32::MIN {
        i32::MIN as int
    } else {
        v
    }
}

/// [`held`], computed.
pub fn hold(v: i64) -> (r: i32)
    ensures
        r == held(v as int),
{
    if v > i32::MAX as i64 {
        i32::MAX
    } else if v < i32::MIN as i64 {
        i32::MIN
    } else {
        v as i32
    }
}

} // verus!
