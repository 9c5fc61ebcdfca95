//! Fixed-point scalars: sixteen fractional bits in an `i64`.

use vstd::prelude::*;

verus! {

/// The fixed-point representation of one.
pub const ONE: i64 = 65536;

/// The nearest `i64` to `x`.
pub open spec fn saturate(x: int) -> i64 {
    if x < i64::MIN {
        i64::MIN
    } else if x > i64::MAX {
        i64::MAX
    } else {
        x as i64
    }
}

/// The fixed-point product of `a` and `w`, rounded down.
pub open spec fn scaled(a: int, w: int) -> int {
    (a * w) / (ONE as int)
}

/// `v` held between `lo` and `hi`; `lo` wins where the bounds cross.
pub open spec fn clamped(v: int, lo: int, hi: int) -> int {
    if v < lo {
        lo
    } else if v > hi {
        hi
    } else {
        v
    }
}

/// `v` wrapped into the half-open span from zero to `length`; zero where the
/// span is empty.
pub open spec fn wrapped(v: int, length: int) -> int {
    if length > 0 {
        v % length
    } else {
        0
    }
}

/// How far `time` lies between `left` and `right`, as a fixed-point fraction.
pub open spec fn fraction(left: int, right: int, time: int) -> int {
    ((time - left) * (ONE as int)) / (right - left)
}

/// The point a fraction `t` of the way from `a` to `b`.
pub open spec fn mixed(a: int, b: int, t: int) -> int {
    a + scaled(b - a, t)
}

pub(crate) proof fn lemma_product_bound(a: int, b: int, m: int, n: int)
    requires
        -m <= a <= m,
        -n <= b <= n,
    ensures
        -(m * n) <= a * b <= m * n,
{
    assert(-(m * n) <= a * b <= m * n) by (nonlinear_arith)
        requires
            -m <= a <= m,
            -n <= b <= n,
    ;
}

/// Narrows a wide intermediate result to the nearest `i64`.
pub fn narrow(x: i128) -> (r: i64)
    ensures
        r == saturate(x as int),
{
    if x < i64::MIN as i128 {
        i64::MIN
    } else if x > i64::MAX as i128 {
        i64::MAX
    } else {
        x as i64
    }
}

/// Floor division of a wide value by a positive divisor.
pub fn floor_div(x: i128, d: i128) -> (r: i128)
    requires
        d > 0,
    ensures
        r == (x as int) / (d as int),
{
    proof {
        lemma_floor_div_range(x as int, d as int);
    }
    match x.checked_div_euclid(d) {
        Some(q) => q,
        None => vstd::pervasive::unreached(),
    }
}

pub(crate) proof fn lemma_floor_div_range(x: int, d: int)
    requires
        d > 0,
    ensures
        x >= 0 ==> 0 <= x / d <= x,
        x < 0 ==> x <= x / d < 0,
{
    assert(x >= 0 ==> 0 <= x / d <= x) by (nonlinear_arith)
        requires
            d > 0,
    ;
    assert(x < 0 ==> x <= x / d < 0) by (nonlinear_arith)
        requires
            d > 0,
    ;
}

/// The fixed-point product of `a` and `w`, rounded down and saturated.
pub fn scale(a: i64, w: i64) -> (r: i64)
    ensures
        r == saturate(scaled(a as int, w as int)),
{
    proof {
        lemma_product_bound(a as int, w as int, 0x8000_0000_0000_0000, 0x8000_0000_0000_0000);
    }
    let p: i128 = (a as i128) * (w as i128);
    narrow(floor_div(p, ONE as i128))
}

/// The sum of `a` and `b`, saturated.
pub fn add_saturated(a: i64, b: i64) -> (r: i64)
    ensures
        r == saturate(a + b),
{
    narrow(a as i128 + b as i128)
}

/// The point a fixed-point fraction `t` of the way from `a` to `b`, saturated.
/// For `t` between zero and `ONE` the point lies between `a` and `b` and
/// nothing saturates.
pub fn mix(a: i64, b: i64, t: i64) -> (r: i64)
    ensures
        r == saturate(mixed(a as int, b as int, t as int)),
{
    proof {
        lemma_product_bound(
            b as int - a as int,
            t as int,
            0xffff_ffff_ffff_ffff,
            0x8000_0000_0000_0000,
        );
        lemma_floor_div_range((b as int - a as int) * (t as int), ONE as int);
    }
    let d: i128 = b as i128 - a as i128;
    let p: i128 = d * (t as i128);
    narrow(a as i128 + floor_div(p, ONE as i128))
}

/// `v` held between `lo` and `hi`; `lo` wins where the bounds cross.
pub fn clamp(v: i64, lo: i64, hi: i64) -> (r: i64)
    ensures
        r == clamped(v as int, lo as int, hi as int),
{
    if v < lo {
        lo
    } else if v > hi {
        hi
    } else {
        v
    }
}

/// How far `time` lies between `left` and `right`, as a fixed-point fraction
/// between zero and `ONE`.
pub fn interpolator(left: i64, right: i64, time: i64) -> (r: i64)
    requires
        left <= time <= right,
        left < right,
    ensures
        r == fraction(left as int, right as int, time as int),
        0 <= r <= ONE,
{
    proof {
        lemma_product_bound(time as int - left as int, ONE as int, 0xffff_ffff_ffff_ffff, 65536);
        lemma_fraction_range(left as int, right as int, time as int);
    }
    let n: i128 = (time as i128 - left as i128) * (ONE as i128);
    let d: i128 = right as i128 - left as i128;
    let q = floor_div(n, d);
    q as i64
}

/// A fraction of a span lies between zero and `ONE`, and reaches `ONE` only
/// at the right end.
pub proof fn lemma_fraction_range(left: int, right: int, time: int)
    requires
        left <= time <= right,
        left < right,
    ensures
        0 <= fraction(left, right, time) <= ONE,
        time == right <==> fraction(left, right, time) == ONE,
        time == left ==> fraction(left, right, time) == 0,
{
    let n = (time - left) * (ONE as int);
    let d = right - left;
    assert(0 <= n / d <= 65536 && (time == right <==> n / d == 65536) && (time == left ==> n / d
        == 0)) by (nonlinear_arith)
        requires
            n == (time - left) * 65536,
            d == right - left,
            left <= time <= right,
            left < right,
    ;
}

/// A point mixed with a fraction between zero and `ONE` lies between its two
/// ends, so it needs no saturation.
pub proof fn lemma_mixed_between(a: int, b: int, t: int)
    requires
        0 <= t <= ONE,
    ensures
        a <= b ==> a <= mixed(a, b, t) <= b,
        b <= a ==> b <= mixed(a, b, t) <= a,
        t == 0 ==> mixed(a, b, t) == a,
        t == ONE ==> mixed(a, b, t) == b,
{
    let d = b - a;
    assert((d >= 0 ==> 0 <= (d * t) / 65536 <= d) && (d <= 0 ==> d <= (d * t) / 65536 <= 0) && (t
        == 0 ==> (d * t) / 65536 == 0) && (t == 65536 ==> (d * t) / 65536 == d))
        by (nonlinear_arith)
        requires
            0 <= t <= 65536,
    ;
}

/// The signed 128-bit counterpart of [`wrapped`], for a sum that may have
/// left the `i64` range.
pub fn wrap(v: i128, length: i64) -> (r: i64)
    ensures
        r == wrapped(v as int, length as int),
        length > 0 ==> 0 <= r < length,
{
    if length > 0 {
        match v.checked_rem_euclid(length as i128) {
            Some(m) => m as i64,
            None => vstd::pervasive::unreached(),
        }
    } else {
        0
    }
}

} // verus!
