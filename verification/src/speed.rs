//! Holding a velocity's magnitude between two speeds, in integers.
//!
//! A vector that is too long or too short is resized to the limit it
//! crossed. Its smaller coordinate is scaled in proportion, by a length that
//! carries sixteen fractional bits; its larger coordinate is then the one
//! that brings the length to the limit, rounded to the inside of it.

use crate::geometry::{norm_sq, Vect, COORD_LIMIT};
use vstd::prelude::*;

verus! {

/// The factor by which a length is refined before it divides.
pub const FINE: i128 = 65536;

/// `FINE` squared.
pub const FINE_SQ: i128 = 4_294_967_296;

/// Largest number whose root is taken.
pub const ROOT_LIMIT: i128 = 0x2000_0000_0000_0000_0000_0000;

/// `r` is the integer square root of `n`, rounded down.
pub open spec fn is_root(n: int, r: int) -> bool {
    0 <= r && r * r <= n < (r + 1) * (r + 1)
}

/// The integer square root of `n`, rounded down.
pub open spec fn floor_root(n: int) -> int {
    choose|r: int| is_root(n, r)
}

/// The integer square root of `n`, rounded up.
pub open spec fn ceil_root(n: int) -> int {
    if floor_root(n) * floor_root(n) == n {
        floor_root(n)
    } else {
        floor_root(n) + 1
    }
}

/// A number has one integer square root.
pub proof fn lemma_root_unique(n: int, a: int, b: int)
    requires
        is_root(n, a),
        is_root(n, b),
    ensures
        a == b,
{
    assert(a == b) by (nonlinear_arith)
        requires
            0 <= a,
            0 <= b,
            a * a <= n < (a + 1) * (a + 1),
            b * b <= n < (b + 1) * (b + 1),
    ;
}

/// The integer square root, rounded down.
pub fn root(n: i128) -> (r: i128)
    requires
        0 <= n <= ROOT_LIMIT,
    ensures
        is_root(n as int, r as int),
        r == floor_root(n as int),
        r <= 0x8000_0000_0000,
{
    let mut lo: i128 = 0;
    let mut hi: i128 = 0x8000_0000_0000;
    assert(0x8000_0000_0000 * 0x8000_0000_0000 > 0x2000_0000_0000_0000_0000_0000) by (nonlinear_arith);
    while hi - lo > 1
        invariant
            0 <= lo < hi <= 0x8000_0000_0000,
            lo * lo <= n < hi * hi,
        decreases hi - lo,
    {
        let mid: i128 = lo + (hi - lo) / 2;
        assert(0 <= mid * mid <= 0x8000_0000_0000 * 0x8000_0000_0000) by (nonlinear_arith)
            requires
                0 <= mid <= 0x8000_0000_0000,
        ;
        if mid * mid <= n {
            lo = mid;
        } else {
            hi = mid;
        }
    }
    proof {
        assert(is_root(n as int, lo as int));
        lemma_root_unique(n as int, lo as int, floor_root(n as int));
    }
    lo
}

/// The integer square root, rounded up.
pub fn root_up(n: i128) -> (r: i128)
    requires
        0 <= n <= ROOT_LIMIT,
    ensures
        r == ceil_root(n as int),
        0 <= r <= 0x8000_0000_0000,
        r * r >= n,
        n > 0 ==> (r - 1) * (r - 1) < n,
        n == 0 ==> r == 0,
{
    let down = root(n);
    assert(0 <= down * down <= 0x8000_0000_0000 * 0x8000_0000_0000) by (nonlinear_arith)
        requires
            0 <= down <= 0x8000_0000_0000,
    ;
    if down * down == n {
        assert(n > 0 ==> (down - 1) * (down - 1) < n) by (nonlinear_arith)
            requires
                down * down == n,
                0 <= down,
        ;
        assert(n == 0 ==> down == 0) by (nonlinear_arith)
            requires
                down * down == n,
        ;
        down
    } else {
        assert(down < 0x8000_0000_0000) by (nonlinear_arith)
            requires
                down * down < n,
                n <= 0x2000_0000_0000_0000_0000_0000,
                0 <= down <= 0x8000_0000_0000,
        ;
        down + 1
    }
}

/// The magnitude of a coordinate.
pub open spec fn magnitude(c: int) -> int {
    if c < 0 {
        -c
    } else {
        c
    }
}

/// The magnitude `m` with the sign of the coordinate `c`.
pub open spec fn signed_like(c: int, m: int) -> int {
    if c < 0 {
        -m
    } else {
        m
    }
}

/// The length of a vector of squared length `n`, in units of `1 / FINE`,
/// rounded down.
pub open spec fn fine_len(n: int) -> int {
    floor_root(n * FINE_SQ)
}

/// The magnitude `b` of the smaller coordinate of a vector of squared length
/// `n`, scaled to the length `target`, rounded down.
pub open spec fn minor(b: int, target: int, n: int) -> int {
    (b * target * FINE) / fine_len(n)
}

/// The magnitude of the larger coordinate that, beside a smaller one of
/// magnitude `q`, brings the length to `target`: rounded up where the
/// vector grows, down where it shrinks.
pub open spec fn major(q: int, target: int, up: bool) -> int {
    if up {
        ceil_root(target * target - q * q)
    } else {
        floor_root(target * target - q * q)
    }
}

/// `v` brought to the length `target`.
pub open spec fn resized(v: Vect, target: int, up: bool) -> Vect {
    let n = norm_sq(v);
    let a = magnitude(v.x as int);
    let b = magnitude(v.y as int);
    if a >= b {
        let q = minor(b, target, n);
        Vect {
            x: signed_like(v.x as int, major(q, target, up)) as i64,
            y: signed_like(v.y as int, q) as i64,
        }
    } else {
        let q = minor(a, target, n);
        Vect {
            x: signed_like(v.x as int, q) as i64,
            y: signed_like(v.y as int, major(q, target, up)) as i64,
        }
    }
}

/// `v` with its length held between `lo` and `hi`. The zero vector, which
/// has no direction, becomes the slowest speed along the x axis.
pub open spec fn spec_clamped(v: Vect, lo: int, hi: int) -> Vect {
    let n = norm_sq(v);
    if n == 0 {
        Vect { x: lo as i64, y: 0 }
    } else if n < lo * lo {
        resized(v, lo, true)
    } else if n > hi * hi {
        resized(v, hi, false)
    } else {
        v
    }
}

/// The speed limits that clamping accepts: two ticks apart at least, which
/// is the room that rounding to whole ticks needs.
pub open spec fn limits_ok(lo: int, hi: int) -> bool {
    0 < lo && lo + 2 <= hi <= COORD_LIMIT
}

proof fn lemma_quotient(z: int, d: int)
    requires
        0 <= z,
        0 < d,
    ensures
        0 <= z / d,
        (z / d) * d <= z < (z / d) * d + d,
{
    vstd::arithmetic::div_mod::lemma_fundamental_div_mod(z, d);
    vstd::arithmetic::div_mod::lemma_mod_bound(z, d);
    vstd::arithmetic::div_mod::lemma_div_pos_is_pos(z, d);
    assert(d * (z / d) == (z / d) * d) by (nonlinear_arith);
}

/// The smaller coordinate, scaled, does not exceed the target.
proof fn lemma_minor_fits(s: int, other: int, target: int, len: int)
    requires
        0 <= s <= other,
        0 < other,
        0 < target,
        is_root((s * s + other * other) * FINE_SQ, len),
    ensures
        len > 0,
        0 <= s * target * FINE,
        0 <= (s * target * FINE) / len <= target,
{
    let n = s * s + other * other;
    assert(n >= 1 && s * s <= n) by (nonlinear_arith)
        requires
            n == s * s + other * other,
            0 < other,
    ;
    assert(len >= 1) by (nonlinear_arith)
        requires
            0 <= len,
            n * FINE_SQ < (len + 1) * (len + 1),
            n >= 1,
    ;
    assert((s * FINE) * (s * FINE) == (s * s) * FINE_SQ) by (nonlinear_arith);
    assert((s * s) * FINE_SQ <= n * FINE_SQ) by (nonlinear_arith)
        requires
            s * s <= n,
    ;
    assert(s * FINE <= len) by (nonlinear_arith)
        requires
            (s * FINE) * (s * FINE) < (len + 1) * (len + 1),
            0 <= s,
            0 <= len,
    ;
    assert(0 <= s * target * FINE <= target * len) by (nonlinear_arith)
        requires
            0 <= s * FINE <= len,
            0 <= s,
            0 < target,
    ;
    lemma_quotient(s * target * FINE, len);
    let q = (s * target * FINE) / len;
    assert(q <= target) by (nonlinear_arith)
        requires
            q * len <= s * target * FINE,
            s * target * FINE <= target * len,
            len > 0,
    ;
}

/// Brings `v` to the length `target`, from below where `up` holds and from
/// above where it does not.
fn resize(v: Vect, target: i64, up: bool) -> (r: Vect)
    requires
        v.bounded(),
        norm_sq(v) > 0,
        0 < target <= COORD_LIMIT,
    ensures
        r == resized(v, target as int, up),
        r.bounded(),
        up ==> target * target <= norm_sq(r) <= target * target + 2 * target,
        !up ==> target * target - 2 * target <= norm_sq(r) <= target * target,
{
    let a: i128 = if v.x < 0 { -(v.x as i128) } else { v.x as i128 };
    let b: i128 = if v.y < 0 { -(v.y as i128) } else { v.y as i128 };
    let t: i128 = target as i128;
    assert(0 <= a * a <= 0x4000_0000 * 0x4000_0000 && 0 <= b * b <= 0x4000_0000 * 0x4000_0000
        && a * a + b * b == norm_sq(v)) by (nonlinear_arith)
        requires
            0 <= a <= 0x4000_0000,
            0 <= b <= 0x4000_0000,
            a == v.x || a == -v.x,
            b == v.y || b == -v.y,
            norm_sq(v) == v.x * v.x + v.y * v.y,
    ;
    let n: i128 = a * a + b * b;
    let len = root(n * FINE_SQ);
    let s: i128 = if a >= b { b } else { a };
    let ghost other: int = if a >= b { a as int } else { b as int };
    proof {
        assert(other > 0) by (nonlinear_arith)
            requires
                0 <= s <= other,
                s * s + other * other > 0,
        ;
        lemma_minor_fits(s as int, other, t as int, len as int);
    }
    assert(0 <= s * t <= 0x4000_0000 * 0x4000_0000) by (nonlinear_arith)
        requires
            0 <= s <= 0x4000_0000,
            0 < t <= 0x4000_0000,
    ;
    let q: i128 = (s * t * FINE) / len;
    assert(0 <= q * q <= t * t <= 0x4000_0000 * 0x4000_0000) by (nonlinear_arith)
        requires
            0 <= q <= t,
            t <= 0x4000_0000,
    ;
    let d: i128 = t * t - q * q;
    let m: i128 = if up {
        root_up(d)
    } else {
        root(d)
    };
    proof {
        if up {
            assert(m <= t && m * m + q * q <= t * t + 2 * t) by (nonlinear_arith)
                requires
                    0 <= m,
                    0 < t,
                    d == t * t - q * q,
                    0 <= d <= t * t,
                    d > 0 ==> (m - 1) * (m - 1) < d,
                    d == 0 ==> m == 0,
            ;
        } else {
            assert(m <= t && m * m + q * q >= t * t - 2 * t) by (nonlinear_arith)
                requires
                    0 <= m,
                    0 < t,
                    d == t * t - q * q,
                    m * m <= d <= t * t,
                    d < (m + 1) * (m + 1),
            ;
        }
    }
    let big: i64 = m as i64;
    let small: i64 = q as i64;
    let r = if a >= b {
        Vect { x: if v.x < 0 { -big } else { big }, y: if v.y < 0 { -small } else { small } }
    } else {
        Vect { x: if v.x < 0 { -small } else { small }, y: if v.y < 0 { -big } else { big } }
    };
    assert(norm_sq(r) == m * m + q * q) by (nonlinear_arith)
        requires
            norm_sq(r) == r.x * r.x + r.y * r.y,
            (r.x == m || r.x == -m) && (r.y == q || r.y == -q) || (r.x == q || r.x == -q) && (r.y
                == m || r.y == -m),
    ;
    r
}

/// Holds the length of `v` between `lo` and `hi`, keeping its direction as
/// far as whole ticks allow.
pub fn clamped(v: Vect, lo: i64, hi: i64) -> (r: Vect)
    requires
        v.bounded(),
        limits_ok(lo as int, hi as int),
    ensures
        r == spec_clamped(v, lo as int, hi as int),
        lo * lo <= norm_sq(r) <= hi * hi,
        lo * lo <= norm_sq(v) <= hi * hi ==> r == v,
        norm_sq(v) != 0 && norm_sq(v) < lo * lo ==> norm_sq(r) <= lo * lo + 2 * lo,
        norm_sq(v) > hi * hi ==> norm_sq(r) >= hi * hi - 2 * hi,
        r.bounded(),
{
    let x: i128 = v.x as i128;
    let y: i128 = v.y as i128;
    assert(0 <= x * x <= 0x4000_0000 * 0x4000_0000 && 0 <= y * y <= 0x4000_0000 * 0x4000_0000)
        by (nonlinear_arith)
        requires
            -0x4000_0000 <= x <= 0x4000_0000,
            -0x4000_0000 <= y <= 0x4000_0000,
    ;
    assert(0 < lo * lo <= 0x4000_0000 * 0x4000_0000 && 0 < hi * hi <= 0x4000_0000 * 0x4000_0000
        && lo * lo + 2 * lo <= hi * hi && hi * hi - 2 * hi >= lo * lo) by (nonlinear_arith)
        requires
            0 < lo,
            lo + 2 <= hi <= 0x4000_0000,
    ;
    let n: i128 = x * x + y * y;
    let low: i128 = (lo as i128) * (lo as i128);
    let high: i128 = (hi as i128) * (hi as i128);
    if n == 0 {
        Vect { x: lo, y: 0 }
    } else if n < low {
        resize(v, lo, true)
    } else if n > high {
        resize(v, hi, false)
    } else {
        v
    }
}

} // verus!
