//! Double-precision rounding, carried out on integers.
//!
//! A double holds a 53-bit significand times a power of two; every operation
//! here gives the double nearest to the exact result, ties to the even
//! significand.

use vstd::prelude::*;

verus! {

/// Significands are below this number, 2 to the power 53.
pub const SIGNIFICAND_END: u128 = 0x20_0000_0000_0000;

/// Half of the above: a full significand is at least this.
pub const SIGNIFICAND_FULL: u128 = 0x10_0000_0000_0000;

/// The integer nearest to `n / d`; halfway between two, the even one.
pub open spec fn half_even(n: nat, d: nat) -> nat
    recommends
        d > 0,
{
    let q = n / d;
    let r = n % d;
    if 2 * r < d || (2 * r == d && q % 2 == 0) {
        q
    } else {
        q + 1
    }
}

/// The distance between neighbouring doubles around the integer `n`, where it
/// is above one: the power of two that leaves 53 bits.
pub open spec fn spacing(n: nat) -> nat
    decreases n,
{
    if n < SIGNIFICAND_END {
        1
    } else {
        2 * spacing(n / 2)
    }
}

/// The double nearest to the integer `n`.
pub open spec fn double_of(n: nat) -> nat {
    half_even(n, spacing(n)) * spacing(n)
}

/// The power of two by which `a / b`, at most one, is scaled to have an integer
/// part of 53 bits.
pub open spec fn quotient_scale(a: nat, b: nat) -> nat
    decreases (if a < b { b - a } else { 0 }),
    when 0 < a
{
    if a >= b {
        SIGNIFICAND_FULL as nat
    } else {
        2 * quotient_scale(2 * a, b)
    }
}

/// The double nearest to `a / b`, for `0 < a <= b`, multiplied by
/// `quotient_scale(a, b)`.
pub open spec fn double_quotient(a: nat, b: nat) -> nat {
    half_even(a * quotient_scale(a, b), b)
}

/// The number `n / d` rounded to an integer, halves up.
pub open spec fn half_up(n: nat, d: nat) -> nat
    recommends
        d > 0,
{
    (2 * n + d) / (2 * d)
}

/// `round(v / max * steps)`, each operation in double precision, for
/// `v <= max`.
pub open spec fn scaled_level(v: nat, max: nat, steps: nat) -> nat {
    let a = double_of(v);
    let b = double_of(max);
    if a == 0 {
        0
    } else {
        half_up(double_of(double_quotient(a, b) * steps), quotient_scale(a, b))
    }
}

fn nearest(n: u128, d: u128) -> (q: u128)
    requires
        0 < d <= 0x2_0000_0000_0000_0000,
        n <= 0x100_0000_0000_0000_0000_0000_0000_0000,
    ensures
        q == half_even(n as nat, d as nat),
{
    let q: u128 = n / d;
    let r: u128 = n % d;
    assert(q <= n) by (nonlinear_arith)
        requires
            q == n / d,
            d > 0,
    ;
    if 2 * r < d || (2 * r == d && q % 2 == 0) {
        q
    } else {
        q + 1
    }
}

/// The nearest integer, scaled back, is off by less than one divisor.
proof fn lemma_half_even_bounds(n: nat, d: nat)
    requires
        d > 0,
    ensures
        half_even(n, d) * d <= n + d,
        half_even(n, d) <= n / d + 1,
        half_even(n, d) >= n / d,
{
    let q = n / d;
    assert(q * d <= n) by (nonlinear_arith)
        requires
            q == n / d,
            d > 0,
    ;
    assert((q + 1) * d == q * d + d) by (nonlinear_arith);
}

proof fn lemma_half_even_monotone(x: nat, y: nat, d: nat)
    requires
        x <= y,
        d > 0,
    ensures
        half_even(x, d) <= half_even(y, d),
{
    assert(x / d <= y / d) by (nonlinear_arith)
        requires
            x <= y,
            d > 0,
    ;
    assert(x == (x / d) * d + x % d && y == (y / d) * d + y % d) by (nonlinear_arith)
        requires
            d > 0,
    ;
    if x / d == y / d {
        assert(x % d <= y % d);
    }
}

proof fn lemma_spacing(n: nat)
    ensures
        spacing(n) >= 1,
        n / spacing(n) < SIGNIFICAND_END,
        n >= SIGNIFICAND_END ==> spacing(n) >= 2 && n / spacing(n) >= SIGNIFICAND_FULL,
    decreases n,
{
    if n >= SIGNIFICAND_END {
        lemma_spacing(n / 2);
        vstd::arithmetic::div_mod::lemma_div_denominator(n as int, 2, spacing(n / 2) as int);
        if n / 2 < SIGNIFICAND_END {
            assert(spacing(n / 2) == 1);
        }
    }
}

proof fn lemma_spacing_monotone(x: nat, y: nat)
    requires
        x <= y,
    ensures
        spacing(x) == spacing(y) || 2 * spacing(x) <= spacing(y),
    decreases y,
{
    lemma_spacing(x);
    lemma_spacing(y);
    if x >= SIGNIFICAND_END {
        lemma_spacing_monotone(x / 2, y / 2);
    }
}

/// Rounding keeps order.
pub proof fn lemma_double_of_monotone(x: nat, y: nat)
    requires
        x <= y,
    ensures
        double_of(x) <= double_of(y),
{
    let s = spacing(x);
    let t = spacing(y);
    lemma_spacing(x);
    lemma_spacing(y);
    lemma_spacing_monotone(x, y);
    lemma_half_even_bounds(x, s);
    lemma_half_even_bounds(y, t);
    let p = half_even(x, s);
    let q = half_even(y, t);
    if s == t {
        lemma_half_even_monotone(x, y, s);
        assert(p * s <= q * s) by (nonlinear_arith)
            requires
                p <= q,
        ;
    } else {
        assert(p * s <= q * t) by (nonlinear_arith)
            requires
                p <= 2 * SIGNIFICAND_FULL,
                q >= SIGNIFICAND_FULL,
                2 * s <= t,
        ;
    }
}

/// The double nearest to the integer `n`.
fn round_to_double(n: u128) -> (w: u128)
    requires
        n <= 0x1_0000_0000_0000_0000,
    ensures
        w == double_of(n as nat),
        w <= 2 * n,
{
    let mut m: u128 = n;
    let mut unit: u128 = 1;
    while m >= SIGNIFICAND_END
        invariant
            n <= 0x1_0000_0000_0000_0000,
            unit >= 1,
            m == n / unit,
            unit * m <= n,
            unit == 1 || m >= SIGNIFICAND_FULL,
            unit * spacing(m as nat) == spacing(n as nat),
        decreases m,
    {
        assert(unit <= n) by (nonlinear_arith)
            requires
                unit * m <= n,
                m >= 1,
        ;
        proof {
            vstd::arithmetic::div_mod::lemma_div_denominator(n as int, unit as int, 2);
            let h = (m / 2) as int;
            assert((unit * 2) * h <= unit * m) by (nonlinear_arith)
                requires
                    h == m / 2,
                    unit >= 1,
            ;
            assert((unit * 2) * spacing(h as nat) == unit * (2 * spacing(h as nat)))
                by (nonlinear_arith);
        }
        m = m / 2;
        unit = unit * 2;
    }
    assert(unit <= n || unit == 1) by (nonlinear_arith)
        requires
            unit * m <= n,
            m >= SIGNIFICAND_FULL || unit == 1,
    ;
    assert(unit == spacing(n as nat)) by (nonlinear_arith)
        requires
            unit * spacing(m as nat) == spacing(n as nat),
            spacing(m as nat) == 1,
    ;
    let q = nearest(n, unit);
    proof {
        lemma_half_even_bounds(n as nat, unit as nat);
    }
    q * unit
}

/// `round(v / max * steps)`, each operation in double precision.
pub fn scaled_level_of(v: u64, max: u64, steps: u64) -> (level: u64)
    requires
        v <= max,
        steps <= 0x40,
    ensures
        level == scaled_level(v as nat, max as nat, steps as nat),
{
    let a = round_to_double(v as u128);
    let b = round_to_double(max as u128);
    proof {
        lemma_double_of_monotone(v as nat, max as nat);
    }
    if a == 0 {
        return 0;
    }
    let mut cur: u128 = a;
    let mut num: u128 = a * SIGNIFICAND_FULL;
    let mut scale: u128 = SIGNIFICAND_FULL;
    while cur < b
        invariant
            0 < a <= cur,
            a <= b <= 0x2_0000_0000_0000_0000,
            cur < 2 * b,
            num == cur * SIGNIFICAND_FULL,
            num == a * scale,
            scale >= 1,
            scale * quotient_scale(cur as nat, b as nat) == SIGNIFICAND_FULL * quotient_scale(
                a as nat,
                b as nat,
            ),
        decreases 2 * b - cur,
    {
        assert(scale <= num) by (nonlinear_arith)
            requires
                num == a * scale,
                a >= 1,
        ;
        proof {
            let next = quotient_scale((2 * cur) as nat, b as nat);
            assert(quotient_scale(cur as nat, b as nat) == 2 * next);
            assert((scale * 2) * next == scale * (2 * next)) by (nonlinear_arith);
            assert(a * (scale * 2) == 2 * (a * scale)) by (nonlinear_arith);
        }
        cur = cur * 2;
        num = num * 2;
        scale = scale * 2;
    }
    assert(scale <= num) by (nonlinear_arith)
        requires
            num == a * scale,
            a >= 1,
    ;
    assert(quotient_scale(cur as nat, b as nat) == SIGNIFICAND_FULL);
    assert(scale == quotient_scale(a as nat, b as nat)) by (nonlinear_arith)
        requires
            scale * quotient_scale(cur as nat, b as nat) == SIGNIFICAND_FULL * quotient_scale(
                a as nat,
                b as nat,
            ),
            quotient_scale(cur as nat, b as nat) == SIGNIFICAND_FULL,
    ;
    proof {
        lemma_half_even_bounds(num as nat, b as nat);
        assert(num / b <= 2 * SIGNIFICAND_FULL) by (nonlinear_arith)
            requires
                num <= 2 * b * SIGNIFICAND_FULL,
                b > 0,
        ;
    }
    let q = nearest(num, b);
    assert(q * steps <= (2 * SIGNIFICAND_FULL + 1) * 0x40) by (nonlinear_arith)
        requires
            q <= 2 * SIGNIFICAND_FULL + 1,
            steps <= 0x40,
    ;
    let w = round_to_double(q * steps as u128);
    let level: u128 = (2 * w + scale) / (2 * scale);
    assert(level <= w + 1) by (nonlinear_arith)
        requires
            level == (2 * w + scale) / (2 * scale),
            scale >= 1,
    ;
    level as u64
}

// ---------------------------------------------------------------------------
// Laws of the level
// ---------------------------------------------------------------------------

/// Integers of 53 bits are doubles.
pub proof fn lemma_double_of_small(n: nat)
    requires
        n < SIGNIFICAND_END,
    ensures
        double_of(n) == n,
{
    assert(spacing(n) == 1);
    assert(n / 1 == n && n % 1 == 0) by (nonlinear_arith);
    assert(half_even(n, 1) == n);
    assert(n * 1 == n) by (nonlinear_arith);
}

/// Doubling is exact.
proof fn lemma_double_of_twice(n: nat)
    ensures
        double_of(2 * n) == 2 * double_of(n),
{
    if 2 * n >= SIGNIFICAND_END {
        let s = spacing(n);
        lemma_spacing(n);
        assert((2 * n) / 2 == n);
        assert(spacing(2 * n) == 2 * s);
        let q = n / s;
        let r = n % s;
        vstd::arithmetic::div_mod::lemma_fundamental_div_mod(n as int, s as int);
        assert(2 * n == q * (2 * s) + 2 * r) by (nonlinear_arith)
            requires
                n == s * q + r,
        ;
        vstd::arithmetic::div_mod::lemma_fundamental_div_mod_converse(
            (2 * n) as int,
            (2 * s) as int,
            q as int,
            (2 * r) as int,
        );
        let h = half_even(n, s);
        assert(half_even(2 * n, 2 * s) == h);
        assert(h * (2 * s) == 2 * (h * s)) by (nonlinear_arith);
    } else {
        lemma_double_of_small(2 * n);
        lemma_double_of_small(n);
    }
}

/// The scale makes the quotient a full 53-bit number.
proof fn lemma_scale_bounds(a: nat, b: nat)
    requires
        0 < a < 2 * b,
    ensures
        quotient_scale(a, b) >= 1,
        SIGNIFICAND_FULL * b <= a * quotient_scale(a, b),
        a * quotient_scale(a, b) < 2 * SIGNIFICAND_FULL * b,
    decreases (if a < b { b - a } else { 0 }),
{
    if a < b {
        lemma_scale_bounds(2 * a, b);
        let s = quotient_scale(2 * a, b);
        assert(a * (2 * s) == (2 * a) * s) by (nonlinear_arith);
    }
}

/// The scale of a smaller numerator is a power of two times that of a larger
/// one, and multiplying by that power is exact.
proof fn lemma_scale_ratio(a1: nat, a2: nat, b: nat) -> (c: nat)
    requires
        0 < a1 <= a2,
        0 < b,
    ensures
        quotient_scale(a1, b) == c * quotient_scale(a2, b),
        c >= 1,
        forall|n: nat| double_of(c * n) == c * #[trigger] double_of(n),
    decreases (if a1 < b { b - a1 } else { 0 }),
{
    if a1 >= b {
        assert forall|n: nat| double_of(1 * n) == 1 * #[trigger] double_of(n) by {
            assert(1 * n == n);
        }
        1
    } else if a2 < b {
        let c = lemma_scale_ratio(2 * a1, 2 * a2, b);
        let s = quotient_scale(2 * a2, b);
        assert(2 * (c * s) == c * (2 * s)) by (nonlinear_arith);
        c
    } else {
        let top = if 2 * a1 > a2 {
            2 * a1
        } else {
            a2
        };
        let c = lemma_scale_ratio(2 * a1, top, b);
        let full = SIGNIFICAND_FULL as nat;
        assert(2 * (c * full) == (2 * c) * full) by (nonlinear_arith);
        assert forall|n: nat| double_of((2 * c) * n) == (2 * c) * #[trigger] double_of(n) by {
            lemma_double_of_twice(c * n);
            assert((2 * c) * n == 2 * (c * n)) by (nonlinear_arith);
            let d = double_of(n);
            assert((2 * c) * d == 2 * (c * d)) by (nonlinear_arith);
        }
        2 * c
    }
}

proof fn lemma_half_up_monotone(w1: nat, s1: nat, w2: nat, s2: nat, c: nat)
    requires
        s1 == c * s2,
        c >= 1,
        s2 >= 1,
        w1 <= c * w2,
    ensures
        half_up(w1, s1) <= half_up(w2, s2),
{
    let n = 2 * w2 + s2;
    let d = 2 * s2;
    assert(c * n == 2 * (c * w2) + c * s2) by (nonlinear_arith)
        requires
            n == 2 * w2 + s2,
    ;
    assert(c * d == 2 * (c * s2)) by (nonlinear_arith)
        requires
            d == 2 * s2,
    ;
    assert(c * d > 0) by (nonlinear_arith)
        requires
            c >= 1,
            d >= 1,
    ;
    vstd::arithmetic::div_mod::lemma_truncate_middle(n as int, c as int, d as int);
    assert((c * n) / (c * d) == n / d) by {
        vstd::arithmetic::div_mod::lemma_div_multiples_vanish_quotient(c as int, n as int, d as int);
    }
    vstd::arithmetic::div_mod::lemma_div_is_ordered(
        (2 * w1 + s1) as int,
        (c * n) as int,
        (c * d) as int,
    );
}

/// A larger value never gets a lower level.
pub proof fn scaled_level_is_monotone(v1: nat, v2: nat, max: nat, steps: nat)
    requires
        v1 <= v2 <= max,
    ensures
        scaled_level(v1, max, steps) <= scaled_level(v2, max, steps),
{
    let a1 = double_of(v1);
    let a2 = double_of(v2);
    let b = double_of(max);
    lemma_double_of_monotone(v1, v2);
    lemma_double_of_monotone(v2, max);
    if a1 > 0 {
        let c = lemma_scale_ratio(a1, a2, b);
        let s1 = quotient_scale(a1, b);
        let s2 = quotient_scale(a2, b);
        let q1 = double_quotient(a1, b);
        let q2 = double_quotient(a2, b);
        lemma_scale_bounds(a1, b);
        lemma_scale_bounds(a2, b);
        lemma_half_even_bounds(a1 * s1, b);
        lemma_half_even_bounds(a2 * s2, b);
        if c == 1 {
            assert(a1 * s1 <= a2 * s2) by (nonlinear_arith)
                requires
                    s1 == 1 * s2,
                    a1 <= a2,
            ;
            lemma_half_even_monotone(a1 * s1, a2 * s2, b);
            assert(q1 <= c * q2);
        } else {
            let n1 = a1 * s1;
            let n2 = a2 * s2;
            assert(n1 / b < 2 * SIGNIFICAND_FULL) by (nonlinear_arith)
                requires
                    n1 < 2 * SIGNIFICAND_FULL * b,
                    b > 0,
            ;
            assert(n2 / b >= SIGNIFICAND_FULL) by (nonlinear_arith)
                requires
                    n2 >= SIGNIFICAND_FULL * b,
                    b > 0,
            ;
            assert(q1 <= c * q2) by (nonlinear_arith)
                requires
                    q1 <= 2 * SIGNIFICAND_FULL,
                    q2 >= SIGNIFICAND_FULL,
                    c >= 2,
            ;
        }
        let p1 = q1 * steps;
        let p2 = q2 * steps;
        assert(p1 <= c * p2) by (nonlinear_arith)
            requires
                q1 <= c * q2,
                p1 == q1 * steps,
                p2 == q2 * steps,
        ;
        lemma_double_of_monotone(p1, c * p2);
        assert(double_of(c * p2) == c * double_of(p2));
        lemma_half_up_monotone(double_of(p1), s1, double_of(p2), s2, c);
    }
}

/// The largest value gets the highest of eight levels.
pub proof fn scaled_level_of_max_is_highest(max: nat)
    requires
        max > 0,
    ensures
        scaled_level(max, max, 7) == 7,
{
    let b = double_of(max);
    lemma_double_of_monotone(1, max);
    lemma_double_of_small(1);
    let full = SIGNIFICAND_FULL as nat;
    let q = double_quotient(b, b);
    vstd::arithmetic::div_mod::lemma_div_multiples_vanish(full as int, b as int);
    vstd::arithmetic::div_mod::lemma_mod_multiples_basic(full as int, b as int);
    assert(b * full == full * b) by (nonlinear_arith);
    assert(q == full);
    reveal_with_fuel(spacing, 4);
    assert(spacing(full * 7) == 4);
    assert(double_of(full * 7) == full * 7);
    assert(quotient_scale(b, b) == full);
    assert((2 * (full * 7) + full) / (2 * full) == 7) by (nonlinear_arith)
        requires
            full == 0x10_0000_0000_0000,
    ;
    assert(q * 7 == full * 7);
}

/// The distance between two integers.
pub open spec fn distance(a: int, b: int) -> int {
    if a < b {
        b - a
    } else {
        a - b
    }
}

/// The nearest integer, scaled back, is off by half a divisor at most.
proof fn lemma_half_even_near(n: nat, d: nat)
    requires
        d > 0,
    ensures
        2 * distance(half_even(n, d) * d as int, n as int) <= d,
{
    let q = n / d;
    let r = n % d;
    vstd::arithmetic::div_mod::lemma_fundamental_div_mod(n as int, d as int);
    assert(q * d == d * q) by (nonlinear_arith);
    assert((q + 1) * d == q * d + d) by (nonlinear_arith);
}

/// A double is off by one part in two to the power 53 at most.
proof fn lemma_double_near(n: nat)
    ensures
        2 * distance(double_of(n) as int, n as int) * SIGNIFICAND_FULL <= n,
{
    if n < SIGNIFICAND_END {
        lemma_double_of_small(n);
    } else {
        let s = spacing(n);
        lemma_spacing(n);
        lemma_half_even_near(n, s);
        let e = distance(double_of(n) as int, n as int);
        assert(s * SIGNIFICAND_FULL <= n) by (nonlinear_arith)
            requires
                n / s >= SIGNIFICAND_FULL,
                s > 0,
        ;
        assert(2 * e * SIGNIFICAND_FULL <= s * SIGNIFICAND_FULL) by (nonlinear_arith)
            requires
                2 * e <= s,
        ;
    }
}

proof fn lemma_scale_is_full(a: nat, b: nat)
    requires
        0 < a,
    ensures
        quotient_scale(a, b) >= SIGNIFICAND_FULL,
    decreases (if a < b { b - a } else { 0 }),
{
    if a < b {
        lemma_scale_is_full(2 * a, b);
    }
}

proof fn lemma_half_up_near(n: nat, d: nat)
    requires
        d > 0,
    ensures
        2 * distance(half_up(n, d) * d as int, n as int) <= d,
{
    let q = half_up(n, d);
    let m = 2 * n + d;
    let e = 2 * d;
    vstd::arithmetic::div_mod::lemma_fundamental_div_mod(m as int, e as int);
    assert(e * q == 2 * (q * d)) by (nonlinear_arith)
        requires
            e == 2 * d,
    ;
}

/// A level is the value's share of the largest one in sevenths, rounded to the nearest:
/// it is off by half a step at most, and a hair where the numbers pass what a double
/// can tell apart.
pub proof fn a_level_is_the_nearest_share(v: nat, max: nat)
    requires
        v <= max,
        0 < max,
    ensures
        ({
            let off = distance(2 * scaled_level(v, max, 7) as int * max, 14 * v as int);
            &&& off * 0x10_0000_0000_0000 <= max * 0x10_0000_0000_0040
            &&& max < 0x4000_0000_0000 ==> off <= max
        }),
{
    let full = SIGNIFICAND_FULL as int;
    let a = double_of(v) as int;
    let b = double_of(max) as int;
    let x = v as int;
    let y = max as int;
    let level = scaled_level(v, max, 7) as int;
    lemma_double_near(v);
    lemma_double_near(max);
    lemma_double_of_monotone(v, max);
    lemma_double_of_monotone(1, max);
    lemma_double_of_small(1);
    scaled_level_is_monotone(v, max, max, 7);
    scaled_level_of_max_is_highest(max);
    let da = distance(a, x);
    let db = distance(b, y);
    let off = distance(2 * level * y, 14 * x);
    if a == 0 {
        assert(x == 0) by (nonlinear_arith)
            requires
                2 * x * full <= x,
                full == 0x10_0000_0000_0000,
                x >= 0,
        ;
        assert(2 * level * y == 0) by (nonlinear_arith)
            requires
                level == 0,
        ;
    } else {
        let s = quotient_scale(a as nat, b as nat) as int;
        let q = double_quotient(a as nat, b as nat) as int;
        let w = double_of((q * 7) as nat) as int;
        lemma_scale_bounds(a as nat, b as nat);
        lemma_scale_is_full(a as nat, b as nat);
        lemma_half_even_near((a * s) as nat, b as nat);
        lemma_half_even_bounds((a * s) as nat, b as nat);
        lemma_double_near((q * 7) as nat);
        lemma_half_up_near(w as nat, s as nat);
        assert(q <= 2 * full) by {
            let n = a * s;
            assert(n / b < 2 * full) by (nonlinear_arith)
                requires
                    n < 2 * full * b,
                    b > 0,
            ;
        }
        let dw = distance(w, 7 * q);
        assert(dw <= 7) by (nonlinear_arith)
            requires
                2 * dw * full <= 7 * q,
                q <= 2 * full,
                full == 0x10_0000_0000_0000,
        ;
        let near = distance(2 * level * b, 14 * a);
        assert((near - b) * s <= 21 * b) by {
            lemma_share(level, s, w, q, a, b);
        }
        assert((near - b) * full <= 21 * b) by (nonlinear_arith)
            requires
                (near - b) * s <= 21 * b,
                s >= full,
                full >= 1,
                b >= 0,
        ;
        assert(off <= near + 14 * db + 14 * da) by {
            assert(2 * level * y - 2 * level * b == 2 * level * (y - b)) by (nonlinear_arith);
            assert(2 * level * (y - b) <= 14 * db && 2 * level * (y - b) >= -14 * db)
                by (nonlinear_arith)
                requires
                    0 <= level <= 7,
                    y - b <= db,
                    b - y <= db,
                    db >= 0,
            ;
        }
        assert(off * full <= y * (full + 64)) by (nonlinear_arith)
            requires
                off <= near + 14 * db + 14 * da,
                (near - b) * full <= 21 * b,
                2 * db * full <= y,
                2 * da * full <= x,
                0 <= x <= y,
                b <= y + db,
                0 <= da,
                0 <= db,
                full == 0x10_0000_0000_0000,
        ;
    }
    assert(y < 0x4000_0000_0000 ==> off <= y) by (nonlinear_arith)
        requires
            off * 0x10_0000_0000_0000 <= y * 0x10_0000_0000_0040,
            y >= 0,
    ;
}

proof fn lemma_share(level: int, s: int, w: int, q: int, a: int, b: int)
    requires
        s > 0,
        b > 0,
        2 * distance(level * s, w) <= s,
        distance(w, 7 * q) <= 7,
        2 * distance(q * b, a * s) <= b,
    ensures
        (distance(2 * level * b, 14 * a) - b) * s <= 21 * b,
{
    let t = 2 * level * b - 14 * a;
    assert(t * s == 2 * (level * s) * b - 14 * (a * s)) by (nonlinear_arith)
        requires
            t == 2 * level * b - 14 * a,
    ;
    let e = 2 * (level * s) - 2 * w;
    let f = 2 * w - 14 * q;
    assert(2 * (level * s) * b == e * b + f * b + 14 * (q * b)) by (nonlinear_arith)
        requires
            e == 2 * (level * s) - 2 * w,
            f == 2 * w - 14 * q,
    ;
    assert(-(s * b) <= e * b <= s * b) by (nonlinear_arith)
        requires
            -s <= e <= s,
            b > 0,
    ;
    assert(-(14 * b) <= f * b <= 14 * b) by (nonlinear_arith)
        requires
            -14 <= f <= 14,
            b > 0,
    ;
    assert(-(s * b) - 21 * b <= t * s <= s * b + 21 * b);
    assert((t - b) * s == t * s - s * b) by (nonlinear_arith);
    assert((-t - b) * s == -(t * s) - s * b) by (nonlinear_arith);
}

/// Half of the largest value is three and a half steps, and gets four.
pub proof fn half_of_the_largest_is_rounded_up(v: nat)
    requires
        v > 0,
    ensures
        scaled_level(v, 2 * v, 7) == 4,
{
    let a = double_of(v);
    lemma_double_of_twice(v);
    lemma_double_of_monotone(1, v);
    lemma_double_of_small(1);
    let full = SIGNIFICAND_FULL as nat;
    let b = 2 * a;
    assert(quotient_scale(b, b) == full);
    assert(quotient_scale(a, b) == 2 * full);
    assert(a * (2 * full) == full * b) by (nonlinear_arith)
        requires
            b == 2 * a,
    ;
    vstd::arithmetic::div_mod::lemma_div_multiples_vanish(full as int, b as int);
    vstd::arithmetic::div_mod::lemma_mod_multiples_basic(full as int, b as int);
    assert(b * full == full * b) by (nonlinear_arith);
    assert(double_quotient(a, b) == full);
    reveal_with_fuel(spacing, 4);
    assert(spacing(full * 7) == 4);
    assert(double_of(full * 7) == full * 7);
    assert((2 * (full * 7) + 2 * full) / (2 * (2 * full)) == 4) by (nonlinear_arith)
        requires
            full == 0x10_0000_0000_0000,
    ;
}

} // verus!
