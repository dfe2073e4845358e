//! Image preprocessing for the Pixtral vision tower: the longest edge is capped at 1400 pixels
//! and the size is rounded up to 28-pixel cells.
//!
//! Sizes are scaled in double precision, so the quotients here are those of IEEE 754 division:
//! each is the nearest 53-bit value, halves going to the even one.
use crate::arith::{lemma_pow2_sum, pow2};
use vstd::prelude::*;

verus! {

pub const PATCH: usize = 14;
pub const MERGE: usize = 2;
pub const CELL: usize = 28;
pub const MAX_EDGE: usize = 1400;

/// `a / b` rounded to the nearest integer, halves to the even one.
pub open spec fn nearest(a: nat, b: nat) -> nat {
    let (q, rest) = (a / b, a % b);
    if 2 * rest < b || (2 * rest == b && q % 2 == 0) {
        q
    } else {
        q + 1
    }
}

/// How often `a` is doubled before `a / b` has 53 bits.
pub open spec fn doublings(a: nat, b: nat) -> nat
    decreases 0x20_0000_0000_0000 * b - a,
    when a > 0
{
    if a >= 0x10_0000_0000_0000 * b {
        0
    } else {
        1 + doublings(2 * a, b)
    }
}

/// The double nearest to `a / b`, where that is below 2^53: its 53-bit significand, and the
/// power of two by which that is to be divided.
pub open spec fn double_quotient(a: nat, b: nat) -> (nat, nat) {
    let s = doublings(a, b);
    (nearest(a * pow2(s), b), s)
}

/// `x` divided by `longest / 1400`, all in doubles, rounded to the nearest integer.
pub open spec fn scaled(x: nat, longest: nat) -> nat {
    if x == 0 {
        0
    } else {
        let (m, e) = double_quotient(longest, MAX_EDGE as nat);
        let (n, s) = double_quotient(x, m);
        nearest(n * pow2(e), pow2(s))
    }
}

/// The pixels of an edge after the longest edge is capped.
pub open spec fn capped(x: nat, longest: nat) -> nat {
    if longest > MAX_EDGE {
        scaled(x, longest)
    } else {
        x
    }
}

/// The 28-pixel cells that `pixels` fill, at least one.
pub open spec fn cells(pixels: nat) -> nat {
    if pixels == 0 {
        1
    } else {
        ((pixels - 1) / 28 + 1) as nat
    }
}

proof fn lemma_pow2_step(n: nat)
    ensures
        pow2(n + 1) == 2 * pow2(n),
        pow2(n) >= 1,
    decreases n,
{
    if n > 0 {
        lemma_pow2_step((n - 1) as nat);
    }
}

pub(crate) fn round_quotient(a: u128, b: u128) -> (r: u128)
    requires
        b > 0,
        b <= 0x8000_0000_0000_0000_0000_0000_0000_0000,
        a < u128::MAX,
    ensures
        r == nearest(a as nat, b as nat),
{
    let q: u128 = a / b;
    let rest: u128 = a % b;
    proof {
        assert(q <= a) by (nonlinear_arith)
            requires
                q == a / b,
                b > 0,
                a >= 0,
        ;
    }
    let other: u128 = b - rest;
    if rest < other || (rest == other && q % 2 == 0) {
        q
    } else {
        q + 1
    }
}

/// The significand and scale of the double nearest to `a / b`.
fn divide(a: u128, b: u128) -> (r: (u128, u32))
    requires
        0 < a <= 0x20_0000_0000_0000,
        0 < b <= 0x20_0000_0000_0000,
        a < 0x20_0000_0000_0000 * b,
    ensures
        (r.0 as nat, r.1 as nat) == double_quotient(a as nat, b as nat),
        0x10_0000_0000_0000 <= r.0 <= 0x20_0000_0000_0000,
        0x10_0000_0000_0000 * b <= a * pow2(r.1 as nat) < 0x20_0000_0000_0000 * b,
        r.1 <= 105,
{
    let top: u128 = 0x10_0000_0000_0000 * b;
    let mut x: u128 = a;
    let mut s: u32 = 0;
    proof {
        assert(pow2(0) == 1);
        assert(a * pow2(0) == a);
    }
    while x < top
        invariant
            0 < a <= 0x20_0000_0000_0000,
            0 < b <= 0x20_0000_0000_0000,
            top == 0x10_0000_0000_0000 * b,
            0 < x,
            x < 2 * top,
            x == a * pow2(s as nat),
            doublings(a as nat, b as nat) == s + doublings(x as nat, b as nat),
            x >= pow2(s as nat),
            s <= 105,
        decreases 2 * top - x,
    {
        proof {
            lemma_pow2_step(s as nat);
            assert(a * pow2((s + 1) as nat) == 2 * x) by (nonlinear_arith)
                requires
                    x == a * pow2(s as nat),
                    pow2((s + 1) as nat) == 2 * pow2(s as nat),
            ;
            if s >= 105 {
                lemma_pow2_large();
                lemma_pow2_monotone(105, s as nat);
            }
        }
        x = 2 * x;
        s = s + 1;
    }
    let m: u128 = round_quotient(x, b);
    proof {
        let (q, rest) = (x as nat / b as nat, x as nat % b as nat);
        assert(x == q * b + rest && 0x10_0000_0000_0000 <= q < 0x20_0000_0000_0000)
            by (nonlinear_arith)
            requires
                0x10_0000_0000_0000 * b <= x < 0x20_0000_0000_0000 * b,
                q == x as nat / b as nat,
                rest == x as nat % b as nat,
                b > 0,
        ;
    }
    (m, s)
}

proof fn lemma_pow2_large()
    ensures
        pow2(105) == 0x200_0000_0000_0000_0000_0000_0000,
{
    reveal_with_fuel(pow2, 22);
    assert(pow2(21) == 0x20_0000);
    lemma_pow2_sum(21, 21);
    assert(pow2(42) == 0x400_0000_0000);
    lemma_pow2_sum(42, 42);
    assert(pow2(84) == 0x10_0000_0000_0000_0000_0000);
    lemma_pow2_sum(84, 21);
}

proof fn lemma_pow2_monotone(a: nat, b: nat)
    requires
        a <= b,
    ensures
        pow2(a) <= pow2(b),
    decreases b,
{
    if a < b {
        lemma_pow2_monotone(a, (b - 1) as nat);
    }
}

proof fn lemma_nearest(a: nat, b: nat)
    requires
        b > 0,
    ensures
        nearest(a, b) * b <= a + b,
        a < (nearest(a, b) + 1) * b,
{
    let (q, rest) = (a / b, a % b);
    assert(a == q * b + rest && rest < b) by (nonlinear_arith)
        requires
            q == a / b,
            rest == a % b,
            b > 0,
    ;
    assert((q + 1) * b == q * b + b) by (nonlinear_arith);
    assert((q + 2) * b == q * b + 2 * b) by (nonlinear_arith);
}

/// The scaled size is small: at most twice the largest edge and a little.
proof fn lemma_scaled_bound(x: nat, longest: nat, m: nat, e: nat, n: nat, s: nat)
    requires
        0 < x <= longest <= 0x20_0000_0000_0000,
        m == nearest(longest * pow2(e), 1400),
        0x10_0000_0000_0000 <= m,
        n == nearest(x * pow2(s), m),
        0x10_0000_0000_0000 * m <= x * pow2(s),
        pow2(e) <= 0x10_0000_0000_0000,
    ensures
        n * pow2(e) <= 2802 * pow2(s),
        nearest(n * pow2(e), pow2(s)) <= 2803,
{
    let (ee, p) = (pow2(e), pow2(s));
    lemma_pow2_step(s);
    lemma_nearest(longest * ee, 1400);
    lemma_nearest(x * p, m);
    assert(ee <= 2 * p) by (nonlinear_arith)
        requires
            0x10_0000_0000_0000 * m <= x * p,
            0x10_0000_0000_0000 <= m,
            x <= 0x20_0000_0000_0000,
            ee <= 0x10_0000_0000_0000,
    ;
    assert(x * ee <= longest * ee) by (nonlinear_arith)
        requires
            x <= longest,
    ;
    assert(x * ee <= 2800 * m);
    assert(n * m * ee <= (x * p + m) * ee) by (nonlinear_arith)
        requires
            n * m <= x * p + m,
    ;
    assert((x * p + m) * ee == (x * ee) * p + m * ee) by (nonlinear_arith);
    assert((x * ee) * p <= 2800 * m * p) by (nonlinear_arith)
        requires
            x * ee <= 2800 * m,
    ;
    assert(m * ee <= 2 * m * p) by (nonlinear_arith)
        requires
            ee <= 2 * p,
    ;
    assert(n * m * ee <= 2802 * m * p) by (nonlinear_arith)
        requires
            n * m * ee <= (x * ee) * p + m * ee,
            (x * ee) * p <= 2800 * m * p,
            m * ee <= 2 * m * p,
    ;
    assert(n * ee <= 2802 * p) by (nonlinear_arith)
        requires
            n * m * ee <= 2802 * m * p,
            m > 0,
    ;
    lemma_nearest(n * ee, p);
    assert(nearest(n * ee, p) <= 2803) by (nonlinear_arith)
        requires
            nearest(n * ee, p) * p <= n * ee + p,
            n * ee <= 2802 * p,
            p >= 1,
    ;
}

proof fn lemma_pow2_53()
    ensures
        pow2(52) == 0x10_0000_0000_0000,
        pow2(53) == 0x20_0000_0000_0000,
{
    reveal_with_fuel(pow2, 27);
    assert(pow2(26) == 0x400_0000);
    lemma_pow2_sum(26, 26);
    lemma_pow2_step(52);
}

proof fn lemma_exponent(longest: nat, e: nat)
    requires
        longest >= 1401,
        longest * pow2(e) < 0x20_0000_0000_0000 * 1400,
    ensures
        pow2(e) <= 0x10_0000_0000_0000,
{
    lemma_pow2_53();
    if e >= 53 {
        lemma_pow2_monotone(53, e);
        assert(longest * pow2(e) >= 1401 * 0x20_0000_0000_0000) by (nonlinear_arith)
            requires
                longest >= 1401,
                pow2(e) >= 0x20_0000_0000_0000,
        ;
    } else {
        lemma_pow2_monotone(e, 52);
    }
}

/// 2 to the power `n`.
pub(crate) fn power(n: u32) -> (r: u128)
    requires
        n <= 105,
    ensures
        r == pow2(n as nat),
        r <= 0x200_0000_0000_0000_0000_0000_0000,
{
    let mut p: u128 = 1;
    let mut i: u32 = 0;
    proof {
        assert(pow2(0) == 1);
        lemma_pow2_large();
    }
    while i < n
        invariant
            i <= n <= 105,
            p == pow2(i as nat),
            pow2(105) == 0x200_0000_0000_0000_0000_0000_0000,
        decreases n - i,
    {
        proof {
            lemma_pow2_step(i as nat);
            lemma_pow2_monotone((i + 1) as nat, 105);
        }
        p = 2 * p;
        i = i + 1;
    }
    proof {
        lemma_pow2_monotone(n as nat, 105);
    }
    p
}

/// `x` divided by `longest / 1400`, rounded to the nearest integer.
fn scale(x: usize, longest: usize) -> (r: usize)
    requires
        x <= longest,
        MAX_EDGE < longest <= 0x20_0000_0000_0000,
    ensures
        r == scaled(x as nat, longest as nat),
{
    if x == 0 {
        return 0;
    }
    let (m, e): (u128, u32) = divide(longest as u128, MAX_EDGE as u128);
    proof {
        assert(x < 0x20_0000_0000_0000 * m) by (nonlinear_arith)
            requires
                x <= 0x20_0000_0000_0000,
                m >= 0x10_0000_0000_0000,
        ;
    }
    let (n, s): (u128, u32) = divide(x as u128, m);
    proof {
        lemma_exponent(longest as nat, e as nat);
        lemma_scaled_bound(x as nat, longest as nat, m as nat, e as nat, n as nat, s as nat);
        assert(n * pow2(e as nat) <= 0x20_0000_0000_0000 * 0x10_0000_0000_0000) by (nonlinear_arith)
            requires
                n <= 0x20_0000_0000_0000,
                pow2(e as nat) <= 0x10_0000_0000_0000,
        ;
        lemma_pow2_step(s as nat);
    }
    let top: u128 = n * power(e);
    round_quotient(top, power(s)) as usize
}

/// The token grid of an image: `(width, height)` in 28-pixel cells.
pub open spec fn grid(width: nat, height: nat) -> (nat, nat) {
    let longest = if width >= height {
        width
    } else {
        height
    };
    (cells(capped(width, longest)), cells(capped(height, longest)))
}

/// Merged-token grid of an image: `(width, height)` in 28-pixel cells.
pub fn token_grid(width: usize, height: usize) -> (r: (usize, usize))
    requires
        width <= 0x20_0000_0000_0000,
        height <= 0x20_0000_0000_0000,
    ensures
        (r.0 as nat, r.1 as nat) == grid(width as nat, height as nat),
{
    let longest: usize = if width >= height {
        width
    } else {
        height
    };
    let (w, h): (usize, usize) = if longest > MAX_EDGE {
        (scale(width, longest), scale(height, longest))
    } else {
        (width, height)
    };
    (cell_count(w), cell_count(h))
}

fn cell_count(pixels: usize) -> (r: usize)
    ensures
        r == cells(pixels as nat),
{
    if pixels == 0 {
        1
    } else {
        (pixels - 1) / CELL + 1
    }
}

} // verus!
