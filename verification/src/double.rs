//! Nonnegative doubles by their bit patterns: sums and quotients rounded to the nearest double,
//! halves to the even one, as IEEE 754 arithmetic gives them.
use crate::arith::{lemma_pow2_sum, pow2};
use crate::nemotron::image::{nearest, power, round_quotient};
use vstd::prelude::*;

verus! {

/// The bits of 1.0.
pub const ONE: u64 = 0x3FF0_0000_0000_0000;

/// The bits of 2^53, far above any sum taken here.
pub const LARGE: u64 = 0x4340_0000_0000_0000;

/// The value of a nonnegative finite double, in units of the smallest one (2^-1074).
pub open spec fn units(bits: u64) -> nat {
    let (e, f) = (bits as nat / 0x10_0000_0000_0000, bits as nat % 0x10_0000_0000_0000);
    if e == 0 {
        f
    } else {
        (0x10_0000_0000_0000 + f) * pow2((e - 1) as nat)
    }
}

/// How often `n` is halved before it is below 2^53.
pub open spec fn halvings(n: nat) -> nat
    decreases n,
{
    if n < 0x20_0000_0000_0000 {
        0
    } else {
        1 + halvings(n / 2)
    }
}

/// The bits of the double nearest to `n / d` units.
pub open spec fn nearest_double(n: nat, d: nat) -> nat {
    let k = halvings(n / d);
    k * 0x10_0000_0000_0000 + nearest(n, d * pow2(k))
}

/// The sum of two doubles.
pub open spec fn sum(a: u64, b: u64) -> u64 {
    nearest_double(units(a) + units(b), 1) as u64
}

/// A double divided by a count.
pub open spec fn quotient(a: u64, count: nat) -> u64 {
    nearest_double(units(a), count) as u64
}

// ---------------------------------------------------------------------------------------------
// Powers of two
// ---------------------------------------------------------------------------------------------

proof fn lemma_pow2_pos(n: nat)
    ensures
        pow2(n) >= 1,
    decreases n,
{
    if n > 0 {
        lemma_pow2_pos((n - 1) as nat);
    }
}

/// Scaling both by the same factor keeps the rounded quotient.
proof fn lemma_nearest_scaled(a: nat, b: nat, c: nat)
    requires
        b > 0,
        c > 0,
    ensures
        nearest(a * c, b * c) == nearest(a, b),
{
    let (q, r) = (a / b, a % b);
    assert(a == q * b + r && r < b) by (nonlinear_arith)
        requires
            q == a / b,
            r == a % b,
            b > 0,
    ;
    let (x, y) = (a * c, b * c);
    assert(y > 0) by (nonlinear_arith)
        requires
            y == b * c,
            b > 0,
            c > 0,
    ;
    assert(x == q * y + r * c) by (nonlinear_arith)
        requires
            x == a * c,
            y == b * c,
            a == q * b + r,
    ;
    assert(r * c < y) by (nonlinear_arith)
        requires
            r < b,
            c > 0,
            y == b * c,
    ;
    assert(x / y == q && x % y == r * c) by (nonlinear_arith)
        requires
            x == q * y + r * c,
            0 <= r * c < y,
    ;
    assert((2 * (r * c) < y) == (2 * r < b)) by (nonlinear_arith)
        requires
            y == b * c,
            c > 0,
    ;
    assert((2 * (r * c) == y) == (2 * r == b)) by (nonlinear_arith)
        requires
            y == b * c,
            c > 0,
    ;
}

/// Doubling a number of at least 53 bits takes one more halving.
proof fn lemma_halvings_doubled(n: nat)
    requires
        n >= 0x10_0000_0000_0000,
    ensures
        halvings(2 * n) == 1 + halvings(n),
{
    assert((2 * n) / 2 == n);
}

/// Scaling by a power of two takes as many more halvings.
proof fn lemma_halvings_scaled(n: nat, j: nat)
    requires
        n >= 0x10_0000_0000_0000,
    ensures
        halvings(n * pow2(j)) == halvings(n) + j,
    decreases j,
{
    if j == 0 {
        assert(pow2(0) == 1);
        assert(n * 1 == n);
    } else {
        let i = (j - 1) as nat;
        lemma_halvings_scaled(n, i);
        lemma_pow2_pos(i);
        assert(n * pow2(i) >= n) by (nonlinear_arith)
            requires
                pow2(i) >= 1,
        ;
        lemma_halvings_doubled(n * pow2(i));
        assert(n * pow2(j) == 2 * (n * pow2(i))) by (nonlinear_arith)
            requires
                pow2(j) == 2 * pow2(i),
        ;
    }
}

/// What the number of halvings says: the number then has 53 bits.
proof fn lemma_halvings(n: nat)
    requires
        n >= 0x10_0000_0000_0000,
    ensures
        0x10_0000_0000_0000 * pow2(halvings(n)) <= n < 0x20_0000_0000_0000 * pow2(halvings(n)),
    decreases n,
{
    if n < 0x20_0000_0000_0000 {
        assert(pow2(0) == 1);
    } else {
        lemma_halvings(n / 2);
        let h = halvings(n / 2);
        assert(pow2(halvings(n)) == 2 * pow2(h)) by {
            assert((halvings(n) - 1) as nat == h);
        }
        assert(0x10_0000_0000_0000 * (2 * pow2(h)) <= n < 0x20_0000_0000_0000 * (2 * pow2(h)))
            by (nonlinear_arith)
            requires
                0x10_0000_0000_0000 * pow2(h) <= n / 2,
                n / 2 < 0x20_0000_0000_0000 * pow2(h),
        ;
    }
}

/// Two powers of two that bracket a number with the same bounds are equal.
proof fn lemma_same_power(n: nat, a: nat, b: nat)
    requires
        0x10_0000_0000_0000 * pow2(a) <= n < 0x20_0000_0000_0000 * pow2(a),
        0x10_0000_0000_0000 * pow2(b) <= n < 0x20_0000_0000_0000 * pow2(b),
    ensures
        a == b,
{
    if a < b {
        lemma_power_gap(a, b);
        assert(n >= 0x20_0000_0000_0000 * pow2(a)) by (nonlinear_arith)
            requires
                0x10_0000_0000_0000 * pow2(b) <= n,
                pow2(b) >= 2 * pow2(a),
        ;
    } else if b < a {
        lemma_power_gap(b, a);
        assert(n >= 0x20_0000_0000_0000 * pow2(b)) by (nonlinear_arith)
            requires
                0x10_0000_0000_0000 * pow2(a) <= n,
                pow2(a) >= 2 * pow2(b),
        ;
    }
}

proof fn lemma_power_gap(a: nat, b: nat)
    requires
        a < b,
    ensures
        pow2(b) >= 2 * pow2(a),
    decreases b,
{
    if a + 1 < b {
        lemma_power_gap(a, (b - 1) as nat);
        lemma_pow2_pos((b - 1) as nat);
    }
}

/// Scaling by a power of two moves the exponent.
proof fn lemma_double_scaled(x: nat, d: nat, j: nat)
    requires
        d > 0,
        x / d >= 0x10_0000_0000_0000,
    ensures
        nearest_double(x * pow2(j), d) == j * 0x10_0000_0000_0000 + nearest_double(x, d),
{
    let q = x / d;
    let h = halvings(q);
    let y = x * pow2(j);
    let big = y / d;
    lemma_halvings(q);
    lemma_pow2_pos(h);
    lemma_pow2_pos(j);
    lemma_pow2_sum(h, j);
    let (a, b, c) = (pow2(h), pow2(j), pow2(h + j));
    assert(d * (0x10_0000_0000_0000 * a) <= x < d * (0x20_0000_0000_0000 * a)) by (nonlinear_arith)
        requires
            q == x / d,
            d > 0,
            0x10_0000_0000_0000 * a <= q < 0x20_0000_0000_0000 * a,
    ;
    assert(d * (0x10_0000_0000_0000 * c) <= y < d * (0x20_0000_0000_0000 * c)) by (nonlinear_arith)
        requires
            y == x * b,
            c == a * b,
            b >= 1,
            d * (0x10_0000_0000_0000 * a) <= x < d * (0x20_0000_0000_0000 * a),
    ;
    assert(0x10_0000_0000_0000 * c <= big < 0x20_0000_0000_0000 * c) by (nonlinear_arith)
        requires
            big == y / d,
            d > 0,
            d * (0x10_0000_0000_0000 * c) <= y < d * (0x20_0000_0000_0000 * c),
    ;
    assert(big >= 0x10_0000_0000_0000) by (nonlinear_arith)
        requires
            0x10_0000_0000_0000 * c <= big,
            c == a * b,
            a >= 1,
            b >= 1,
    ;
    lemma_halvings(big);
    lemma_same_power(big, halvings(big), h + j);
    assert(d * c == (d * a) * b) by (nonlinear_arith)
        requires
            c == a * b,
    ;
    assert(d * a > 0) by (nonlinear_arith)
        requires
            d > 0,
            a >= 1,
    ;
    lemma_nearest_scaled(x, d * a, b);
    assert((h + j) * 0x10_0000_0000_0000 == h * 0x10_0000_0000_0000 + j * 0x10_0000_0000_0000)
        by (nonlinear_arith);
}

// ---------------------------------------------------------------------------------------------
// Execution
// ---------------------------------------------------------------------------------------------

/// The significand and scale of a double.
fn split(bits: u64) -> (r: (u64, u32))
    requires
        bits <= LARGE,
    ensures
        units(bits) == r.0 * pow2(r.1 as nat),
        r.0 < 0x20_0000_0000_0000,
        r.1 > 0 ==> r.0 >= 0x10_0000_0000_0000,
        r.1 < 0x800,
        bits == r.1 * 0x10_0000_0000_0000 + r.0,
{
    let e: u64 = bits / 0x10_0000_0000_0000;
    let f: u64 = bits % 0x10_0000_0000_0000;
    if e == 0 {
        assert(pow2(0) == 1);
        assert(f * pow2(0) == f);
        (f, 0)
    } else {
        (0x10_0000_0000_0000 + f, (e - 1) as u32)
    }
}

/// The bits of the double nearest to `x / d` units.
fn round_double(x: u128, d: u128) -> (r: u64)
    requires
        d > 0,
        x < 0x80_0000_0000_0000_0000_0000_0000_0000,
    ensures
        r == nearest_double(x as nat, d as nat),
        r < 0x100_0000_0000_0000 * 128,
{
    let whole: u128 = x / d;
    let mut q: u128 = whole;
    let mut p: u128 = 1;
    let mut k: u64 = 0;
    proof {
        assert(pow2(0) == 1);
        assert(whole * 1 == whole);
        assert(whole <= x) by (nonlinear_arith)
            requires
                whole == x / d,
                d > 0,
                x >= 0,
        ;
    }
    while q >= 0x20_0000_0000_0000
        invariant
            d > 0,
            whole == x / d,
            whole <= x < 0x80_0000_0000_0000_0000_0000_0000_0000,
            halvings(whole as nat) == k + halvings(q as nat),
            p == pow2(k as nat),
            p >= 1,
            q * p <= whole,
            k <= 127,
            k > 0 ==> q >= 0x10_0000_0000_0000,
        decreases q,
    {
        proof {
            assert((q / 2) * (2 * p) <= q * p) by (nonlinear_arith);
            assert(p <= whole) by (nonlinear_arith)
                requires
                    q * p <= whole,
                    q >= 1,
            ;
            assert(2 * p <= whole) by (nonlinear_arith)
                requires
                    q * p <= whole,
                    q >= 2,
            ;
            assert(pow2((k + 1) as nat) == 2 * pow2(k as nat));
            lemma_exponent_bound(k as nat, p as nat);
        }
        q = q / 2;
        p = 2 * p;
        k = k + 1;
    }
    proof {
        if k > 0 {
            assert(d * p <= x) by (nonlinear_arith)
                requires
                    whole == x / d,
                    q * p <= whole,
                    q >= 1,
                    d > 0,
                    p >= 1,
            ;
        } else {
            assert(d * 1 == d);
        }
        assert(k + halvings(q as nat) == k);
    }
    if k == 0 && d > x {
        // Less than one unit.
        let m: u128 = if d - x > x || d - x == x {
            0
        } else {
            1
        };
        proof {
            assert(x as nat / d as nat == 0 && x as nat % d as nat == x) by (nonlinear_arith)
                requires
                    x < d,
            ;
            assert(d * 1 == d);
        }
        return m as u64;
    }
    proof {
        if k == 0 {
            assert(d * p == d);
        }
        assert(d * p > 0) by (nonlinear_arith)
            requires
                d > 0,
                p >= 1,
        ;
    }
    let m: u128 = round_quotient(x, d * p);
    proof {
        lemma_rounded(x as nat, d as nat, p as nat, q as nat, k as nat);
    }
    k * 0x10_0000_0000_0000 + m as u64
}

/// A power of two of 120 bits at most has an exponent below 120.
proof fn lemma_exponent_bound(k: nat, p: nat)
    requires
        p == pow2(k),
        p < 0x80_0000_0000_0000_0000_0000_0000_0000,
    ensures
        k < 127,
{
    if k >= 127 {
        lemma_pow2_127();
        if k > 127 {
            lemma_power_gap(127, k);
        }
    }
}

proof fn lemma_pow2_127()
    ensures
        pow2(127) >= 0x80_0000_0000_0000_0000_0000_0000_0000,
{
    reveal_with_fuel(pow2, 22);
    assert(pow2(21) == 0x20_0000);
    lemma_pow2_sum(21, 21);
    assert(pow2(42) == 0x400_0000_0000);
    lemma_pow2_sum(42, 42);
    assert(pow2(84) == 0x10_0000_0000_0000_0000_0000);
    lemma_pow2_sum(84, 21);
    lemma_pow2_sum(105, 21);
    lemma_pow2_sum(126, 1);
}

/// The rounded significand has at most 53 bits and one.
proof fn lemma_rounded(x: nat, d: nat, p: nat, q: nat, k: nat)
    requires
        d > 0,
        p >= 1,
        p == pow2(k),
        halvings(x / d) == k,
        k > 0 ==> x / d >= 0x20_0000_0000_0000,
        k == 0 ==> x / d < 0x20_0000_0000_0000,
    ensures
        nearest(x, d * p) <= 0x20_0000_0000_0000,
{
    let whole = x / d;
    if k > 0 {
        lemma_halvings(whole);
    } else {
        assert(pow2(0) == 1);
    }
    assert(whole < 0x20_0000_0000_0000 * p);
    assert(x < d * p * 0x20_0000_0000_0000) by (nonlinear_arith)
        requires
            whole == x / d,
            whole < 0x20_0000_0000_0000 * p,
            d > 0,
    ;
    let (b, n) = (d * p, x / (d * p));
    assert(b > 0) by (nonlinear_arith)
        requires
            b == d * p,
            d > 0,
            p >= 1,
    ;
    assert(n < 0x20_0000_0000_0000) by (nonlinear_arith)
        requires
            n == x / b,
            x < b * 0x20_0000_0000_0000,
            b > 0,
    ;
}

/// A number much smaller than the last place of a double does not change it.
proof fn lemma_absorbed(m: nat, s: nat, t: nat)
    requires
        0x10_0000_0000_0000 <= m < 0x20_0000_0000_0000,
        2 * t < pow2(s),
    ensures
        nearest_double(m * pow2(s) + t, 1) == s * 0x10_0000_0000_0000 + m,
{
    let p = pow2(s);
    let n = m * p + t;
    lemma_pow2_pos(s);
    assert(0x10_0000_0000_0000 * p <= n < 0x20_0000_0000_0000 * p) by (nonlinear_arith)
        requires
            n == m * p + t,
            0x10_0000_0000_0000 <= m < 0x20_0000_0000_0000,
            2 * t < p,
            t >= 0,
    ;
    assert(n / 1 == n);
    assert(n >= 0x10_0000_0000_0000) by (nonlinear_arith)
        requires
            0x10_0000_0000_0000 * p <= n,
            p >= 1,
    ;
    lemma_halvings(n);
    lemma_same_power(n, halvings(n), s);
    assert(1 * p == p);
    assert(n / p == m && n % p == t) by (nonlinear_arith)
        requires
            n == m * p + t,
            0 <= t < p,
    ;
}

/// The sum of two doubles.
pub fn add_doubles(a: u64, b: u64) -> (r: u64)
    requires
        a <= LARGE,
        b <= LARGE,
    ensures
        r == sum(a, b),
{
    let (large, small): (u64, u64) = if a >= b {
        (a, b)
    } else {
        (b, a)
    };
    let (m1, s1): (u64, u32) = split(large);
    let (m2, s2): (u64, u32) = split(small);
    proof {
        assert(s1 >= s2);
    }
    let d: u32 = s1 - s2;
    let ghost n = units(a) + units(b);
    assert(n == m1 * pow2(s1 as nat) + m2 * pow2(s2 as nat));
    if d > 60 {
        proof {
            let t = m2 * pow2(s2 as nat);
            lemma_pow2_sum(s2 as nat, d as nat);
            lemma_pow2_sum(54, (d - 54) as nat);
            lemma_pow2_54();
            lemma_pow2_pos((d - 54) as nat);
            lemma_pow2_pos(s2 as nat);
            let (p, e) = (pow2(s2 as nat), pow2(d as nat));
            assert(e >= 0x40_0000_0000_0000) by (nonlinear_arith)
                requires
                    e == 0x40_0000_0000_0000 * pow2((d - 54) as nat),
                    pow2((d - 54) as nat) >= 1,
            ;
            assert(2 * (m2 * p) < p * e) by (nonlinear_arith)
                requires
                    m2 < 0x20_0000_0000_0000,
                    e >= 0x40_0000_0000_0000,
                    p >= 1,
            ;
            lemma_absorbed(m1 as nat, s1 as nat, t as nat);
        }
        return large;
    }
    proof {
        lemma_small_power(d as nat);
        assert(m1 * pow2(d as nat) <= 0x20_0000_0000_0000 * 0x1000_0000_0000_0000)
            by (nonlinear_arith)
            requires
                m1 < 0x20_0000_0000_0000,
                pow2(d as nat) <= 0x1000_0000_0000_0000,
        ;
    }
    let x: u128 = (m1 as u128) * power(d) + m2 as u128;
    let r: u64 = round_double(x, 1);
    proof {
        let (p, e) = (pow2(s2 as nat), pow2(d as nat));
        lemma_pow2_sum(s2 as nat, d as nat);
        assert(n == x * p) by (nonlinear_arith)
            requires
                n == m1 * (p * e) + m2 * p,
                x == m1 * e + m2,
        ;
        assert(x as nat / 1 == x as nat);
        if s2 > 0 {
            lemma_double_scaled(x as nat, 1, s2 as nat);
        } else {
            assert(pow2(0) == 1);
            assert(x * 1 == x);
        }
    }
    (s2 as u64) * 0x10_0000_0000_0000 + r
}

proof fn lemma_pow2_54()
    ensures
        pow2(54) == 0x40_0000_0000_0000,
{
    reveal_with_fuel(pow2, 28);
    assert(pow2(27) == 0x800_0000);
    lemma_pow2_sum(27, 27);
}

proof fn lemma_pow2_60()
    ensures
        pow2(60) == 0x1000_0000_0000_0000,
{
    reveal_with_fuel(pow2, 21);
    assert(pow2(20) == 0x10_0000);
    lemma_pow2_sum(20, 20);
    lemma_pow2_sum(40, 20);
}

proof fn lemma_small_power(d: nat)
    requires
        d <= 60,
    ensures
        1 <= pow2(d) <= 0x1000_0000_0000_0000,
{
    lemma_pow2_pos(d);
    lemma_pow2_60();
    if d < 60 {
        lemma_power_gap(d, 60);
    }
}

/// A double divided by a count.
pub fn divide_double(a: u64, count: u32) -> (r: u64)
    requires
        a <= LARGE,
        count > 0,
    ensures
        r == quotient(a, count as nat),
{
    let (m, s): (u64, u32) = split(a);
    let t: u32 = if s <= 40 {
        s
    } else {
        40
    };
    let ghost j = (s - t) as nat;
    proof {
        lemma_small_power(t as nat);
        lemma_forty(t as nat);
        assert(m * pow2(t as nat) <= 0x20_0000_0000_0000 * 0x100_0000_0000) by (nonlinear_arith)
            requires
                m < 0x20_0000_0000_0000,
                pow2(t as nat) <= 0x100_0000_0000,
        ;
    }
    let z: u128 = (m as u128) * power(t);
    let r: u64 = round_double(z, count as u128);
    proof {
        let n = units(a);
        lemma_pow2_sum(t as nat, j);
        let (p, e) = (pow2(t as nat), pow2(j));
        assert(n == z * e) by (nonlinear_arith)
            requires
                n == m * (p * e),
                z == m * p,
        ;
        if j > 0 {
            assert(p == 0x100_0000_0000);
            let q = z as nat / count as nat;
            assert(q >= 0x10_0000_0000_0000) by (nonlinear_arith)
                requires
                    q == z as nat / count as nat,
                    z == m * 0x100_0000_0000,
                    m >= 0x10_0000_0000_0000,
                    0 < count <= 0xFFFF_FFFF,
            ;
            lemma_double_scaled(z as nat, count as nat, j);
        } else {
            assert(pow2(0) == 1);
            assert(z * 1 == z);
        }
    }
    ((s - t) as u64) * 0x10_0000_0000_0000 + r
}

proof fn lemma_forty(t: nat)
    requires
        t <= 40,
    ensures
        pow2(t) <= 0x100_0000_0000,
        t == 40 ==> pow2(t) == 0x100_0000_0000,
{
    reveal_with_fuel(pow2, 21);
    assert(pow2(20) == 0x10_0000);
    lemma_pow2_sum(20, 20);
    if t < 40 {
        lemma_power_gap(t, 40);
        lemma_pow2_pos(t);
    }
}

// ---------------------------------------------------------------------------------------------
// Bounds
// ---------------------------------------------------------------------------------------------

proof fn lemma_power_order(a: nat, b: nat)
    requires
        a <= b,
    ensures
        pow2(a) <= pow2(b),
{
    if a < b {
        lemma_power_gap(a, b);
        lemma_pow2_pos(a);
    }
}

proof fn lemma_pow2_52()
    ensures
        pow2(52) == 0x10_0000_0000_0000,
        pow2(53) == 0x20_0000_0000_0000,
{
    lemma_pow2_54();
    assert(pow2(54) == 2 * pow2(53));
    assert(pow2(53) == 2 * pow2(52));
}

/// 1.0 in units.
pub open spec fn one() -> nat {
    pow2(1074)
}

/// A double up to 1.0 has at most as many units as 1.0.
pub proof fn lemma_at_most_one(b: u64)
    requires
        b <= ONE,
    ensures
        units(b) <= one(),
{
    let (e, f) = (b as nat / 0x10_0000_0000_0000, b as nat % 0x10_0000_0000_0000);
    lemma_pow2_52();
    lemma_pow2_sum(52, 1022);
    if e == 0 {
        lemma_power_order(52, 1074);
    } else if e == 1023 {
        assert(f == 0);
    } else {
        assert(e <= 1022);
        lemma_power_order((e - 1) as nat, 1021);
        assert(pow2(1022) == 2 * pow2(1021));
        let p = pow2((e - 1) as nat);
        assert((0x10_0000_0000_0000 + f) * p <= 0x10_0000_0000_0000 * pow2(1022)) by (nonlinear_arith)
            requires
                f < 0x10_0000_0000_0000,
                p <= pow2(1021),
                pow2(1022) == 2 * pow2(1021),
        ;
    }
}

/// The units of a rounded number are close to it.
proof fn lemma_rounding_error(n: nat)
    requires
        n <= pow2(1127),
    ensures
        nearest_double(n, 1) <= LARGE,
        units(nearest_double(n, 1) as u64) * 0x20_0000_0000_0000 <= n * 0x20_0000_0000_0001,
{
    assert(n / 1 == n);
    let big: nat = 0x10_0000_0000_0000;
    if n < big {
        assert(halvings(n) == 0);
        assert(pow2(0) == 1);
        assert(1 * pow2(0) == 1nat);
        assert(n % 1 == 0);
        assert(nearest_double(n, 1) == n);
        assert(units(n as u64) == n);
    } else {
        let k = halvings(n);
        let p = pow2(k);
        lemma_halvings(n);
        lemma_pow2_pos(k);
        assert(1 * p == p);
        let q = nearest(n, p);
        let (w, r) = (n / p, n % p);
        assert(n == w * p + r && r < p) by (nonlinear_arith)
            requires
                w == n / p,
                r == n % p,
                p > 0,
        ;
        assert(big <= w < 2 * big) by (nonlinear_arith)
            requires
                n == w * p + r,
                r < p,
                big * p <= n < 2 * big * p,
                p > 0,
                big == 0x10_0000_0000_0000,
        ;
        assert(2 * (q * p) <= 2 * n + p) by (nonlinear_arith)
            requires
                n == w * p + r,
                q == w && 0 <= r || q == w + 1 && 2 * r >= p,
        ;
        // The exponent is small.
        lemma_pow2_52();
        lemma_pow2_sum(52, 1075);
        assert(k <= 1075) by {
            if k > 1075 {
                lemma_power_gap(1075, k);
                assert(n >= big * p);
                assert(big * p > pow2(1127)) by (nonlinear_arith)
                    requires
                        p >= 2 * pow2(1075),
                        pow2(1127) == big * pow2(1075),
                        pow2(1075) >= 1,
                        big == 0x10_0000_0000_0000,
                ;
            }
        }
        lemma_pow2_pos(1075);
        if k == 1075 {
            assert(w == big && r == 0) by (nonlinear_arith)
                requires
                    n == w * p + r,
                    n <= big * p,
                    w >= big,
                    p > 0,
                    r >= 0,
            ;
        }
        let bits = k * big + q;
        assert(bits <= LARGE);
        lemma_units_of(k, q);
        assert((q * p) * (2 * big) <= n * (2 * big + 1)) by (nonlinear_arith)
            requires
                2 * (q * p) <= 2 * n + p,
                big * p <= n,
                big == 0x10_0000_0000_0000,
        ;
    }
}

/// The units of bits made of a scale and a significand.
proof fn lemma_units_of(k: nat, q: nat)
    requires
        0x10_0000_0000_0000 <= q <= 0x20_0000_0000_0000,
        k * 0x10_0000_0000_0000 + q <= LARGE,
    ensures
        units((k * 0x10_0000_0000_0000 + q) as u64) == q * pow2(k),
{
    let bits = k * 0x10_0000_0000_0000 + q;
    if q < 0x20_0000_0000_0000 {
        assert(bits / 0x10_0000_0000_0000 == k + 1);
        assert(bits % 0x10_0000_0000_0000 == q - 0x10_0000_0000_0000);
    } else {
        assert(bits / 0x10_0000_0000_0000 == k + 2);
        assert(bits % 0x10_0000_0000_0000 == 0);
        assert(pow2(k + 1) == 2 * pow2(k));
        assert(0x10_0000_0000_0000 * (2 * pow2(k)) == 0x20_0000_0000_0000 * pow2(k))
            by (nonlinear_arith);
    }
}

/// A running sum of doubles up to 1.0 stays below twice their number.
pub proof fn lemma_running_sum(a: u64, b: u64, i: nat)
    requires
        a <= LARGE,
        units(a) <= 2 * i * one(),
        b <= ONE,
        i < 0x1_0000_0000,
    ensures
        sum(a, b) <= LARGE,
        units(sum(a, b)) <= 2 * (i + 1) * one(),
        sum(a, b) == nearest_double(units(a) + units(b), 1),
{
    let u = one();
    let n = units(a) + units(b);
    lemma_at_most_one(b);
    lemma_pow2_pos(1074);
    lemma_pow2_52();
    lemma_pow2_sum(1074, 53);
    assert(n <= (2 * i + 1) * u) by (nonlinear_arith)
        requires
            n <= 2 * i * u + u,
    ;
    assert(n <= pow2(1127)) by (nonlinear_arith)
        requires
            n <= (2 * i + 1) * u,
            i < 0x1_0000_0000,
            pow2(1127) == u * 0x20_0000_0000_0000,
    ;
    lemma_rounding_error(n);
    let v = units(sum(a, b));
    assert(v <= 2 * (i + 1) * u) by (nonlinear_arith)
        requires
            v * 0x20_0000_0000_0000 <= n * 0x20_0000_0000_0001,
            n <= (2 * i + 1) * u,
            i < 0x1_0000_0000,
    ;
}

/// The double nearest to a double is the double itself: dividing by one and adding zero change
/// nothing.
pub proof fn law_doubles_are_their_own_nearest(bits: u64)
    ensures
        nearest_double(units(bits), 1) == bits,
        quotient(bits, 1) == bits,
        sum(bits, 0) == bits,
{
    let (e, f) = (bits as nat / 0x10_0000_0000_0000, bits as nat % 0x10_0000_0000_0000);
    let n = units(bits);
    assert(units(0) == 0);
    assert(n / 1 == n);
    if e == 0 {
        assert(pow2(0) == 1);
        assert(halvings(n) == 0);
        assert(1 * pow2(0) == 1);
        assert(n % 1 == 0);
        assert(nearest(n, 1) == n);
    } else {
        let m = 0x10_0000_0000_0000 + f;
        let j = (e - 1) as nat;
        lemma_halvings_scaled(m, j);
        assert(halvings(m) == 0);
        assert(halvings(n) == j);
        lemma_pow2_pos(j);
        let p = pow2(j);
        assert(1 * p == p);
        assert(n == m * p);
        vstd::arithmetic::div_mod::lemma_div_multiples_vanish(m as int, p as int);
        vstd::arithmetic::div_mod::lemma_mod_multiples_basic(m as int, p as int);
        assert(m * p == p * m) by (nonlinear_arith);
        assert(n / p == m);
        assert(n % p == 0);
        assert(nearest(n, p) == m);
        assert(j * 0x10_0000_0000_0000 + m == bits) by {
            assert(bits == e * 0x10_0000_0000_0000 + f);
        }
    }
}

/// A double of at least 53 bits, by its scale and its significand.
proof fn lemma_scaled_double(m: nat, k: nat)
    requires
        0x10_0000_0000_0000 <= m < 0x20_0000_0000_0000,
    ensures
        nearest_double(m * pow2(k), 1) == k * 0x10_0000_0000_0000 + m,
{
    let n = m * pow2(k);
    let p = pow2(k);
    assert(n / 1 == n);
    lemma_halvings_scaled(m, k);
    assert(halvings(m) == 0);
    lemma_pow2_pos(k);
    assert(1 * p == p);
    vstd::arithmetic::div_mod::lemma_div_multiples_vanish(m as int, p as int);
    vstd::arithmetic::div_mod::lemma_mod_multiples_basic(m as int, p as int);
    assert(m * p == p * m) by (nonlinear_arith);
    assert(n / p == m && n % p == 0);
    assert(nearest(n, p) == m);
}

/// Adding a double to itself doubles it, and dividing it by two halves it: its exponent grows or
/// falls by one.
pub proof fn law_doubling_and_halving_move_the_exponent(bits: u64)
    requires
        0x20_0000_0000_0000 <= bits < 0x7FE0_0000_0000_0000,
    ensures
        sum(bits, bits) == bits + 0x10_0000_0000_0000,
        quotient(bits, 2) == bits - 0x10_0000_0000_0000,
{
    let (e, f) = (bits as nat / 0x10_0000_0000_0000, bits as nat % 0x10_0000_0000_0000);
    let m = 0x10_0000_0000_0000 + f;
    let j = (e - 1) as nat;
    assert(j >= 1);
    assert(bits == j * 0x10_0000_0000_0000 + m);
    let n = units(bits);
    assert(n == m * pow2(j));
    assert(pow2(j + 1) == 2 * pow2(j));
    assert(n + n == m * pow2(j + 1)) by (nonlinear_arith)
        requires
            n == m * pow2(j),
            pow2(j + 1) == 2 * pow2(j),
    ;
    lemma_scaled_double(m, j + 1);
    assert((j + 1) * 0x10_0000_0000_0000 + m == bits + 0x10_0000_0000_0000);
    let i = (j - 1) as nat;
    let p = pow2(i);
    assert(pow2(j) == 2 * p);
    assert(n == 2 * (m * p)) by (nonlinear_arith)
        requires
            n == m * pow2(j),
            pow2(j) == 2 * p,
    ;
    let h = m * p;
    assert(n / 2 == h);
    lemma_halvings_scaled(m, i);
    assert(halvings(m) == 0);
    lemma_pow2_pos(i);
    let d = 2 * p;
    assert(2 * pow2(halvings(n / 2)) == d);
    assert(n == m * d) by (nonlinear_arith)
        requires
            n == 2 * (m * p),
            d == 2 * p,
    ;
    vstd::arithmetic::div_mod::lemma_div_multiples_vanish(m as int, d as int);
    vstd::arithmetic::div_mod::lemma_mod_multiples_basic(m as int, d as int);
    assert(m * d == d * m) by (nonlinear_arith);
    assert(n / d == m && n % d == 0);
    assert(nearest(n, d) == m);
    assert(i * 0x10_0000_0000_0000 + m == bits - 0x10_0000_0000_0000);
}

} // verus!
