//! Integer arithmetic: powers of two, rounding up, and products that may overflow.
use vstd::prelude::*;

verus! {

/// `n` is 1, or twice a power of two.
pub open spec fn power_of_two(n: int) -> bool
    decreases n,
{
    n == 1 || (n > 1 && n % 2 == 0 && power_of_two(n / 2))
}

/// Whether `n` is a power of two.
pub fn is_power_of_two(n: u64) -> (r: bool)
    ensures
        r == power_of_two(n as int),
{
    if n == 0 {
        return false;
    }
    let mut m: u64 = n;
    while m % 2 == 0
        invariant
            m > 0,
            power_of_two(n as int) == power_of_two(m as int),
        decreases m,
    {
        m = m / 2;
    }
    m == 1
}

/// The smallest power of two that is at least `n`.
pub open spec fn least_power(n: int, r: int) -> bool {
    &&& power_of_two(r)
    &&& n <= r
    &&& r == 1 || r / 2 < n
}

/// A power of two at least `n` is at least the smallest such one.
pub proof fn lemma_least_power(n: int, r: int, p: int)
    requires
        least_power(n, r),
        power_of_two(p),
        n <= p,
    ensures
        r <= p,
{
    if p < r {
        lemma_powers_double(p, r);
    }
}

/// Powers of two are at least a factor of two apart.
pub proof fn lemma_powers_double(p: int, r: int)
    requires
        power_of_two(p),
        power_of_two(r),
        p < r,
    ensures
        2 * p <= r,
    decreases r,
{
    if p > 1 {
        lemma_powers_double(p / 2, r / 2);
    }
}

/// The smallest power of two that is at least `n`.
pub fn next_power_of_two(n: usize) -> (r: usize)
    requires
        n <= usize::MAX / 2 + 1,
    ensures
        least_power(n as int, r as int),
{
    let mut p: usize = 1;
    while p < n
        invariant
            n <= usize::MAX / 2 + 1,
            power_of_two(p as int),
            p == 1 || (p / 2) < n,
            p >= 1,
        decreases 2 * n - p,
    {
        p = p * 2;
    }
    p
}

/// The product of the numbers.
pub open spec fn product(numbers: Seq<nat>) -> nat
    decreases numbers.len(),
{
    if numbers.len() == 0 {
        1
    } else {
        product(numbers.drop_last()) * numbers.last()
    }
}

/// `n` rounded up to a multiple of `m`.
pub open spec fn round_up(n: int, m: int) -> int {
    (n + m - 1) / m * m
}

/// `n / m`, rounded up.
pub fn div_ceil(n: usize, m: usize) -> (r: usize)
    requires
        m > 0,
    ensures
        r == (n + m - 1) / (m as int),
{
    let q: usize = n / m;
    let rest: usize = n % m;
    proof {
        assert(n == q * m + rest) by (nonlinear_arith)
            requires
                q == n / m,
                rest == n % m,
                m > 0,
        ;
        assert(rest == 0 ==> (n + m - 1) / (m as int) == q) by (nonlinear_arith)
            requires
                n == q * m + rest,
                0 <= rest < m,
        ;
        assert(rest > 0 ==> (n + m - 1) / (m as int) == q + 1) by (nonlinear_arith)
            requires
                n == q * m + rest,
                0 <= rest < m,
        ;
        assert(rest > 0 ==> q < n) by (nonlinear_arith)
            requires
                n == q * m + rest,
                m > 0,
                q >= 0,
        ;
    }
    if rest == 0 {
        q
    } else {
        q + 1
    }
}

/// Wide numbers as numbers.
pub open spec fn wide(list: Seq<u128>) -> Seq<nat> {
    Seq::new(list.len(), |i: int| list[i] as nat)
}

/// 2 to the power `n`.
pub open spec fn pow2(n: nat) -> nat
    decreases n,
{
    if n == 0 {
        1
    } else {
        2 * pow2((n - 1) as nat)
    }
}

/// Powers multiply.
pub proof fn lemma_pow2_sum(a: nat, b: nat)
    ensures
        pow2(a + b) == pow2(a) * pow2(b),
    decreases b,
{
    if b > 0 {
        let c = (b - 1) as nat;
        lemma_pow2_sum(a, c);
        assert((a + b - 1) as nat == a + c);
        assert(pow2(a + b) == 2 * pow2(a + c));
        assert(pow2(b) == 2 * pow2(c));
        assert(pow2(a) * (2 * pow2(c)) == 2 * (pow2(a) * pow2(c))) by (nonlinear_arith);
    } else {
        assert(pow2(0) == 1);
        assert(pow2(a) * 1 == pow2(a));
    }
}

} // verus!
