//! What holds of every token grid.
use crate::arith::pow2;
use crate::nemotron::image::{double_quotient, doublings, grid, nearest, scaled, MAX_EDGE};
use vstd::prelude::*;

verus! {

/// A rounded quotient is at most a half away.
proof fn lemma_half_away(a: nat, b: nat)
    requires
        b > 0,
    ensures
        2 * (nearest(a, b) * b) <= 2 * a + b,
        2 * a <= 2 * (nearest(a, b) * b) + b,
{
    let (q, rest) = (a / b, a % b);
    assert(a == q * b + rest && rest < b) by (nonlinear_arith)
        requires
            q == a / b,
            rest == a % b,
            b > 0,
    ;
    assert((q + 1) * b == q * b + b) by (nonlinear_arith);
}

/// Doubling ends with 53 bits.
proof fn lemma_doublings(a: nat, b: nat)
    requires
        0 < a,
        0 < b,
        a < 0x20_0000_0000_0000 * b,
    ensures
        0x10_0000_0000_0000 * b <= a * pow2(doublings(a, b)) < 0x20_0000_0000_0000 * b,
        pow2(doublings(a, b)) >= 1,
    decreases 0x20_0000_0000_0000 * b - a,
{
    if a >= 0x10_0000_0000_0000 * b {
        assert(pow2(0) == 1);
        assert(a * pow2(0) == a) by (nonlinear_arith)
            requires
                pow2(0) == 1,
        ;
    } else {
        let s = doublings(2 * a, b);
        lemma_doublings(2 * a, b);
        assert(doublings(a, b) == 1 + s);
        assert(pow2(1 + s) == 2 * pow2(s));
        assert(a * (2 * pow2(s)) == (2 * a) * pow2(s)) by (nonlinear_arith);
    }
}

/// Scaled edges do not exceed the cap, and the longest edge comes within one pixel of it.
proof fn lemma_scaled(x: nat, longest: nat)
    requires
        0 < x <= longest,
        MAX_EDGE < longest <= 0x20_0000_0000_0000,
    ensures
        scaled(x, longest) <= 1400,
        x == longest ==> scaled(x, longest) >= 1399,
{
    let (m, e) = double_quotient(longest, MAX_EDGE as nat);
    let (n, s) = double_quotient(x, m);
    let (ee, p) = (pow2(e), pow2(s));
    lemma_doublings(longest, 1400);
    lemma_half_away(longest * ee, 1400);
    let le = longest * ee;
    assert(m >= 0x10_0000_0000_0000) by {
        assert(2 * le <= 2 * (m * 1400) + 1400);
        assert(le >= 0x10_0000_0000_0000 * 1400);
    }
    assert(x < 0x20_0000_0000_0000 * m) by (nonlinear_arith)
        requires
            x <= 0x20_0000_0000_0000,
            m >= 0x10_0000_0000_0000,
    ;
    lemma_doublings(x, m);
    lemma_half_away(x * p, m);
    // The second scale is far larger than the first.
    assert(le <= 2800 * m);
    assert(ee * 0x100_0000_0000 <= p) by {
        assert(longest * p >= x * p) by (nonlinear_arith)
            requires
                x <= longest,
        ;
        assert(2800 * (longest * p) >= 0x10_0000_0000_0000 * le);
        assert(2800 * (longest * p) == longest * (2800 * p)) by (nonlinear_arith);
        assert(0x10_0000_0000_0000 * le == longest * (0x10_0000_0000_0000 * ee))
            by (nonlinear_arith)
            requires
                le == longest * ee,
        ;
        assert(2800 * p >= 0x10_0000_0000_0000 * ee) by (nonlinear_arith)
            requires
                longest * (2800 * p) >= longest * (0x10_0000_0000_0000 * ee),
                longest > 0,
        ;
    }
    let xe = x * ee;
    assert(xe <= le) by (nonlinear_arith)
        requires
            x <= longest,
            xe == x * ee,
            le == longest * ee,
    ;
    let mp = m * p;
    let me = m * ee;
    assert(me * 0x100_0000_0000 <= mp) by (nonlinear_arith)
        requires
            ee * 0x100_0000_0000 <= p,
            me == m * ee,
            mp == m * p,
    ;
    assert(0x10_0000_0000_0000 * p <= mp) by (nonlinear_arith)
        requires
            m >= 0x10_0000_0000_0000,
            mp == m * p,
    ;
    // Both roundings, over one denominator.
    let nm = n * m;
    let xp = x * p;
    assert((2 * nm) * ee <= (2 * xp + m) * ee) by (nonlinear_arith)
        requires
            2 * nm <= 2 * xp + m,
    ;
    assert((2 * xp + m) * ee == 2 * (xe * p) + me) by (nonlinear_arith)
        requires
            xp == x * p,
            xe == x * ee,
            me == m * ee,
    ;
    assert(2 * xe <= 2800 * m + 1400);
    assert(2 * (xe * p) <= 2800 * mp + 1400 * p) by (nonlinear_arith)
        requires
            2 * xe <= 2800 * m + 1400,
            mp == m * p,
    ;
    let ne = n * ee;
    assert((2 * nm) * ee == 2 * (ne * m)) by (nonlinear_arith)
        requires
            nm == n * m,
            ne == n * ee,
    ;
    assert(2 * (ne * m) <= 2801 * mp);
    assert(2 * ne <= 2801 * p) by (nonlinear_arith)
        requires
            2 * (ne * m) <= 2801 * mp,
            mp == m * p,
            m > 0,
    ;
    lemma_rounds_to(ne, p);
    if x == longest {
        assert((2 * xp) * ee <= (2 * nm + m) * ee) by (nonlinear_arith)
            requires
                2 * xp <= 2 * nm + m,
        ;
        assert((2 * xp) * ee == 2 * (xe * p)) by (nonlinear_arith)
            requires
                xp == x * p,
                xe == x * ee,
        ;
        assert((2 * nm + m) * ee == 2 * (ne * m) + me) by (nonlinear_arith)
            requires
                nm == n * m,
                ne == n * ee,
                me == m * ee,
        ;
        assert(2800 * m <= 2 * xe + 1400);
        assert(2800 * mp <= 2 * (xe * p) + 1400 * p) by (nonlinear_arith)
            requires
                2800 * m <= 2 * xe + 1400,
                mp == m * p,
        ;
        assert(2799 * mp <= 2 * (ne * m));
        assert(2799 * p <= 2 * ne) by (nonlinear_arith)
            requires
                2799 * mp <= 2 * (ne * m),
                mp == m * p,
                m > 0,
        ;
    }
}

/// What is at most 1400 and a half rounds to at most 1400, what is at least 1399 and a half to at
/// least 1399.
proof fn lemma_rounds_to(a: nat, b: nat)
    requires
        b > 0,
    ensures
        2 * a <= 2801 * b ==> nearest(a, b) <= 1400,
        2799 * b <= 2 * a ==> nearest(a, b) >= 1399,
{
    let (q, rest) = (a / b, a % b);
    assert(a == q * b + rest && rest < b) by (nonlinear_arith)
        requires
            q == a / b,
            rest == a % b,
            b > 0,
    ;
    if 2 * a <= 2801 * b {
        if q >= 1401 {
            assert(q * b >= 1401 * b) by (nonlinear_arith)
                requires
                    q >= 1401,
            ;
        }
        if q == 1400 {
            assert(q * b == 1400 * b);
            assert(2 * rest <= b);
        }
    }
    if 2799 * b <= 2 * a {
        if q <= 1398 {
            assert(q * b <= 1398 * b) by (nonlinear_arith)
                requires
                    q <= 1398,
            ;
        }
    }
}

/// Both sides of a grid have 1 to 50 cells.
pub proof fn law_grids_have_one_to_fifty_cells(width: nat, height: nat)
    requires
        width <= 0x20_0000_0000_0000,
        height <= 0x20_0000_0000_0000,
    ensures
        1 <= grid(width, height).0 <= 50,
        1 <= grid(width, height).1 <= 50,
{
    let longest = if width >= height {
        width
    } else {
        height
    };
    if longest > MAX_EDGE {
        if width > 0 {
            lemma_scaled(width, longest);
        }
        if height > 0 {
            lemma_scaled(height, longest);
        }
    }
}

/// An image within the cap has the cells that its pixels fill; the longest edge of any other reaches
/// the cap.
pub proof fn law_the_longest_edge_is_capped(width: nat, height: nat)
    requires
        1 <= width <= 0x20_0000_0000_0000,
        1 <= height <= 0x20_0000_0000_0000,
    ensures
        width <= 1400 && height <= 1400 ==> grid(width, height) == (
            (width + 27) / 28,
            (height + 27) / 28,
        ),
        width > 1400 || height > 1400 ==> if width >= height {
            grid(width, height).0 == 50
        } else {
            grid(width, height).1 == 50
        },
{
    let longest = if width >= height {
        width
    } else {
        height
    };
    if longest > MAX_EDGE {
        lemma_scaled(longest, longest);
    }
}

/// Swapping width and height swaps the grid.
pub proof fn law_grids_are_symmetric(width: nat, height: nat)
    ensures
        grid(height, width) == (grid(width, height).1, grid(width, height).0),
{
}

} // verus!
