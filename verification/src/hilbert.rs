// The Hilbert curve index transform: a bijection between linear distances
// `d` in `[0, n*n)` and coordinates `(x, y)` on an `n` by `n` grid, for `n`
// a power of two.

use vstd::prelude::*;
use vstd::arithmetic::div_mod::lemma_breakdown;
use vstd::arithmetic::div_mod::lemma_div_denominator;
use vstd::arithmetic::div_mod::lemma_fundamental_div_mod;
use vstd::arithmetic::div_mod::lemma_fundamental_div_mod_converse_div;
use vstd::arithmetic::div_mod::lemma_fundamental_div_mod_converse_mod;
use vstd::arithmetic::div_mod::lemma_mod_mod;
use vstd::arithmetic::div_mod::lemma_small_mod;
use vstd::arithmetic::mul::lemma_mul_is_commutative;

verus! {

/// True exactly when `n` is a power of two (1, 2, 4, 8, ...).
pub open spec fn is_pow2(n: nat) -> bool
    decreases n,
{
    if n == 0 {
        false
    } else if n == 1 {
        true
    } else {
        n % 2 == 0 && is_pow2(n / 2)
    }
}

/// The quadrant index along the Hilbert curve for sub-quadrant bits
/// `rx` and `ry` (each 0 or 1): the value `(3 * rx) XOR ry`.
pub open spec fn quadrant(rx: nat, ry: nat) -> nat {
    if rx == 1 {
        (3 - ry) as nat
    } else {
        ry
    }
}

/// One rotation/reflection step of the Hilbert construction on a grid of
/// side `n`: for `ry == 0` the coordinates are transposed, after a point
/// reflection of the grid when additionally `rx == 1`.
pub open spec fn rot_spec(n: nat, x: nat, y: nat, rx: nat, ry: nat) -> (nat, nat) {
    if ry == 0 {
        if rx == 1 {
            (((n - 1) - y) as nat, ((n - 1) - x) as nat)
        } else {
            (y, x)
        }
    } else {
        (x, y)
    }
}

/// The Hilbert distance of `(x, y)` on an `n` by `n` grid: the quadrant
/// holding the point contributes a multiple of the quadrant area, and the
/// point is rotated into the quadrant's local frame for the recursion.
pub open spec fn xy2d_spec(n: nat, x: nat, y: nat) -> nat
    decreases n,
{
    if n <= 1 {
        0
    } else {
        let m: nat = n / 2;
        let rx: nat = x / m;
        let ry: nat = y / m;
        let r: (nat, nat) = rot_spec(m, x % m, y % m, rx, ry);
        m * m * quadrant(rx, ry) + xy2d_spec(m, r.0, r.1)
    }
}

/// The sub-quadrant x-bit encoded by quadrant index `q`.
pub open spec fn rx_of(q: nat) -> nat {
    if q >= 2 {
        1
    } else {
        0
    }
}

/// The sub-quadrant y-bit encoded by quadrant index `q`.
pub open spec fn ry_of(q: nat) -> nat {
    if q == 1 || q == 2 {
        1
    } else {
        0
    }
}

/// The coordinates at Hilbert distance `d` on an `n` by `n` grid: the
/// inverse of `xy2d_spec`, recovering the quadrant from the two top bits
/// of `d` and undoing the rotation (which is its own inverse).
pub open spec fn d2xy_spec(n: nat, d: nat) -> (nat, nat)
    decreases n,
{
    if n <= 1 {
        (0, 0)
    } else {
        let m: nat = n / 2;
        let q: nat = d / (m * m);
        let inner: (nat, nat) = d2xy_spec(m, d % (m * m));
        let r: (nat, nat) = rot_spec(m, inner.0, inner.1, rx_of(q), ry_of(q));
        (r.0 + m * rx_of(q), r.1 + m * ry_of(q))
    }
}

/// Of two distinct powers of two, the smaller fits at least twice into
/// the larger.
proof fn lemma_pow2_le(a: nat, b: nat)
    requires
        is_pow2(a),
        is_pow2(b),
        a < b,
    ensures
        2 * a <= b,
    decreases b,
{
    let h: nat = b / 2;
    assert(b >= 2);
    assert(b == 2 * h);
    assert(is_pow2(h));
    if a < h {
        lemma_pow2_le(a, h);
    } else if a > h {
        lemma_pow2_le(h, a);
        assert(false);
    }
}

/// Splitting off the bit worth `s` of `a`: reducing `a` modulo `2 * s`
/// keeps that bit and everything below it.
proof fn lemma_bit_split(a: int, s: int)
    requires
        0 <= a,
        1 <= s,
    ensures
        (a % (2 * s)) / s == (a / s) % 2,
        (a % (2 * s)) % s == a % s,
{
    lemma_breakdown(a, s, 2);
    lemma_mul_is_commutative(s, 2);
    lemma_mul_is_commutative(s, (a / s) % 2);
    assert(a % (2 * s) == ((a / s) % 2) * s + a % s);
    lemma_fundamental_div_mod_converse_div(a % (2 * s), s, (a / s) % 2, a % s);
    lemma_fundamental_div_mod_converse_mod(a % (2 * s), s, (a / s) % 2, a % s);
}

/// Point reflection inside a grid of side `n` acts as point reflection
/// inside each aligned block of side `s`.
proof fn lemma_reflect_mod(n: int, s: int, v: int)
    requires
        1 <= s,
        n % s == 0,
        0 <= v < n,
    ensures
        (n - 1 - v) % s == s - 1 - (v % s),
{
    let a: int = v / s;
    let b: int = v % s;
    let c: int = n / s;
    lemma_fundamental_div_mod(v, s);
    lemma_fundamental_div_mod(n, s);
    assert(n == s * c);
    assert(c >= 1) by (nonlinear_arith)
        requires
            n == s * c,
            n >= 1,
            s >= 1,
    ;
    assert(a < c) by (nonlinear_arith)
        requires
            v == s * a + b,
            n == s * c,
            v < n,
            b >= 0,
            s >= 1,
    ;
    assert(n - 1 - v == (c - a - 1) * s + (s - 1 - b)) by (nonlinear_arith)
        requires
            v == s * a + b,
            n == s * c,
    ;
    lemma_fundamental_div_mod_converse_mod(n - 1 - v, s, c - a - 1, s - 1 - b);
}

/// The coordinates at any Hilbert distance below `n * n` lie on the grid.
pub proof fn lemma_d2xy_range(n: nat, d: nat)
    requires
        is_pow2(n),
        d < n * n,
    ensures
        d2xy_spec(n, d).0 < n,
        d2xy_spec(n, d).1 < n,
    decreases n,
{
    if n > 1 {
        let m: nat = n / 2;
        let mm: nat = m * m;
        assert(n == 2 * m);
        assert(is_pow2(m));
        assert(mm >= 1) by (nonlinear_arith)
            requires
                mm == m * m,
                m >= 1,
        ;
        lemma_fundamental_div_mod(d as int, mm as int);
        let q: nat = d / mm;
        let r: nat = d % mm;
        assert(q < 4) by (nonlinear_arith)
            requires
                d == mm * q + r,
                d < n * n,
                n == 2 * m,
                mm == m * m,
                0 <= r,
                mm >= 1,
        ;
        lemma_d2xy_range(m, r);
        let inner: (nat, nat) = d2xy_spec(m, r);
        let rx: nat = rx_of(q);
        let ry: nat = ry_of(q);
        let ro: (nat, nat) = rot_spec(m, inner.0, inner.1, rx, ry);
        assert(ro.0 < m && ro.1 < m);
        assert(m * rx <= m) by {
            if rx == 0 {
                assert(m * rx == 0);
            } else {
                assert(rx == 1);
                assert(m * rx == m);
            }
        }
        assert(m * ry <= m) by {
            if ry == 0 {
                assert(m * ry == 0);
            } else {
                assert(ry == 1);
                assert(m * ry == m);
            }
        }
        assert(d2xy_spec(n, d) == (ro.0 + m * rx, ro.1 + m * ry));
    }
}

/// Every point of the grid has a Hilbert distance below `n * n`.
pub proof fn lemma_xy2d_range(n: nat, x: nat, y: nat)
    requires
        is_pow2(n),
        x < n,
        y < n,
    ensures
        xy2d_spec(n, x, y) < n * n,
    decreases n,
{
    if n <= 1 {
        assert(n * n == 1) by (nonlinear_arith)
            requires
                n == 1,
        ;
    } else {
        let m: nat = n / 2;
        let mm: nat = m * m;
        assert(n == 2 * m);
        assert(is_pow2(m));
        assert(mm >= 1) by (nonlinear_arith)
            requires
                mm == m * m,
                m >= 1,
        ;
        lemma_fundamental_div_mod(x as int, m as int);
        lemma_fundamental_div_mod(y as int, m as int);
        let rx: nat = x / m;
        let ry: nat = y / m;
        assert(rx <= 1 && ry <= 1) by (nonlinear_arith)
            requires
                x == m * rx + x % m,
                y == m * ry + y % m,
                x < 2 * m,
                y < 2 * m,
                0 <= x % m,
                0 <= y % m,
                m >= 1,
        ;
        let r: (nat, nat) = rot_spec(m, x % m, y % m, rx, ry);
        lemma_xy2d_range(m, r.0, r.1);
        assert(quadrant(rx, ry) <= 3);
        assert(mm * quadrant(rx, ry) + xy2d_spec(m, r.0, r.1) < 4 * mm) by (nonlinear_arith)
            requires
                xy2d_spec(m, r.0, r.1) < mm,
                quadrant(rx, ry) <= 3,
                mm >= 1,
        ;
        assert(n * n == 4 * mm) by (nonlinear_arith)
            requires
                n == 2 * m,
                mm == m * m,
        ;
    }
}

/// Half of the Hilbert bijection: converting a distance to coordinates
/// and back yields the same distance.
pub proof fn lemma_xy2d_d2xy(n: nat, d: nat)
    requires
        is_pow2(n),
        d < n * n,
    ensures
        xy2d_spec(n, d2xy_spec(n, d).0, d2xy_spec(n, d).1) == d,
    decreases n,
{
    if n <= 1 {
        assert(n * n == 1) by (nonlinear_arith)
            requires
                n == 1,
        ;
    } else {
        let m: nat = n / 2;
        let mm: nat = m * m;
        assert(n == 2 * m);
        assert(is_pow2(m));
        assert(mm >= 1) by (nonlinear_arith)
            requires
                mm == m * m,
                m >= 1,
        ;
        lemma_fundamental_div_mod(d as int, mm as int);
        let q: nat = d / mm;
        let r: nat = d % mm;
        assert(q < 4) by (nonlinear_arith)
            requires
                d == mm * q + r,
                d < n * n,
                n == 2 * m,
                mm == m * m,
                0 <= r,
                mm >= 1,
        ;
        lemma_d2xy_range(m, r);
        lemma_xy2d_d2xy(m, r);
        let inner: (nat, nat) = d2xy_spec(m, r);
        let rx: nat = rx_of(q);
        let ry: nat = ry_of(q);
        let ro: (nat, nat) = rot_spec(m, inner.0, inner.1, rx, ry);
        let xx: nat = ro.0 + m * rx;
        let yy: nat = ro.1 + m * ry;
        assert(d2xy_spec(n, d) == (xx, yy));
        assert(xx == rx * m + ro.0 && yy == ry * m + ro.1);
        lemma_fundamental_div_mod_converse_div(xx as int, m as int, rx as int, ro.0 as int);
        lemma_fundamental_div_mod_converse_mod(xx as int, m as int, rx as int, ro.0 as int);
        lemma_fundamental_div_mod_converse_div(yy as int, m as int, ry as int, ro.1 as int);
        lemma_fundamental_div_mod_converse_mod(yy as int, m as int, ry as int, ro.1 as int);
        assert(quadrant(rx, ry) == q);
        assert(rot_spec(m, ro.0, ro.1, rx, ry) == inner);
        assert(xy2d_spec(n, xx, yy) == mm * quadrant(rx, ry) + xy2d_spec(m, inner.0, inner.1));
        assert(mm * q + r == d);
    }
}

/// The other half of the Hilbert bijection: converting coordinates to a
/// distance and back yields the same coordinates.
pub proof fn lemma_d2xy_xy2d(n: nat, x: nat, y: nat)
    requires
        is_pow2(n),
        x < n,
        y < n,
    ensures
        d2xy_spec(n, xy2d_spec(n, x, y)) == (x, y),
    decreases n,
{
    if n <= 1 {
        assert(d2xy_spec(n, xy2d_spec(n, x, y)) == (0nat, 0nat));
    } else {
        let m: nat = n / 2;
        let mm: nat = m * m;
        assert(n == 2 * m);
        assert(is_pow2(m));
        assert(mm >= 1) by (nonlinear_arith)
            requires
                mm == m * m,
                m >= 1,
        ;
        lemma_fundamental_div_mod(x as int, m as int);
        lemma_fundamental_div_mod(y as int, m as int);
        let rx: nat = x / m;
        let ry: nat = y / m;
        let xl: nat = x % m;
        let yl: nat = y % m;
        assert(rx <= 1 && ry <= 1) by (nonlinear_arith)
            requires
                x == m * rx + xl,
                y == m * ry + yl,
                x < 2 * m,
                y < 2 * m,
                0 <= xl,
                0 <= yl,
                m >= 1,
        ;
        let ro: (nat, nat) = rot_spec(m, xl, yl, rx, ry);
        lemma_xy2d_range(m, ro.0, ro.1);
        lemma_d2xy_xy2d(m, ro.0, ro.1);
        let di: nat = xy2d_spec(m, ro.0, ro.1);
        let q: nat = quadrant(rx, ry);
        let d: nat = mm * q + di;
        assert(xy2d_spec(n, x, y) == d);
        assert(d == q * mm + di);
        lemma_fundamental_div_mod_converse_div(d as int, mm as int, q as int, di as int);
        lemma_fundamental_div_mod_converse_mod(d as int, mm as int, q as int, di as int);
        assert(rx_of(q) == rx && ry_of(q) == ry);
        assert(rot_spec(m, ro.0, ro.1, rx, ry) == (xl, yl));
        assert(d2xy_spec(n, d) == (xl + m * rx, yl + m * ry));
        assert(xl + m * rx == x && yl + m * ry == y);
    }
}

/// One in-place rotation/reflection step on a pair of coordinates below
/// `n`, exactly as `rot_spec` states it.
fn rotate(n: usize, x: &mut usize, y: &mut usize, rx: usize, ry: usize)
    requires
        *old(x) < n,
        *old(y) < n,
    ensures
        (*final(x) as nat, *final(y) as nat) == rot_spec(
            n as nat,
            *old(x) as nat,
            *old(y) as nat,
            rx as nat,
            ry as nat,
        ),
        *final(x) < n,
        *final(y) < n,
{
    if ry == 0 {
        if rx == 1 {
            *x = n - 1 - *x;
            *y = n - 1 - *y;
        }
        let t: usize = *x;
        *x = *y;
        *y = t;
    }
}

/// Maps coordinates `(x, y)` on an `n` by `n` grid to their Hilbert
/// distance, peeling one quadrant bit per step from the most significant
/// bit downward.
pub fn xy2d(n: usize, x: usize, y: usize) -> (d: usize)
    requires
        is_pow2(n as nat),
        x < n,
        y < n,
        n * n <= usize::MAX as int + 1,
    ensures
        d as nat == xy2d_spec(n as nat, x as nat, y as nat),
        d < n * n,
{
    let ghost total: nat = xy2d_spec(n as nat, x as nat, y as nat);
    proof {
        lemma_xy2d_range(n as nat, x as nat, y as nat);
    }
    let mut mx = x;
    let mut my = y;
    let mut d: usize = 0;
    let mut s: usize = n / 2;
    proof {
        if n > 1 {
            assert(n == 2 * s);
            lemma_small_mod(x as nat, n as nat);
            lemma_small_mod(y as nat, n as nat);
        }
    }
    while s > 0
        invariant
            mx < n,
            my < n,
            total < n * n,
            n * n <= usize::MAX as int + 1,
            s > 0 ==> is_pow2(s as nat),
            s > 0 ==> (n as int) % (2 * (s as int)) == 0,
            s > 0 ==> 2 * s <= n,
            s > 0 ==> total == d + xy2d_spec(
                2 * (s as nat),
                (mx as nat) % (2 * (s as nat)),
                (my as nat) % (2 * (s as nat)),
            ),
            s == 0 ==> total == d,
        decreases s,
    {
        let ghost s0: nat = s as nat;
        let ghost mx0: nat = mx as nat;
        let ghost my0: nat = my as nat;
        let rx: usize = (mx / s) % 2;
        let ry: usize = (my / s) % 2;
        let q: usize = if rx == 1 {
            3 - ry
        } else {
            ry
        };
        let ghost gx: nat = mx0 % (2 * s0);
        let ghost gy: nat = my0 % (2 * s0);
        let ghost ro: (nat, nat) = rot_spec(s0, mx0 % s0, my0 % s0, rx as nat, ry as nat);
        proof {
            lemma_bit_split(mx as int, s as int);
            lemma_bit_split(my as int, s as int);
            assert(gx / s0 == rx as nat && gx % s0 == mx0 % s0);
            assert(gy / s0 == ry as nat && gy % s0 == my0 % s0);
            assert((2 * s0) / 2 == s0);
            assert(quadrant(rx as nat, ry as nat) == q as nat);
            assert(xy2d_spec(2 * s0, gx, gy) == s0 * s0 * (q as nat) + xy2d_spec(s0, ro.0, ro.1));
            assert(4 * ((s as int) * (s as int)) <= (n as int) * (n as int)) by (nonlinear_arith)
                requires
                    2 * (s as int) <= (n as int),
                    0 <= s as int,
            ;
        }
        d = d + s * s * q;
        rotate(n, &mut mx, &mut my, rx, ry);
        s = s / 2;
        proof {
            lemma_mul_is_commutative(s0 as int, 2);
            lemma_mod_mod(n as int, s0 as int, 2);
            assert((n as int) % (s0 as int) == 0);
            if ry == 0 {
                if rx == 1 {
                    lemma_reflect_mod(n as int, s0 as int, my0 as int);
                    lemma_reflect_mod(n as int, s0 as int, mx0 as int);
                    assert((mx as nat) % s0 == ro.0 && (my as nat) % s0 == ro.1);
                } else {
                    assert((mx as nat) % s0 == ro.0 && (my as nat) % s0 == ro.1);
                }
            } else {
                assert((mx as nat) % s0 == ro.0 && (my as nat) % s0 == ro.1);
            }
            if s0 == 1 {
                assert(s == 0);
                assert(xy2d_spec(1, ro.0, ro.1) == 0);
                assert(total == d);
            } else {
                assert(s0 % 2 == 0 && is_pow2(s0 / 2));
                assert(s as nat == s0 / 2 && 2 * (s as nat) == s0);
                assert(total == d + xy2d_spec(
                    2 * (s as nat),
                    (mx as nat) % (2 * (s as nat)),
                    (my as nat) % (2 * (s as nat)),
                ));
            }
        }
    }
    d
}

/// Maps a Hilbert distance `d` on an `n` by `n` grid back to coordinates,
/// consuming two bits of `d` per step from the least significant bit
/// upward.
pub fn d2xy(n: usize, d: usize) -> (r: (usize, usize))
    requires
        is_pow2(n as nat),
        d < n * n,
    ensures
        (r.0 as nat, r.1 as nat) == d2xy_spec(n as nat, d as nat),
        r.0 < n,
        r.1 < n,
{
    let mut t = d;
    let mut x: usize = 0;
    let mut y: usize = 0;
    let mut s: usize = 1;
    while s < n
        invariant
            is_pow2(n as nat),
            is_pow2(s as nat),
            1 <= s <= n,
            d < n * n,
            x < s,
            y < s,
            t as int == d as int / ((s as int) * (s as int)),
            (x as nat, y as nat) == d2xy_spec(s as nat, (d as nat) % ((s as nat) * (s as nat))),
        decreases n - s,
    {
        proof {
            lemma_pow2_le(s as nat, n as nat);
        }
        let ghost s0: nat = s as nat;
        let ghost ss: nat = s0 * s0;
        let ghost t0: int = t as int;
        let ghost x0: nat = x as nat;
        let ghost y0: nat = y as nat;
        let rx: usize = (t / 2) % 2;
        let ry: usize = if rx == 1 {
            1 - t % 2
        } else {
            t % 2
        };
        let ghost qq: nat = (t0 % 4) as nat;
        proof {
            assert(ss >= 1) by (nonlinear_arith)
                requires
                    ss == s0 * s0,
                    s0 >= 1,
            ;
            lemma_breakdown(d as int, ss as int, 4);
            lemma_mul_is_commutative(ss as int, 4);
            lemma_mul_is_commutative(ss as int, ((d as int) / (ss as int)) % 4);
            lemma_fundamental_div_mod_converse_div(
                (d as int) % (4 * (ss as int)),
                ss as int,
                ((d as int) / (ss as int)) % 4,
                (d as int) % (ss as int),
            );
            lemma_fundamental_div_mod_converse_mod(
                (d as int) % (4 * (ss as int)),
                ss as int,
                ((d as int) / (ss as int)) % 4,
                (d as int) % (ss as int),
            );
            lemma_breakdown(t0, 2, 2);
            assert(t0 % 4 == 2 * ((t0 / 2) % 2) + t0 % 2);
            assert(rx_of(qq) == rx as nat && ry_of(qq) == ry as nat);
            assert((s as int) * (rx as int) <= s as int) by (nonlinear_arith)
                requires
                    0 <= rx as int <= 1,
                    0 <= s as int,
            ;
            assert((s as int) * (ry as int) <= s as int) by (nonlinear_arith)
                requires
                    0 <= ry as int <= 1,
                    0 <= s as int,
            ;
        }
        rotate(s, &mut x, &mut y, rx, ry);
        x = x + s * rx;
        y = y + s * ry;
        t = t / 4;
        s = s * 2;
        proof {
            lemma_div_denominator(d as int, ss as int, 4);
            assert(4 * (ss as int) == (s as int) * (s as int)) by (nonlinear_arith)
                requires
                    ss == s0 * s0,
                    s as int == 2 * (s0 as int),
            ;
            assert(t as int == d as int / ((s as int) * (s as int)));
            let dd: nat = (d as nat) % ((s as nat) * (s as nat));
            assert(dd / (s0 * s0) == qq && dd % (s0 * s0) == (d as nat) % (s0 * s0));
            assert((s as nat) / 2 == s0);
            assert(is_pow2(s as nat));
            assert(d2xy_spec(s as nat, dd) == (
                rot_spec(s0, x0, y0, rx_of(qq), ry_of(qq)).0 + s0 * rx_of(qq),
                rot_spec(s0, x0, y0, rx_of(qq), ry_of(qq)).1 + s0 * ry_of(qq),
            ));
            assert((x as nat, y as nat) == d2xy_spec(s as nat, dd));
        }
    }
    proof {
        lemma_small_mod(d as nat, (n as nat) * (n as nat));
    }
    (x, y)
}

} // verus!
