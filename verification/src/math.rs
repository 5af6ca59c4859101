//! Fixed-point plane geometry: squared magnitudes, integer ceiling square
//! roots, direction-preserving rescaling, and arena clamping.

use vstd::prelude::*;
use vstd::arithmetic::div_mod::lemma_fundamental_div_mod;

verus! {

/// Stored units per world unit.
pub const SCALE: i64 = 1000;

/// Arena half-extents in stored units (world: 640 by 360).
pub const ARENA_HALF_X: i64 = 640 * 1000;

pub const ARENA_HALF_Y: i64 = 360 * 1000;

/// Largest coordinate the geometry helpers accept; everything the
/// simulation produces stays well under it.
pub const COORD_CAP: i64 = 2_000_000;

/// Largest input to `ceil_sqrt`: 2^60, so the binary search never overflows.
pub const SQRT_IN_CAP: u64 = 0x1000_0000_0000_0000;

/// A point or vector of the plane, in stored (milli) units.
#[derive(Clone, Copy, PartialEq, Eq, Debug)]
pub struct Vec2i {
    pub x: i64,
    pub y: i64,
}

pub open spec fn mag_sq(v: Vec2i) -> int {
    v.x * v.x + v.y * v.y
}

pub open spec fn small(v: Vec2i) -> bool {
    &&& -COORD_CAP <= v.x <= COORD_CAP
    &&& -COORD_CAP <= v.y <= COORD_CAP
}

pub open spec fn in_bounds(p: Vec2i) -> bool {
    &&& -ARENA_HALF_X <= p.x <= ARENA_HALF_X
    &&& -ARENA_HALF_Y <= p.y <= ARENA_HALF_Y
}

pub open spec fn abs_val(a: int) -> int {
    if a < 0 {
        -a
    } else {
        a
    }
}

pub proof fn lemma_square_bound(a: int, cap: int)
    requires
        -cap <= a <= cap,
    ensures
        0 <= a * a <= cap * cap,
{
    assert(0 <= a * a) by (nonlinear_arith);
    assert(a * a <= cap * cap) by (nonlinear_arith)
        requires
            -cap <= a <= cap,
    ;
}

/// Squares are monotone on the non-negatives, read backwards.
pub proof fn lemma_sq_le(a: int, b: int)
    requires
        0 <= a,
        0 <= b,
        a * a <= b * b,
    ensures
        a <= b,
{
    if b < a {
        assert(b * b < a * a) by (nonlinear_arith)
            requires
                0 <= b < a,
        ;
    }
}

pub fn mag_sq_exec(v: Vec2i) -> (r: u64)
    requires
        small(v),
    ensures
        r as int == mag_sq(v),
{
    proof {
        lemma_square_bound(v.x as int, COORD_CAP as int);
        lemma_square_bound(v.y as int, COORD_CAP as int);
    }
    let xx: i64 = v.x * v.x;
    let yy: i64 = v.y * v.y;
    (xx + yy) as u64
}

/// `c` is the least non-negative integer whose square reaches `n`.
pub open spec fn is_ceil_sqrt(n: int, c: int) -> bool {
    &&& 0 <= c
    &&& n <= c * c
    &&& 0 < c ==> (c - 1) * (c - 1) < n
}

pub open spec fn ceil_sqrt_spec(n: int) -> int {
    choose|c: int| is_ceil_sqrt(n, c)
}

pub proof fn lemma_ceil_sqrt_unique(n: int, c1: int, c2: int)
    requires
        is_ceil_sqrt(n, c1),
        is_ceil_sqrt(n, c2),
    ensures
        c1 == c2,
{
    if c1 < c2 {
        assert(c1 * c1 <= (c2 - 1) * (c2 - 1)) by (nonlinear_arith)
            requires
                0 <= c1 <= c2 - 1,
        ;
    }
    if c2 < c1 {
        assert(c2 * c2 <= (c1 - 1) * (c1 - 1)) by (nonlinear_arith)
            requires
                0 <= c2 <= c1 - 1,
        ;
    }
}

pub proof fn lemma_ceil_sqrt_is(n: int, c: int)
    requires
        is_ceil_sqrt(n, c),
    ensures
        ceil_sqrt_spec(n) == c,
{
    assert(exists|cc: int| is_ceil_sqrt(n, cc)) by {
        assert(is_ceil_sqrt(n, c));
    }
    lemma_ceil_sqrt_unique(n, ceil_sqrt_spec(n), c);
}

/// Integer ceiling square root by binary search.
pub fn ceil_sqrt(n: u64) -> (r: u64)
    requires
        n <= SQRT_IN_CAP,
    ensures
        is_ceil_sqrt(n as int, r as int),
        r as int == ceil_sqrt_spec(n as int),
        r <= 0x4000_0000,
        n == 0 ==> r == 0,
        n > 0 ==> r >= 1,
{
    if n == 0 {
        proof {
            lemma_ceil_sqrt_is(0, 0);
        }
        return 0;
    }
    let mut lo: u64 = 1;
    let mut hi: u64 = 0x4000_0000;
    while lo < hi
        invariant
            1 <= lo <= hi <= 0x4000_0000,
            n as int <= (hi as int) * (hi as int),
            ((lo - 1) as int) * ((lo - 1) as int) < n as int,
            0 < n <= SQRT_IN_CAP,
        decreases hi - lo,
    {
        let mid = lo + (hi - lo) / 2;
        proof {
            lemma_square_bound(mid as int, 0x4000_0000);
        }
        if mid * mid >= n {
            hi = mid;
        } else {
            lo = mid + 1;
        }
    }
    proof {
        lemma_ceil_sqrt_is(n as int, lo as int);
    }
    lo
}

/// Truncated scaling of one coordinate of a vector of squared magnitude
/// `n` onto a vector of magnitude at most `l`.
pub open spec fn rescaled_coord(a: int, n: int, l: int) -> int {
    let c = ceil_sqrt_spec(n);
    if c <= 0 {
        0
    } else if a < 0 {
        -(((-a) * l) / c)
    } else {
        (a * l) / c
    }
}

pub proof fn lemma_rescale_bound(ax: int, ay: int, l: int, c: int, rx: int, ry: int)
    requires
        0 <= ax,
        0 <= ay,
        0 <= l,
        1 <= c,
        ax * ax + ay * ay <= c * c,
        rx == (ax * l) / c,
        ry == (ay * l) / c,
    ensures
        rx * rx + ry * ry <= l * l,
        0 <= rx <= l,
        0 <= ry <= l,
{
    let px = ax * l;
    let py = ay * l;
    assert(0 <= px && 0 <= py) by (nonlinear_arith)
        requires
            0 <= ax,
            0 <= ay,
            0 <= l,
            px == ax * l,
            py == ay * l,
    ;
    lemma_fundamental_div_mod(px, c);
    lemma_fundamental_div_mod(py, c);
    assert(0 <= rx && rx * c <= px) by (nonlinear_arith)
        requires
            0 <= px,
            1 <= c,
            px == c * rx + px % c,
            0 <= px % c,
    ;
    assert(0 <= ry && ry * c <= py) by (nonlinear_arith)
        requires
            0 <= py,
            1 <= c,
            py == c * ry + py % c,
            0 <= py % c,
    ;
    assert((rx * rx) * (c * c) <= (ax * ax) * (l * l)) by (nonlinear_arith)
        requires
            0 <= rx,
            0 <= c,
            rx * c <= px,
            px == ax * l,
            0 <= ax,
            0 <= l,
    ;
    assert((ry * ry) * (c * c) <= (ay * ay) * (l * l)) by (nonlinear_arith)
        requires
            0 <= ry,
            0 <= c,
            ry * c <= py,
            py == ay * l,
            0 <= ay,
            0 <= l,
    ;
    assert(rx * rx + ry * ry <= l * l) by (nonlinear_arith)
        requires
            1 <= c,
            0 <= rx,
            0 <= ry,
            (rx * rx) * (c * c) <= (ax * ax) * (l * l),
            (ry * ry) * (c * c) <= (ay * ay) * (l * l),
            ax * ax + ay * ay <= c * c,
    ;
    assert(rx * rx <= l * l) by (nonlinear_arith)
        requires
            0 <= ry,
            rx * rx + ry * ry <= l * l,
    ;
    assert(ry * ry <= l * l) by (nonlinear_arith)
        requires
            0 <= rx,
            rx * rx + ry * ry <= l * l,
    ;
    lemma_sq_le(rx, l);
    lemma_sq_le(ry, l);
}

/// Rescales `v` onto the same direction with magnitude at most `l`
/// (the zero vector stays zero).
pub fn rescale(v: Vec2i, l: i64) -> (r: Vec2i)
    requires
        small(v),
        0 <= l <= COORD_CAP,
    ensures
        r.x as int == rescaled_coord(v.x as int, mag_sq(v), l as int),
        r.y as int == rescaled_coord(v.y as int, mag_sq(v), l as int),
        mag_sq(r) <= (l as int) * (l as int),
        -l <= r.x <= l,
        -l <= r.y <= l,
        v.x == 0 && v.y == 0 ==> r == v,
{
    let m = mag_sq_exec(v);
    if m == 0 {
        proof {
            lemma_square_bound(v.x as int, COORD_CAP as int);
            lemma_square_bound(v.y as int, COORD_CAP as int);
            assert(v.x == 0 && v.y == 0) by (nonlinear_arith)
                requires
                    v.x * v.x + v.y * v.y == 0,
                    0 <= v.x * v.x,
                    0 <= v.y * v.y,
            ;
            lemma_ceil_sqrt_is(0, 0);
        }
        return v;
    }
    assert(m <= SQRT_IN_CAP) by {
        lemma_square_bound(v.x as int, COORD_CAP as int);
        lemma_square_bound(v.y as int, COORD_CAP as int);
    }
    let c = ceil_sqrt(m);
    let ax: u64 = if v.x < 0 {
        (-v.x) as u64
    } else {
        v.x as u64
    };
    let ay: u64 = if v.y < 0 {
        (-v.y) as u64
    } else {
        v.y as u64
    };
    proof {
        let vx = v.x as int;
        let vy = v.y as int;
        assert((ax as int) * (ax as int) == vx * vx) by (nonlinear_arith)
            requires
                ax as int == vx || ax as int == -vx,
        ;
        assert((ay as int) * (ay as int) == vy * vy) by (nonlinear_arith)
            requires
                ay as int == vy || ay as int == -vy,
        ;
        assert((ax as int) * (ax as int) + (ay as int) * (ay as int) <= (c as int) * (c as int));
        lemma_square_bound(ax as int, COORD_CAP as int);
        assert((ax as int) * (ax as int) <= (c as int) * (c as int)) by (nonlinear_arith)
            requires
                (ax as int) * (ax as int) + (ay as int) * (ay as int) <= (c as int) * (c as int),
                0 <= (ay as int) * (ay as int),
        ;
        lemma_sq_le(ax as int, c as int);
        assert((ay as int) * (ay as int) <= (c as int) * (c as int)) by (nonlinear_arith)
            requires
                (ax as int) * (ax as int) + (ay as int) * (ay as int) <= (c as int) * (c as int),
                0 <= (ax as int) * (ax as int),
        ;
        lemma_sq_le(ay as int, c as int);
        assert(ax * (l as u64) <= COORD_CAP as u64 * COORD_CAP as u64) by (nonlinear_arith)
            requires
                0 <= ax <= COORD_CAP as u64,
                0 <= l as u64 <= COORD_CAP as u64,
        ;
        assert(ay * (l as u64) <= COORD_CAP as u64 * COORD_CAP as u64) by (nonlinear_arith)
            requires
                0 <= ay <= COORD_CAP as u64,
                0 <= l as u64 <= COORD_CAP as u64,
        ;
    }
    let rx: u64 = (ax * (l as u64)) / c;
    let ry: u64 = (ay * (l as u64)) / c;
    proof {
        lemma_rescale_bound(ax as int, ay as int, l as int, c as int, rx as int, ry as int);
    }
    let sx: i64 = if v.x < 0 {
        -(rx as i64)
    } else {
        rx as i64
    };
    let sy: i64 = if v.y < 0 {
        -(ry as i64)
    } else {
        ry as i64
    };
    let r = Vec2i { x: sx, y: sy };
    proof {
        assert(r.x * r.x == rx as int * rx as int) by (nonlinear_arith)
            requires
                r.x == rx as int || r.x == -(rx as int),
        ;
        assert(r.y * r.y == ry as int * ry as int) by (nonlinear_arith)
            requires
                r.y == ry as int || r.y == -(ry as int),
        ;
    }
    r
}

pub open spec fn clamped(a: int, h: int) -> int {
    if a > h {
        h
    } else if a < -h {
        -h
    } else {
        a
    }
}

pub fn clamp_coord(a: i64, h: i64) -> (r: i64)
    requires
        0 <= h,
    ensures
        r as int == clamped(a as int, h as int),
        -h <= r <= h,
{
    if a > h {
        h
    } else if a < -h {
        -h
    } else {
        a
    }
}

/// Hard clamp of a position onto the arena.
pub fn clamp_pos(p: Vec2i) -> (r: Vec2i)
    ensures
        r.x as int == clamped(p.x as int, ARENA_HALF_X as int),
        r.y as int == clamped(p.y as int, ARENA_HALF_Y as int),
        in_bounds(r),
{
    Vec2i { x: clamp_coord(p.x, ARENA_HALF_X), y: clamp_coord(p.y, ARENA_HALF_Y) }
}

} // verus!
