//! Planar fixed-point vectors. Coordinates are `i64` values counted in
//! thousandths of a world unit, so a speed of one unit per tick is the
//! vector length 1000.

use vstd::prelude::*;
use crate::math::{
    sat64, sat_add64, sat_sub64, div_trunc, div_away, div_trunc128, div_away128, sqrt_floor,
    sqrt_ceil, isqrt, lemma_div_trunc_nonneg, lemma_div_trunc_neg, lemma_abs_le_of_sq_lt,
    lemma_scale_away, lemma_scale_trunc,
};

verus! {

/// A point or displacement of the plane, in thousandths of a unit.
#[derive(Clone, Copy, PartialEq, Eq, Structural, Debug)]
pub struct Vec2 {
    pub x: i64,
    pub y: i64,
}

/// The squared length of `v`, as an unbounded integer.
pub open spec fn len_sq(v: Vec2) -> int {
    (v.x as int) * (v.x as int) + (v.y as int) * (v.y as int)
}

/// The squared distance between `p` and `q`, as an unbounded integer.
pub open spec fn dist_sq(p: Vec2, q: Vec2) -> int {
    (p.x - q.x) * (p.x - q.x) + (p.y - q.y) * (p.y - q.y)
}

/// Componentwise sum, saturating at the bounds of `i64`.
pub open spec fn vadd_spec(a: Vec2, b: Vec2) -> Vec2 {
    Vec2 { x: sat64(a.x + b.x) as i64, y: sat64(a.y + b.y) as i64 }
}

/// Componentwise difference, saturating at the bounds of `i64`.
pub open spec fn vsub_spec(a: Vec2, b: Vec2) -> Vec2 {
    Vec2 { x: sat64(a.x - b.x) as i64, y: sat64(a.y - b.y) as i64 }
}

/// Componentwise quotient by `d > 0`, rounded toward zero.
pub open spec fn vdiv_spec(v: Vec2, d: int) -> Vec2 {
    Vec2 { x: div_trunc(v.x as int, d) as i64, y: div_trunc(v.y as int, d) as i64 }
}

impl Vec2 {
    /// Saturating vector sum.
    pub fn add_sat(self, other: Vec2) -> (r: Vec2)
        ensures
            r == vadd_spec(self, other),
    {
        Vec2 { x: sat_add64(self.x, other.x), y: sat_add64(self.y, other.y) }
    }

    /// Saturating vector difference.
    pub fn sub_sat(self, other: Vec2) -> (r: Vec2)
        ensures
            r == vsub_spec(self, other),
    {
        Vec2 { x: sat_sub64(self.x, other.x), y: sat_sub64(self.y, other.y) }
    }

    /// Componentwise division by `d`, rounded toward zero.
    pub fn div_round(self, d: i128) -> (r: Vec2)
        requires
            1 <= d,
        ensures
            r == vdiv_spec(self, d as int),
    {
        proof {
            if self.x >= 0 {
                lemma_div_trunc_nonneg(self.x as int, d as int);
            } else {
                lemma_div_trunc_nonneg(-(self.x as int), d as int);
                lemma_div_trunc_neg(-(self.x as int), d as int);
            }
            if self.y >= 0 {
                lemma_div_trunc_nonneg(self.y as int, d as int);
            } else {
                lemma_div_trunc_nonneg(-(self.y as int), d as int);
                lemma_div_trunc_neg(-(self.y as int), d as int);
            }
        }
        let qx = div_trunc128(self.x as i128, d);
        let qy = div_trunc128(self.y as i128, d);
        Vec2 { x: qx as i64, y: qy as i64 }
    }

    /// The squared length of `self`, exact in `u128`.
    pub fn length_sq(&self) -> (r: u128)
        ensures
            r as int == len_sq(*self),
    {
        let ax: u128 = if self.x >= 0 {
            self.x as u128
        } else {
            ((-(self.x as i128)) as u128)
        };
        let ay: u128 = if self.y >= 0 {
            self.y as u128
        } else {
            ((-(self.y as i128)) as u128)
        };
        proof {
            assert(ax * ax == (self.x as int) * (self.x as int) && ay * ay == (self.y as int)
                * (self.y as int) && ax * ax + ay * ay <= u128::MAX) by (nonlinear_arith)
                requires
                    ax == (if self.x as int >= 0 {
                        self.x as int
                    } else {
                        -(self.x as int)
                    }),
                    ay == (if self.y as int >= 0 {
                        self.y as int
                    } else {
                        -(self.y as int)
                    }),
                    -(i64::MIN as int) >= ax >= 0,
                    -(i64::MIN as int) >= ay >= 0,
            ;
        }
        ax * ax + ay * ay
    }
}

/// Whether the squared distance between `p` and `q` is below `bound`.
pub fn dist_sq_below(p: &Vec2, q: &Vec2, bound: u64) -> (r: bool)
    ensures
        r == (dist_sq(*p, *q) < bound as int),
{
    let dx: i128 = p.x as i128 - q.x as i128;
    let dy: i128 = p.y as i128 - q.y as i128;
    let ax: i128 = if dx >= 0 { dx } else { -dx };
    let ay: i128 = if dy >= 0 { dy } else { -dy };
    proof {
        assert(ax * ax == dx * dx && ay * ay == dy * dy) by (nonlinear_arith)
            requires
                ax as int == (if dx as int >= 0 { dx as int } else { -(dx as int) }),
                ay as int == (if dy as int >= 0 { dy as int } else { -(dy as int) }),
        ;
        assert(dx * dx >= 0 && dy * dy >= 0) by (nonlinear_arith);
    }
    if ax >= 0x1_0000_0000 || ay >= 0x1_0000_0000 {
        proof {
            assert(ax * ax + ay * ay >= 0x1_0000_0000_0000_0000) by (nonlinear_arith)
                requires
                    ax >= 0x1_0000_0000 || ay >= 0x1_0000_0000,
                    ax >= 0,
                    ay >= 0,
                    ax * ax >= 0,
                    ay * ay >= 0,
            ;
        }
        false
    } else {
        proof {
            assert(ax * ax + ay * ay < 0x4_0000_0000_0000_0000) by (nonlinear_arith)
                requires
                    0 <= ax < 0x1_0000_0000,
                    0 <= ay < 0x1_0000_0000,
            ;
        }
        let s: i128 = ax * ax + ay * ay;
        s < bound as i128
    }
}

/// The velocity clamp: a zero velocity becomes the slowest rightward
/// motion; a velocity slower than 0.1 units per tick (length 100) is
/// scaled up to (at least) that floor; one faster than 1.0 units per
/// tick (length 1000) is scaled down to (at most) that ceiling;
/// anything in between is kept. Scaling divides componentwise by the
/// integer square root of the squared length, so the direction is
/// preserved up to rounding.
pub open spec fn clamp_spec(v: Vec2) -> Vec2 {
    let sq = len_sq(v);
    if sq == 0 {
        Vec2 { x: 100, y: 0 }
    } else if sq < 10000 {
        let s = sqrt_floor(sq);
        Vec2 { x: div_away(v.x * 100, s) as i64, y: div_away(v.y * 100, s) as i64 }
    } else if sq > 1000000 {
        let s = sqrt_ceil(sq);
        Vec2 { x: div_trunc(v.x * 1000, s) as i64, y: div_trunc(v.y * 1000, s) as i64 }
    } else {
        v
    }
}

/// Clamp the length of `v` into the speed range `[100, 1000]` (0.1 to
/// 1.0 units per tick), preserving its direction up to rounding; a zero
/// vector falls back to the slowest rightward motion.
pub fn clamp_length(v: Vec2) -> (r: Vec2)
    ensures
        r == clamp_spec(v),
        10000 <= len_sq(r) <= 1000000,
{
    let sq: u128 = v.length_sq();
    if sq == 0 {
        let r = Vec2 { x: 100, y: 0 };
        proof {
            assert(len_sq(r) == 10000) by (nonlinear_arith)
                requires
                    r.x == 100 && r.y == 0,
            ;
        }
        r
    } else if sq < 10000 {
        let s: u64 = isqrt(sq);
        proof {
            lemma_clamp_up_bounds(v, s as int);
        }
        let qx = div_away128(v.x as i128 * 100, s as i128);
        let qy = div_away128(v.y as i128 * 100, s as i128);
        let r = Vec2 { x: qx as i64, y: qy as i64 };
        proof {
            assert(r.x as int == div_away(v.x * 100, s as int));
            assert(r.y as int == div_away(v.y * 100, s as int));
            assert(10000 <= len_sq(r) <= 20000);
        }
        r
    } else if sq > 1000000 {
        proof {
            assert(len_sq(v) <= 0x8000_0000_0000_0000_0000_0000_0000_0000) by (nonlinear_arith)
                requires
                    -0x8000_0000_0000_0000 <= v.x as int <= 0x7fff_ffff_ffff_ffff,
                    -0x8000_0000_0000_0000 <= v.y as int <= 0x7fff_ffff_ffff_ffff,
            ;
        }
        let s0: u64 = isqrt(sq);
        proof {
            assert(s0 < u64::MAX) by (nonlinear_arith)
                requires
                    (s0 as int) * (s0 as int) <= sq as int,
                    sq as int <= 0x8000_0000_0000_0000_0000_0000_0000_0000,
            ;
        }
        let eq: bool = (s0 as u128) * (s0 as u128) == sq;
        let s: u64 = if eq {
            s0
        } else {
            s0 + 1
        };
        proof {
            assert(sqrt_ceil(sq as int) == s as int);
            if eq {
                assert((s as int - 1) * (s as int - 1) < sq as int) by (nonlinear_arith)
                    requires
                        (s as int) * (s as int) == sq as int,
                        sq as int > 1000000,
                        s as int >= 0,
                ;
            }
            lemma_clamp_down_bounds(v, s as int);
        }
        let qx = div_trunc128(v.x as i128 * 1000, s as i128);
        let qy = div_trunc128(v.y as i128 * 1000, s as i128);
        let r = Vec2 { x: qx as i64, y: qy as i64 };
        proof {
            assert(r.x as int == div_trunc(v.x * 1000, s as int));
            assert(r.y as int == div_trunc(v.y * 1000, s as int));
            assert(10000 <= len_sq(r) <= 1000000);
        }
        r
    } else {
        proof {
            assert(10000 <= len_sq(v) <= 1000000);
        }
        v
    }
}

/// Bounds for the scale-up branch of the clamp: with `s` the integer
/// square root of the (positive, sub-floor) squared length, each scaled
/// component stays within the floor speed and the scaled length reaches
/// at least the floor.
proof fn lemma_clamp_up_bounds(v: Vec2, s: int)
    requires
        1 <= len_sq(v) < 10000,
        0 <= s,
        s == sqrt_floor(len_sq(v)),
        s * s <= len_sq(v) < (s + 1) * (s + 1),
    ensures
        1 <= s < 100,
        v.x * 100 <= 1000000000 && v.x * 100 >= -1000000000,
        v.y * 100 <= 1000000000 && v.y * 100 >= -1000000000,
        -100 <= div_away(v.x * 100, s) <= 100,
        -100 <= div_away(v.y * 100, s) <= 100,
        10000 <= (div_away(v.x * 100, s)) * (div_away(v.x * 100, s)) + (div_away(
            v.y * 100,
            s,
        )) * (div_away(v.y * 100, s)) <= 20000,
{
    let x = v.x as int;
    let y = v.y as int;
    let sq = len_sq(v);
    assert(x * x >= 0 && y * y >= 0) by (nonlinear_arith);
    assert(1 <= s && s < 100) by (nonlinear_arith)
        requires
            s * s <= sq < (s + 1) * (s + 1),
            1 <= sq < 10000,
            s >= 0,
    ;
    lemma_abs_le_of_sq_lt(x, s);
    lemma_abs_le_of_sq_lt(y, s);
    lemma_scale_away(x, s, 100);
    lemma_scale_away(y, s, 100);
    let qx = div_away(x * 100, s);
    let qy = div_away(y * 100, s);
    assert(-100 <= qx <= 100 && -100 <= qy <= 100 && 10000 <= qx * qx + qy * qy <= 20000)
        by (nonlinear_arith)
        requires
            qx * qx <= 100 * 100,
            qy * qy <= 100 * 100,
            s * s * (qx * qx) >= 100 * 100 * (x * x),
            s * s * (qy * qy) >= 100 * 100 * (y * y),
            s * s <= x * x + y * y,
            1 <= s,
    ;
}

/// Bounds for the scale-down branch of the clamp: with `s` the rounded-up
/// integer square root of the (above-ceiling) squared length, the scaled
/// length lands within the clamp range.
proof fn lemma_clamp_down_bounds(v: Vec2, s: int)
    requires
        len_sq(v) > 1000000,
        s == sqrt_ceil(len_sq(v)),
        (s - 1) * (s - 1) < len_sq(v) <= s * s,
    ensures
        s >= 1001,
        -1000 <= div_trunc(v.x * 1000, s) <= 1000,
        -1000 <= div_trunc(v.y * 1000, s) <= 1000,
        10000 <= (div_trunc(v.x * 1000, s)) * (div_trunc(v.x * 1000, s)) + (div_trunc(
            v.y * 1000,
            s,
        )) * (div_trunc(v.y * 1000, s)) <= 1000000,
{
    let x = v.x as int;
    let y = v.y as int;
    let sq = len_sq(v);
    assert(x * x >= 0 && y * y >= 0) by (nonlinear_arith);
    assert(s >= 1001 && x * x <= s * s && y * y <= s * s) by (nonlinear_arith)
        requires
            (s - 1) * (s - 1) < sq <= s * s,
            sq > 1000000,
            sq == x * x + y * y,
            x * x >= 0,
            y * y >= 0,
    ;
    lemma_scale_trunc(x, s, 1000);
    lemma_scale_trunc(y, s, 1000);
    let qx = div_trunc(x * 1000, s);
    let qy = div_trunc(y * 1000, s);
    assert(qx * qx >= 0 && qy * qy >= 0) by (nonlinear_arith);
    // The larger component carries at least half the squared length, so
    // its scaled value keeps a magnitude of at least the speed floor.
    let m = if x * x >= y * y {
        x
    } else {
        y
    };
    let am = if m >= 0 {
        m
    } else {
        -m
    };
    assert(10 * am >= s && am * am <= s * s) by (nonlinear_arith)
        requires
            am == (if m >= 0 {
                m
            } else {
                -m
            }),
            m * m >= x * x || m * m >= y * y,
            m * m + m * m >= x * x + y * y,
            (s - 1) * (s - 1) < x * x + y * y <= s * s,
            x * x + y * y > 1000000,
            m == x || m == y,
            x * x <= s * s,
            y * y <= s * s,
            s >= 1001,
    ;
    lemma_div_trunc_nonneg(am * 1000, s);
    lemma_div_trunc_neg(x * 1000, s);
    lemma_div_trunc_neg(y * 1000, s);
    assert(-(x * 1000) == (-x) * 1000 && -(y * 1000) == (-y) * 1000) by (nonlinear_arith);
    let qm = div_trunc(am * 1000, s);
    assert(qm >= 100) by (nonlinear_arith)
        requires
            qm * s <= am * 1000 < (qm + 1) * s,
            10 * am >= s,
            s >= 1001,
            qm >= 0,
    ;
    assert(qm * qm >= 10000) by (nonlinear_arith)
        requires
            qm >= 100,
    ;
    assert(qx * qx + qy * qy >= qm * qm) by (nonlinear_arith)
        requires
            qm == div_trunc(am * 1000, s) && (am == x || am == -x || am == y || am == -y) && qx
                == div_trunc(x * 1000, s) && qy == div_trunc(y * 1000, s) && s >= 1,
            qx * qx >= 0 && qy * qy >= 0,
            (am == x ==> qm == qx) && (am == y ==> qm == qy),
            (am == -x ==> qm == -qx) && (am == -y ==> qm == -qy),
    ;
    assert(-1000 <= qx <= 1000 && -1000 <= qy <= 1000 && qx * qx + qy * qy <= 1000000)
        by (nonlinear_arith)
        requires
            qx * qx <= 1000 * 1000,
            qy * qy <= 1000 * 1000,
            s * s * (qx * qx) <= 1000 * 1000 * (x * x),
            s * s * (qy * qy) <= 1000 * 1000 * (y * y),
            x * x + y * y <= s * s,
            1 <= s,
    ;
}

/// A vector rescaled to unit length (1000 thousandths), rounding away
/// from zero; the zero vector falls back to the unit vector along x.
pub open spec fn normalize_spec(v: Vec2) -> Vec2 {
    let sq = len_sq(v);
    if sq == 0 {
        Vec2 { x: 1000, y: 0 }
    } else {
        let s = sqrt_floor(sq);
        Vec2 { x: div_away(v.x * 1000, s) as i64, y: div_away(v.y * 1000, s) as i64 }
    }
}

/// Rescale a short vector to unit length: the squared length of the
/// result lies in `[10^6, 2 * 10^6]`, the direction is preserved up to
/// rounding, and the zero vector becomes the unit vector along x.
pub fn normalize(v: Vec2) -> (r: Vec2)
    requires
        len_sq(v) <= 2000000,
    ensures
        r == normalize_spec(v),
        1000000 <= len_sq(r) <= 2000000,
{
    let sq: u128 = v.length_sq();
    if sq == 0 {
        let r = Vec2 { x: 1000, y: 0 };
        proof {
            assert(len_sq(r) == 1000000) by (nonlinear_arith)
                requires
                    r.x == 1000 && r.y == 0,
            ;
        }
        r
    } else {
        let s: u64 = isqrt(sq);
        proof {
            lemma_normalize_bounds(v, s as int);
        }
        let qx = div_away128(v.x as i128 * 1000, s as i128);
        let qy = div_away128(v.y as i128 * 1000, s as i128);
        let r = Vec2 { x: qx as i64, y: qy as i64 };
        proof {
            assert(r.x as int == div_away(v.x * 1000, s as int));
            assert(r.y as int == div_away(v.y * 1000, s as int));
            assert(1000000 <= len_sq(r) <= 2000000);
        }
        r
    }
}

/// Bounds for rescaling to unit length: with `s` the integer square
/// root of the (positive, short) squared length, each scaled component
/// stays within the unit speed and the scaled length reaches at least
/// the unit.
proof fn lemma_normalize_bounds(v: Vec2, s: int)
    requires
        1 <= len_sq(v) <= 2000000,
        0 <= s,
        s == sqrt_floor(len_sq(v)),
        s * s <= len_sq(v) < (s + 1) * (s + 1),
    ensures
        1 <= s <= 1414,
        -1000000000 <= v.x * 1000 <= 1000000000,
        -1000000000 <= v.y * 1000 <= 1000000000,
        -1000 <= div_away(v.x * 1000, s) <= 1000,
        -1000 <= div_away(v.y * 1000, s) <= 1000,
        1000000 <= (div_away(v.x * 1000, s)) * (div_away(v.x * 1000, s)) + (div_away(
            v.y * 1000,
            s,
        )) * (div_away(v.y * 1000, s)) <= 2000000,
{
    let x = v.x as int;
    let y = v.y as int;
    let sq = len_sq(v);
    assert(x * x >= 0 && y * y >= 0) by (nonlinear_arith);
    assert(1 <= s && s <= 1414) by (nonlinear_arith)
        requires
            s * s <= sq < (s + 1) * (s + 1),
            1 <= sq <= 2000000,
            s >= 0,
    ;
    lemma_abs_le_of_sq_lt(x, s);
    lemma_abs_le_of_sq_lt(y, s);
    lemma_scale_away(x, s, 1000);
    lemma_scale_away(y, s, 1000);
    let qx = div_away(x * 1000, s);
    let qy = div_away(y * 1000, s);
    assert(-1000 <= qx <= 1000 && -1000 <= qy <= 1000 && 1000000 <= qx * qx + qy * qy
        <= 2000000) by (nonlinear_arith)
        requires
            qx * qx <= 1000 * 1000,
            qy * qy <= 1000 * 1000,
            s * s * (qx * qx) >= 1000 * 1000 * (x * x),
            s * s * (qy * qy) >= 1000 * 1000 * (y * y),
            s * s <= x * x + y * y,
            1 <= s,
    ;
}

} // verus!
