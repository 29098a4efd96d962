//! Fixed-point geometry: points, axis-aligned boxes, and the integer
//! arithmetic that the narrow phase needs.
//!
//! A coordinate is an `i32` that counts thousandths of a world unit.

use vstd::prelude::*;

verus! {

/// Number of fixed-point units in one world unit.
pub const UNIT: i32 = 1000;

/// `UNIT` times `UNIT`.
pub const UNIT_SQUARED: i64 = 1_000_000;

/// A point or displacement, in fixed-point units.
#[derive(Clone, Copy, PartialEq, Eq, Structural, Debug)]
pub struct Vec2 {
    pub x: i32,
    pub y: i32,
}

/// An axis-aligned box given by its two corners.
///
/// Nothing forces `min` to lie below `max`: a box with `min > max` on an axis
/// simply intersects nothing whose extent on that axis is ordinary.
#[derive(Clone, Copy, PartialEq, Eq, Structural, Debug)]
pub struct Bounds {
    pub min: Vec2,
    pub max: Vec2,
}

/// The coordinate nearest to `v`.
pub open spec fn clamp_coord(v: int) -> i32 {
    if v < i32::MIN {
        i32::MIN
    } else if v > i32::MAX {
        i32::MAX
    } else {
        v as i32
    }
}

pub open spec fn min_coord(a: i32, b: i32) -> i32 {
    if a <= b {
        a
    } else {
        b
    }
}

pub open spec fn max_coord(a: i32, b: i32) -> i32 {
    if a >= b {
        a
    } else {
        b
    }
}

/// `base + delta`, held inside the coordinate range.
pub fn offset_coord(base: i32, delta: i64) -> (r: i32)
    ensures
        r == clamp_coord(base + delta),
{
    let wide: i128 = base as i128 + delta as i128;
    if wide < i32::MIN as i128 {
        i32::MIN
    } else if wide > i32::MAX as i128 {
        i32::MAX
    } else {
        wide as i32
    }
}

impl Vec2 {
    pub open spec fn spec_new(x: i32, y: i32) -> Vec2 {
        Vec2 { x, y }
    }

    #[verifier::when_used_as_spec(spec_new)]
    pub fn new(x: i32, y: i32) -> (v: Vec2)
        ensures
            v == Vec2::spec_new(x, y),
    {
        Vec2 { x, y }
    }

    pub open spec fn spec_zero() -> Vec2 {
        Vec2 { x: 0, y: 0 }
    }

    /// The origin.
    #[verifier::when_used_as_spec(spec_zero)]
    pub fn zero() -> (v: Vec2)
        ensures
            v == Vec2::spec_zero(),
    {
        Vec2 { x: 0, y: 0 }
    }
}

impl Bounds {
    pub open spec fn spec_new(min: Vec2, max: Vec2) -> Bounds {
        Bounds { min, max }
    }

    #[verifier::when_used_as_spec(spec_new)]
    pub fn new(min: Vec2, max: Vec2) -> (b: Bounds)
        ensures
            b == Bounds::spec_new(min, max),
    {
        Bounds { min, max }
    }

    /// The smallest box that holds both.
    pub open spec fn spec_union(&self, other: &Bounds) -> Bounds {
        Bounds {
            min: Vec2 { x: min_coord(self.min.x, other.min.x), y: min_coord(self.min.y, other.min.y) },
            max: Vec2 { x: max_coord(self.max.x, other.max.x), y: max_coord(self.max.y, other.max.y) },
        }
    }

    #[verifier::when_used_as_spec(spec_union)]
    pub fn union(&self, other: &Bounds) -> (b: Bounds)
        ensures
            b == self.spec_union(other),
    {
        Bounds {
            min: Vec2 {
                x: if self.min.x <= other.min.x { self.min.x } else { other.min.x },
                y: if self.min.y <= other.min.y { self.min.y } else { other.min.y },
            },
            max: Vec2 {
                x: if self.max.x >= other.max.x { self.max.x } else { other.max.x },
                y: if self.max.y >= other.max.y { self.max.y } else { other.max.y },
            },
        }
    }

    /// The two boxes share a point; touching edges count.
    pub open spec fn spec_intersects(&self, other: &Bounds) -> bool {
        &&& self.min.x <= other.max.x
        &&& other.min.x <= self.max.x
        &&& self.min.y <= other.max.y
        &&& other.min.y <= self.max.y
    }

    #[verifier::when_used_as_spec(spec_intersects)]
    pub fn intersects(&self, other: &Bounds) -> (b: bool)
        ensures
            b == self.spec_intersects(other),
    {
        self.min.x <= other.max.x && other.min.x <= self.max.x && self.min.y <= other.max.y
            && other.min.y <= self.max.y
    }

    /// `other` lies wholly inside `self`.
    pub open spec fn spec_contains(&self, other: &Bounds) -> bool {
        &&& self.min.x <= other.min.x
        &&& self.min.y <= other.min.y
        &&& other.max.x <= self.max.x
        &&& other.max.y <= self.max.y
    }

    #[verifier::when_used_as_spec(spec_contains)]
    pub fn contains(&self, other: &Bounds) -> (b: bool)
        ensures
            b == self.spec_contains(other),
    {
        self.min.x <= other.min.x && self.min.y <= other.min.y && other.max.x <= self.max.x
            && other.max.y <= self.max.y
    }

    /// Twice the sum of width and height.
    pub open spec fn spec_perimeter(&self) -> int {
        2 * ((self.max.x - self.min.x) + (self.max.y - self.min.y))
    }

    pub fn perimeter(&self) -> (p: i64)
        ensures
            p == self.spec_perimeter(),
    {
        let width: i64 = self.max.x as i64 - self.min.x as i64;
        let height: i64 = self.max.y as i64 - self.min.y as i64;
        2 * (width + height)
    }

    /// The box grown by `margin` on every side, each corner held inside the
    /// coordinate range. A negative margin shrinks the box.
    pub open spec fn spec_expand(&self, margin: i32) -> Bounds {
        Bounds {
            min: Vec2 {
                x: clamp_coord(self.min.x - margin),
                y: clamp_coord(self.min.y - margin),
            },
            max: Vec2 {
                x: clamp_coord(self.max.x + margin),
                y: clamp_coord(self.max.y + margin),
            },
        }
    }

    #[verifier::when_used_as_spec(spec_expand)]
    pub fn expand(&self, margin: i32) -> (b: Bounds)
        ensures
            b == self.spec_expand(margin),
    {
        let m: i64 = margin as i64;
        Bounds {
            min: Vec2 { x: offset_coord(self.min.x, -m), y: offset_coord(self.min.y, -m) },
            max: Vec2 { x: offset_coord(self.max.x, m), y: offset_coord(self.max.y, m) },
        }
    }
}

/// A union holds both of the boxes it was made from.
pub proof fn lemma_union_contains(a: Bounds, b: Bounds)
    ensures
        a.union(&b).contains(&a),
        a.union(&b).contains(&b),
{
}

/// The union does not depend on the order of the two boxes.
pub proof fn lemma_union_commutes(a: Bounds, b: Bounds)
    ensures
        a.union(&b) == b.union(&a),
{
}

/// Containment is transitive.
pub proof fn lemma_contains_transitive(a: Bounds, b: Bounds, c: Bounds)
    requires
        a.contains(&b),
        b.contains(&c),
    ensures
        a.contains(&c),
{
}

/// Whatever meets a box meets every box around it.
pub proof fn lemma_intersects_container(query: Bounds, inner: Bounds, outer: Bounds)
    requires
        outer.contains(&inner),
        query.intersects(&inner),
    ensures
        query.intersects(&outer),
{
}

/// A box grown by a margin that is not negative holds the box it grew from.
pub proof fn lemma_expand_contains(b: Bounds, margin: i32)
    requires
        margin >= 0,
    ensures
        b.expand(margin).contains(&b),
{
}

/// `a / b` rounded toward zero.
pub open spec fn trunc_div(a: int, b: int) -> int {
    if a >= 0 {
        a / b
    } else {
        -((-a) / b)
    }
}

/// The quotient rounded toward zero lies no further from zero than the
/// dividend does.
pub proof fn lemma_trunc_div_bound(a: int, b: int, limit: int)
    requires
        b > 0,
        limit >= 0,
        -(limit * b) <= a <= limit * b,
    ensures
        -limit <= trunc_div(a, b) <= limit,
{
    if a >= 0 {
        assert(a / b <= limit) by (nonlinear_arith)
            requires
                0 <= a <= limit * b,
                b > 0,
        ;
        assert(a / b >= 0) by (nonlinear_arith)
            requires
                0 <= a,
                b > 0,
        ;
    } else {
        assert((-a) / b <= limit) by (nonlinear_arith)
            requires
                0 <= -a <= limit * b,
                b > 0,
        ;
        assert((-a) / b >= 0) by (nonlinear_arith)
            requires
                0 <= -a,
                b > 0,
        ;
    }
}

/// Division that rounds toward zero.
pub fn div_toward_zero(a: i64, b: i64) -> (q: i64)
    requires
        b > 0,
    ensures
        q == trunc_div(a as int, b as int),
{
    proof {
        let limit = if a >= 0 {
            a as int
        } else {
            -a as int
        };
        assert(limit * b >= limit) by (nonlinear_arith)
            requires
                limit >= 0,
                b >= 1,
        ;
        lemma_trunc_div_bound(a as int, b as int, limit);
    }
    let dividend: i128 = a as i128;
    let divisor: i128 = b as i128;
    if dividend >= 0 {
        (dividend / divisor) as i64
    } else {
        (-((-dividend) / divisor)) as i64
    }
}

/// `s` is the square root of `n`, rounded down.
pub open spec fn is_sqrt_floor(n: int, s: int) -> bool {
    0 <= s && s * s <= n < (s + 1) * (s + 1)
}

/// The square root of `n`, rounded down.
pub open spec fn sqrt_floor(n: int) -> int {
    choose|s: int| is_sqrt_floor(n, s)
}

/// Squaring keeps the order of numbers that are not negative.
pub proof fn lemma_square_monotonic(a: int, b: int)
    requires
        0 <= a <= b,
    ensures
        a * a <= b * b,
{
    assert(a * a <= b * b) by (nonlinear_arith)
        requires
            0 <= a <= b,
    ;
}

/// Every number that is not negative has a rounded-down square root.
pub proof fn lemma_sqrt_floor_exists(n: int)
    requires
        n >= 0,
    ensures
        is_sqrt_floor(n, sqrt_floor(n)),
    decreases n,
{
    if n == 0 {
        assert(is_sqrt_floor(0, 0));
    } else {
        lemma_sqrt_floor_exists(n - 1);
        let s = sqrt_floor(n - 1);
        if (s + 1) * (s + 1) <= n {
            assert((s + 2) * (s + 2) > (s + 1) * (s + 1)) by (nonlinear_arith)
                requires
                    s >= 0,
            ;
            assert(is_sqrt_floor(n, s + 1));
        } else {
            assert(is_sqrt_floor(n, s));
        }
    }
}

/// Only one number is the rounded-down square root of `n`.
pub proof fn lemma_sqrt_floor_unique(n: int, s: int)
    requires
        is_sqrt_floor(n, s),
    ensures
        sqrt_floor(n) == s,
{
    let t = sqrt_floor(n);
    assert(is_sqrt_floor(n, t));
    if t < s {
        lemma_square_monotonic(t + 1, s);
    } else if s < t {
        lemma_square_monotonic(s + 1, t);
    }
}

/// The square root of `n`, rounded down.
pub fn isqrt(n: u128) -> (s: u64)
    ensures
        is_sqrt_floor(n as int, s as int),
        s == sqrt_floor(n as int),
{
    let mut lo: u128 = 0;
    let mut hi: u128 = 0x1_0000_0000_0000_0000;
    assert(hi * hi > n) by (nonlinear_arith)
        requires
            hi == 0x1_0000_0000_0000_0000,
            n <= u128::MAX,
    ;
    while hi - lo > 1
        invariant
            lo < hi <= 0x1_0000_0000_0000_0000,
            lo * lo <= n < hi * hi,
        decreases hi - lo,
    {
        let mid: u128 = lo + (hi - lo) / 2;
        assert(mid * mid <= 0xffff_ffff_ffff_ffff * 0xffff_ffff_ffff_ffff) by (nonlinear_arith)
            requires
                0 <= mid <= 0xffff_ffff_ffff_ffff,
        ;
        if mid * mid <= n {
            lo = mid;
        } else {
            hi = mid;
        }
    }
    proof {
        lemma_sqrt_floor_unique(n as int, lo as int);
    }
    lo as u64
}

} // verus!
