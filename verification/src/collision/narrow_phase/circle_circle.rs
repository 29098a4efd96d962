//! Circle against circle.

use super::{same_manifold, Collide};
use crate::collision::Contact;
use crate::math::{
    clamp_coord, div_toward_zero, is_sqrt_floor, isqrt, lemma_sqrt_floor_exists,
    lemma_sqrt_floor_unique, lemma_square_monotonic, lemma_trunc_div_bound, offset_coord,
    sqrt_floor, trunc_div, Vec2, UNIT, UNIT_SQUARED,
};
use crate::shapes::Circle;
use crate::world::Body;
use vstd::prelude::*;

verus! {

/// The normal that stands in when the two centres coincide.
pub open spec fn fallback_normal() -> Vec2 {
    Vec2 { x: UNIT, y: 0 }
}

/// The length of `(dx, dy)` in thousandths of a unit, rounded down.
pub open spec fn scaled_length(dx: int, dy: int) -> int {
    sqrt_floor((dx * dx + dy * dy) * UNIT_SQUARED)
}

/// The direction `(dx, dy)` scaled to length `UNIT`: each part is multiplied
/// by `UNIT_SQUARED`, divided by the length in thousandths of a unit, and
/// rounded toward zero. The direction of no length gives the fallback normal.
pub open spec fn unit_normal(dx: int, dy: int) -> Vec2 {
    let scaled = scaled_length(dx, dy);
    if scaled == 0 {
        fallback_normal()
    } else {
        Vec2 {
            x: trunc_div(dx * UNIT_SQUARED, scaled) as i32,
            y: trunc_div(dy * UNIT_SQUARED, scaled) as i32,
        }
    }
}

/// Two circles with centres more than the sum of their radii apart do not
/// touch. Otherwise they touch in one contact: the normal is the unit vector
/// from the first centre to the second, the penetration is the sum of the
/// radii less the distance of the centres rounded down, and the position lies
/// one radius of the first circle along the normal from its centre.
pub open spec fn circle_contact(
    radius_a: int,
    centre_a: Vec2,
    radius_b: int,
    centre_b: Vec2,
) -> Option<Contact> {
    let dx = centre_b.x - centre_a.x;
    let dy = centre_b.y - centre_a.y;
    let r = radius_a + radius_b;
    let sqr_length = dx * dx + dy * dy;
    if sqr_length > r * r {
        None
    } else {
        let distance = sqrt_floor(sqr_length);
        let normal = unit_normal(dx, dy);
        let position = Vec2 {
            x: clamp_coord(centre_a.x + trunc_div(normal.x * radius_a, UNIT as int)),
            y: clamp_coord(centre_a.y + trunc_div(normal.y * radius_a, UNIT as int)),
        };
        Some(Contact::spec_new(position, (r - distance) as i64, normal))
    }
}

/// The size of `x`.
pub open spec fn magnitude(x: int) -> int {
    if x >= 0 {
        x
    } else {
        -x
    }
}

/// The parts of the normal, without their signs: each is the part of the
/// direction times `UNIT_SQUARED` over the scaled length, rounded down.
proof fn lemma_normal_parts(dx: int, dy: int)
    requires
        scaled_length(dx, dy) > 0,
        magnitude(dx) * UNIT <= scaled_length(dx, dy),
        magnitude(dy) * UNIT <= scaled_length(dx, dy),
    ensures
        ({
            let n = unit_normal(dx, dy);
            let scaled = scaled_length(dx, dy);
            &&& magnitude(n.x as int) == (magnitude(dx) * UNIT_SQUARED) / scaled
            &&& magnitude(n.y as int) == (magnitude(dy) * UNIT_SQUARED) / scaled
            &&& (dx >= 0 ==> n.x >= 0) && (dx <= 0 ==> n.x <= 0)
            &&& (dy >= 0 ==> n.y >= 0) && (dy <= 0 ==> n.y <= 0)
            &&& -UNIT <= n.x <= UNIT
            &&& -UNIT <= n.y <= UNIT
        }),
{
    let scaled = scaled_length(dx, dy);
    lemma_trunc_div_bound(dx * UNIT_SQUARED, scaled, UNIT as int);
    lemma_trunc_div_bound(dy * UNIT_SQUARED, scaled, UNIT as int);
    lemma_trunc_div_bound(magnitude(dx) * UNIT_SQUARED, scaled, UNIT as int);
    lemma_trunc_div_bound(magnitude(dy) * UNIT_SQUARED, scaled, UNIT as int);
}

/// The scaled length is at least `UNIT` times each part of the direction.
proof fn lemma_scaled_length(dx: int, dy: int)
    ensures
        is_sqrt_floor((dx * dx + dy * dy) * UNIT_SQUARED, scaled_length(dx, dy)),
        magnitude(dx) * UNIT <= scaled_length(dx, dy),
        magnitude(dy) * UNIT <= scaled_length(dx, dy),
        scaled_length(dx, dy) == 0 <==> dx == 0 && dy == 0,
{
    let scaled = scaled_length(dx, dy);
    let ux = dx * UNIT;
    let uy = dy * UNIT;
    assert(dx * dx >= 0 && dy * dy >= 0) by (nonlinear_arith);
    assert(ux * ux + uy * uy == (dx * dx + dy * dy) * UNIT_SQUARED) by (nonlinear_arith)
        requires
            ux == dx * UNIT,
            uy == dy * UNIT,
    ;
    lemma_sqrt_floor_exists((dx * dx + dy * dy) * UNIT_SQUARED);
    lemma_part_within_distance(ux, uy, scaled);
    if dx != 0 || dy != 0 {
        assert(dx * dx + dy * dy >= 1) by (nonlinear_arith)
            requires
                dx != 0 || dy != 0,
        ;
        if scaled == 0 {
            assert((scaled + 1) * (scaled + 1) == 1);
        }
    } else {
        assert(dx * dx + dy * dy == 0) by (nonlinear_arith)
            requires
                dx == 0,
                dy == 0,
        ;
        if scaled > 0 {
            lemma_square_monotonic(1, scaled);
        }
    }
}

/// The length of `v` lies between `UNIT - 2` and `UNIT + 1`.
pub open spec fn near_unit_length(v: Vec2) -> bool {
    (UNIT - 2) * (UNIT - 2) <= v.x * v.x + v.y * v.y <= (UNIT + 1) * (UNIT + 1)
}

/// The normal of a contact is a unit vector up to rounding: its length lies
/// between `UNIT - 2` and `UNIT + 1`, and each part has the sign of the same
/// part of the direction from the first centre to the second.
pub proof fn lemma_normal_is_unit(dx: int, dy: int)
    ensures
        ({
            let n = unit_normal(dx, dy);
            &&& near_unit_length(n)
            &&& (dx > 0 ==> n.x >= 0) && (dx < 0 ==> n.x <= 0)
            &&& (dy > 0 ==> n.y >= 0) && (dy < 0 ==> n.y <= 0)
        }),
{
    lemma_scaled_length(dx, dy);
    let d = scaled_length(dx, dy);
    if d > 0 {
        lemma_normal_parts(dx, dy);
        let n = unit_normal(dx, dy);
        let uu: int = UNIT_SQUARED as int;
        let x = magnitude(dx) * uu;
        let y = magnitude(dy) * uu;
        let p = x / d;
        let q = y / d;
        let total = (dx * dx + dy * dy) * uu;
        assert(n.x * n.x == p * p && n.y * n.y == q * q) by (nonlinear_arith)
            requires
                magnitude(n.x as int) == p,
                magnitude(n.y as int) == q,
        ;
        assert(x * x + y * y == total * uu) by (nonlinear_arith)
            requires
                x == magnitude(dx) * uu,
                y == magnitude(dy) * uu,
                total == (dx * dx + dy * dy) * uu,
        ;
        assert(p * d <= x < (p + 1) * d && p >= 0) by (nonlinear_arith)
            requires
                p == x / d,
                d > 0,
                x >= 0,
        ;
        assert(q * d <= y < (q + 1) * d && q >= 0) by (nonlinear_arith)
            requires
                q == y / d,
                d > 0,
                y >= 0,
        ;
        // The scaled length is at least UNIT.
        assert(d >= UNIT) by {
            assert(dx * dx + dy * dy >= 1) by (nonlinear_arith)
                requires
                    dx != 0 || dy != 0,
            ;
            if d < UNIT {
                lemma_square_monotonic(d + 1, UNIT as int);
            }
        }
        // From above: (p^2 + q^2) d^2 <= x^2 + y^2 < ((d + 1) UNIT)^2 <= (d (UNIT + 1))^2.
        lemma_square_monotonic(p * d, x);
        lemma_square_monotonic(q * d, y);
        let pd = p * d;
        let qd = q * d;
        let high = d * (UNIT + 1);
        assert(total * uu < high * high) by (nonlinear_arith)
            requires
                total < (d + 1) * (d + 1),
                uu == 1000000,
                high == d * (UNIT + 1),
                d >= UNIT,
                UNIT == 1000,
                total >= 0,
        ;
        assert(p * p + q * q < (UNIT + 1) * (UNIT + 1)) by (nonlinear_arith)
            requires
                pd * pd + qd * qd < high * high,
                pd == p * d,
                qd == q * d,
                high == d * (UNIT + 1),
                d > 0,
        ;
        // From below: ((p + 1)^2 + (q + 1)^2) d^2 > x^2 + y^2 >= (d UNIT)^2.
        lemma_square_monotonic(x + 1, (p + 1) * d);
        lemma_square_monotonic(y + 1, (q + 1) * d);
        let pd1 = (p + 1) * d;
        let qd1 = (q + 1) * d;
        assert(x * x < pd1 * pd1 && y * y < qd1 * qd1) by (nonlinear_arith)
            requires
                (x + 1) * (x + 1) <= pd1 * pd1,
                (y + 1) * (y + 1) <= qd1 * qd1,
                x >= 0,
                y >= 0,
        ;
        assert(total * uu >= (d * d) * uu) by (nonlinear_arith)
            requires
                total >= d * d,
                uu >= 0,
        ;
        assert((p + 1) * (p + 1) + (q + 1) * (q + 1) > uu) by (nonlinear_arith)
            requires
                pd1 * pd1 + qd1 * qd1 > (d * d) * uu,
                pd1 == (p + 1) * d,
                qd1 == (q + 1) * d,
                d > 0,
        ;
        // The two parts together are at most 1415.
        assert((p + q) * (p + q) <= 2 * (p * p + q * q)) by (nonlinear_arith);
        if p + q >= 1416 {
            lemma_square_monotonic(1416, p + q);
        }
        assert((p + 1) * (p + 1) + (q + 1) * (q + 1) == p * p + q * q + 2 * (p + q) + 2)
            by (nonlinear_arith);
    }
}

/// No part of a direction is longer than the rounded-down length of the
/// direction.
proof fn lemma_part_within_distance(dx: int, dy: int, distance: int)
    requires
        0 <= distance,
        distance * distance <= dx * dx + dy * dy < (distance + 1) * (distance + 1),
    ensures
        -distance <= dx <= distance,
        -distance <= dy <= distance,
{
    assert(dy * dy >= 0) by (nonlinear_arith);
    assert(dx * dx >= 0) by (nonlinear_arith);
    if dx > distance {
        lemma_square_monotonic(distance + 1, dx);
    }
    if -dx > distance {
        lemma_square_monotonic(distance + 1, -dx);
        assert((-dx) * (-dx) == dx * dx) by (nonlinear_arith);
    }
    if dy > distance {
        lemma_square_monotonic(distance + 1, dy);
    }
    if -dy > distance {
        lemma_square_monotonic(distance + 1, -dy);
        assert((-dy) * (-dy) == dy * dy) by (nonlinear_arith);
    }
}

fn scale_to_unit(part: i64, scaled: u64) -> (n: i32)
    requires
        scaled > 0,
        -0x1_0000_0000 <= part <= 0x1_0000_0000,
        -scaled <= part * UNIT <= scaled,
    ensures
        n == trunc_div(part * UNIT_SQUARED, scaled as int),
        -UNIT <= n <= UNIT,
{
    proof {
        lemma_trunc_div_bound(part * UNIT_SQUARED, scaled as int, UNIT as int);
        lemma_trunc_div_bound(
            if part >= 0 {
                part * UNIT_SQUARED
            } else {
                -(part * UNIT_SQUARED)
            },
            scaled as int,
            UNIT as int,
        );
    }
    let dividend: i128 = (part as i128) * 1_000_000;
    let divisor: i128 = scaled as i128;
    if dividend >= 0 {
        (dividend / divisor) as i32
    } else {
        (-((-dividend) / divisor)) as i32
    }
}

fn along_normal(part: i32, radius: u32) -> (offset: i64)
    requires
        -UNIT <= part <= UNIT,
    ensures
        offset == trunc_div(part * radius, UNIT as int),
        -radius <= offset <= radius,
{
    proof {
        assert(-(radius * UNIT) <= part * radius <= radius * UNIT) by (nonlinear_arith)
            requires
                -UNIT <= part <= UNIT,
                radius >= 0,
        ;
        lemma_trunc_div_bound(part * radius, UNIT as int, radius as int);
    }
    div_toward_zero((part as i64) * (radius as i64), UNIT as i64)
}

impl Collide<Circle> for Circle {
    open spec fn manifold(&self, self_body: &Body, other: &Circle, other_body: &Body) -> Option<
        Seq<Contact>,
    > {
        match circle_contact(
            self.radius as int,
            self_body.transform.position,
            other.radius as int,
            other_body.transform.position,
        ) {
            Some(contact) => Some(seq![contact]),
            None => None,
        }
    }

    fn collide(&self, self_body: &Body, other: &Circle, other_body: &Body) -> (contacts: Option<
        Vec<Contact>,
    >)
        ensures
            contacts matches Some(found) ==> {
                &&& found.len() == 1
                &&& near_unit_length(found[0].normal)
                &&& found[0].penetration >= 0
                &&& found[0].tangent == (Vec2 { x: found[0].normal.y, y: (-found[0].normal.x) as i32 })
            },
    {
        let centre_a = self_body.transform.position;
        let centre_b = other_body.transform.position;
        let r: i64 = self.radius as i64 + other.radius as i64;
        let dx: i64 = centre_b.x as i64 - centre_a.x as i64;
        let dy: i64 = centre_b.y as i64 - centre_a.y as i64;
        proof {
            assert(0 <= dx * dx <= 0x1_0000_0000 * 0x1_0000_0000) by (nonlinear_arith)
                requires
                    -0x1_0000_0000 <= dx <= 0x1_0000_0000,
            ;
            assert(0 <= dy * dy <= 0x1_0000_0000 * 0x1_0000_0000) by (nonlinear_arith)
                requires
                    -0x1_0000_0000 <= dy <= 0x1_0000_0000,
            ;
            assert(0 <= r * r <= 0x2_0000_0000 * 0x2_0000_0000) by (nonlinear_arith)
                requires
                    0 <= r <= 0x2_0000_0000,
            ;
        }
        let sqr_length: i128 = (dx as i128) * (dx as i128) + (dy as i128) * (dy as i128);
        if sqr_length > (r as i128) * (r as i128) {
            return None;
        }
        let root = isqrt(sqr_length as u128);
        proof {
            if root > r {
                lemma_square_monotonic(r + 1, root as int);
                assert((r + 1) * (r + 1) > r * r) by (nonlinear_arith)
                    requires
                        r >= 0,
                ;
            }
            lemma_scaled_length(dx as int, dy as int);
            lemma_normal_is_unit(dx as int, dy as int);
        }
        let distance: i64 = root as i64;
        assert(0 <= sqr_length <= 0x4_0000_0000_0000_0000);
        let scaled = isqrt((sqr_length as u128) * 1_000_000);
        proof {
            lemma_sqrt_floor_unique(sqr_length * UNIT_SQUARED, scaled as int);
        }
        let normal = if scaled == 0 {
            Vec2 { x: UNIT, y: 0 }
        } else {
            Vec2 { x: scale_to_unit(dx, scaled), y: scale_to_unit(dy, scaled) }
        };
        let contact_position = Vec2 {
            x: offset_coord(centre_a.x, along_normal(normal.x, self.radius)),
            y: offset_coord(centre_a.y, along_normal(normal.y, self.radius)),
        };
        let contact = Contact::new(contact_position, r - distance, normal);
        let mut contacts: Vec<Contact> = Vec::new();
        contacts.push(contact);
        proof {
            assert(contacts@ =~= seq![contact]);
        }
        Some(contacts)
    }
}

} // verus!
