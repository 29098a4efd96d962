//! The shapes of bodies and the boxes around them.

use crate::math::{clamp_coord, offset_coord, Bounds, Vec2};
use crate::world::Transform;
use vstd::prelude::*;

verus! {

/// A disc around the position of its body.
#[derive(Clone, Copy, PartialEq, Eq, Structural, Debug)]
pub struct Circle {
    pub radius: u32,
}

/// A polygon given by its corners, relative to the position of its body.
#[derive(Clone, Debug)]
pub struct Polygon {
    pub vertices: Vec<Vec2>,
}

/// The shape of a body: one case for each kind.
#[derive(Clone, Debug)]
pub enum Shape {
    Circle(Circle),
    Polygon(Polygon),
}

/// The position that a transform gives; the origin if there is none.
pub open spec fn position_of(transform: Option<&Transform>) -> Vec2 {
    match transform {
        Some(t) => t.position,
        None => Vec2::zero(),
    }
}

/// The box that holds just the point `p`.
pub open spec fn point_box(p: Vec2) -> Bounds {
    Bounds { min: p, max: p }
}

/// The smallest box around `points`; the origin alone if there are none.
pub open spec fn hull(points: Seq<Vec2>) -> Bounds
    decreases points.len(),
{
    if points.len() == 0 {
        point_box(Vec2::zero())
    } else if points.len() == 1 {
        point_box(points[0])
    } else {
        hull(points.drop_last()).union(&point_box(points.last()))
    }
}

/// `bounds` moved by `by`, each corner held inside the coordinate range.
pub open spec fn moved_by(bounds: Bounds, by: Vec2) -> Bounds {
    Bounds {
        min: Vec2 { x: clamp_coord(bounds.min.x + by.x), y: clamp_coord(bounds.min.y + by.y) },
        max: Vec2 { x: clamp_coord(bounds.max.x + by.x), y: clamp_coord(bounds.max.y + by.y) },
    }
}

fn position(transform: Option<&Transform>) -> (p: Vec2)
    ensures
        p == position_of(transform),
{
    match transform {
        Some(t) => t.position,
        None => Vec2::zero(),
    }
}

impl Circle {
    pub open spec fn spec_new(radius: u32) -> Circle {
        Circle { radius }
    }

    #[verifier::when_used_as_spec(spec_new)]
    pub fn new(radius: u32) -> (circle: Circle)
        ensures
            circle == Circle::spec_new(radius),
    {
        Circle { radius }
    }

    /// The box from the centre less the radius to the centre plus the radius,
    /// each corner held inside the coordinate range.
    pub open spec fn spec_bounds(&self, transform: Option<&Transform>) -> Bounds {
        let centre = position_of(transform);
        Bounds {
            min: Vec2 {
                x: clamp_coord(centre.x - self.radius),
                y: clamp_coord(centre.y - self.radius),
            },
            max: Vec2 {
                x: clamp_coord(centre.x + self.radius),
                y: clamp_coord(centre.y + self.radius),
            },
        }
    }

    #[verifier::when_used_as_spec(spec_bounds)]
    pub fn bounds(&self, transform: Option<&Transform>) -> (bounds: Bounds)
        ensures
            bounds == self.spec_bounds(transform),
    {
        let centre = position(transform);
        let radius: i64 = self.radius as i64;
        Bounds {
            min: Vec2 { x: offset_coord(centre.x, -radius), y: offset_coord(centre.y, -radius) },
            max: Vec2 { x: offset_coord(centre.x, radius), y: offset_coord(centre.y, radius) },
        }
    }
}

impl Polygon {
    /// The smallest box around the corners, moved to the position of the body.
    pub open spec fn spec_bounds(&self, transform: Option<&Transform>) -> Bounds {
        moved_by(hull(self.vertices@), position_of(transform))
    }

    #[verifier::when_used_as_spec(spec_bounds)]
    pub fn bounds(&self, transform: Option<&Transform>) -> (bounds: Bounds)
        ensures
            bounds == self.spec_bounds(transform),
    {
        let by = position(transform);
        let mut local = Bounds::new(Vec2::zero(), Vec2::zero());
        if self.vertices.len() > 0 {
            local = Bounds::new(self.vertices[0], self.vertices[0]);
            proof {
                assert(self.vertices@.take(1).len() == 1);
            }
            let mut i: usize = 1;
            while i < self.vertices.len()
                invariant
                    1 <= i <= self.vertices.len(),
                    local == hull(self.vertices@.take(i as int)),
                decreases self.vertices.len() - i,
            {
                let corner = self.vertices[i];
                proof {
                    let next = self.vertices@.take(i + 1);
                    assert(next.drop_last() =~= self.vertices@.take(i as int));
                    assert(next.last() == corner);
                }
                local = local.union(&Bounds::new(corner, corner));
                i += 1;
            }
            proof {
                assert(self.vertices@.take(self.vertices.len() as int) =~= self.vertices@);
            }
        }
        Bounds {
            min: Vec2 {
                x: offset_coord(local.min.x, by.x as i64),
                y: offset_coord(local.min.y, by.y as i64),
            },
            max: Vec2 {
                x: offset_coord(local.max.x, by.x as i64),
                y: offset_coord(local.max.y, by.y as i64),
            },
        }
    }
}

impl Shape {
    /// The bounds of whichever shape this is.
    pub open spec fn spec_bounds(&self, transform: Option<&Transform>) -> Bounds {
        match self {
            Shape::Circle(c) => c.spec_bounds(transform),
            Shape::Polygon(p) => p.spec_bounds(transform),
        }
    }

    #[verifier::when_used_as_spec(spec_bounds)]
    pub fn bounds(&self, transform: Option<&Transform>) -> (bounds: Bounds)
        ensures
            bounds == self.spec_bounds(transform),
    {
        match self {
            Shape::Circle(c) => c.bounds(transform),
            Shape::Polygon(p) => p.bounds(transform),
        }
    }
}

} // verus!
