//! The exact test of two shapes against each other.

pub mod circle_circle;

use crate::collision::Contact;
use crate::shapes::Shape;
use crate::world::Body;
use vstd::prelude::*;

verus! {

/// What a narrow phase returned is what the shapes' manifold says.
pub open spec fn same_manifold(found: Option<Vec<Contact>>, manifold: Option<Seq<Contact>>) -> bool {
    match (found, manifold) {
        (Some(contacts), Some(expected)) => contacts@ == expected,
        (None, None) => true,
        _ => false,
    }
}

/// The exact test of one kind of shape against another.
pub trait Collide<Other> {
    /// The contacts between this shape on `self_body` and `other` on
    /// `other_body`; none if the shapes are apart.
    spec fn manifold(&self, self_body: &Body, other: &Other, other_body: &Body) -> Option<
        Seq<Contact>,
    >;

    fn collide(&self, self_body: &Body, other: &Other, other_body: &Body) -> (contacts: Option<
        Vec<Contact>,
    >)
        ensures
            same_manifold(contacts, self.manifold(self_body, other, other_body)),
    ;
}

/// The contacts between two shapes of whatever kind: those of the test for
/// that pair of kinds. Circles are tested against each other; a pair with a
/// polygon has no test and gives no contact.
pub open spec fn shape_manifold(
    shape_a: &Shape,
    body_a: &Body,
    shape_b: &Shape,
    body_b: &Body,
) -> Option<Seq<Contact>> {
    match (shape_a, shape_b) {
        (Shape::Circle(a), Shape::Circle(b)) => a.manifold(body_a, b, body_b),
        _ => None,
    }
}

/// Tests two shapes against each other by the test for their kinds.
pub fn collide(shape_a: &Shape, body_a: &Body, shape_b: &Shape, body_b: &Body) -> (contacts: Option<
    Vec<Contact>,
>)
    ensures
        same_manifold(contacts, shape_manifold(shape_a, body_a, shape_b, body_b)),
{
    match shape_a {
        Shape::Circle(a) => match shape_b {
            Shape::Circle(b) => a.collide(body_a, b, body_b),
            Shape::Polygon(_) => None,
        },
        Shape::Polygon(_) => None,
    }
}

} // verus!
