//! Finding the pairs of bodies that may touch, and the contacts of those that
//! do.

pub mod broad_phase;
pub mod narrow_phase;

pub use self::narrow_phase::{collide, Collide};

use crate::math::{clamp_coord, offset_coord, Vec2};
use vstd::prelude::*;

verus! {

/// One point at which two bodies touch.
#[derive(Clone, Copy, PartialEq, Eq, Structural, Debug)]
pub struct Contact {
    /// Where, in world space.
    pub position: Vec2,
    /// How deep the bodies overlap; positive when they do.
    pub penetration: i64,
    /// The direction from the first body to the second, of length `UNIT` up
    /// to rounding.
    pub normal: Vec2,
    /// The normal turned a quarter turn clockwise.
    pub tangent: Vec2,
}

/// A contact that the solver works on, with the impulses it has applied so
/// far; they carry over to the next step.
#[derive(Clone, Copy, PartialEq, Eq, Structural, Debug)]
pub struct ContactConstraint {
    pub contact: Contact,
    pub normal_impulse: i64,
    pub tangent_impulse: i64,
}

impl ContactConstraint {
    pub open spec fn spec_new(contact: Contact) -> ContactConstraint {
        ContactConstraint { contact, normal_impulse: 0, tangent_impulse: 0 }
    }

    /// A constraint on which no impulse has acted yet.
    #[verifier::when_used_as_spec(spec_new)]
    pub fn new(contact: Contact) -> (constraint: ContactConstraint)
        ensures
            constraint == ContactConstraint::spec_new(contact),
    {
        ContactConstraint { contact, normal_impulse: 0, tangent_impulse: 0 }
    }
}

impl Contact {
    pub open spec fn spec_new(position: Vec2, penetration: i64, normal: Vec2) -> Contact {
        Contact {
            position,
            penetration,
            normal,
            tangent: Vec2 { x: normal.y, y: clamp_coord(-normal.x) },
        }
    }

    /// A contact whose tangent is `(normal.y, -normal.x)`.
    #[verifier::when_used_as_spec(spec_new)]
    pub fn new(position: Vec2, penetration: i64, normal: Vec2) -> (contact: Contact)
        ensures
            contact == Contact::spec_new(position, penetration, normal),
    {
        Contact {
            position,
            penetration,
            normal,
            tangent: Vec2 { x: normal.y, y: offset_coord(0, -(normal.x as i64)) },
        }
    }
}

} // verus!
