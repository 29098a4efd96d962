//! A read-only look at the contacts that are active.

use crate::collision::{Contact, ContactConstraint};
use crate::world::ConstraintsMap;
use vstd::prelude::*;

verus! {

/// The contacts of the constraints in `list`, in order.
pub open spec fn contacts_of(list: Seq<ContactConstraint>) -> Seq<Contact> {
    Seq::new(list.len(), |i: int| list[i].contact)
}

/// What can be shown of the collision state.
pub trait DebugCollision {
    /// The state is consistent.
    spec fn inspectable(&self) -> bool;

    /// Every contact that is active, in the order in which it is kept.
    spec fn active_contacts(&self) -> Seq<Contact>;

    /// Every contact that is active.
    fn contacts(&self) -> (contacts: Vec<&Contact>)
        requires
            self.inspectable(),
        ensures
            contacts.len() == self.active_contacts().len(),
            forall|i: int|
                0 <= i < contacts.len() ==> *(#[trigger] contacts[i]) == self.active_contacts()[i],
    ;
}

impl DebugCollision for ConstraintsMap<ContactConstraint> {
    open spec fn inspectable(&self) -> bool {
        self.wf()
    }

    /// The contacts of all constraints, pair after pair.
    open spec fn active_contacts(&self) -> Seq<Contact> {
        contacts_of(self.all_constraints())
    }

    fn contacts(&self) -> (contacts: Vec<&Contact>) {
        let all = self.constraints();
        let mut contacts: Vec<&Contact> = Vec::new();
        let mut i: usize = 0;
        while i < all.len()
            invariant
                i <= all.len(),
                all.len() == self.all_constraints().len(),
                forall|k: int| 0 <= k < all.len() ==> *(#[trigger] all[k]) == self.all_constraints()[k],
                contacts.len() == i,
                forall|k: int|
                    0 <= k < i ==> *(#[trigger] contacts[k]) == self.all_constraints()[k].contact,
            decreases all.len() - i,
        {
            let constraint: &ContactConstraint = all[i];
            contacts.push(&constraint.contact);
            i += 1;
        }
        contacts
    }
}

} // verus!
