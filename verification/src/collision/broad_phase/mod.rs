//! The coarse filter that proposes pairs of bodies, in two strategies behind
//! one trait.

pub mod bounds_tree;
pub mod laws;
pub mod naive;

pub use self::bounds_tree::BoundsTreeBroadPhase;
pub use self::naive::NaiveBroadPhase;

use crate::world::{Bodies, Body, BodyId, ConstraintsMap};
use vstd::prelude::*;

verus! {

/// The handle by which a broad phase knows a body.
pub type ProxyId = usize;

/// `after` tracks what `before` tracked and the pairs in `added`: a pair that
/// was tracked keeps its list, and a pair that is new has an empty one.
pub open spec fn extended_by<C>(
    before: Map<(BodyId, BodyId), Vec<C>>,
    after: Map<(BodyId, BodyId), Vec<C>>,
    added: Set<(BodyId, BodyId)>,
) -> bool {
    &&& forall|key: (BodyId, BodyId)| #[trigger]
        after.contains_key(key) <==> before.contains_key(key) || added.contains(key)
    &&& forall|key: (BodyId, BodyId)| before.contains_key(key) ==> #[trigger] after[key] == before[key]
    &&& forall|key: (BodyId, BodyId)|
        after.contains_key(key) && !before.contains_key(key) ==> (#[trigger] after[key])@
            == Seq::<C>::empty()
}

/// Tracking one more pair extends what was added by that pair.
pub proof fn lemma_extended_step<C>(
    before: Map<(BodyId, BodyId), Vec<C>>,
    current: Map<(BodyId, BodyId), Vec<C>>,
    added: Set<(BodyId, BodyId)>,
    key: (BodyId, BodyId),
    list: Vec<C>,
)
    requires
        extended_by(before, current, added),
        current.contains_key(key) ==> list == current[key],
        !current.contains_key(key) ==> list@ == Seq::<C>::empty(),
    ensures
        extended_by(before, current.insert(key, list), added.insert(key)),
{
    let next = current.insert(key, list);
    assert forall|other: (BodyId, BodyId)| #[trigger]
        next.contains_key(other) <==> before.contains_key(other) || added.insert(key).contains(
            other,
        ) by {
        assert(current.contains_key(other) <==> before.contains_key(other) || added.contains(other));
    }
    assert forall|other: (BodyId, BodyId)| before.contains_key(other) implies #[trigger] next[other]
        == before[other] by {
        assert(current.contains_key(other));
        assert(current[other] == before[other]);
    }
    assert forall|other: (BodyId, BodyId)|
        next.contains_key(other) && !before.contains_key(other) implies (#[trigger] next[other])@
        == Seq::<C>::empty() by {
        if other != key || current.contains_key(key) {
            assert(current.contains_key(other));
            assert(current[other]@ == Seq::<C>::empty());
        }
    }
}

/// A strategy that finds the pairs of bodies that may touch.
pub trait BroadPhase {
    /// What the strategy keeps true of itself between calls.
    spec fn inv(&self) -> bool;

    /// `proxy_id` is a handle that `create_proxy` gave out and that
    /// `destroy_proxy` has not taken back.
    spec fn has_proxy(&self, proxy_id: ProxyId) -> bool;

    /// One more proxy can be created.
    spec fn can_create(&self) -> bool;

    /// `bodies` holds every body that the strategy will look up in it.
    spec fn knows_bodies(&self, bodies: Seq<Body>) -> bool;

    /// The pairs that the strategy reports for `bodies`.
    spec fn candidates(&self, bodies: Seq<Body>) -> Set<(BodyId, BodyId)>;

    /// Starts tracking every candidate pair that is not tracked yet, with an
    /// empty list; what is tracked already stays as it is.
    fn new_potential_pairs<C>(&self, bodies: &Bodies, constraints: &mut ConstraintsMap<C>)
        requires
            self.inv(),
            self.knows_bodies(bodies@),
            old(constraints).wf(),
        ensures
            final(constraints).wf(),
            extended_by(old(constraints)@, final(constraints)@, self.candidates(bodies@)),
    ;

    /// Whether `proxy_id` is a proxy of this strategy.
    fn contains_proxy(&self, proxy_id: ProxyId) -> (b: bool)
        requires
            self.inv(),
        ensures
            b == self.has_proxy(proxy_id),
    ;

    /// Whether one more proxy can be created.
    fn has_room(&self) -> (b: bool)
        requires
            self.inv(),
        ensures
            b == self.can_create(),
    ;

    /// Gives `body` a proxy; every other proxy stays.
    fn create_proxy(&mut self, body: &Body) -> (proxy_id: ProxyId)
        requires
            old(self).inv(),
            old(self).can_create(),
        ensures
            final(self).inv(),
            final(self).has_proxy(proxy_id),
            forall|other: ProxyId| #[trigger]
                old(self).has_proxy(other) ==> final(self).has_proxy(other),
    ;

    /// Takes the proxy `proxy_id` back; every other proxy stays.
    fn destroy_proxy(&mut self, proxy_id: ProxyId)
        requires
            old(self).inv(),
            old(self).has_proxy(proxy_id),
        ensures
            final(self).inv(),
            forall|other: ProxyId|
                other != proxy_id && #[trigger] old(self).has_proxy(other)
                    ==> final(self).has_proxy(other),
    ;

    /// Tells the strategy where `body` is now; its proxy and every other
    /// proxy stay.
    fn update_proxy(&mut self, proxy_id: ProxyId, body: &Body)
        requires
            old(self).inv(),
            old(self).has_proxy(proxy_id),
        ensures
            final(self).inv(),
            final(self).has_proxy(proxy_id),
            forall|other: ProxyId| #[trigger]
                old(self).has_proxy(other) ==> final(self).has_proxy(other),
    ;
}

} // verus!
