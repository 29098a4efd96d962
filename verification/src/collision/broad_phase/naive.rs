//! The strategy without an index: every body against every other.

use super::{extended_by, lemma_extended_step, BroadPhase, ProxyId};
use crate::world::{Bodies, Body, BodyId, BodyPair, ConstraintsMap};
use vstd::prelude::*;

verus! {

/// The strategy that keeps no index and compares every body with every other.
#[derive(Clone)]
pub struct NaiveBroadPhase;

/// `a` and `b`, in this order, are a candidate pair: `a` has the lower id,
/// their bounds meet, and at least one of them can move.
pub open spec fn naive_pair(a: Body, b: Body) -> bool {
    &&& a.id < b.id
    &&& a.bounds.intersects(&b.bounds)
    &&& (!a.is_static() || !b.is_static())
}

/// The bodies at `i` and `j` are a candidate pair, and `key` is that pair.
pub open spec fn scan_hit(bodies: Seq<Body>, i: int, j: int, key: (BodyId, BodyId)) -> bool {
    &&& naive_pair(bodies[i], bodies[j])
    &&& key == (bodies[i].id, bodies[j].id)
}

/// The candidate pairs among `bodies`.
pub open spec fn naive_candidates(bodies: Seq<Body>) -> Set<(BodyId, BodyId)> {
    Set::new(
        |key: (BodyId, BodyId)|
            exists|i: int, j: int|
                0 <= i < bodies.len() && 0 <= j < bodies.len() && #[trigger] scan_hit(
                    bodies,
                    i,
                    j,
                    key,
                ),
    )
}

/// The candidate pairs that the scan has found when it stands at body `i`
/// and is about to compare it with body `j`.
pub open spec fn naive_scanned(bodies: Seq<Body>, i: int, j: int) -> Set<(BodyId, BodyId)> {
    Set::new(
        |key: (BodyId, BodyId)|
            exists|a: int, b: int|
                0 <= a < bodies.len() && 0 <= b < bodies.len() && (a < i || (a == i && b < j))
                    && #[trigger] scan_hit(bodies, a, b, key),
    )
}

proof fn lemma_scanned_step(bodies: Seq<Body>, i: int, j: int)
    requires
        0 <= i < bodies.len(),
        0 <= j < bodies.len(),
    ensures
        naive_scanned(bodies, i, j + 1) == (if naive_pair(bodies[i], bodies[j]) {
            naive_scanned(bodies, i, j).insert((bodies[i].id, bodies[j].id))
        } else {
            naive_scanned(bodies, i, j)
        }),
{
    let next = naive_scanned(bodies, i, j + 1);
    let expected = if naive_pair(bodies[i], bodies[j]) {
        naive_scanned(bodies, i, j).insert((bodies[i].id, bodies[j].id))
    } else {
        naive_scanned(bodies, i, j)
    };
    assert forall|key: (BodyId, BodyId)| next.contains(key) == expected.contains(key) by {
        if next.contains(key) {
            let (a, b) = choose|a: int, b: int|
                0 <= a < bodies.len() && 0 <= b < bodies.len() && (a < i || (a == i && b < j + 1))
                    && #[trigger] scan_hit(bodies, a, b, key);
            if !(a == i && b == j) {
                assert(scan_hit(bodies, a, b, key));
                assert(naive_scanned(bodies, i, j).contains(key));
            }
        }
        if expected.contains(key) {
            if naive_scanned(bodies, i, j).contains(key) {
                let (a, b) = choose|a: int, b: int|
                    0 <= a < bodies.len() && 0 <= b < bodies.len() && (a < i || (a == i && b < j))
                        && #[trigger] scan_hit(bodies, a, b, key);
                assert(scan_hit(bodies, a, b, key));
            } else {
                assert(scan_hit(bodies, i, j, key));
            }
        }
    }
    assert(next =~= expected);
}

proof fn lemma_scanned_rows(bodies: Seq<Body>, i: int)
    requires
        0 <= i < bodies.len(),
    ensures
        naive_scanned(bodies, 0, 0) == Set::<(BodyId, BodyId)>::empty(),
        naive_scanned(bodies, i, bodies.len() as int) == naive_scanned(bodies, i + 1, 0),
        naive_scanned(bodies, bodies.len() as int, 0) == naive_candidates(bodies),
{
    assert(naive_scanned(bodies, 0, 0) =~= Set::<(BodyId, BodyId)>::empty());
    assert(naive_scanned(bodies, i, bodies.len() as int) =~= naive_scanned(bodies, i + 1, 0));
    assert(naive_scanned(bodies, bodies.len() as int, 0) =~= naive_candidates(bodies));
}

impl BroadPhase for NaiveBroadPhase {
    open spec fn inv(&self) -> bool {
        true
    }

    open spec fn has_proxy(&self, proxy_id: ProxyId) -> bool {
        true
    }

    open spec fn can_create(&self) -> bool {
        true
    }

    open spec fn knows_bodies(&self, bodies: Seq<Body>) -> bool {
        true
    }

    open spec fn candidates(&self, bodies: Seq<Body>) -> Set<(BodyId, BodyId)> {
        naive_candidates(bodies)
    }

    fn new_potential_pairs<C>(&self, bodies: &Bodies, constraints: &mut ConstraintsMap<C>) {
        let ghost before = constraints@;
        let count = bodies.len();
        if count == 0 {
            proof {
                assert(naive_candidates(bodies@) =~= Set::<(BodyId, BodyId)>::empty());
            }
            return ;
        }
        proof {
            lemma_scanned_rows(bodies@, 0);
        }
        let mut i: usize = 0;
        while i < count
            invariant
                count == bodies.len(),
                count > 0,
                i <= count,
                constraints.wf(),
                extended_by(before, constraints@, naive_scanned(bodies@, i as int, 0)),
            decreases count - i,
        {
            let mut j: usize = 0;
            while j < count
                invariant
                    count == bodies.len(),
                    i < count,
                    j <= count,
                    constraints.wf(),
                    extended_by(before, constraints@, naive_scanned(bodies@, i as int, j as int)),
                decreases count - j,
            {
                let body_a = &bodies[i];
                let body_b = &bodies[j];
                let body_a_id = body_a.id;
                let body_b_id = body_b.id;
                proof {
                    lemma_scanned_step(bodies@, i as int, j as int);
                }
                if body_b_id > body_a_id && body_a.bounds.intersects(&body_b.bounds) && (
                !body_a.is_static() || !body_b.is_static()) {
                    let ghost current = constraints@;
                    let body_pair = BodyPair::new(body_a_id, body_b_id);
                    let list = constraints.entry(body_pair);
                    proof {
                        lemma_extended_step(
                            before,
                            current,
                            naive_scanned(bodies@, i as int, j as int),
                            body_pair@,
                            *list,
                        );
                    }
                }
                j += 1;
            }
            proof {
                lemma_scanned_rows(bodies@, i as int);
            }
            i += 1;
        }
        proof {
            lemma_scanned_rows(bodies@, 0);
        }
    }

    fn contains_proxy(&self, _proxy_id: ProxyId) -> (b: bool) {
        true
    }

    fn has_room(&self) -> (b: bool) {
        true
    }

    /// Keeps nothing of the body; every body gets the handle 0.
    fn create_proxy(&mut self, _body: &Body) -> (proxy_id: ProxyId)
        ensures
            proxy_id == 0,
    {
        ProxyId::default()
    }

    fn destroy_proxy(&mut self, _proxy_id: ProxyId) {
    }

    fn update_proxy(&mut self, _proxy_id: ProxyId, _body: &Body) {
    }
}

} // verus!
