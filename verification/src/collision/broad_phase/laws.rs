//! How the two strategies and the narrow phase relate.

use super::bounds_tree::{pairs_of_body, tree_pair_at, BoundsTreeBroadPhase};
use super::naive::{naive_candidates, naive_pair, scan_hit};
use super::BroadPhase;
use crate::collision::narrow_phase::Collide;
use crate::math::lemma_square_monotonic;
use crate::shapes::Circle;
use crate::world::{ordered_ids, Body, BodyId};
use vstd::prelude::*;

verus! {

/// A number whose square is at most the square of `r` lies within `r` of
/// zero.
proof fn lemma_within_radius(d: int, rest: int, r: int)
    requires
        r >= 0,
        rest >= 0,
        d * d + rest <= r * r,
    ensures
        -r <= d <= r,
{
    if d > r {
        lemma_square_monotonic(r + 1, d);
        assert((r + 1) * (r + 1) > r * r) by (nonlinear_arith)
            requires
                r >= 0,
        ;
    }
    if -d > r {
        lemma_square_monotonic(r + 1, -d);
        assert((-d) * (-d) == d * d) by (nonlinear_arith);
        assert((r + 1) * (r + 1) > r * r) by (nonlinear_arith)
            requires
                r >= 0,
        ;
    }
}

/// Two circles that touch have bounds that meet.
pub proof fn lemma_touching_circles_bounds_meet(a: Circle, body_a: Body, b: Circle, body_b: Body)
    requires
        a.manifold(&body_a, &b, &body_b).is_some(),
    ensures
        a.bounds(Some(&body_a.transform)).intersects(&b.bounds(Some(&body_b.transform))),
        b.bounds(Some(&body_b.transform)).intersects(&a.bounds(Some(&body_a.transform))),
{
    let dx = body_b.transform.position.x - body_a.transform.position.x;
    let dy = body_b.transform.position.y - body_a.transform.position.y;
    let r = a.radius + b.radius;
    assert(dx * dx >= 0) by (nonlinear_arith);
    assert(dy * dy >= 0) by (nonlinear_arith);
    lemma_within_radius(dx, dy * dy, r);
    lemma_within_radius(dy, dx * dx, r);
}

/// The naive strategy misses no contact between circles: if the narrow phase
/// finds two circles touching, and their bodies have different ids, carry the
/// circles' bounds and are not both static, then the pair is a candidate of
/// the naive strategy.
pub proof fn lemma_naive_covers_circle_contacts(
    bodies: Seq<Body>,
    i: int,
    j: int,
    circle_i: Circle,
    circle_j: Circle,
)
    requires
        0 <= i < bodies.len(),
        0 <= j < bodies.len(),
        bodies[i].id != bodies[j].id,
        bodies[i].bounds == circle_i.bounds(Some(&bodies[i].transform)),
        bodies[j].bounds == circle_j.bounds(Some(&bodies[j].transform)),
        !bodies[i].is_static() || !bodies[j].is_static(),
        circle_i.manifold(&bodies[i], &circle_j, &bodies[j]).is_some(),
    ensures
        naive_candidates(bodies).contains(ordered_ids(bodies[i].id, bodies[j].id)),
{
    lemma_touching_circles_bounds_meet(circle_i, bodies[i], circle_j, bodies[j]);
    let key = ordered_ids(bodies[i].id, bodies[j].id);
    if bodies[i].id < bodies[j].id {
        assert(scan_hit(bodies, i, j, key));
    } else {
        assert(scan_hit(bodies, j, i, key));
    }
}

/// A candidate of the tree strategy is a candidate of the naive strategy
/// wherever the naive test itself would pass: the two bodies are among
/// `bodies`, their true bounds meet, and they are not both static.
pub proof fn lemma_tree_candidate_within_naive(
    broad_phase: &BoundsTreeBroadPhase,
    bodies: Seq<Body>,
    key: (BodyId, BodyId),
    i: int,
    j: int,
)
    requires
        broad_phase.candidates(bodies).contains(key),
        0 <= i < bodies.len(),
        0 <= j < bodies.len(),
        bodies[i].id == key.0,
        bodies[j].id == key.1,
        bodies[i].bounds.intersects(&bodies[j].bounds),
        !bodies[i].is_static() || !bodies[j].is_static(),
    ensures
        naive_candidates(bodies).contains(key),
{
    let tree = broad_phase.tree();
    let reinserted = broad_phase.reinserted();
    let k = choose|k: int|
        0 <= k < reinserted.len() && #[trigger] pairs_of_body(&tree, bodies, reinserted[k]).contains(
            key,
        );
    let id = reinserted[k];
    let hits = tree.hits(crate::world::body_with_id(bodies, id).bounds);
    let h = choose|h: int|
        0 <= h < hits.len() && #[trigger] tree_pair_at(tree.nodes(), hits, id, h, key);
    assert(tree_pair_at(tree.nodes(), hits, id, h, key));
    assert(key.0 < key.1);
    assert(naive_pair(bodies[i], bodies[j]));
    assert(scan_hit(bodies, i, j, key));
}

/// The tree strategy misses no pair of a reinserted body: a proxy whose
/// fattened bounds hold the true bounds of another body that the reinserted
/// body's true bounds meet is reported with it.
pub proof fn lemma_tree_covers_reinserted(
    broad_phase: &BoundsTreeBroadPhase,
    bodies: Seq<Body>,
    k: int,
    proxy_id: super::ProxyId,
    true_bounds: crate::math::Bounds,
)
    requires
        broad_phase.inv(),
        0 <= k < broad_phase.reinserted().len(),
        broad_phase.has_proxy(proxy_id),
        broad_phase.proxies()[proxy_id].1 != broad_phase.reinserted()[k],
        broad_phase.proxies()[proxy_id].0.contains(&true_bounds),
        crate::world::body_with_id(bodies, broad_phase.reinserted()[k]).bounds.intersects(
            &true_bounds,
        ),
    ensures
        broad_phase.candidates(bodies).contains(
            ordered_ids(broad_phase.proxies()[proxy_id].1, broad_phase.reinserted()[k]),
        ),
{
    let tree = broad_phase.tree();
    let id = broad_phase.reinserted()[k];
    let query = crate::world::body_with_id(bodies, id).bounds;
    super::bounds_tree::laws::lemma_query_sound(&tree, query, proxy_id, true_bounds);
    let hits = tree.hits(query);
    let h = choose|h: int| 0 <= h < hits.len() && hits[h] == proxy_id;
    let key = ordered_ids(broad_phase.proxies()[proxy_id].1, id);
    assert(tree_pair_at(tree.nodes(), hits, id, h, key));
    assert(pairs_of_body(&tree, bodies, broad_phase.reinserted()[k]).contains(key));
}

} // verus!
