use physics2d::collision::broad_phase::bounds_tree::MARGIN;
use physics2d::collision::broad_phase::{BoundsTreeBroadPhase, BroadPhase, NaiveBroadPhase};
use physics2d::collision::{Collide, Contact, ContactConstraint};
use physics2d::math::{Bounds, Vec2};
use physics2d::shapes::Circle;
use physics2d::world::{BodyPair, ConstraintsMap};
use physics2d::{Body, Transform};

fn boxed(id: usize, x: i32, y: i32, side: i32, immovable: bool) -> Body {
    Body {
        id,
        transform: Transform { position: Vec2::new(x, y) },
        bounds: Bounds::new(Vec2::new(x, y), Vec2::new(x + side, y + side)),
        immovable,
    }
}

fn pairs_in(map: &ConstraintsMap<ContactConstraint>) -> Vec<(usize, usize)> {
    let mut pairs: Vec<(usize, usize)> = (0..map.len()).map(|i| map.pair_at(i).ids()).collect();
    pairs.sort();
    pairs
}

fn some_constraint() -> ContactConstraint {
    ContactConstraint::new(Contact::new(Vec2::zero(), 3, Vec2::new(1000, 0)))
}

#[test]
fn margin_is_a_twentieth_of_a_unit() {
    assert_eq!(MARGIN, 50);
}

#[test]
fn naive_reports_pairs_whose_bounds_meet() {
    let bodies = vec![
        boxed(1, 0, 0, 100, false),
        boxed(2, 50, 50, 100, false),
        boxed(3, 500, 500, 100, false),
        boxed(4, 140, 140, 100, false),
    ];
    let mut constraints = ConstraintsMap::new();
    NaiveBroadPhase.new_potential_pairs(&bodies, &mut constraints);
    assert_eq!(pairs_in(&constraints), vec![(1, 2), (2, 4)]);
    assert!(constraints.get(BodyPair::new(1, 2)).unwrap().is_empty());
}

#[test]
fn naive_skips_pairs_of_static_bodies() {
    let bodies = vec![
        boxed(1, 0, 0, 100, true),
        boxed(2, 50, 50, 100, true),
        boxed(3, 60, 60, 100, false),
    ];
    let mut constraints: ConstraintsMap<ContactConstraint> = ConstraintsMap::new();
    NaiveBroadPhase.new_potential_pairs(&bodies, &mut constraints);
    assert_eq!(pairs_in(&constraints), vec![(1, 3), (2, 3)]);
}

#[test]
fn naive_orders_each_pair_by_id() {
    let bodies = vec![boxed(9, 0, 0, 100, false), boxed(4, 50, 50, 100, false)];
    let mut constraints: ConstraintsMap<ContactConstraint> = ConstraintsMap::new();
    NaiveBroadPhase.new_potential_pairs(&bodies, &mut constraints);
    assert_eq!(pairs_in(&constraints), vec![(4, 9)]);
}

#[test]
fn naive_counts_touching_bounds() {
    let bodies = vec![boxed(1, 0, 0, 100, false), boxed(2, 100, 100, 100, false)];
    let mut constraints: ConstraintsMap<ContactConstraint> = ConstraintsMap::new();
    NaiveBroadPhase.new_potential_pairs(&bodies, &mut constraints);
    assert_eq!(pairs_in(&constraints), vec![(1, 2)]);
    let apart = vec![boxed(1, 0, 0, 100, false), boxed(2, 101, 0, 100, false)];
    let mut none: ConstraintsMap<ContactConstraint> = ConstraintsMap::new();
    NaiveBroadPhase.new_potential_pairs(&apart, &mut none);
    assert_eq!(none.len(), 0);
}

#[test]
fn naive_keeps_what_is_tracked_already() {
    let bodies = vec![boxed(1, 0, 0, 100, false), boxed(2, 50, 50, 100, false)];
    let mut constraints = ConstraintsMap::new();
    constraints.entry(BodyPair::new(1, 2)).push(some_constraint());
    constraints.entry(BodyPair::new(7, 8)).push(some_constraint());
    NaiveBroadPhase.new_potential_pairs(&bodies, &mut constraints);
    NaiveBroadPhase.new_potential_pairs(&bodies, &mut constraints);
    assert_eq!(pairs_in(&constraints), vec![(1, 2), (7, 8)]);
    assert_eq!(constraints.get(BodyPair::new(1, 2)).unwrap(), &vec![some_constraint()]);
    assert_eq!(constraints.get(BodyPair::new(7, 8)).unwrap(), &vec![some_constraint()]);
}

#[test]
fn naive_proxies_are_trivial() {
    let mut naive = NaiveBroadPhase;
    let body = boxed(1, 0, 0, 100, false);
    assert_eq!(naive.create_proxy(&body), 0);
    assert_eq!(naive.create_proxy(&boxed(2, 5, 5, 10, false)), 0);
    naive.update_proxy(0, &body);
    naive.destroy_proxy(0);
    let mut constraints: ConstraintsMap<ContactConstraint> = ConstraintsMap::new();
    naive.clone().new_potential_pairs(&Vec::new(), &mut constraints);
    assert_eq!(constraints.len(), 0);
}

#[test]
fn proxy_bounds_are_fattened_by_the_margin() {
    let mut broad_phase = BoundsTreeBroadPhase::new();
    assert!(broad_phase.has_room());
    let proxy = broad_phase.create_proxy(&boxed(1, 0, 0, 1000, false));
    assert!(broad_phase.contains_proxy(proxy));
    assert!(!broad_phase.contains_proxy(proxy + 1));
    assert_eq!(
        broad_phase.proxy_bounds(proxy),
        Bounds::new(Vec2::new(-50, -50), Vec2::new(1050, 1050))
    );
    assert!(broad_phase.reinserted_bodies().is_empty());
}

#[test]
fn update_within_the_fattened_bounds_does_nothing() {
    let mut broad_phase = BoundsTreeBroadPhase::new();
    let other = broad_phase.create_proxy(&boxed(2, 5000, 0, 1000, false));
    let proxy = broad_phase.create_proxy(&boxed(1, 0, 0, 1000, false));
    let fat = broad_phase.proxy_bounds(proxy);
    for (x, y) in [(30, -20), (50, 50), (-50, -50), (0, 0), (-50, 50)] {
        broad_phase.update_proxy(proxy, &boxed(1, x, y, 1000, false));
        assert!(broad_phase.reinserted_bodies().is_empty());
        assert!(broad_phase.contains_proxy(proxy));
        assert_eq!(broad_phase.proxy_bounds(proxy), fat);
    }
    assert_eq!(
        broad_phase.proxy_bounds(other),
        Bounds::new(Vec2::new(4950, -50), Vec2::new(6050, 1050))
    );
}

#[test]
fn update_beyond_the_fattened_bounds_reinserts_once() {
    let mut broad_phase = BoundsTreeBroadPhase::new();
    let other = broad_phase.create_proxy(&boxed(2, 5000, 0, 1000, false));
    let proxy = broad_phase.create_proxy(&boxed(1, 0, 0, 1000, false));
    let third = broad_phase.create_proxy(&boxed(3, 0, 5000, 1000, false));
    broad_phase.update_proxy(proxy, &boxed(1, 51, 0, 1000, false));
    assert_eq!(broad_phase.reinserted_bodies(), &vec![1]);
    assert!(broad_phase.contains_proxy(proxy));
    assert_eq!(
        broad_phase.proxy_bounds(proxy),
        Bounds::new(Vec2::new(1, -50), Vec2::new(1101, 1050))
    );
    assert!(broad_phase.contains_proxy(other));
    assert!(broad_phase.contains_proxy(third));
    // Now inside the new fattened bounds again.
    broad_phase.update_proxy(proxy, &boxed(1, 60, 10, 1000, false));
    assert_eq!(broad_phase.reinserted_bodies(), &vec![1]);
    broad_phase.update_proxy(other, &boxed(2, 5000, 200, 1000, false));
    assert_eq!(broad_phase.reinserted_bodies(), &vec![1, 2]);
    broad_phase.post_update();
    assert!(broad_phase.reinserted_bodies().is_empty());
    assert!(broad_phase.contains_proxy(proxy));
}

#[test]
fn update_of_the_only_proxy_keeps_its_id() {
    let mut broad_phase = BoundsTreeBroadPhase::new();
    let proxy = broad_phase.create_proxy(&boxed(1, 0, 0, 1000, false));
    broad_phase.update_proxy(proxy, &boxed(1, 2000, 0, 1000, false));
    assert!(broad_phase.contains_proxy(proxy));
    assert_eq!(broad_phase.reinserted_bodies(), &vec![1]);
    assert_eq!(
        broad_phase.proxy_bounds(proxy),
        Bounds::new(Vec2::new(1950, -50), Vec2::new(3050, 1050))
    );
}

#[test]
fn destroyed_proxy_is_gone() {
    let mut broad_phase = BoundsTreeBroadPhase::new();
    let a = broad_phase.create_proxy(&boxed(1, 0, 0, 1000, false));
    let b = broad_phase.create_proxy(&boxed(2, 500, 0, 1000, false));
    broad_phase.destroy_proxy(a);
    assert!(!broad_phase.contains_proxy(a));
    assert!(broad_phase.contains_proxy(b));
    broad_phase.destroy_proxy(b);
    assert!(!broad_phase.contains_proxy(b));
    assert!(broad_phase.reinserted_bodies().is_empty());
}

#[test]
fn tree_reports_pairs_of_reinserted_bodies_only() {
    let mut bodies = vec![
        boxed(1, 0, 0, 1000, false),
        boxed(2, 500, 0, 1000, false),
        boxed(3, 9000, 9000, 1000, false),
    ];
    let mut broad_phase = BoundsTreeBroadPhase::new();
    let proxies: Vec<usize> = bodies.iter().map(|b| broad_phase.create_proxy(b)).collect();
    let mut constraints: ConstraintsMap<ContactConstraint> = ConstraintsMap::new();
    broad_phase.new_potential_pairs(&bodies, &mut constraints);
    assert_eq!(constraints.len(), 0);

    bodies[2] = boxed(3, 1400, 0, 1000, false);
    broad_phase.update_proxy(proxies[2], &bodies[2]);
    broad_phase.new_potential_pairs(&bodies, &mut constraints);
    // Body 3 now meets body 2, and not body 1, whose fattened bounds end at 1050.
    assert_eq!(pairs_in(&constraints), vec![(2, 3)]);
    assert!(constraints.get(BodyPair::new(2, 3)).unwrap().is_empty());

    broad_phase.post_update();
    let mut later: ConstraintsMap<ContactConstraint> = ConstraintsMap::new();
    broad_phase.new_potential_pairs(&bodies, &mut later);
    assert_eq!(later.len(), 0);
}

#[test]
fn tree_reports_what_the_fattened_bounds_meet() {
    let mut bodies = vec![boxed(1, 0, 0, 1000, false), boxed(2, 5000, 0, 1000, false)];
    let mut broad_phase = BoundsTreeBroadPhase::new();
    let proxies: Vec<usize> = bodies.iter().map(|b| broad_phase.create_proxy(b)).collect();
    // True bounds 30 apart, within the margin of body 1's proxy.
    bodies[1] = boxed(2, 1030, 0, 1000, false);
    broad_phase.update_proxy(proxies[1], &bodies[1]);
    let mut constraints: ConstraintsMap<ContactConstraint> = ConstraintsMap::new();
    broad_phase.new_potential_pairs(&bodies, &mut constraints);
    assert_eq!(pairs_in(&constraints), vec![(1, 2)]);
    let mut naive: ConstraintsMap<ContactConstraint> = ConstraintsMap::new();
    NaiveBroadPhase.new_potential_pairs(&bodies, &mut naive);
    assert_eq!(naive.len(), 0);
}

#[test]
fn tree_keeps_what_is_tracked_already() {
    let mut bodies = vec![boxed(1, 0, 0, 1000, false), boxed(2, 5000, 0, 1000, false)];
    let mut broad_phase = BoundsTreeBroadPhase::new();
    let proxies: Vec<usize> = bodies.iter().map(|b| broad_phase.create_proxy(b)).collect();
    bodies[1] = boxed(2, 500, 0, 1000, false);
    broad_phase.update_proxy(proxies[1], &bodies[1]);
    let mut constraints = ConstraintsMap::new();
    constraints.entry(BodyPair::new(2, 1)).push(some_constraint());
    broad_phase.new_potential_pairs(&bodies, &mut constraints);
    assert_eq!(pairs_in(&constraints), vec![(1, 2)]);
    assert_eq!(constraints.get(BodyPair::new(1, 2)).unwrap(), &vec![some_constraint()]);
}

struct Scene {
    circles: Vec<Circle>,
    bodies: Vec<Body>,
}

fn scene(seed: u32, count: usize) -> Scene {
    let mut state = seed;
    let mut next = move |modulus: u32| {
        state = state.wrapping_mul(1_103_515_245).wrapping_add(12345);
        (state >> 8) % modulus
    };
    let mut circles = Vec::new();
    let mut bodies = Vec::new();
    for id in 0..count {
        let circle = Circle::new(100 + next(400));
        let transform =
            Transform { position: Vec2::new(next(6000) as i32, next(6000) as i32) };
        bodies.push(Body {
            id,
            transform,
            bounds: circle.bounds(Some(&transform)),
            immovable: next(4) == 0,
        });
        circles.push(circle);
    }
    Scene { circles, bodies }
}

#[test]
fn naive_candidates_cover_confirmed_contacts() {
    for seed in 1..6 {
        let Scene { circles, bodies } = scene(seed, 40);
        let mut constraints: ConstraintsMap<ContactConstraint> = ConstraintsMap::new();
        NaiveBroadPhase.new_potential_pairs(&bodies, &mut constraints);
        let mut confirmed = 0;
        for i in 0..bodies.len() {
            for j in 0..bodies.len() {
                if i == j || (bodies[i].is_static() && bodies[j].is_static()) {
                    continue;
                }
                if circles[i].collide(&bodies[i], &circles[j], &bodies[j]).is_some() {
                    confirmed += 1;
                    assert!(constraints.contains_key(BodyPair::new(bodies[i].id, bodies[j].id)));
                }
            }
        }
        assert!(confirmed > 0);
    }
}

#[test]
fn tree_candidates_agree_with_naive_ones_for_moved_bodies() {
    for seed in 1..6 {
        let Scene { circles, mut bodies } = scene(seed, 40);
        let mut broad_phase = BoundsTreeBroadPhase::new();
        let proxies: Vec<usize> = bodies.iter().map(|b| broad_phase.create_proxy(b)).collect();
        broad_phase.post_update();
        // Every third body jumps.
        let mut moved = Vec::new();
        for i in (0..bodies.len()).step_by(3) {
            let p = bodies[i].transform.position;
            bodies[i].transform.position = Vec2::new(p.y, p.x + 700);
            bodies[i].bounds = circles[i].bounds(Some(&bodies[i].transform));
            moved.push(bodies[i].id);
        }
        for i in 0..bodies.len() {
            broad_phase.update_proxy(proxies[i], &bodies[i]);
            assert!(broad_phase.proxy_bounds(proxies[i]).contains(&bodies[i].bounds));
        }
        let mut from_tree: ConstraintsMap<ContactConstraint> = ConstraintsMap::new();
        broad_phase.new_potential_pairs(&bodies, &mut from_tree);
        let mut from_naive: ConstraintsMap<ContactConstraint> = ConstraintsMap::new();
        NaiveBroadPhase.new_potential_pairs(&bodies, &mut from_naive);
        // What the naive strategy finds for a reinserted body, the tree finds too.
        let reinserted = broad_phase.reinserted_bodies().clone();
        assert!(!reinserted.is_empty());
        for (a, b) in pairs_in(&from_naive) {
            if reinserted.contains(&a) || reinserted.contains(&b) {
                assert!(from_tree.contains_key(BodyPair::new(a, b)));
            }
        }
        // What the tree finds and the naive test would accept, the naive strategy finds.
        for (a, b) in pairs_in(&from_tree) {
            assert!(reinserted.contains(&a) || reinserted.contains(&b));
            let (body_a, body_b) = (&bodies[a], &bodies[b]);
            if body_a.bounds.intersects(&body_b.bounds)
                && !(body_a.is_static() && body_b.is_static())
            {
                assert!(from_naive.contains_key(BodyPair::new(a, b)));
            }
        }
    }
}

#[test]
fn a_fresh_broad_phase_has_room() {
    let mut broad_phase = BoundsTreeBroadPhase::new();
    assert!(broad_phase.has_room());
    let proxy = broad_phase.create_proxy(&boxed(1, 0, 0, 10, false));
    assert_eq!(proxy, 0);
    assert!(broad_phase.has_room());
    assert!(NaiveBroadPhase.has_room());
    assert!(NaiveBroadPhase.contains_proxy(0));
    assert!(NaiveBroadPhase.contains_proxy(17));
}

fn churn<B: BroadPhase>(broad_phase: &mut B) -> Vec<usize> {
    let mut proxies = Vec::new();
    for id in 0..8 {
        assert!(broad_phase.has_room());
        proxies.push(broad_phase.create_proxy(&boxed(id, (id as i32) * 300, 0, 200, false)));
        for &earlier in &proxies {
            assert!(broad_phase.contains_proxy(earlier));
        }
    }
    for (id, &proxy) in proxies.iter().enumerate() {
        broad_phase.update_proxy(proxy, &boxed(id, (id as i32) * 300, 900, 200, false));
        for &other in &proxies {
            assert!(broad_phase.contains_proxy(other));
        }
    }
    let kept = proxies.split_off(3);
    for &proxy in &proxies {
        broad_phase.destroy_proxy(proxy);
        for &other in &kept {
            assert!(broad_phase.contains_proxy(other));
        }
    }
    kept
}

#[test]
fn other_proxies_stay_through_every_call() {
    let mut tree = BoundsTreeBroadPhase::new();
    let kept = churn(&mut tree);
    assert_eq!(kept.len(), 5);
    for id in 3..8 {
        assert_eq!(
            tree.proxy_bounds(kept[id - 3]),
            Bounds::new(
                Vec2::new((id as i32) * 300 - 50, 850),
                Vec2::new((id as i32) * 300 + 250, 1150)
            )
        );
    }
    let mut naive = NaiveBroadPhase;
    assert_eq!(churn(&mut naive), vec![0; 5]);
}
