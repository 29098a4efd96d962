use physics2d::collision::{Contact, ContactConstraint};
use physics2d::debug::DebugCollision;
use physics2d::math::{Bounds, Vec2};
use physics2d::world::{find_body, BodyPair, ConstraintsMap};
use physics2d::{Body, Transform};

fn body(id: usize) -> Body {
    Body {
        id,
        transform: Transform { position: Vec2::zero() },
        bounds: Bounds::new(Vec2::zero(), Vec2::zero()),
        immovable: false,
    }
}

fn contact(x: i32) -> ContactConstraint {
    ContactConstraint::new(Contact::new(Vec2::new(x, 0), 1, Vec2::new(1000, 0)))
}

#[test]
fn pair_is_the_same_in_either_order() {
    assert_eq!(BodyPair::new(3, 8), BodyPair::new(8, 3));
    assert_eq!(BodyPair::new(0, usize::MAX), BodyPair::new(usize::MAX, 0));
    assert_ne!(BodyPair::new(3, 8), BodyPair::new(3, 9));
}

#[test]
fn pair_keeps_the_lower_id_first() {
    assert_eq!(BodyPair::new(8, 3).ids(), (3, 8));
    assert_eq!(BodyPair::new(3, 8).ids(), (3, 8));
    for a in 0..6usize {
        for b in 0..6usize {
            if a != b {
                let (low, high) = BodyPair::new(a, b).ids();
                assert!(low < high);
                assert_eq!(BodyPair::new(a, b), BodyPair::new(b, a));
            }
        }
    }
}

#[test]
fn body_reports_whether_it_is_static() {
    let mut b = body(1);
    assert!(!b.is_static());
    b.immovable = true;
    assert!(b.is_static());
}

#[test]
fn find_body_returns_the_first_match() {
    let bodies = vec![body(4), body(9), body(4), body(2)];
    assert_eq!(find_body(&bodies, 4), Some(0));
    assert_eq!(find_body(&bodies, 9), Some(1));
    assert_eq!(find_body(&bodies, 2), Some(3));
    assert_eq!(find_body(&bodies, 5), None);
    assert_eq!(find_body(&Vec::new(), 5), None);
}

#[test]
fn new_constraints_map_tracks_nothing() {
    let map: ConstraintsMap<ContactConstraint> = ConstraintsMap::new();
    assert_eq!(map.len(), 0);
    assert!(!map.contains_key(BodyPair::new(1, 2)));
    assert!(map.get(BodyPair::new(1, 2)).is_none());
}

#[test]
fn entry_inserts_an_empty_list_once() {
    let mut map: ConstraintsMap<ContactConstraint> = ConstraintsMap::new();
    assert!(map.entry(BodyPair::new(1, 2)).is_empty());
    assert_eq!(map.len(), 1);
    map.entry(BodyPair::new(2, 1)).push(contact(5));
    assert_eq!(map.len(), 1);
    assert_eq!(map.entry(BodyPair::new(1, 2)).len(), 1);
    assert_eq!(map.get(BodyPair::new(1, 2)).unwrap()[0], contact(5));
    assert!(map.contains_key(BodyPair::new(2, 1)));
}

#[test]
fn entry_leaves_other_pairs_alone() {
    let mut map: ConstraintsMap<ContactConstraint> = ConstraintsMap::new();
    map.entry(BodyPair::new(1, 2)).push(contact(1));
    map.entry(BodyPair::new(3, 4)).push(contact(2));
    map.entry(BodyPair::new(3, 4)).push(contact(3));
    map.entry(BodyPair::new(1, 5));
    assert_eq!(map.len(), 3);
    assert_eq!(map.get(BodyPair::new(1, 2)).unwrap(), &vec![contact(1)]);
    assert_eq!(map.get(BodyPair::new(3, 4)).unwrap(), &vec![contact(2), contact(3)]);
    assert!(map.get(BodyPair::new(1, 5)).unwrap().is_empty());
    assert!(map.get(BodyPair::new(2, 3)).is_none());
}

#[test]
fn pairs_are_kept_in_the_order_they_came() {
    let mut map: ConstraintsMap<ContactConstraint> = ConstraintsMap::new();
    map.entry(BodyPair::new(7, 2));
    map.entry(BodyPair::new(1, 5)).push(contact(9));
    map.entry(BodyPair::new(2, 7));
    assert_eq!(map.len(), 2);
    assert_eq!(map.pair_at(0), BodyPair::new(2, 7));
    assert_eq!(map.pair_at(1), BodyPair::new(1, 5));
    assert!(map.list_at(0).is_empty());
    assert_eq!(map.list_at(1), &vec![contact(9)]);
}

#[test]
fn contacts_flattens_all_lists() {
    let mut map: ConstraintsMap<ContactConstraint> = ConstraintsMap::new();
    assert!(map.contacts().is_empty());
    map.entry(BodyPair::new(1, 2)).push(contact(1));
    map.entry(BodyPair::new(3, 4));
    map.entry(BodyPair::new(5, 6)).push(contact(2));
    map.entry(BodyPair::new(5, 6)).push(contact(3));
    map.entry(BodyPair::new(1, 2)).push(contact(4));
    let seen: Vec<i32> = map.contacts().iter().map(|c| c.position.x).collect();
    assert_eq!(seen, vec![1, 4, 2, 3]);
}

#[test]
fn contact_tangent_is_the_normal_turned() {
    let c = Contact::new(Vec2::new(1, 2), 7, Vec2::new(600, 800));
    assert_eq!(c.position, Vec2::new(1, 2));
    assert_eq!(c.penetration, 7);
    assert_eq!(c.normal, Vec2::new(600, 800));
    assert_eq!(c.tangent, Vec2::new(800, -600));
    assert_eq!(Contact::new(Vec2::zero(), 0, Vec2::new(1000, 0)).tangent, Vec2::new(0, -1000));
    assert_eq!(
        Contact::new(Vec2::zero(), 0, Vec2::new(i32::MIN, 3)).tangent,
        Vec2::new(3, i32::MAX)
    );
    let fresh = ContactConstraint::new(c);
    assert_eq!(fresh.contact, c);
    assert_eq!((fresh.normal_impulse, fresh.tangent_impulse), (0, 0));
}

#[test]
fn remove_forgets_one_pair_and_keeps_the_rest() {
    let mut map: ConstraintsMap<ContactConstraint> = ConstraintsMap::new();
    map.entry(BodyPair::new(1, 2)).push(contact(1));
    map.entry(BodyPair::new(3, 4)).push(contact(2));
    map.entry(BodyPair::new(5, 6)).push(contact(3));
    assert_eq!(map.remove(BodyPair::new(4, 3)), Some(vec![contact(2)]));
    assert_eq!(map.len(), 2);
    assert!(!map.contains_key(BodyPair::new(3, 4)));
    assert_eq!(map.pair_at(0), BodyPair::new(1, 2));
    assert_eq!(map.pair_at(1), BodyPair::new(5, 6));
    assert_eq!(map.get(BodyPair::new(1, 2)).unwrap(), &vec![contact(1)]);
    assert_eq!(map.get(BodyPair::new(5, 6)).unwrap(), &vec![contact(3)]);
    assert_eq!(map.remove(BodyPair::new(3, 4)), None);
    assert_eq!(map.remove(BodyPair::new(7, 8)), None);
    assert_eq!(map.len(), 2);
    assert_eq!(map.remove(BodyPair::new(1, 2)), Some(vec![contact(1)]));
    assert_eq!(map.remove(BodyPair::new(5, 6)), Some(vec![contact(3)]));
    assert_eq!(map.len(), 0);
    assert!(map.entry(BodyPair::new(3, 4)).is_empty());
}

#[test]
fn constraints_lists_every_constraint_in_order() {
    let mut map: ConstraintsMap<u8> = ConstraintsMap::new();
    assert!(map.constraints().is_empty());
    map.entry(BodyPair::new(1, 2)).push(10);
    map.entry(BodyPair::new(3, 4));
    map.entry(BodyPair::new(5, 6)).push(20);
    map.entry(BodyPair::new(1, 2)).push(11);
    map.entry(BodyPair::new(5, 6)).push(21);
    assert_eq!(map.constraints(), vec![&10, &11, &20, &21]);
    map.remove(BodyPair::new(1, 2));
    assert_eq!(map.constraints(), vec![&20, &21]);
}
