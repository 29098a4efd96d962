//! What the collision core knows of the world: bodies, pairs of bodies, and
//! the contact constraints kept for each pair.

pub mod debug;

use crate::math::{Bounds, Vec2};
use vstd::prelude::*;

verus! {

/// The stable identity of a body.
pub type BodyId = usize;

/// Where a body is.
#[derive(Clone, Copy, PartialEq, Eq, Structural, Debug)]
pub struct Transform {
    pub position: Vec2,
}

/// What the collision core reads of a body.
#[derive(Clone, Copy, PartialEq, Eq, Structural, Debug)]
pub struct Body {
    pub id: BodyId,
    pub transform: Transform,
    /// The box around the body's shape, in world space and without margin.
    pub bounds: Bounds,
    /// The body never moves.
    pub immovable: bool,
}

impl Body {
    pub open spec fn spec_is_static(&self) -> bool {
        self.immovable
    }

    #[verifier::when_used_as_spec(spec_is_static)]
    pub fn is_static(&self) -> (b: bool)
        ensures
            b == self.spec_is_static(),
    {
        self.immovable
    }
}

/// The bodies of the world, in the order in which the world keeps them.
pub type Bodies = Vec<Body>;

/// `index` is the first place in `bodies` at which a body has the id `id`.
pub open spec fn is_first_with_id(bodies: Seq<Body>, id: BodyId, index: int) -> bool {
    &&& 0 <= index < bodies.len()
    &&& bodies[index].id == id
    &&& forall|j: int| 0 <= j < index ==> (#[trigger] bodies[j]).id != id
}

/// Some body in `bodies` has the id `id`.
pub open spec fn has_body(bodies: Seq<Body>, id: BodyId) -> bool {
    exists|i: int| 0 <= i < bodies.len() && (#[trigger] bodies[i]).id == id
}

/// The first body in `bodies` with the id `id`.
pub open spec fn body_with_id(bodies: Seq<Body>, id: BodyId) -> Body {
    bodies[choose|index: int| is_first_with_id(bodies, id, index)]
}

/// Looks up a body by id: the place of the first body that has it.
pub fn find_body(bodies: &Bodies, id: BodyId) -> (found: Option<usize>)
    ensures
        match found {
            Some(index) => is_first_with_id(bodies@, id, index as int) && bodies[index as int]
                == body_with_id(bodies@, id),
            None => !has_body(bodies@, id),
        },
{
    let mut i: usize = 0;
    while i < bodies.len()
        invariant
            i <= bodies.len(),
            forall|j: int| 0 <= j < i ==> (#[trigger] bodies[j]).id != id,
        decreases bodies.len() - i,
    {
        if bodies[i].id == id {
            proof {
                let chosen = choose|index: int| is_first_with_id(bodies@, id, index);
                assert(is_first_with_id(bodies@, id, i as int));
                assert(chosen == i) by {
                    if chosen < i {
                        assert(bodies[chosen].id != id);
                    } else if chosen > i {
                        assert(bodies[i as int].id != id);
                    }
                }
            }
            return Some(i);
        }
        i += 1;
    }
    None
}

/// An unordered pair of two different bodies, the lower id first.
#[derive(Clone, Copy, PartialEq, Eq, Structural, Hash, Debug)]
pub struct BodyPair(BodyId, BodyId);

/// The two ids in ascending order.
pub open spec fn ordered_ids(a: BodyId, b: BodyId) -> (BodyId, BodyId) {
    if a <= b {
        (a, b)
    } else {
        (b, a)
    }
}

impl BodyPair {
    #[verifier::type_invariant]
    spec fn lower_first(self) -> bool {
        self.0 < self.1
    }

    /// The two ids, the lower first.
    pub closed spec fn view(&self) -> (BodyId, BodyId) {
        (self.0, self.1)
    }

    /// The pair of `a` and `b`, whichever comes first.
    pub fn new(a: BodyId, b: BodyId) -> (pair: BodyPair)
        requires
            a != b,
        ensures
            pair@ == ordered_ids(a, b),
    {
        if a < b {
            BodyPair(a, b)
        } else {
            BodyPair(b, a)
        }
    }

    /// The two ids, the lower first.
    pub fn ids(&self) -> (ids: (BodyId, BodyId))
        ensures
            ids == self@,
            ids.0 < ids.1,
    {
        proof {
            use_type_invariant(self);
        }
        (self.0, self.1)
    }

    /// Two pairs with the same ids are the same pair.
    pub proof fn lemma_view_injective(a: BodyPair, b: BodyPair)
        requires
            a@ == b@,
        ensures
            a == b,
    {
    }
}

/// The order in which two ids are given does not matter to the pair they
/// make, and the first id of a pair is below its second.
pub proof fn lemma_pair_canonical(a: BodyId, b: BodyId, ab: BodyPair, ba: BodyPair)
    requires
        a != b,
        ab@ == ordered_ids(a, b),
        ba@ == ordered_ids(b, a),
    ensures
        ab == ba,
        ab@.0 < ab@.1,
{
    BodyPair::lemma_view_injective(ab, ba);
}

/// The constraints of the first `count` pairs of `map`, pair after pair.
pub open spec fn constraints_upto<C>(map: &ConstraintsMap<C>, count: int) -> Seq<C>
    decreases count,
{
    if count <= 0 {
        Seq::empty()
    } else {
        constraints_upto(map, count - 1) + map@[map.keys()[count - 1]]@
    }
}

/// The contact constraints of the world, one list for each pair of bodies
/// that is being tracked.
pub struct ConstraintsMap<C> {
    pairs: Vec<BodyPair>,
    lists: Vec<Vec<C>>,
}

impl<C> ConstraintsMap<C> {
    /// The tracked pairs in the order in which they came.
    pub closed spec fn keys(&self) -> Seq<(BodyId, BodyId)> {
        Seq::new(self.pairs.len() as nat, |i: int| self.pairs[i]@)
    }

    /// No pair is tracked twice.
    pub closed spec fn wf(&self) -> bool {
        &&& self.pairs.len() == self.lists.len()
        &&& self.keys().no_duplicates()
    }

    /// The list of each tracked pair.
    pub closed spec fn view(&self) -> Map<(BodyId, BodyId), Vec<C>> {
        Map::new(
            |key: (BodyId, BodyId)| self.keys().contains(key),
            |key: (BodyId, BodyId)| self.lists[self.keys().index_of(key)],
        )
    }

    /// The tracked pairs are the keys, and the list at the place of a key is
    /// the one the view gives for it.
    pub proof fn lemma_keys(&self)
        requires
            self.wf(),
        ensures
            forall|key: (BodyId, BodyId)| self@.contains_key(key) <==> self.keys().contains(key),
            forall|i: int|
                0 <= i < self.keys().len() ==> self@.contains_key(#[trigger] self.keys()[i]),
    {
    }

    proof fn lemma_index(&self, i: int)
        requires
            self.wf(),
            0 <= i < self.pairs.len(),
        ensures
            self.keys()[i] == self.pairs[i]@,
            self@.contains_key(self.keys()[i]),
            self@[self.keys()[i]] == self.lists[i],
    {
        let key = self.keys()[i];
        assert(self.keys().contains(key));
        let j = self.keys().index_of(key);
        assert(self.keys()[j] == key);
        assert(j == i);
    }

    pub fn new() -> (map: ConstraintsMap<C>)
        ensures
            map.wf(),
            map@ == Map::<(BodyId, BodyId), Vec<C>>::empty(),
            map.keys() == Seq::<(BodyId, BodyId)>::empty(),
    {
        let map = ConstraintsMap { pairs: Vec::new(), lists: Vec::new() };
        assert(map.keys() =~= Seq::<(BodyId, BodyId)>::empty());
        assert(map@ =~= Map::<(BodyId, BodyId), Vec<C>>::empty());
        map
    }

    /// Number of tracked pairs.
    pub fn len(&self) -> (n: usize)
        requires
            self.wf(),
        ensures
            n == self.keys().len(),
    {
        self.pairs.len()
    }

    /// The pair at place `index`.
    pub fn pair_at(&self, index: usize) -> (pair: BodyPair)
        requires
            self.wf(),
            index < self.keys().len(),
        ensures
            pair@ == self.keys()[index as int],
    {
        self.pairs[index]
    }

    /// The list of the pair at place `index`.
    pub fn list_at(&self, index: usize) -> (list: &Vec<C>)
        requires
            self.wf(),
            index < self.keys().len(),
        ensures
            *list == self@[self.keys()[index as int]],
    {
        proof {
            self.lemma_index(index as int);
        }
        &self.lists[index]
    }

    fn position(&self, pair: BodyPair) -> (found: Option<usize>)
        requires
            self.wf(),
        ensures
            match found {
                Some(index) => index < self.pairs.len() && self.keys()[index as int] == pair@,
                None => !self.keys().contains(pair@),
            },
    {
        let mut i: usize = 0;
        while i < self.pairs.len()
            invariant
                i <= self.pairs.len(),
                forall|j: int| 0 <= j < i ==> self.keys()[j] != pair@,
            decreases self.pairs.len() - i,
        {
            if self.pairs[i] == pair {
                return Some(i);
            }
            proof {
                if self.pairs[i as int]@ == pair@ {
                    BodyPair::lemma_view_injective(self.pairs[i as int], pair);
                }
            }
            i += 1;
        }
        None
    }

    /// Whether `pair` is tracked.
    pub fn contains_key(&self, pair: BodyPair) -> (b: bool)
        requires
            self.wf(),
        ensures
            b == self@.contains_key(pair@),
    {
        self.position(pair).is_some()
    }

    /// The list of `pair`, if it is tracked.
    pub fn get(&self, pair: BodyPair) -> (list: Option<&Vec<C>>)
        requires
            self.wf(),
        ensures
            match list {
                Some(list) => self@.contains_key(pair@) && *list == self@[pair@],
                None => !self@.contains_key(pair@),
            },
    {
        match self.position(pair) {
            Some(index) => {
                proof {
                    self.lemma_index(index as int);
                }
                Some(&self.lists[index])
            },
            None => None,
        }
    }

    /// The list of `pair`: the one it has, or a new empty one if the pair was
    /// not tracked. Every other pair keeps its list.
    pub fn entry(&mut self, pair: BodyPair) -> (list: &mut Vec<C>)
        requires
            old(self).wf(),
        ensures
            final(self).wf(),
            old(self)@.contains_key(pair@) ==> *list == old(self)@[pair@],
            !old(self)@.contains_key(pair@) ==> list@ == Seq::<C>::empty(),
            final(self)@ == old(self)@.insert(pair@, *final(list)),
            final(self).keys() == (if old(self)@.contains_key(pair@) {
                old(self).keys()
            } else {
                old(self).keys().push(pair@)
            }),
    {
        let ghost before = *self;
        let index = match self.position(pair) {
            Some(index) => index,
            None => {
                self.pairs.push(pair);
                self.lists.push(Vec::new());
                self.pairs.len() - 1
            },
        };
        let ghost grown = *self;
        proof {
            assert(grown.keys() =~= (if before.keys().contains(pair@) {
                before.keys()
            } else {
                before.keys().push(pair@)
            }));
            assert(grown.wf());
            grown.lemma_index(index as int);
            assert(grown.keys()[index as int] == pair@);
            assert forall|key: (BodyId, BodyId)| before@.contains_key(key) implies grown@.contains_key(
                key,
            ) && grown@[key] == before@[key] by {
                let j = before.keys().index_of(key);
                before.lemma_index(j);
                grown.lemma_index(j);
            }
            assert forall|key: (BodyId, BodyId)| grown@.contains_key(key) && key != pair@ implies before@.contains_key(
                key,
            ) by {
                let j = grown.keys().index_of(key);
                assert(grown.keys()[j] == key);
                assert(j != index);
                assert(before.keys()[j] == key);
            }
        }
        let list = &mut self.lists[index];
        proof {
            let after = ConstraintsMap { pairs: self.pairs, lists: after_borrow(self.lists) };
            let target = before@.insert(pair@, *final(list));
            assert(after.keys() =~= grown.keys());
            assert(after.wf());
            assert forall|key: (BodyId, BodyId)| after@.contains_key(key) == target.contains_key(
                key,
            ) by {
                assert(after@.contains_key(key) == grown@.contains_key(key));
                if key == pair@ {
                    assert(grown.keys().contains(key));
                } else if before@.contains_key(key) {
                    let j = before.keys().index_of(key);
                    assert(before.keys()[j] == key);
                    assert(grown.keys()[j] == key);
                } else if grown@.contains_key(key) {
                    let j = grown.keys().index_of(key);
                    assert(grown.keys()[j] == key);
                    assert(j != index);
                    assert(before.keys()[j] == key);
                }
            }
            assert forall|key: (BodyId, BodyId)| after@.contains_key(key) implies after@[key]
                == target[key] by {
                let j = after.keys().index_of(key);
                assert(after.keys()[j] == key);
                after.lemma_index(j);
                grown.lemma_index(j);
                if key != pair@ {
                    assert(j != index);
                    assert(grown@.contains_key(key));
                    assert(before@.contains_key(key));
                } else {
                    assert(j == index);
                }
            }
            assert(after@ =~= target);
        }
        list
    }

    /// Stops tracking `pair` and hands back its list, if it was tracked. Every
    /// other pair keeps its list and its place among the rest.
    pub fn remove(&mut self, pair: BodyPair) -> (removed: Option<Vec<C>>)
        requires
            old(self).wf(),
        ensures
            final(self).wf(),
            final(self)@ == old(self)@.remove(pair@),
            match removed {
                Some(list) => old(self)@.contains_key(pair@) && list == old(self)@[pair@],
                None => !old(self)@.contains_key(pair@),
            },
            final(self).keys() == (if old(self)@.contains_key(pair@) {
                old(self).keys().remove(old(self).keys().index_of(pair@))
            } else {
                old(self).keys()
            }),
    {
        let ghost before = *self;
        match self.position(pair) {
            Some(index) => {
                proof {
                    before.lemma_index(index as int);
                    let at = before.keys().index_of(pair@);
                    assert(before.keys()[at] == pair@);
                    assert(at == index);
                }
                let _ = self.pairs.remove(index);
                let list = self.lists.remove(index);
                proof {
                    let after = *self;
                    let target = before@.remove(pair@);
                    assert(after.keys() =~= before.keys().remove(index as int));
                    assert forall|i: int| 0 <= i < after.keys().len() implies after.keys()[i]
                        == before.keys()[if i < index { i } else { i + 1 }] && after.lists[i]
                        == before.lists[if i < index { i } else { i + 1 }] by {}
                    assert forall|i: int, j: int|
                        0 <= i < after.keys().len() && 0 <= j < after.keys().len() && i != j implies after.keys()[i]
                        != after.keys()[j] by {
                        let i0 = if i < index { i } else { i + 1 };
                        let j0 = if j < index { j } else { j + 1 };
                        assert(after.keys()[i] == before.keys()[i0]);
                        assert(after.keys()[j] == before.keys()[j0]);
                    }
                    assert(after.wf());
                    assert forall|key: (BodyId, BodyId)| after@.contains_key(key) == target.contains_key(
                        key,
                    ) by {
                        if after@.contains_key(key) {
                            let i = after.keys().index_of(key);
                            assert(after.keys()[i] == key);
                            let i0 = if i < index { i } else { i + 1 };
                            assert(before.keys()[i0] == key);
                        }
                        if target.contains_key(key) {
                            let j = before.keys().index_of(key);
                            assert(before.keys()[j] == key);
                            assert(j != index);
                            let j1 = if j < index { j } else { j - 1 };
                            assert(after.keys()[j1] == key);
                        }
                    }
                    assert forall|key: (BodyId, BodyId)| after@.contains_key(key) implies after@[key]
                        == target[key] by {
                        let i = after.keys().index_of(key);
                        assert(after.keys()[i] == key);
                        let i0 = if i < index { i } else { i + 1 };
                        assert(before.keys()[i0] == key);
                        after.lemma_index(i);
                        before.lemma_index(i0);
                    }
                    assert(after@ =~= target);
                }
                Some(list)
            },
            None => {
                proof {
                    assert(before@.remove(pair@) =~= before@);
                }
                None
            },
        }
    }

    /// Every constraint of every tracked pair, pair after pair.
    pub open spec fn all_constraints(&self) -> Seq<C> {
        constraints_upto(self, self.keys().len() as int)
    }

    /// Every constraint of every tracked pair, pair after pair.
    pub fn constraints(&self) -> (all: Vec<&C>)
        requires
            self.wf(),
        ensures
            all.len() == self.all_constraints().len(),
            forall|i: int| 0 <= i < all.len() ==> *(#[trigger] all[i]) == self.all_constraints()[i],
    {
        let mut all: Vec<&C> = Vec::new();
        let count = self.len();
        let mut i: usize = 0;
        while i < count
            invariant
                self.wf(),
                count == self.keys().len(),
                i <= count,
                all.len() == constraints_upto(self, i as int).len(),
                forall|k: int|
                    0 <= k < all.len() ==> *(#[trigger] all[k]) == constraints_upto(self, i as int)[k],
            decreases count - i,
        {
            let list = self.list_at(i);
            let ghost done = constraints_upto(self, i as int);
            let mut j: usize = 0;
            while j < list.len()
                invariant
                    j <= list.len(),
                    all.len() == done.len() + j,
                    forall|k: int| 0 <= k < done.len() ==> *(#[trigger] all[k]) == done[k],
                    forall|k: int|
                        done.len() <= k < all.len() ==> *(#[trigger] all[k]) == list@[k - done.len()],
                decreases list.len() - j,
            {
                all.push(&list[j]);
                j += 1;
            }
            i += 1;
        }
        all
    }
}

} // verus!
