use crate::city::{City, CityView};
use std::collections::HashSet;
use vstd::prelude::*;

verus! {

broadcast use vstd::std_specs::hash::group_hash_axioms;

/// The abstract state of a pairing between two cities: the cities, the
/// partner of each member of the first (`forward`) and of the second
/// (`backward`).
pub struct LinksView {
    pub city_a: CityView,
    pub city_b: CityView,
    pub forward: Seq<Option<usize>>,
    pub backward: Seq<Option<usize>>,
}

impl LinksView {
    /// The pairing is a partial bijection between the two populations:
    /// `forward[a] == Some(b)` exactly when `backward[b] == Some(a)`.
    pub open spec fn consistent(self, size: int) -> bool {
        &&& self.forward.len() == size
        &&& self.backward.len() == size
        &&& forall|a: int, b: int|
            0 <= a < size && 0 <= b < size ==> (#[trigger] self.forward[a] == Some(b as usize)
                <==> #[trigger] self.backward[b] == Some(a as usize))
        &&& forall|a: int|
            0 <= a < size && #[trigger] self.forward[a] is Some ==> a < self.city_a.population
                && self.forward[a]->0 < self.city_b.population
        &&& forall|b: int|
            0 <= b < size && #[trigger] self.backward[b] is Some ==> b < self.city_b.population
                && self.backward[b]->0 < self.city_a.population
    }

    /// The state with `a` paired to `b`.
    pub open spec fn link(self, a: usize, b: usize) -> LinksView {
        LinksView {
            forward: self.forward.update(a as int, Some(b)),
            backward: self.backward.update(b as int, Some(a)),
            ..self
        }
    }

    /// The state with the pair `a`, `b` taken apart.
    pub open spec fn unlink(self, a: usize, b: usize) -> LinksView {
        LinksView {
            forward: self.forward.update(a as int, None),
            backward: self.backward.update(b as int, None),
            ..self
        }
    }

    /// Pairing `a` with `b` keeps friendship both ways: for every member `f`
    /// already paired to some `l`, `f` is a friend of `a` exactly when `l` is
    /// a friend of `b`.
    pub open spec fn compatible(self, a: usize, b: usize) -> bool {
        forall|f: int|
            0 <= f < self.forward.len() && f != a && #[trigger] self.forward[f] is Some ==> (
            self.city_a.is_friend(a as int, f) <==> self.city_b.is_friend(
                b as int,
                self.forward[f]->0 as int,
            ))
    }
}

/// Two cities and a pairing between their members.
pub struct Links<const SIZE: usize> {
    city_a: City<SIZE>,
    city_b: City<SIZE>,
    matrix: [[Option<usize>; SIZE]; 2],
}

impl<const SIZE: usize> View for Links<SIZE> {
    type V = LinksView;

    closed spec fn view(&self) -> LinksView {
        LinksView {
            city_a: self.city_a@,
            city_b: self.city_b@,
            forward: self.matrix[0]@,
            backward: self.matrix[1]@,
        }
    }
}

impl<const SIZE: usize> Links<SIZE> {
    /// Both cities are well formed and the pairing is consistent.
    pub open spec fn wf(&self) -> bool {
        &&& self@.city_a.wf(SIZE as int)
        &&& self@.city_b.wf(SIZE as int)
        &&& self@.consistent(SIZE as int)
    }

    /// Well formed, with the friend sets of both cities computed.
    pub open spec fn ready(&self) -> bool {
        &&& self.wf()
        &&& self@.city_a.precalculated(SIZE as int)
        &&& self@.city_b.precalculated(SIZE as int)
    }

    /// Two cities with nobody paired.
    pub fn new(city_a: City<SIZE>, city_b: City<SIZE>) -> (r: Links<SIZE>)
        requires
            city_a.wf(),
            city_b.wf(),
        ensures
            r.wf(),
            r@.city_a == city_a@,
            r@.city_b == city_b@,
            r@.forward == Seq::new(SIZE as nat, |i: int| None::<usize>),
            r@.backward == Seq::new(SIZE as nat, |i: int| None::<usize>),
    {
        let row: [Option<usize>; SIZE] = vstd::array::array_fill_for_copy_types(None);
        let r = Links { city_a, city_b, matrix: [row, row] };
        assert(r@.forward =~= Seq::new(SIZE as nat, |i: int| None::<usize>));
        assert(r@.backward =~= Seq::new(SIZE as nat, |i: int| None::<usize>));
        r
    }

    /// The partner of member `i` of the first city, or of the second when
    /// `city_b` holds.
    pub fn get_neighbor(&self, i: usize, city_b: bool) -> (r: Option<usize>)
        requires
            i < SIZE,
        ensures
            r == if city_b {
                self@.backward[i as int]
            } else {
                self@.forward[i as int]
            },
    {
        if city_b {
            self.matrix[1][i]
        } else {
            self.matrix[0][i]
        }
    }

    /// Pairs `pa` with `pb`, then reports whether the new pair is compatible
    /// with the pairs already made. The pair stays in place either way.
    pub fn checked_add_link(&mut self, pa: usize, pb: usize) -> (r: bool)
        requires
            old(self).ready(),
            pa < old(self)@.city_a.population,
            pb < old(self)@.city_b.population,
            old(self)@.forward[pa as int] is None,
            old(self)@.backward[pb as int] is None,
        ensures
            final(self).ready(),
            final(self)@ == old(self)@.link(pa, pb),
            r == old(self)@.compatible(pa, pb),
    {
        let ghost before = self@;
        let mut row = self.matrix[0];
        row[pa] = Some(pb);
        self.matrix[0] = row;
        let mut row = self.matrix[1];
        row[pb] = Some(pa);
        self.matrix[1] = row;
        assert(self@ =~= before.link(pa, pb));
        assert forall|a: int| 0 <= a < SIZE && #[trigger] before.forward[a] is Some implies a != pa
            && before.forward[a]->0 != pb by {
            let b = before.forward[a]->0 as int;
            assert(before.backward[b] == Some(a as usize));
        }
        self.links_agree(pa, pb, Ghost(before))
    }

    /// Checks, on the state just after `pa` was paired with `pb`, that every
    /// friend of `pa` that has a partner is paired to a friend of `pb`, and
    /// the other way round.
    fn links_agree(&self, pa: usize, pb: usize, Ghost(before): Ghost<LinksView>) -> (r: bool)
        requires
            self.ready(),
            self@ == before.link(pa, pb),
            before.consistent(SIZE as int),
            before.city_a.precalculated(SIZE as int),
            before.city_b.precalculated(SIZE as int),
            pa < before.city_a.population,
            pb < before.city_b.population,
            before.forward[pa as int] is None,
            before.backward[pb as int] is None,
        ensures
            r == before.compatible(pa, pb),
    {
        assert forall|a: int| 0 <= a < SIZE && #[trigger] before.forward[a] is Some implies a != pa
            && before.forward[a]->0 != pb by {
            let b = before.forward[a]->0 as int;
            assert(before.backward[b] == Some(a as usize));
        }
        let friends_of_a = self.city_a.get_precalculated_friends(pa).unwrap();
        let friends_of_b = self.city_b.get_precalculated_friends(pb).unwrap();
        assert(friends_of_a@ == before.city_a.friend_set(pa as int, SIZE as int));
        assert(friends_of_b@ == before.city_b.friend_set(pb as int, SIZE as int));

        for friend in 0..SIZE
            invariant
                self@ == before.link(pa, pb),
                before.consistent(SIZE as int),
                before.city_a.wf(SIZE as int),
                before.city_b.wf(SIZE as int),
                pa < before.city_a.population,
                pb < before.city_b.population,
                before.forward[pa as int] is None,
                before.backward[pb as int] is None,
                friends_of_a@ == before.city_a.friend_set(pa as int, SIZE as int),
                friends_of_b@ == before.city_b.friend_set(pb as int, SIZE as int),
                forall|f: int|
                    0 <= f < friend && f != pa && #[trigger] before.forward[f] is Some
                        && before.city_a.is_friend(pa as int, f) ==> before.city_b.is_friend(
                        pb as int,
                        before.forward[f]->0 as int,
                    ),
        {
            if friends_of_a.contains(&friend) {
                assert(friends_of_a@.contains(friend));
                assert(before.city_a.is_friend(pa as int, friend as int));
                assert(self@.forward == before.forward.update(pa as int, Some(pb)));
                assert(self@.forward[friend as int] == before.forward[friend as int]);
                match self.get_neighbor(friend, false) {
                    Some(linked) => {
                        assert(before.forward[friend as int] == Some(linked));
                        if !friends_of_b.contains(&linked) {
                            assert(!before.city_b.is_friend(pb as int, linked as int));
                            return false;
                        }
                    },
                    None => {},
                }
            }
        }
        for friend in 0..SIZE
            invariant
                self@ == before.link(pa, pb),
                before.consistent(SIZE as int),
                before.city_a.wf(SIZE as int),
                before.city_b.wf(SIZE as int),
                pa < before.city_a.population,
                pb < before.city_b.population,
                before.forward[pa as int] is None,
                before.backward[pb as int] is None,
                friends_of_a@ == before.city_a.friend_set(pa as int, SIZE as int),
                friends_of_b@ == before.city_b.friend_set(pb as int, SIZE as int),
                forall|f: int|
                    0 <= f < SIZE && f != pa && #[trigger] before.forward[f] is Some
                        && before.city_a.is_friend(pa as int, f) ==> before.city_b.is_friend(
                        pb as int,
                        before.forward[f]->0 as int,
                    ),
                forall|g: int|
                    0 <= g < friend && g != pb && #[trigger] before.backward[g] is Some
                        && before.city_b.is_friend(pb as int, g) ==> before.city_a.is_friend(
                        pa as int,
                        before.backward[g]->0 as int,
                    ),
        {
            if friends_of_b.contains(&friend) {
                assert(friends_of_b@.contains(friend));
                assert(before.city_b.is_friend(pb as int, friend as int));
                assert(self@.backward == before.backward.update(pb as int, Some(pa)));
                assert(self@.backward[friend as int] == before.backward[friend as int]);
                match self.get_neighbor(friend, true) {
                    Some(linked) => {
                        assert(before.backward[friend as int] == Some(linked));
                        if !friends_of_a.contains(&linked) {
                            assert(before.forward[linked as int] == Some(friend));
                            assert(!before.city_a.is_friend(pa as int, linked as int));
                            return false;
                        }
                    },
                    None => {},
                }
            }
        }
        assert forall|f: int|
            0 <= f < SIZE && f != pa && #[trigger] before.forward[f] is Some implies (
            before.city_a.is_friend(pa as int, f) <==> before.city_b.is_friend(
                pb as int,
                before.forward[f]->0 as int,
            )) by {
            let l = before.forward[f]->0 as int;
            assert(before.backward[l] == Some(f as usize));
        }
        true
    }

    /// Takes apart the pair `pa`, `pb`.
    pub fn remove_link(&mut self, pa: usize, pb: usize)
        requires
            old(self).wf(),
            pa < SIZE,
            pb < SIZE,
            old(self)@.forward[pa as int] == Some(pb),
        ensures
            final(self).wf(),
            final(self)@ == old(self)@.unlink(pa, pb),
    {
        let ghost before = self@;
        let mut row = self.matrix[0];
        row[pa] = None;
        self.matrix[0] = row;
        let mut row = self.matrix[1];
        row[pb] = None;
        self.matrix[1] = row;
        assert(self@ =~= before.unlink(pa, pb));
    }
}

} // verus!
