use std::collections::HashSet;
use vstd::prelude::*;

verus! {

broadcast use vstd::std_specs::hash::group_hash_axioms;

/// Upper bound on the population of a city in the reference search.
pub const MAX_SIZE: usize = 15;

/// The abstract state of a city: its population, its relation matrix and the
/// friend sets computed from it (empty until they are computed).
pub struct CityView {
    pub population: nat,
    pub relation: Seq<Seq<bool>>,
    pub friends: Seq<Set<usize>>,
}

impl CityView {
    /// `i` and `j` are distinct and related.
    pub open spec fn is_friend(self, i: int, j: int) -> bool {
        i != j && self.relation[i][j]
    }

    /// The indices below `size` that are friends of `i`.
    pub open spec fn friend_set(self, i: int, size: int) -> Set<usize> {
        Set::new(|j: usize| (j as int) < size && self.is_friend(i, j as int))
    }

    /// The relation is square of side `size`, symmetric, and confined to the
    /// population.
    pub open spec fn relation_wf(self, size: int) -> bool {
        &&& self.population <= size
        &&& self.relation.len() == size
        &&& forall|i: int| 0 <= i < size ==> #[trigger] self.relation[i].len() == size
        &&& forall|i: int, j: int|
            0 <= i < size && 0 <= j < size ==> #[trigger] self.relation[i][j] == self.relation[j][i]
        &&& forall|i: int, j: int|
            0 <= i < size && 0 <= j < size && #[trigger] self.relation[i][j] ==> i < self.population
                && j < self.population
    }

    /// The relation is well formed and the friend sets are either not yet
    /// computed or exact.
    pub open spec fn wf(self, size: int) -> bool {
        &&& self.relation_wf(size)
        &&& (self.friends.len() == 0 || self.precalculated(size))
    }

    /// Every member below the population has its friend set computed.
    pub open spec fn precalculated(self, size: int) -> bool {
        &&& self.friends.len() == self.population
        &&& forall|i: int| 0 <= i < self.population ==> #[trigger] self.friends[i] == self.friend_set(i, size)
    }
}

/// The pair `(i, j)` is an edge of the ring through `start..stop` whose
/// consecutive edges have been laid up to (but not including) member `upto`.
pub open spec fn ring_edge_upto(start: int, stop: int, upto: int, i: int, j: int) -> bool {
    ||| (i == start && j == stop - 1)
    ||| (i == stop - 1 && j == start)
    ||| (start < i < upto && j == i - 1)
    ||| (start < j < upto && i == j - 1)
}

/// The pair `(i, j)` is an edge of the ring through `start..stop`: each
/// member is tied to the next one, and the last to the first.
pub open spec fn ring_edge(start: int, stop: int, i: int, j: int) -> bool {
    ring_edge_upto(start, stop, stop, i, j)
}

pub struct City<const SIZE: usize> {
    matrix: [[bool; SIZE]; SIZE],
    population: usize,
    friends: Vec<HashSet<usize>>,
}

impl<const SIZE: usize> View for City<SIZE> {
    type V = CityView;

    closed spec fn view(&self) -> CityView {
        CityView {
            population: self.population as nat,
            relation: self.matrix@.map_values(|row: [bool; SIZE]| row@),
            friends: self.friends@.map_values(|s: HashSet<usize>| s@),
        }
    }
}

impl<const SIZE: usize> City<SIZE> {
    /// This city's view is well formed for cities of capacity `SIZE`.
    pub open spec fn wf(&self) -> bool {
        self@.wf(SIZE as int)
    }

    /// This city's relation is well formed for cities of capacity `SIZE`.
    pub open spec fn relation_wf(&self) -> bool {
        self@.relation_wf(SIZE as int)
    }

    /// A city of `population` members with no friendships yet.
    pub fn new(population: usize) -> (r: City<SIZE>)
        requires
            population <= SIZE,
        ensures
            r.wf(),
            r@.population == population,
            r@.friends.len() == 0,
            forall|i: int, j: int| 0 <= i < SIZE && 0 <= j < SIZE ==> !#[trigger] r@.relation[i][j],
    {
        let row: [bool; SIZE] = vstd::array::array_fill_for_copy_types(false);
        let matrix: [[bool; SIZE]; SIZE] = vstd::array::array_fill_for_copy_types(row);
        let r = City { matrix, population, friends: Vec::new() };
        assert(r@.relation.len() == SIZE);
        r
    }

    /// Marks `a` and `b` as friends of each other.
    pub fn add_edge(&mut self, a: usize, b: usize)
        requires
            old(self).wf(),
            old(self)@.friends.len() == 0,
            a < old(self)@.population,
            b < old(self)@.population,
        ensures
            final(self).wf(),
            final(self)@.population == old(self)@.population,
            final(self)@.friends.len() == 0,
            forall|i: int, j: int|
                0 <= i < SIZE && 0 <= j < SIZE ==> #[trigger] final(self)@.relation[i][j] == (
                old(self)@.relation[i][j] || (i == a && j == b) || (i == b && j == a)),
    {
        let ghost before = self@;
        let mut row_a = self.matrix[a];
        row_a[b] = true;
        self.matrix[a] = row_a;
        let mut row_b = self.matrix[b];
        row_b[a] = true;
        self.matrix[b] = row_b;
        assert(self@.relation.len() == SIZE);
        assert forall|i: int, j: int| 0 <= i < SIZE && 0 <= j < SIZE implies #[trigger] self@.relation[i][j] == (
            before.relation[i][j] || (i == a && j == b) || (i == b && j == a)) by {
            assert(self@.relation[i] == self.matrix[i]@);
        }
        assert(self@.friends =~= before.friends);
    }

    /// Joins the members `start..stop` into a ring.
    pub fn add_cycle(&mut self, start: usize, stop: usize) -> (r: &mut City<SIZE>)
        requires
            old(self).wf(),
            old(self)@.friends.len() == 0,
            1 <= stop <= old(self)@.population,
            start < old(self)@.population,
        ensures
            *final(self) == *final(r),
            r.wf(),
            r@.population == old(self)@.population,
            r@.friends.len() == 0,
            forall|i: int, j: int|
                0 <= i < SIZE && 0 <= j < SIZE ==> #[trigger] r@.relation[i][j] == (
                old(self)@.relation[i][j] || ring_edge(start as int, stop as int, i, j)),
    {
        let ghost before = self@;
        self.add_edge(start, stop - 1);
        let mut i: usize = start + 1;
        while i < stop
            invariant
                start < i,
                i <= stop || i == start + 1,
                self.wf(),
                self@.population == before.population,
                self@.friends.len() == 0,
                stop <= before.population,
                forall|x: int, y: int|
                    0 <= x < SIZE && 0 <= y < SIZE ==> #[trigger] self@.relation[x][y] == (
                    before.relation[x][y] || ring_edge_upto(start as int, stop as int, i as int, x, y)),
            decreases stop - i,
        {
            self.add_edge(i, i - 1);
            i = i + 1;
        }
        assert forall|x: int, y: int|
            ring_edge_upto(start as int, stop as int, i as int, x, y) == ring_edge(
                start as int,
                stop as int,
                x,
                y,
            ) by {}
        self
    }

    /// The friends of member `i`, read from the relation.
    pub fn get_friends(&self, i: usize) -> (r: HashSet<usize>)
        requires
            self.relation_wf(),
            i < SIZE,
        ensures
            r@ == self@.friend_set(i as int, SIZE as int),
    {
        let mut output: HashSet<usize> = HashSet::with_capacity(SIZE);
        let row = self.matrix[i];
        assert(row@ == self@.relation[i as int]);
        for j in 0..SIZE
            invariant
                row@ == self@.relation[i as int],
                output@ == self@.friend_set(i as int, j as int),
        {
            if row[j] && j != i {
                output.insert(j);
            }
            assert(output@ =~= self@.friend_set(i as int, j + 1));
        }
        assert(output@ =~= self@.friend_set(i as int, SIZE as int));
        output
    }

    /// Computes the friend set of every member; called once, after the
    /// relation is complete.
    pub fn precalculate_friends(&mut self)
        requires
            old(self).wf(),
            old(self)@.friends.len() == 0,
        ensures
            final(self).wf(),
            final(self)@.population == old(self)@.population,
            final(self)@.relation == old(self)@.relation,
            final(self)@.precalculated(SIZE as int),
    {
        let ghost before = self@;
        let n = self.population;
        for i in 0..n
            invariant
                n == before.population,
                self@.population == before.population,
                self@.relation == before.relation,
                self@.population <= SIZE,
                self.relation_wf(),
                self@.friends.len() == i,
                forall|k: int| 0 <= k < i ==> #[trigger] self@.friends[k] == self@.friend_set(k, SIZE as int),
        {
            let f = self.get_friends(i);
            let ghost prev = self.friends@;
            let ghost prev_view = self@;
            self.friends.push(f);
            assert(self.friends@ == prev.push(f));
            assert(self@.friends.len() == self.friends@.len());
            assert(self@.friends[i as int] == self.friends@[i as int]@);
            assert forall|k: int| 0 <= k < i implies #[trigger] self@.friends[k] == prev_view.friends[k] by {
                assert(self@.friends[k] == self.friends@[k]@);
                assert(prev_view.friends[k] == prev[k]@);
            }
        }
    }

    /// The computed friend set of member `i`, if there is one.
    pub fn get_precalculated_friends(&self, i: usize) -> (r: Option<&HashSet<usize>>)
        ensures
            match r {
                Some(s) => i < self@.friends.len() && s@ == self@.friends[i as int],
                None => i >= self@.friends.len(),
            },
    {
        self.friends.get(i)
    }

    pub fn get_population(&self) -> (r: usize)
        ensures
            r == self@.population,
    {
        self.population
    }

    /// Whether the relation holds between `i` and `j`.
    pub fn are_friends(&self, i: usize, j: usize) -> (r: bool)
        requires
            self.wf(),
            i < SIZE,
            j < SIZE,
        ensures
            r == self@.relation[i as int][j as int],
    {
        self.matrix[i][j]
    }
}

/// Friendship is symmetric: the relation reads the same both ways, and once
/// the friend sets are computed, `j` is a friend of `i` exactly when `i` is a
/// friend of `j`.
pub proof fn lemma_friendship_symmetric<const SIZE: usize>(city: City<SIZE>, i: int, j: int)
    requires
        city.wf(),
        0 <= i < SIZE,
        0 <= j < SIZE,
    ensures
        city@.relation[i][j] == city@.relation[j][i],
        city@.precalculated(SIZE as int) && i < city@.population && j < city@.population ==> (
        city@.friends[i].contains(j as usize) <==> city@.friends[j].contains(i as usize)),
{
    if city@.precalculated(SIZE as int) && i < city@.population && j < city@.population {
        assert(city@.friends[i] == city@.friend_set(i, SIZE as int));
        assert(city@.friends[j] == city@.friend_set(j, SIZE as int));
    }
}

} // verus!
