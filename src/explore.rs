use crate::city::MAX_SIZE;
use crate::links::{Links, LinksView};
use std::collections::VecDeque;
use vstd::prelude::*;

verus! {

broadcast use vstd::std_specs::vecdeque::group_vec_dequeue_axioms;

/// The smaller of a running minimum (none yet when `None`) and `v`.
pub open spec fn min_with(m: Option<nat>, v: nat) -> nat {
    match m {
        Some(x) => if x <= v {
            x
        } else {
            v
        },
        None => v,
    }
}

/// The game value of a state, with the number of searches that computing it
/// by exhaustive search takes: `(depth, calls)`.
///
/// The adversary commits a pending member of the first city; the matcher
/// answers with a pending member of the second city whose pairing is
/// compatible, or gives up on it. The depth is the number of pairs the matcher
/// can always make: the minimum over the adversary's choices of the best
/// answer, 0 when nothing is pending in the first city.
pub open spec fn outcome(v: LinksView, pending_a: Set<usize>, pending_b: Set<usize>) -> (nat, nat)
    decreases pending_a.len(), 2int, 0int,
{
    let r = over_members(v, pending_a, pending_b, pending_a, v.forward.len() as int);
    (
        match r.0 {
            Some(d) => d,
            None => 0,
        },
        1 + r.1,
    )
}

/// Over the members of `chosen` below `upto`: the smallest best answer
/// (`None` when there is no such member), and the searches they take.
pub open spec fn over_members(
    v: LinksView,
    pending_a: Set<usize>,
    pending_b: Set<usize>,
    chosen: Set<usize>,
    upto: int,
) -> (Option<nat>, nat)
    decreases pending_a.len(), 1int, upto,
{
    if upto <= 0 {
        (None, 0)
    } else {
        let prev = over_members(v, pending_a, pending_b, chosen, upto - 1);
        let a = (upto - 1) as usize;
        if chosen.contains(a) {
            let p = over_partners(v, pending_a, pending_b, a, pending_b, v.backward.len() as int);
            (Some(min_with(prev.0, p.0)), prev.1 + p.1)
        } else {
            prev
        }
    }
}

/// For member `a` of the first city, over the members of `chosen` below
/// `upto` that can be compatibly paired with it: the best depth that pairing
/// gives (one more than the depth of the state after it), and the searches
/// they take.
pub open spec fn over_partners(
    v: LinksView,
    pending_a: Set<usize>,
    pending_b: Set<usize>,
    a: usize,
    chosen: Set<usize>,
    upto: int,
) -> (nat, nat)
    decreases pending_a.len(), 0int, upto,
{
    if upto <= 0 {
        (0, 0)
    } else {
        let prev = over_partners(v, pending_a, pending_b, a, chosen, upto - 1);
        let b = (upto - 1) as usize;
        if chosen.contains(b) && pending_a.finite() && pending_a.contains(a) && v.compatible(a, b) {
            let sub = outcome(v.link(a, b), pending_a.remove(a), pending_b.remove(b));
            (
                if prev.0 >= sub.0 + 1 {
                    prev.0
                } else {
                    sub.0 + 1
                },
                prev.1 + sub.1,
            )
        } else {
            prev
        }
    }
}

/// Adding a member to the chosen ones folds its best answer into the minimum
/// and its searches into the sum, whatever order the members come in.
proof fn lemma_members_insert(
    v: LinksView,
    pending_a: Set<usize>,
    pending_b: Set<usize>,
    chosen: Set<usize>,
    x: usize,
    upto: int,
)
    requires
        !chosen.contains(x),
        upto <= usize::MAX,
    ensures
        ({
            let m = over_members(v, pending_a, pending_b, chosen, upto);
            let p = over_partners(v, pending_a, pending_b, x, pending_b, v.backward.len() as int);
            over_members(v, pending_a, pending_b, chosen.insert(x), upto) == if x < upto {
                (Some(min_with(m.0, p.0)), m.1 + p.1)
            } else {
                m
            }
        }),
    decreases upto,
{
    if upto > 0 {
        lemma_members_insert(v, pending_a, pending_b, chosen, x, upto - 1);
        let a = (upto - 1) as usize;
        assert(chosen.insert(x).contains(a) == (chosen.contains(a) || a == x));
        if a == x {
            assert(!(x < upto - 1));
        }
    }
}

/// Adding a partner to the chosen ones folds its depth into the maximum and
/// its searches into the sum, whatever order the partners come in.
proof fn lemma_partners_insert(
    v: LinksView,
    pending_a: Set<usize>,
    pending_b: Set<usize>,
    a: usize,
    chosen: Set<usize>,
    y: usize,
    upto: int,
)
    requires
        !chosen.contains(y),
        upto <= usize::MAX,
    ensures
        ({
            let q = over_partners(v, pending_a, pending_b, a, chosen, upto);
            let sub = outcome(v.link(a, y), pending_a.remove(a), pending_b.remove(y));
            over_partners(v, pending_a, pending_b, a, chosen.insert(y), upto) == if y < upto
                && pending_a.finite() && pending_a.contains(a) && v.compatible(a, y) {
                (
                    if q.0 >= sub.0 + 1 {
                        q.0
                    } else {
                        sub.0 + 1
                    },
                    q.1 + sub.1,
                )
            } else {
                q
            }
        }),
    decreases upto,
{
    if upto > 0 {
        lemma_partners_insert(v, pending_a, pending_b, a, chosen, y, upto - 1);
        let b = (upto - 1) as usize;
        assert(chosen.insert(y).contains(b) == (chosen.contains(b) || b == y));
        if b == y {
            assert(!(y < upto - 1));
        }
    }
}

/// With nobody chosen, there is no minimum and no search.
proof fn lemma_members_empty(v: LinksView, pending_a: Set<usize>, pending_b: Set<usize>, upto: int)
    ensures
        over_members(v, pending_a, pending_b, Set::empty(), upto) == (None::<nat>, 0nat),
    decreases upto,
{
    if upto > 0 {
        lemma_members_empty(v, pending_a, pending_b, upto - 1);
    }
}

/// With no partner chosen, the best depth is 0 and there is no search.
proof fn lemma_partners_empty(
    v: LinksView,
    pending_a: Set<usize>,
    pending_b: Set<usize>,
    a: usize,
    upto: int,
)
    ensures
        over_partners(v, pending_a, pending_b, a, Set::empty(), upto) == (0nat, 0nat),
    decreases upto,
{
    if upto > 0 {
        lemma_partners_empty(v, pending_a, pending_b, a, upto - 1);
    }
}

/// Choosing more members never takes fewer searches.
proof fn lemma_members_monotonic(
    v: LinksView,
    pending_a: Set<usize>,
    pending_b: Set<usize>,
    small: Set<usize>,
    large: Set<usize>,
    upto: int,
)
    requires
        small.subset_of(large),
    ensures
        over_members(v, pending_a, pending_b, small, upto).1 <= over_members(
            v,
            pending_a,
            pending_b,
            large,
            upto,
        ).1,
    decreases upto,
{
    if upto > 0 {
        lemma_members_monotonic(v, pending_a, pending_b, small, large, upto - 1);
    }
}

/// Choosing more partners never takes fewer searches.
proof fn lemma_partners_monotonic(
    v: LinksView,
    pending_a: Set<usize>,
    pending_b: Set<usize>,
    a: usize,
    small: Set<usize>,
    large: Set<usize>,
    upto: int,
)
    requires
        small.subset_of(large),
    ensures
        over_partners(v, pending_a, pending_b, a, small, upto).1 <= over_partners(
            v,
            pending_a,
            pending_b,
            a,
            large,
            upto,
        ).1,
    decreases upto,
{
    if upto > 0 {
        lemma_partners_monotonic(v, pending_a, pending_b, a, small, large, upto - 1);
    }
}

/// The depth never exceeds the number of pending members of the first city.
pub proof fn lemma_depth_bound(v: LinksView, pending_a: Set<usize>, pending_b: Set<usize>)
    requires
        pending_a.finite(),
    ensures
        outcome(v, pending_a, pending_b).0 <= pending_a.len(),
    decreases pending_a.len(), 2int, 0int,
{
    lemma_members_bound(v, pending_a, pending_b, pending_a, v.forward.len() as int);
}

/// A running minimum over members is within the depth bound.
proof fn lemma_members_bound(
    v: LinksView,
    pending_a: Set<usize>,
    pending_b: Set<usize>,
    chosen: Set<usize>,
    upto: int,
)
    requires
        pending_a.finite(),
    ensures
        over_members(v, pending_a, pending_b, chosen, upto).0 matches Some(d) ==> d <= pending_a.len(),
    decreases pending_a.len(), 1int, upto,
{
    if upto > 0 {
        lemma_members_bound(v, pending_a, pending_b, chosen, upto - 1);
        let a = (upto - 1) as usize;
        if chosen.contains(a) {
            lemma_partners_bound(v, pending_a, pending_b, a, pending_b, v.backward.len() as int);
        }
    }
}

/// A best answer over partners is within the depth bound.
proof fn lemma_partners_bound(
    v: LinksView,
    pending_a: Set<usize>,
    pending_b: Set<usize>,
    a: usize,
    chosen: Set<usize>,
    upto: int,
)
    requires
        pending_a.finite(),
    ensures
        over_partners(v, pending_a, pending_b, a, chosen, upto).0 <= pending_a.len(),
    decreases pending_a.len(), 0int, upto,
{
    if upto > 0 {
        lemma_partners_bound(v, pending_a, pending_b, a, chosen, upto - 1);
        let b = (upto - 1) as usize;
        if chosen.contains(b) && pending_a.contains(a) && v.compatible(a, b) {
            lemma_depth_bound(v.link(a, b), pending_a.remove(a), pending_b.remove(b));
        }
    }
}

/// With no partner pending, every member's best answer is 0 and takes no
/// search.
proof fn lemma_members_without_partners(
    v: LinksView,
    pending_a: Set<usize>,
    chosen: Set<usize>,
    upto: int,
)
    ensures
        ({
            let r = over_members(v, pending_a, Set::empty(), chosen, upto);
            &&& r.1 == 0
            &&& r.0 matches Some(d) ==> d == 0
        }),
    decreases upto,
{
    if upto > 0 {
        lemma_members_without_partners(v, pending_a, chosen, upto - 1);
        let a = (upto - 1) as usize;
        lemma_partners_empty(v, pending_a, Set::empty(), a, v.backward.len() as int);
    }
}

/// When either population is empty, the depth is 0 and the search makes a
/// single call.
pub proof fn lemma_empty_population(v: LinksView, pending_a: Set<usize>, pending_b: Set<usize>)
    requires
        v.city_a.population == 0 || v.city_b.population == 0,
        forall|x: usize| #[trigger] pending_a.contains(x) ==> x < v.city_a.population,
        forall|y: usize| #[trigger] pending_b.contains(y) ==> y < v.city_b.population,
    ensures
        outcome(v, pending_a, pending_b) == (0nat, 1nat),
{
    if v.city_a.population == 0 {
        assert(pending_a =~= Set::empty());
        lemma_members_empty(v, pending_a, pending_b, v.forward.len() as int);
    } else {
        assert(pending_b =~= Set::empty());
        lemma_members_without_partners(v, pending_a, pending_a, v.forward.len() as int);
    }
}

/// `s` after its last `k` members were moved, in order, to its front.
pub open spec fn rotated(s: Seq<usize>, k: int) -> Seq<usize> {
    s.subrange(s.len() - k, s.len() as int) + s.subrange(0, s.len() - k)
}

/// `rotated(s, k)` without its last member, `s[s.len() - k - 1]`.
pub open spec fn rotated_without(s: Seq<usize>, k: int) -> Seq<usize> {
    s.subrange(s.len() - k, s.len() as int) + s.subrange(0, s.len() - k - 1)
}

/// The position in `s` of the member at position `t` of `rotated_without(s, k)`.
spec fn rotated_index(n: int, k: int, t: int) -> int {
    if t < k {
        n - k + t
    } else {
        t - k
    }
}

/// A rotation keeps the members of a sequence, and their distinctness.
proof fn lemma_rotated(s: Seq<usize>, k: int)
    requires
        0 <= k <= s.len(),
        s.no_duplicates(),
    ensures
        rotated(s, k).len() == s.len(),
        rotated(s, k).to_set() == s.to_set(),
        rotated(s, k).no_duplicates(),
        forall|t: int| 0 <= t < s.len() ==> #[trigger] rotated(s, k)[t] == s[if t < k {
            s.len() - k + t
        } else {
            t - k
        }],
{
    let n = s.len() as int;
    let r = rotated(s, k);
    let ix = |t: int| if t < k { n - k + t } else { t - k };
    assert forall|t: int| 0 <= t < n implies #[trigger] r[t] == s[ix(t)] by {}
    assert forall|i: int, j: int| 0 <= i < n && 0 <= j < n && i != j implies r[i] != r[j] by {
        assert(r[i] == s[ix(i)]);
        assert(r[j] == s[ix(j)]);
    }
    assert forall|e: usize| r.to_set().contains(e) <==> s.to_set().contains(e) by {
        if r.contains(e) {
            let t = choose|t: int| 0 <= t < n && r[t] == e;
            assert(s[ix(t)] == e);
        }
        if s.contains(e) {
            let p = choose|p: int| 0 <= p < n && s[p] == e;
            let t = if p >= n - k { p - (n - k) } else { p + k };
            assert(r[t] == e);
        }
    }
    assert(r.to_set() =~= s.to_set());
}

/// Taking the last member off a rotation leaves the other members, each
/// once; putting it back in front gives the next rotation.
proof fn lemma_rotated_without(s: Seq<usize>, k: int)
    requires
        0 <= k < s.len(),
        s.no_duplicates(),
    ensures
        ({
            let n = s.len() as int;
            let r = rotated_without(s, k);
            let a = s[n - k - 1];
            &&& r.len() == n - 1
            &&& forall|t: int| 0 <= t < n - 1 ==> #[trigger] r[t] == s[rotated_index(n, k, t)]
            &&& forall|t: int| 0 <= t < n - 1 ==> 0 <= #[trigger] rotated_index(n, k, t) < n
            &&& forall|t: int| 0 <= t < n - 1 ==> #[trigger] r[t] != a
            &&& r.no_duplicates()
            &&& r.to_set() == s.to_set().remove(a)
            &&& seq![a] + r == rotated(s, k + 1)
            &&& rotated(s, k) == r.push(a)
        }),
{
    let n = s.len() as int;
    let r = rotated_without(s, k);
    let a = s[n - k - 1];
    assert forall|t: int| 0 <= t < n - 1 implies #[trigger] r[t] == s[rotated_index(n, k, t)] by {}
    assert forall|t: int| 0 <= t < n - 1 implies #[trigger] r[t] != a by {
        assert(r[t] == s[rotated_index(n, k, t)]);
    }
    assert forall|i: int, j: int| 0 <= i < n - 1 && 0 <= j < n - 1 && i != j implies r[i] != r[j] by {
        assert(r[i] == s[rotated_index(n, k, i)]);
        assert(r[j] == s[rotated_index(n, k, j)]);
    }
    assert forall|e: usize| r.to_set().contains(e) <==> s.to_set().remove(a).contains(e) by {
        if r.contains(e) {
            let t = choose|t: int| 0 <= t < n - 1 && r[t] == e;
            assert(s[rotated_index(n, k, t)] == e);
        }
        if s.contains(e) && e != a {
            let p = choose|p: int| 0 <= p < n && s[p] == e;
            let t = if p >= n - k { p - (n - k) } else { p + k };
            assert(r[t] == e);
        }
    }
    assert(r.to_set() =~= s.to_set().remove(a));
    assert(seq![a] + r =~= rotated(s, k + 1));
    assert(rotated(s, k) =~= r.push(a));
}

/// The members of `s` from position `s.len() - k` on.
pub open spec fn last_members(s: Seq<usize>, k: int) -> Set<usize> {
    s.subrange(s.len() - k, s.len() as int).to_set()
}

/// One more position from the end adds exactly one new member.
proof fn lemma_last_members(s: Seq<usize>, k: int)
    requires
        0 <= k < s.len(),
        s.no_duplicates(),
    ensures
        last_members(s, k + 1) == last_members(s, k).insert(s[s.len() - k - 1]),
        !last_members(s, k).contains(s[s.len() - k - 1]),
        last_members(s, k).subset_of(s.to_set()),
        last_members(s, k + 1).subset_of(s.to_set()),
{
    let n = s.len() as int;
    let a = s[n - k - 1];
    let lo = s.subrange(n - k, n);
    let hi = s.subrange(n - k - 1, n);
    assert forall|e: usize| hi.contains(e) <==> lo.contains(e) || e == a by {
        if hi.contains(e) {
            let t = choose|t: int| 0 <= t < k + 1 && hi[t] == e;
            if t > 0 {
                assert(lo[t - 1] == e);
            }
        }
        if lo.contains(e) {
            let t = choose|t: int| 0 <= t < k && lo[t] == e;
            assert(hi[t + 1] == e);
        }
        if e == a {
            assert(hi[0] == e);
        }
    }
    assert(last_members(s, k + 1) =~= last_members(s, k).insert(a));
    if lo.contains(a) {
        let t = choose|t: int| 0 <= t < k && lo[t] == a;
        assert(s[n - k + t] == a);
    }
    assert forall|e: usize| lo.contains(e) implies s.contains(e) by {
        let t = choose|t: int| 0 <= t < k && lo[t] == e;
        assert(s[n - k + t] == e);
    }
}

/// The pending members of each city are distinct, within its population and
/// not paired yet.
pub open spec fn pending_ok(v: LinksView, pending_a: Seq<usize>, pending_b: Seq<usize>) -> bool {
    &&& pending_a.no_duplicates()
    &&& pending_b.no_duplicates()
    &&& forall|k: int|
        0 <= k < pending_a.len() ==> (#[trigger] pending_a[k]) < v.city_a.population && v.forward[pending_a[k] as int] is None
    &&& forall|k: int|
        0 <= k < pending_b.len() ==> (#[trigger] pending_b[k]) < v.city_b.population && v.backward[pending_b[k] as int] is None
}

/// Members of a sequence of pending members are within the capacity, so
/// there are at most `MAX_SIZE` of them.
proof fn lemma_pending_len(pending: Seq<usize>, population: nat)
    requires
        population <= MAX_SIZE,
        forall|k: int| 0 <= k < pending.len() ==> (#[trigger] pending[k]) < population,
    ensures
        pending.to_set().finite(),
        pending.to_set().len() <= MAX_SIZE,
{
    broadcast use vstd::seq_lib::seq_to_set_is_finite;
    broadcast use vstd::set_lib::range_set_properties;

    let range = Set::<usize>::range(0, MAX_SIZE);
    assert forall|e: usize| pending.to_set().contains(e) implies range.contains(e) by {
        let k = choose|k: int| 0 <= k < pending.len() && pending[k] == e;
    }
    vstd::set_lib::lemma_len_subset(pending.to_set(), range);
}

/// Computes the guaranteed matching depth of the state: the number of pairs
/// the matcher can always make, whatever order the adversary commits the
/// pending members of the first city in. Counts its own invocations in
/// `number_of_calls`, and leaves the pairing and both queues as it found them.
pub fn explore(
    links: &mut Links<MAX_SIZE>,
    not_linked_a: &mut VecDeque<usize>,
    not_linked_b: &mut VecDeque<usize>,
    number_of_calls: &mut usize,
) -> (r: usize)
    requires
        old(links).ready(),
        pending_ok(old(links)@, old(not_linked_a)@, old(not_linked_b)@),
        *old(number_of_calls) + outcome(
            old(links)@,
            old(not_linked_a)@.to_set(),
            old(not_linked_b)@.to_set(),
        ).1 <= usize::MAX,
    ensures
        r == outcome(old(links)@, old(not_linked_a)@.to_set(), old(not_linked_b)@.to_set()).0,
        r <= MAX_SIZE,
        *final(number_of_calls) == *old(number_of_calls) + outcome(
            old(links)@,
            old(not_linked_a)@.to_set(),
            old(not_linked_b)@.to_set(),
        ).1,
        final(links).ready(),
        final(links)@ == old(links)@,
        final(not_linked_a)@ == old(not_linked_a)@,
        final(not_linked_b)@ == old(not_linked_b)@,
    decreases old(not_linked_a)@.len(),
{
    let ghost v0 = links@;
    let ghost qa0 = not_linked_a@;
    let ghost qb0 = not_linked_b@;
    let ghost set_a = qa0.to_set();
    let ghost set_b = qb0.to_set();
    let ghost c0 = *number_of_calls as int;
    let ghost total = outcome(v0, set_a, set_b);
    let ghost size = MAX_SIZE as int;
    proof {
        lemma_pending_len(qa0, v0.city_a.population);
        lemma_pending_len(qb0, v0.city_b.population);
        assert(last_members(qa0, 0) =~= Set::empty());
        lemma_members_empty(v0, set_a, set_b, size);
        assert(rotated(qa0, 0) =~= qa0);
    }
    let mut current_max: usize;
    let mut current_min: usize = MAX_SIZE + 42;
    *number_of_calls += 1;

    let n = not_linked_a.len();
    let mut i: usize = 0;
    while i < n
        invariant
            n == qa0.len(),
            qa0 == old(not_linked_a)@,
            i <= n,
            links.ready(),
            links@ == v0,
            v0.forward.len() == size,
            v0.backward.len() == size,
            not_linked_a@ == rotated(qa0, i as int),
            not_linked_b@ == qb0,
            pending_ok(v0, qa0, qb0),
            set_a == qa0.to_set(),
            set_b == qb0.to_set(),
            set_a.finite(),
            set_a.len() <= MAX_SIZE,
            total == outcome(v0, set_a, set_b),
            c0 + total.1 <= usize::MAX,
            ({
                let om = over_members(v0, set_a, set_b, last_members(qa0, i as int), size);
                &&& *number_of_calls == c0 + 1 + om.1
                &&& om.0 matches Some(d) ==> current_min == d
                &&& om.0 is None ==> current_min == MAX_SIZE + 42
            }),
        decreases n - i,
    {
        let person_a = not_linked_a.pop_back().unwrap();
        let ghost chosen_a = last_members(qa0, i as int);
        let ghost best = over_partners(v0, set_a, set_b, person_a, set_b, size);
        let ghost base = *number_of_calls as int;
        proof {
            lemma_rotated(qa0, i as int);
            lemma_rotated_without(qa0, i as int);
            lemma_last_members(qa0, i as int);
            lemma_members_insert(v0, set_a, set_b, chosen_a, person_a, size);
            lemma_members_monotonic(v0, set_a, set_b, chosen_a.insert(person_a), set_a, size);
            lemma_members_bound(v0, set_a, set_b, chosen_a, size);
            lemma_partners_bound(v0, set_a, set_b, person_a, set_b, size);
            assert(last_members(qb0, 0) =~= Set::empty());
            lemma_partners_empty(v0, set_a, set_b, person_a, size);
            assert(rotated(qb0, 0) =~= qb0);
        }
        current_max = 0;
        let m = not_linked_b.len();
        let mut j: usize = 0;
        while j < m
            invariant
                n == qa0.len(),
                qa0 == old(not_linked_a)@,
                i < n,
                m == qb0.len(),
                j <= m,
                person_a == qa0[n - i - 1],
                links.ready(),
                links@ == v0,
                v0.forward.len() == size,
                v0.backward.len() == size,
                not_linked_a@ == rotated_without(qa0, i as int),
                not_linked_b@ == rotated(qb0, j as int),
                pending_ok(v0, qa0, qb0),
                set_a == qa0.to_set(),
                set_b == qb0.to_set(),
                set_a.finite(),
                set_a.contains(person_a),
                set_a.len() <= MAX_SIZE,
                set_a.remove(person_a) == rotated_without(qa0, i as int).to_set(),
                forall|t: int| 0 <= t < n - 1 ==> #[trigger] rotated_without(qa0, i as int)[t] != person_a,
                rotated_without(qa0, i as int).no_duplicates(),
                forall|t: int|
                    0 <= t < n - 1 ==> 0 <= #[trigger] rotated_index(n as int, i as int, t) < n,
                forall|t: int|
                    0 <= t < n - 1 ==> #[trigger] rotated_without(qa0, i as int)[t] == qa0[rotated_index(n as int, i as int, t)],
                best == over_partners(v0, set_a, set_b, person_a, set_b, size),
                base + best.1 <= c0 + total.1,
                c0 + total.1 <= usize::MAX,
                ({
                    let op = over_partners(v0, set_a, set_b, person_a, last_members(qb0, j as int), size);
                    &&& current_max == op.0
                    &&& *number_of_calls == base + op.1
                }),
            decreases m - j,
        {
            let person_b = not_linked_b.pop_back().unwrap();
            let ghost chosen_b = last_members(qb0, j as int);
            proof {
                lemma_rotated(qb0, j as int);
                lemma_rotated_without(qb0, j as int);
                lemma_last_members(qb0, j as int);
                lemma_partners_insert(v0, set_a, set_b, person_a, chosen_b, person_b, size);
                lemma_partners_monotonic(v0, set_a, set_b, person_a, chosen_b.insert(person_b), set_b, size);
            }
            if links.checked_add_link(person_a, person_b) {
                let ghost child = links@;
                proof {
                    assert(child == v0.link(person_a, person_b));
                    assert(v0.compatible(person_a, person_b));
                    assert(person_b < size);
                    assert(rotated_without(qb0, j as int).to_set() == set_b.remove(person_b));
                    assert(not_linked_b@ == rotated_without(qb0, j as int));
                    assert(not_linked_a@.to_set() == set_a.remove(person_a));
                    let sub_outcome = outcome(child, set_a.remove(person_a), set_b.remove(person_b));
                    assert(over_partners(v0, set_a, set_b, person_a, chosen_b.insert(person_b), size).1 == over_partners(v0, set_a, set_b, person_a, chosen_b, size).1 + sub_outcome.1);
                    assert(*number_of_calls + sub_outcome.1 <= usize::MAX);
                    lemma_depth_bound(child, set_a.remove(person_a), set_b.remove(person_b));
                    assert(pending_ok(child, rotated_without(qa0, i as int), rotated_without(qb0, j as int)));
                }
                let sub = explore(links, not_linked_a, not_linked_b, number_of_calls);
                current_max = if current_max >= sub + 1 {
                    current_max
                } else {
                    sub + 1
                };
            }
            not_linked_b.push_front(person_b);
            links.remove_link(person_a, person_b);
            assert(links@.forward =~= v0.forward);
            assert(links@.backward =~= v0.backward);
            j = j + 1;
        }
        not_linked_a.push_front(person_a);
        current_min = if current_min <= current_max {
            current_min
        } else {
            current_max
        };
        i = i + 1;
    }
    proof {
        assert(qa0.subrange(0, n as int) =~= qa0);
        assert(rotated(qa0, n as int) =~= qa0);
        lemma_members_bound(v0, set_a, set_b, set_a, size);
    }
    if current_min > MAX_SIZE {
        0
    } else {
        current_min
    }
}

} // verus!
