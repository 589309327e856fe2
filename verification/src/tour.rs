use vstd::prelude::*;

use crate::city::{
    City,
    cities_ok,
    dist,
    dist_spec,
    has_distinct_pair,
    lemma_dist_positive,
    same_point,
    MAX_CITIES,
    MAX_EDGE,
};
use crate::perm::{is_perm, lemma_perm_len, lemma_swap_preserves_perm};
use crate::rng::rand_below;

verus! {

/// Largest cost any tour over an accepted city list can have.
pub const MAX_COST: u64 = 3_000_000_000_000_000;

/// Sum of the edge lengths of `order` from position `i` onwards.
pub open spec fn cost_from(order: Seq<usize>, cities: Seq<City>, i: int) -> int
    decreases order.len() - i,
{
    if i < 0 || i + 1 >= order.len() {
        0
    } else {
        dist_spec(cities[order[i] as int], cities[order[i + 1] as int]) + cost_from(
            order,
            cities,
            i + 1,
        )
    }
}

/// Total travel cost of visiting the cities in `order`: the sum of the
/// distances between consecutive cities (an open path, not a closed loop).
pub open spec fn cost_of(order: Seq<usize>, cities: Seq<City>) -> int {
    cost_from(order, cities, 0)
}

/// Costs are sums of non-negative distances.
pub proof fn lemma_cost_from_nonneg(order: Seq<usize>, cities: Seq<City>, i: int)
    ensures
        cost_from(order, cities, i) >= 0,
    decreases order.len() - i,
{
    if !(i < 0 || i + 1 >= order.len()) {
        lemma_cost_from_nonneg(order, cities, i + 1);
    }
}

/// A zero-cost walk never leaves the point where it starts.
proof fn lemma_zero_cost_coords(order: Seq<usize>, cities: Seq<City>, i: int)
    requires
        forall|t: int| 0 <= t < order.len() ==> (#[trigger] order[t]) < cities.len(),
        0 <= i < order.len(),
        cost_from(order, cities, i) == 0,
    ensures
        forall|k: int|
            #![trigger order[k]]
            i <= k < order.len() ==> same_point(cities[order[k] as int], cities[order[i] as int]),
    decreases order.len() - i,
{
    if i + 1 < order.len() {
        lemma_cost_from_nonneg(order, cities, i + 1);
        assert(dist_spec(cities[order[i] as int], cities[order[i + 1] as int]) == 0);
        if !same_point(cities[order[i] as int], cities[order[i + 1] as int]) {
            lemma_dist_positive(cities[order[i] as int], cities[order[i + 1] as int]);
        }
        lemma_zero_cost_coords(order, cities, i + 1);
    }
}

/// The degenerate-fitness guard: over a city list with two distinct
/// points, every tour costs at least one unit, so the fitness (the
/// inverse of the cost) is always well defined.
pub proof fn lemma_cost_positive(order: Seq<usize>, cities: Seq<City>)
    requires
        is_perm(order, cities.len()),
        2 <= cities.len() <= usize::MAX,
        has_distinct_pair(cities),
    ensures
        cost_of(order, cities) >= 1,
{
    lemma_cost_from_nonneg(order, cities, 0);
    if cost_of(order, cities) == 0 {
        lemma_zero_cost_coords(order, cities, 0);
        let (i0, j0) = choose|i0: int, j0: int|
            0 <= i0 < cities.len() && 0 <= j0 < cities.len() && !same_point(
                cities[i0],
                cities[j0],
            );
        assert(order.contains(i0 as usize));
        assert(order.contains(j0 as usize));
        let pi = choose|pi: int| 0 <= pi < order.len() && order[pi] == i0 as usize;
        let pj = choose|pj: int| 0 <= pj < order.len() && order[pj] == j0 as usize;
        assert(same_point(cities[order[pi] as int], cities[order[0] as int]));
        assert(same_point(cities[order[pj] as int], cities[order[0] as int]));
        assert(false);
    }
}

/// The entries a crossover child takes from the father: the father's
/// entries not already contributed by the mother's prefix, in the
/// father's own order.
pub open spec fn keep_missing(father: Seq<usize>, prefix: Seq<usize>) -> Seq<usize>
    decreases father.len(),
{
    if father.len() == 0 {
        Seq::empty()
    } else {
        keep_missing(father.drop_last(), prefix) + (if prefix.contains(father.last()) {
            Seq::empty()
        } else {
            seq![father.last()]
        })
    }
}

/// Ordered crossover with a single cut point: the mother's prefix up to
/// `cut`, then the father's remaining entries in the father's order.
pub open spec fn crossover_spec(mother: Seq<usize>, father: Seq<usize>, cut: int) -> Seq<usize> {
    mother.take(cut) + keep_missing(father, mother.take(cut))
}

/// What `keep_missing` holds: exactly the father's entries outside the
/// prefix, without duplicates if the father had none.
pub proof fn lemma_keep_missing_props(father: Seq<usize>, prefix: Seq<usize>)
    ensures
        forall|x: usize|
            #[trigger] keep_missing(father, prefix).contains(x) <==> (father.contains(x)
                && !prefix.contains(x)),
        father.no_duplicates() ==> keep_missing(father, prefix).no_duplicates(),
    decreases father.len(),
{
    if father.len() > 0 {
        let head = father.drop_last();
        lemma_keep_missing_props(head, prefix);
        let km = keep_missing(father, prefix);
        let kmh = keep_missing(head, prefix);
        assert forall|x: usize| #[trigger] km.contains(x) implies (father.contains(x)
            && !prefix.contains(x)) by {
            let i = choose|i: int| 0 <= i < km.len() && km[i] == x;
            if i < kmh.len() {
                assert(kmh.contains(x));
                let j = choose|j: int| 0 <= j < head.len() && head[j] == x;
                assert(father[j] == x);
            } else {
                assert(x == father.last());
                assert(father[father.len() - 1] == x);
            }
        }
        assert forall|x: usize| (father.contains(x) && !prefix.contains(x)) implies #[trigger] km
            .contains(x) by {
            let i = choose|i: int| 0 <= i < father.len() && father[i] == x;
            if i < father.len() - 1 {
                assert(head[i] == x);
                assert(head.contains(x));
                assert(kmh.contains(x));
                let j = choose|j: int| 0 <= j < kmh.len() && kmh[j] == x;
                assert(km[j] == x);
            } else {
                assert(!prefix.contains(father.last()));
                assert(km[km.len() - 1] == x);
            }
        }
        if father.no_duplicates() {
            assert(head.no_duplicates());
            assert forall|i: int, j: int|
                0 <= i < km.len() && 0 <= j < km.len() && i != j implies km[i] != km[j] by {
                if i < kmh.len() && j < kmh.len() {
                    assert(km[i] == kmh[i] && km[j] == kmh[j]);
                } else if i < kmh.len() {
                    assert(km[j] == father.last());
                    assert(kmh.contains(kmh[i]));
                    assert(head.contains(km[i]));
                    let t = choose|t: int| 0 <= t < head.len() && head[t] == km[i];
                    assert(father[t] == km[i]);
                    assert(father[t] != father.last());
                } else if j < kmh.len() {
                    assert(km[i] == father.last());
                    assert(kmh.contains(kmh[j]));
                    assert(head.contains(km[j]));
                    let t = choose|t: int| 0 <= t < head.len() && head[t] == km[j];
                    assert(father[t] == km[j]);
                    assert(father[t] != father.last());
                }
            }
        }
    }
}

/// Against an empty prefix nothing is dropped: the child is the father.
pub proof fn lemma_keep_missing_empty_prefix(father: Seq<usize>, prefix: Seq<usize>)
    requires
        prefix.len() == 0,
    ensures
        keep_missing(father, prefix) == father,
    decreases father.len(),
{
    if father.len() == 0 {
        assert(keep_missing(father, prefix) =~= father);
    } else {
        lemma_keep_missing_empty_prefix(father.drop_last(), prefix);
        assert(!prefix.contains(father.last()));
        assert(keep_missing(father, prefix) =~= father.drop_last() + seq![father.last()]);
        assert(father.drop_last() + seq![father.last()] =~= father);
    }
}

/// Against a prefix that already holds every entry, nothing is kept.
pub proof fn lemma_keep_missing_all_covered(father: Seq<usize>, prefix: Seq<usize>)
    requires
        forall|i: int| 0 <= i < father.len() ==> prefix.contains(#[trigger] father[i]),
    ensures
        keep_missing(father, prefix) == Seq::<usize>::empty(),
    decreases father.len(),
{
    if father.len() > 0 {
        lemma_keep_missing_all_covered(father.drop_last(), prefix);
        assert(prefix.contains(father[father.len() - 1]));
        assert(keep_missing(father, prefix) =~= Seq::<usize>::empty());
    }
}

/// The crossover of two tours over the same `n` cities is again a
/// permutation of those cities, at every cut point.
pub proof fn lemma_crossover_perm(mother: Seq<usize>, father: Seq<usize>, cut: int, n: nat)
    requires
        is_perm(mother, n),
        is_perm(father, n),
        0 <= cut <= n,
        n <= usize::MAX,
    ensures
        is_perm(crossover_spec(mother, father, cut), n),
{
    let prefix = mother.take(cut);
    let km = keep_missing(father, prefix);
    let child = crossover_spec(mother, father, cut);
    lemma_keep_missing_props(father, prefix);
    assert(prefix.no_duplicates());
    assert(child.no_duplicates()) by {
        assert forall|i: int, j: int|
            0 <= i < child.len() && 0 <= j < child.len() && i != j implies child[i]
            != child[j] by {
            if i < cut && j < cut {
                assert(child[i] == mother[i] && child[j] == mother[j]);
            } else if i >= cut && j >= cut {
                assert(child[i] == km[i - cut] && child[j] == km[j - cut]);
            } else if i < cut {
                assert(child[i] == prefix[i]);
                assert(prefix.contains(child[i]));
                assert(child[j] == km[j - cut]);
                assert(km.contains(child[j]));
            } else {
                assert(child[j] == prefix[j]);
                assert(prefix.contains(child[j]));
                assert(child[i] == km[i - cut]);
                assert(km.contains(child[i]));
            }
        }
    }
    assert forall|i: int| 0 <= i < child.len() implies (#[trigger] child[i]) < n by {
        if i < cut {
            assert(child[i] == mother[i]);
        } else {
            assert(child[i] == km[i - cut]);
            assert(km.contains(child[i]));
            assert(father.contains(child[i]));
            let t = choose|t: int| 0 <= t < father.len() && father[t] == child[i];
            assert(father[t] < n);
        }
    }
    assert forall|k: int| 0 <= k < n implies #[trigger] child.contains(k as usize) by {
        assert(father.contains(k as usize));
        if prefix.contains(k as usize) {
            let t = choose|t: int| 0 <= t < prefix.len() && prefix[t] == k as usize;
            assert(child[t] == k as usize);
        } else {
            assert(km.contains(k as usize));
            let t = choose|t: int| 0 <= t < km.len() && km[t] == k as usize;
            assert(child[cut + t] == k as usize);
        }
    }
    lemma_perm_len(child, n);
}

/// Cut point zero: the child is exactly the father's order.
pub proof fn lemma_crossover_cut_zero(mother: Seq<usize>, father: Seq<usize>)
    ensures
        crossover_spec(mother, father, 0) == father,
{
    let prefix = mother.take(0);
    lemma_keep_missing_empty_prefix(father, prefix);
    assert(crossover_spec(mother, father, 0) =~= father);
}

/// Cut point `len(mother)`: the child is exactly the mother's order.
pub proof fn lemma_crossover_cut_full(mother: Seq<usize>, father: Seq<usize>, n: nat)
    requires
        is_perm(mother, n),
        is_perm(father, n),
    ensures
        crossover_spec(mother, father, mother.len() as int) == mother,
{
    let prefix = mother.take(mother.len() as int);
    assert(prefix =~= mother);
    assert forall|i: int| 0 <= i < father.len() implies prefix.contains(
        #[trigger] father[i],
    ) by {
        assert(father[i] < n);
        assert(mother.contains(father[i] as int as usize));
        assert(father[i] as int as usize == father[i]);
    }
    lemma_keep_missing_all_covered(father, prefix);
    assert(crossover_spec(mother, father, mother.len() as int) =~= mother);
}

/// A candidate solution: a permutation of the city indices and its cached
/// total travel cost. The shorter the cost, the fitter the tour (fitness
/// is the inverse of the cost, so comparisons simply flip).
pub struct Tour {
    pub order: Vec<usize>,
    pub cost: u64,
}

/// An element-by-element copy of an ordering.
pub fn clone_order(v: &Vec<usize>) -> (r: Vec<usize>)
    ensures
        r@ == v@,
{
    let mut r: Vec<usize> = Vec::new();
    let mut i: usize = 0;
    while i < v.len()
        invariant
            i <= v@.len(),
            r@ == v@.take(i as int),
        decreases v@.len() - i,
    {
        r.push(v[i]);
        proof {
            assert(r@ =~= v@.take(i as int + 1));
        }
        i = i + 1;
    }
    proof {
        assert(v@.take(i as int) =~= v@);
    }
    r
}

/// `x` appears among the first `len` entries of `v`.
fn contains_in_prefix(v: &Vec<usize>, len: usize, x: usize) -> (r: bool)
    requires
        len <= v@.len(),
    ensures
        r == v@.take(len as int).contains(x),
{
    let mut k: usize = 0;
    while k < len
        invariant
            k <= len <= v@.len(),
            forall|t: int| 0 <= t < k ==> v@[t] != x,
        decreases len - k,
    {
        if v[k] == x {
            proof {
                assert(v@.take(len as int)[k as int] == x);
            }
            return true;
        }
        k = k + 1;
    }
    proof {
        if v@.take(len as int).contains(x) {
            let t = choose|t: int| 0 <= t < len && v@.take(len as int)[t] == x;
            assert(v@[t] == x);
        }
    }
    false
}

impl Tour {
    /// The invariants every tour preserves: its order is a permutation of
    /// the city indices, and its cached cost matches its order.
    pub open spec fn wf(self, cities: Seq<City>) -> bool {
        &&& is_perm(self.order@, cities.len())
        &&& self.cost as int == cost_of(self.order@, cities)
    }

    /// An owned copy of this tour.
    pub fn duplicate(&self) -> (t: Tour)
        ensures
            t.order@ == self.order@,
            t.cost == self.cost,
    {
        Tour { order: clone_order(&self.order), cost: self.cost }
    }

    /// Total travel cost of visiting the cities in `order`, walked edge by
    /// edge. The fitness of the tour is the inverse of this value.
    pub fn calculate_cost(order: &Vec<usize>, city_list: &Vec<City>) -> (c: u64)
        requires
            cities_ok(city_list@),
            is_perm(order@, city_list@.len()),
        ensures
            c as int == cost_of(order@, city_list@),
            c <= MAX_COST,
    {
        let n = city_list.len();
        let mut total: u64 = 0;
        let mut i: usize = 0;
        while i + 1 < n
            invariant
                cities_ok(city_list@),
                is_perm(order@, city_list@.len()),
                n == city_list@.len(),
                i <= n - 1,
                total as int + cost_from(order@, city_list@, i as int) == cost_of(
                    order@,
                    city_list@,
                ),
                total as int <= i as int * MAX_EDGE,
            decreases n - i,
        {
            let oi = order[i];
            let oj = order[i + 1];
            let d = dist(&city_list[oi], &city_list[oj]);
            proof {
                assert(i as int * MAX_EDGE + MAX_EDGE == (i + 1) as int * MAX_EDGE)
                    by (nonlinear_arith);
                assert((i + 1) as int * MAX_EDGE <= (MAX_CITIES - 1) as int * MAX_EDGE)
                    by (nonlinear_arith)
                    requires i + 1 <= MAX_CITIES - 1;
            }
            total = total + d;
            i = i + 1;
        }
        proof {
            assert(cost_from(order@, city_list@, i as int) == 0);
            lemma_cost_from_nonneg(order@, city_list@, 0);
            assert(i as int * MAX_EDGE <= (MAX_CITIES - 1) as int * MAX_EDGE)
                by (nonlinear_arith)
                requires i <= MAX_CITIES - 1;
        }
        total
    }

    /// Ordered crossover: the mother's prefix up to `cut`, then every
    /// entry of the father not in that prefix, in the father's order.
    pub fn crossover(mother: &Vec<usize>, father: &Vec<usize>, cut: usize) -> (child: Vec<
        usize,
    >)
        requires
            cut <= mother@.len(),
        ensures
            child@ == crossover_spec(mother@, father@, cut as int),
    {
        let ghost prefix = mother@.take(cut as int);
        let mut child: Vec<usize> = Vec::new();
        let mut i: usize = 0;
        while i < cut
            invariant
                i <= cut <= mother@.len(),
                child@ == mother@.take(i as int),
            decreases cut - i,
        {
            child.push(mother[i]);
            proof {
                assert(child@ =~= mother@.take(i as int + 1));
            }
            i = i + 1;
        }
        let mut j: usize = 0;
        while j < father.len()
            invariant
                j <= father@.len(),
                cut <= mother@.len(),
                prefix == mother@.take(cut as int),
                child@ == prefix + keep_missing(father@.take(j as int), prefix),
            decreases father@.len() - j,
        {
            let d = father[j];
            proof {
                assert(father@.take(j as int + 1).drop_last() =~= father@.take(j as int));
                assert(father@.take(j as int + 1).last() == father@[j as int]);
            }
            if !contains_in_prefix(mother, cut, d) {
                child.push(d);
                proof {
                    assert(child@ =~= prefix + keep_missing(father@.take(j as int + 1), prefix));
                }
            } else {
                proof {
                    assert(child@ =~= prefix + keep_missing(father@.take(j as int + 1), prefix));
                }
            }
            j = j + 1;
        }
        proof {
            assert(father@.take(j as int) =~= father@);
        }
        child
    }

    /// Produce one offspring of `self` (the mother) and `other` (the
    /// father) by ordered crossover at a random cut point, with its
    /// fitness bookkeeping computed immediately. Neither parent changes.
    pub fn breed(&self, other: &Tour, city_list: &Vec<City>) -> (child: Tour)
        requires
            cities_ok(city_list@),
            self.wf(city_list@),
            other.wf(city_list@),
        ensures
            child.wf(city_list@),
            exists|cut: int|
                0 <= cut < city_list@.len() && child.order@ == crossover_spec(
                    self.order@,
                    other.order@,
                    cut,
                ),
    {
        let cut = rand_below(self.order.len());
        let order = Tour::crossover(&self.order, &other.order, cut);
        proof {
            lemma_crossover_perm(self.order@, other.order@, cut as int, city_list@.len());
        }
        let cost = Tour::calculate_cost(&order, city_list);
        let child = Tour { order, cost };
        proof {
            assert((cut as int) < city_list@.len() && child.order@ == crossover_spec(
                self.order@,
                other.order@,
                cut as int,
            ));
        }
        child
    }

    /// Swap two uniformly chosen positions of the order (they may
    /// coincide, leaving the tour unchanged) and recompute the cost.
    pub fn mutate(&mut self, city_list: &Vec<City>)
        requires
            cities_ok(city_list@),
            old(self).wf(city_list@),
        ensures
            final(self).wf(city_list@),
            exists|p1: int, p2: int|
                {
                    &&& 0 <= p1 < old(self).order@.len()
                    &&& 0 <= p2 < old(self).order@.len()
                    &&& final(self).order@ == old(self).order@.update(
                        p1,
                        old(self).order@[p2],
                    ).update(p2, old(self).order@[p1])
                },
    {
        let p1 = rand_below(self.order.len());
        let p2 = rand_below(self.order.len());
        let a = self.order[p1];
        let b = self.order[p2];
        self.order.set(p1, b);
        self.order.set(p2, a);
        proof {
            lemma_swap_preserves_perm(
                old(self).order@,
                city_list@.len(),
                p1 as int,
                p2 as int,
            );
        }
        let c = Tour::calculate_cost(&self.order, city_list);
        self.cost = c;
        proof {
            let ghost before = old(self).order@;
            assert((p1 as int) < before.len() && (p2 as int) < before.len() && self.order@
                == before.update(p1 as int, before[p2 as int]).update(
                p2 as int,
                before[p1 as int],
            ));
        }
    }
}

} // verus!
