use vstd::prelude::*;
use vstd::multiset::Multiset;

use crate::city::{cities_ok, has_distinct_pair, same_point, City, MAX_CITIES};
use crate::perm::{ident, is_perm, lemma_ident_is_perm, lemma_multiset_equal_perm};
use crate::rng::{rand_below, shuffle};
use crate::tour::{clone_order, cost_of, lemma_cost_positive, Tour};

verus! {

/// Scale of the three configuration rates: a rate of `RATE_SCALE` is 1.0.
pub const RATE_SCALE: u64 = 1_000_000;

/// Largest population size a simulation accepts.
pub const MAX_POP: usize = 1_000_000;

/// Why a configuration was rejected before the simulation started.
#[derive(PartialEq, Eq, Structural, Clone, Copy, Debug)]
pub enum ConfigError {
    /// Fewer than two cities: a tour has no edge to travel.
    TooFewCities,
    /// No two cities lie at distinct points: every tour would cost zero
    /// and fitness, the inverse of cost, would be undefined.
    CitiesCoincide,
    /// The breeding pool would be empty: no offspring could be produced.
    EmptyBreedingPool,
    /// Elites and weak carry-overs would leave no room in the population.
    PopulationTooSmall,
}

/// Size of the breeding pool: the fraction `crossover_rate / RATE_SCALE`
/// of the population, rounded down.
pub open spec fn breeding_count_spec(pop: int, crossover_rate: u64) -> int {
    (pop * crossover_rate as int) / (RATE_SCALE as int)
}

/// Number of breeding-pool members carried over unchanged as elites: the
/// fraction `survival_rate / RATE_SCALE` of the pool, rounded down.
pub open spec fn elite_count_spec(pop: int, crossover_rate: u64, survival_rate: u64) -> int {
    (breeding_count_spec(pop, crossover_rate) * survival_rate as int) / (RATE_SCALE as int)
}

/// Number of the weakest members of the ranked population carried over
/// unchanged each generation, to preserve genetic diversity.
pub const SURVIVING_WEAK_COUNT: usize = 2;

/// Applying a rate never selects more members than there are.
proof fn lemma_rate_floor(v: int, rate: u64)
    requires
        v >= 0,
        rate <= RATE_SCALE,
    ensures
        0 <= (v * rate as int) / (RATE_SCALE as int) <= v,
{
    let s = RATE_SCALE as int;
    let p = v * rate as int;
    assert(0 <= v * (rate as int) && v * (rate as int) <= v * (RATE_SCALE as int))
        by (nonlinear_arith)
        requires
            v >= 0,
            0 <= rate as int <= RATE_SCALE as int,
    ;
    vstd::arithmetic::div_mod::lemma_div_pos_is_pos(p, s);
    vstd::arithmetic::div_mod::lemma_div_is_ordered(p, v * s, s);
    vstd::arithmetic::div_mod::lemma_div_by_multiple(v, s);
}

/// The number of members a configuration rate selects out of `v`:
/// `v * rate / RATE_SCALE`, rounded down.
fn apply_rate(v: usize, rate: u64) -> (r: usize)
    requires
        v <= MAX_POP,
        rate <= RATE_SCALE,
    ensures
        r as int == (v as int * rate as int) / (RATE_SCALE as int),
        r <= v,
{
    proof {
        lemma_rate_floor(v as int, rate);
        assert(v as int * rate as int <= MAX_POP as int * RATE_SCALE as int) by (nonlinear_arith)
            requires
                v <= MAX_POP,
                rate <= RATE_SCALE,
        ;
    }
    let wide: u64 = (v as u64 * rate) / RATE_SCALE;
    wide as usize
}

/// The first tour of least cost (the greatest fitness) in a population.
pub open spec fn fittest_of(pop: Seq<Tour>) -> Tour
    decreases pop.len(),
{
    if pop.len() <= 1 {
        pop[0]
    } else {
        let rest = fittest_of(pop.drop_last());
        if pop.last().cost < rest.cost {
            pop.last()
        } else {
            rest
        }
    }
}

/// Two tours with the same order and the same cost.
pub open spec fn tour_like(a: Tour, b: Tour) -> bool {
    a.order@ == b.order@ && a.cost == b.cost
}

/// The fittest tour is a member of the population and none beats it.
pub proof fn lemma_fittest_of_props(pop: Seq<Tour>)
    requires
        pop.len() >= 1,
    ensures
        pop.contains(fittest_of(pop)),
        forall|i: int| 0 <= i < pop.len() ==> fittest_of(pop).cost <= (#[trigger] pop[i]).cost,
    decreases pop.len(),
{
    if pop.len() == 1 {
        assert(pop[0] == fittest_of(pop));
    } else {
        let head = pop.drop_last();
        lemma_fittest_of_props(head);
        if !(pop.last().cost < fittest_of(head).cost) {
            let t = choose|t: int| 0 <= t < head.len() && head[t] == fittest_of(head);
            assert(pop[t] == fittest_of(pop));
        }
        assert forall|i: int| 0 <= i < pop.len() implies fittest_of(pop).cost <= (
        #[trigger] pop[i]).cost by {
            if i < pop.len() - 1 {
                assert(pop[i] == head[i]);
            } else {
                assert(pop[i] == pop.last());
            }
        }
    }
}

/// The population is ordered from fittest (least cost) to weakest.
pub open spec fn ranked_by_cost(pop: Seq<Tour>) -> bool {
    forall|i: int, j: int| 0 <= i <= j < pop.len() ==> pop[i].cost <= pop[j].cost
}

/// `t` is `s` after one swap of two positions, with its cost recomputed:
/// what one application of mutation does to a tour.
pub open spec fn mutated_once(t: Tour, s: Tour, cities: Seq<City>) -> bool {
    exists|p1: int, p2: int|
        {
            &&& 0 <= p1 < s.order@.len()
            &&& 0 <= p2 < s.order@.len()
            &&& t.order@ == s.order@.update(p1, s.order@[p2]).update(p2, s.order@[p1])
            &&& t.cost == cost_of(t.order@, cities)
        }
}

/// `child` was bred by ordered crossover from the mother `ranked[m]` and
/// some member of the breeding pool `ranked[..bc]`, at some cut point,
/// with its cost computed immediately.
pub open spec fn breeding_of(
    child: Tour,
    ranked: Seq<Tour>,
    m: int,
    bc: int,
    cities: Seq<City>,
) -> bool {
    &&& 0 <= m < bc <= ranked.len()
    &&& exists|f: int, cut: int|
        {
            &&& 0 <= f < bc
            &&& 0 <= cut < cities.len()
            &&& child.order@ == crate::tour::crossover_spec(
                ranked[m].order@,
                ranked[f].order@,
                cut,
            )
        }
    &&& child.cost == cost_of(child.order@, cities)
}

/// How one generation is assembled from the ranked old population before
/// the mutation sweep: the elites verbatim, then offspring bred from the
/// pool with the mother index sweeping the pool cyclically, then the two
/// weakest members of the ranked population verbatim.
pub open spec fn assembled_from(
    assembled: Seq<Tour>,
    ranked: Seq<Tour>,
    crossover_rate: u64,
    survival_rate: u64,
    cities: Seq<City>,
) -> bool {
    let pop = ranked.len() as int;
    let bc = breeding_count_spec(pop, crossover_rate);
    let ec = elite_count_spec(pop, crossover_rate, survival_rate);
    &&& assembled.len() == pop
    &&& forall|k: int| 0 <= k < ec ==> tour_like(#[trigger] assembled[k], ranked[k])
    &&& forall|k: int|
        ec <= k < pop - SURVIVING_WEAK_COUNT ==> breeding_of(
            #[trigger] assembled[k],
            ranked,
            (k - ec) % bc,
            bc,
            cities,
        )
    &&& tour_like(assembled[pop - 2], ranked[pop - 2])
    &&& tour_like(assembled[pop - 1], ranked[pop - 1])
}

/// What one generational step leaves behind: some ranking of the old
/// population was assembled into elites, offspring and weak carry-overs,
/// and each member of the new population is that assembled tour, either
/// untouched or mutated once.
pub open spec fn next_generation_of(
    newpop: Seq<Tour>,
    oldpop: Seq<Tour>,
    crossover_rate: u64,
    survival_rate: u64,
    cities: Seq<City>,
) -> bool {
    exists|ranked: Seq<Tour>, assembled: Seq<Tour>|
        {
            &&& ranked.to_multiset() == oldpop.to_multiset()
            &&& ranked_by_cost(ranked)
            &&& #[trigger] assembled_from(assembled, ranked, crossover_rate, survival_rate, cities)
            &&& newpop.len() == assembled.len()
            &&& forall|k: int|
                0 <= k < assembled.len() ==> (newpop[k] == #[trigger] assembled[k]
                    || mutated_once(newpop[k], assembled[k], cities))
        }
}

/// One step of best-tour tracking: keep the fitter of the running best
/// and this generation's challenger. The tracked best fitness never
/// decreases (its cost never increases), and the result is always one of
/// the two.
pub fn better_of(best: Tour, challenger: Tour) -> (r: Tour)
    ensures
        r.cost <= best.cost,
        r.cost <= challenger.cost,
        r == best || r == challenger,
{
    if challenger.cost < best.cost {
        challenger
    } else {
        best
    }
}

/// Index of a tour of least cost in `v` (the first such index).
fn min_cost_index(v: &Vec<Tour>) -> (m: usize)
    requires
        v@.len() >= 1,
    ensures
        m < v@.len(),
        forall|j: int| 0 <= j < v@.len() ==> v@[m as int].cost <= (#[trigger] v@[j]).cost,
{
    let mut m: usize = 0;
    let mut i: usize = 1;
    while i < v.len()
        invariant
            m < i <= v@.len(),
            forall|j: int| 0 <= j < i ==> v@[m as int].cost <= (#[trigger] v@[j]).cost,
        decreases v@.len() - i,
    {
        if v[i].cost < v[m].cost {
            m = i;
        }
        i = i + 1;
    }
    m
}

/// Rank a population from fittest (least cost) to weakest: the same
/// multiset of tours, in non-decreasing cost order.
fn rank_by_cost(pop: Vec<Tour>) -> (r: Vec<Tour>)
    ensures
        r@.len() == pop@.len(),
        r@.to_multiset() == pop@.to_multiset(),
        forall|i: int, j: int| 0 <= i <= j < r@.len() ==> r@[i].cost <= r@[j].cost,
        forall|i: int| 0 <= i < r@.len() ==> pop@.contains(#[trigger] r@[i]),
{
    broadcast use vstd::seq_lib::group_to_multiset_ensures;
    broadcast use vstd::multiset::group_multiset_axioms;

    let ghost orig = pop@;
    let mut work = pop;
    let mut out: Vec<Tour> = Vec::new();
    while work.len() > 0
        invariant
            out@.len() + work@.len() == orig.len(),
            out@.to_multiset().add(work@.to_multiset()) == orig.to_multiset(),
            forall|i: int, j: int| 0 <= i <= j < out@.len() ==> out@[i].cost <= out@[j].cost,
            forall|i: int, j: int|
                #![trigger out@[i], work@[j]]
                0 <= i < out@.len() && 0 <= j < work@.len() ==> out@[i].cost <= work@[j].cost,
            forall|i: int| 0 <= i < out@.len() ==> orig.contains(#[trigger] out@[i]),
            forall|j: int| 0 <= j < work@.len() ==> orig.contains(#[trigger] work@[j]),
        decreases work@.len(),
    {
        let ghost out_before = out@;
        let ghost work_before = work@;
        let m = min_cost_index(&work);
        let t = work.remove(m);
        out.push(t);
        proof {
            broadcast use vstd::seq_lib::group_to_multiset_ensures;
            broadcast use vstd::multiset::group_multiset_axioms;

            assert(work@ == work_before.remove(m as int));
            assert(out@ == out_before.push(t));
            assert(work_before.remove(m as int).to_multiset() =~= work_before.to_multiset()
                .remove(t));
            assert(out_before.push(t).to_multiset() =~= out_before.to_multiset().insert(t));
            assert(work_before.contains(t));
            assert(work_before.to_multiset().count(t) > 0);
            assert(out@.to_multiset().add(work@.to_multiset()) =~= orig.to_multiset());
            assert forall|j: int| 0 <= j < work@.len() implies orig.contains(
                #[trigger] work@[j],
            ) by {
                if j < m {
                    assert(work@[j] == work_before[j]);
                } else {
                    assert(work@[j] == work_before[j + 1]);
                }
            }
            assert forall|i: int, j: int|
                #![trigger out@[i], work@[j]]
                0 <= i < out@.len() && 0 <= j < work@.len() implies out@[i].cost
                <= work@[j].cost by {
                if j < m {
                    assert(work@[j] == work_before[j]);
                } else {
                    assert(work@[j] == work_before[j + 1]);
                }
                if i < out_before.len() {
                    assert(out@[i] == out_before[i]);
                } else {
                    assert(out@[i] == t);
                }
            }
        }
    }
    proof {
        assert(work@.to_multiset() =~= Multiset::<Tour>::empty());
        assert(out@.to_multiset() =~= orig.to_multiset());
    }
    out
}

/// The evolutionary simulation: a population of candidate tours over a
/// fixed city list, evolved one generation at a time.
pub struct Simulation {
    pub population: Vec<Tour>,
    pub city_list: Vec<City>,
    pub max_iterations: usize,
    pub crossover_rate: u64,
    pub mutation_rate: u64,
    pub survival_rate: u64,
}

impl Simulation {
    /// What every simulation preserves: a usable city list with two
    /// distinct points, a population of well-formed tours whose size
    /// never changes, rates within scale, a non-empty breeding pool, and
    /// room for offspring next to the carried-over members.
    pub open spec fn wf(self) -> bool {
        &&& cities_ok(self.city_list@)
        &&& has_distinct_pair(self.city_list@)
        &&& 2 <= self.population@.len() <= MAX_POP
        &&& forall|i: int|
            0 <= i < self.population@.len() ==> (#[trigger] self.population@[i]).wf(
                self.city_list@,
            )
        &&& self.crossover_rate <= RATE_SCALE
        &&& self.mutation_rate <= RATE_SCALE
        &&& self.survival_rate <= RATE_SCALE
        &&& breeding_count_spec(self.population@.len() as int, self.crossover_rate) >= 1
        &&& elite_count_spec(
            self.population@.len() as int,
            self.crossover_rate,
            self.survival_rate,
        ) + SURVIVING_WEAK_COUNT <= self.population@.len()
    }

    /// Build a simulation: validate the configuration, then create the
    /// initial population of random permutations. Returns an error, and
    /// never starts, on exactly the degenerate configurations: fewer than
    /// two cities, no two distinct cities, an empty breeding pool, or a
    /// population too small to hold the carried-over members.
    pub fn new(
        population_size: usize,
        cities: Vec<City>,
        max_iterations: usize,
        crossover_rate: u64,
        mutation_rate: u64,
        survival_rate: u64,
    ) -> (r: Result<Simulation, ConfigError>)
        requires
            population_size <= MAX_POP,
            cities@.len() <= MAX_CITIES,
            forall|i: int| 0 <= i < cities@.len() ==> (#[trigger] cities@[i]).in_range(),
            crossover_rate <= RATE_SCALE,
            mutation_rate <= RATE_SCALE,
            survival_rate <= RATE_SCALE,
        ensures
            r is Ok <==> {
                &&& cities@.len() >= 2
                &&& has_distinct_pair(cities@)
                &&& breeding_count_spec(population_size as int, crossover_rate) >= 1
                &&& elite_count_spec(population_size as int, crossover_rate, survival_rate)
                    + SURVIVING_WEAK_COUNT <= population_size
            },
            match r {
                Ok(sim) => {
                    &&& sim.wf()
                    &&& sim.city_list@ == cities@
                    &&& sim.population@.len() == population_size
                    &&& sim.max_iterations == max_iterations
                    &&& sim.crossover_rate == crossover_rate
                    &&& sim.mutation_rate == mutation_rate
                    &&& sim.survival_rate == survival_rate
                },
                Err(e) => e == (if cities@.len() < 2 {
                    ConfigError::TooFewCities
                } else if !has_distinct_pair(cities@) {
                    ConfigError::CitiesCoincide
                } else if breeding_count_spec(population_size as int, crossover_rate) < 1 {
                    ConfigError::EmptyBreedingPool
                } else {
                    ConfigError::PopulationTooSmall
                }),
            },
    {
        if cities.len() < 2 {
            return Err(ConfigError::TooFewCities);
        }
        let mut distinct = false;
        let mut i: usize = 1;
        while i < cities.len()
            invariant
                1 <= i <= cities@.len(),
                distinct ==> has_distinct_pair(cities@),
                !distinct ==> forall|j: int|
                    0 <= j < i ==> same_point(#[trigger] cities@[j], cities@[0]),
            decreases cities@.len() - i,
        {
            if cities[i].x != cities[0].x || cities[i].y != cities[0].y {
                distinct = true;
                proof {
                    assert(!same_point(cities@[i as int], cities@[0]));
                }
            }
            i = i + 1;
        }
        if !distinct {
            proof {
                if has_distinct_pair(cities@) {
                    let (a, b) = choose|a: int, b: int|
                        0 <= a < cities@.len() && 0 <= b < cities@.len() && !same_point(
                            cities@[a],
                            cities@[b],
                        );
                    assert(same_point(cities@[a], cities@[0]));
                    assert(same_point(cities@[b], cities@[0]));
                }
            }
            return Err(ConfigError::CitiesCoincide);
        }
        let breeding_count: usize = apply_rate(population_size, crossover_rate);
        if breeding_count < 1 {
            return Err(ConfigError::EmptyBreedingPool);
        }
        let elite_count: usize = apply_rate(breeding_count, survival_rate);
        proof {
            assert(elite_count as int == elite_count_spec(
                population_size as int,
                crossover_rate,
                survival_rate,
            ));
        }
        if elite_count + SURVIVING_WEAK_COUNT > population_size {
            return Err(ConfigError::PopulationTooSmall);
        }
        let population = Simulation::initial_population(&cities, population_size);
        Ok(
            Simulation {
                population,
                city_list: cities,
                max_iterations,
                crossover_rate,
                mutation_rate,
                survival_rate,
            },
        )
    }

    /// `population_count` independently shuffled permutations of the city
    /// indices, each with its cost computed immediately.
    pub fn initial_population(city_list: &Vec<City>, population_count: usize) -> (pop: Vec<
        Tour,
    >)
        requires
            cities_ok(city_list@),
        ensures
            pop@.len() == population_count,
            forall|i: int| 0 <= i < pop@.len() ==> (#[trigger] pop@[i]).wf(city_list@),
    {
        let n = city_list.len();
        let mut base: Vec<usize> = Vec::new();
        let mut i: usize = 0;
        while i < n
            invariant
                i <= n,
                base@ == ident(i as nat),
            decreases n - i,
        {
            base.push(i);
            proof {
                assert(base@ =~= ident(i as nat + 1));
            }
            i = i + 1;
        }
        proof {
            lemma_ident_is_perm(n as nat);
        }
        let mut pop: Vec<Tour> = Vec::new();
        let mut c: usize = 0;
        while c < population_count
            invariant
                c <= population_count,
                pop@.len() == c,
                cities_ok(city_list@),
                n == city_list@.len(),
                is_perm(base@, n as nat),
                forall|k: int| 0 <= k < pop@.len() ==> (#[trigger] pop@[k]).wf(city_list@),
            decreases population_count - c,
        {
            let mut p = clone_order(&base);
            shuffle(&mut p);
            proof {
                lemma_multiset_equal_perm(base@, p@, n as nat);
            }
            let cost = Tour::calculate_cost(&p, city_list);
            pop.push(Tour { order: p, cost });
            c = c + 1;
        }
        pop
    }

    /// The first tour of greatest fitness (least cost) in the current
    /// population, as an owned copy.
    pub fn find_fittest(&self) -> (best: Tour)
        requires
            self.wf(),
        ensures
            tour_like(best, fittest_of(self.population@)),
            best.wf(self.city_list@),
    {
        let pop = &self.population;
        let mut bi: usize = 0;
        let mut i: usize = 1;
        proof {
            assert(pop@.take(1).drop_last() =~= pop@.take(0));
        }
        while i < pop.len()
            invariant
                1 <= i <= pop@.len(),
                pop@.len() >= 1,
                bi < i,
                pop@[bi as int] == fittest_of(pop@.take(i as int)),
            decreases pop@.len() - i,
        {
            proof {
                assert(pop@.take(i as int + 1).drop_last() =~= pop@.take(i as int));
                assert(pop@.take(i as int + 1).last() == pop@[i as int]);
            }
            if pop[i].cost < pop[bi].cost {
                bi = i;
            }
            i = i + 1;
        }
        proof {
            assert(pop@.take(i as int) =~= pop@);
        }
        let best = self.population[bi].duplicate();
        proof {
            lemma_fittest_of_props(self.population@);
        }
        best
    }

    /// One generational step: rank the population by fitness, carry the
    /// elites and the two weakest members over, breed offspring from the
    /// pool to refill the population, then sweep mutation over the new
    /// generation. The population size never changes.
    #[verifier::loop_isolation(false)]
    pub fn generate_next_generation(&mut self)
        requires
            old(self).wf(),
        ensures
            final(self).wf(),
            final(self).population@.len() == old(self).population@.len(),
            final(self).city_list@ == old(self).city_list@,
            final(self).max_iterations == old(self).max_iterations,
            final(self).crossover_rate == old(self).crossover_rate,
            final(self).mutation_rate == old(self).mutation_rate,
            final(self).survival_rate == old(self).survival_rate,
            next_generation_of(
                final(self).population@,
                old(self).population@,
                old(self).crossover_rate,
                old(self).survival_rate,
                old(self).city_list@,
            ),
    {
        let ghost orig_pop = self.population@;
        let pop_size = self.population.len();
        let mut current: Vec<Tour> = Vec::new();
        core::mem::swap(&mut current, &mut self.population);
        let ranked = rank_by_cost(current);
        proof {
            assert forall|i: int| 0 <= i < ranked@.len() implies (#[trigger] ranked@[i]).wf(
                self.city_list@,
            ) by {
                assert(orig_pop.contains(ranked@[i]));
                let j = choose|j: int| 0 <= j < orig_pop.len() && orig_pop[j] == ranked@[i];
                assert(old(self).population@[j].wf(old(self).city_list@));
            }
        }

        let breeding_count: usize = apply_rate(pop_size, self.crossover_rate);
        let elite_count: usize = apply_rate(breeding_count, self.survival_rate);
        proof {
            assert(elite_count as int == elite_count_spec(
                pop_size as int,
                self.crossover_rate,
                self.survival_rate,
            ));
        }
        let offspring_count: usize = pop_size - elite_count - SURVIVING_WEAK_COUNT;

        let mut next_generation: Vec<Tour> = Vec::new();
        let mut e: usize = 0;
        while e < elite_count
            invariant
                e <= elite_count,
                next_generation@.len() == e,
                forall|k: int|
                    0 <= k < next_generation@.len() ==> (#[trigger] next_generation@[k]).wf(
                        self.city_list@,
                    ),
                forall|k: int|
                    0 <= k < e ==> tour_like(#[trigger] next_generation@[k], ranked@[k]),
            decreases elite_count - e,
        {
            next_generation.push(ranked[e].duplicate());
            e = e + 1;
        }
        let mut o: usize = 0;
        while o < offspring_count
            invariant
                o <= offspring_count,
                next_generation@.len() == elite_count + o,
                forall|k: int|
                    0 <= k < next_generation@.len() ==> (#[trigger] next_generation@[k]).wf(
                        self.city_list@,
                    ),
                forall|k: int|
                    0 <= k < elite_count ==> tour_like(
                        #[trigger] next_generation@[k],
                        ranked@[k],
                    ),
                forall|k: int|
                    elite_count <= k < elite_count + o ==> breeding_of(
                        #[trigger] next_generation@[k],
                        ranked@,
                        (k - elite_count) % (breeding_count as int),
                        breeding_count as int,
                        self.city_list@,
                    ),
            decreases offspring_count - o,
        {
            let rs = rand_below(breeding_count);
            let child = ranked[o % breeding_count].breed(&ranked[rs], &self.city_list);
            proof {
                let m = (o % breeding_count) as int;
                let cutw = choose|cut: int|
                    0 <= cut < self.city_list@.len() && child.order@
                        == crate::tour::crossover_spec(
                        ranked@[m].order@,
                        ranked@[rs as int].order@,
                        cut,
                    );
                assert((rs as int) < breeding_count as int && 0 <= cutw
                    < self.city_list@.len() && child.order@ == crate::tour::crossover_spec(
                    ranked@[m].order@,
                    ranked@[rs as int].order@,
                    cutw,
                ));
                assert(breeding_of(
                    child,
                    ranked@,
                    m,
                    breeding_count as int,
                    self.city_list@,
                ));
                assert((elite_count as int + o as int - elite_count as int) % (
                breeding_count as int) == m);
            }
            next_generation.push(child);
            o = o + 1;
        }
        next_generation.push(ranked[pop_size - 2].duplicate());
        next_generation.push(ranked[pop_size - 1].duplicate());

        let ghost assembled = next_generation@;
        proof {
            assert(assembled_from(
                assembled,
                ranked@,
                self.crossover_rate,
                self.survival_rate,
                self.city_list@,
            ));
        }
        let mut p: usize = 0;
        while p < next_generation.len()
            invariant
                next_generation@.len() == pop_size,
                assembled.len() == pop_size,
                p <= pop_size,
                forall|k: int|
                    0 <= k < next_generation@.len() ==> (#[trigger] next_generation@[k]).wf(
                        self.city_list@,
                    ),
                forall|k: int| p <= k < pop_size ==> next_generation@[k] == assembled[k],
                forall|k: int|
                    0 <= k < p ==> (next_generation@[k] == #[trigger] assembled[k]
                        || mutated_once(next_generation@[k], assembled[k], self.city_list@)),
            decreases next_generation@.len() - p,
        {
            if rand_below(RATE_SCALE as usize) < self.mutation_rate as usize {
                let mut t = next_generation[p].duplicate();
                let ghost before = t;
                t.mutate(&self.city_list);
                proof {
                    let (q1, q2) = choose|q1: int, q2: int|
                        {
                            &&& 0 <= q1 < before.order@.len()
                            &&& 0 <= q2 < before.order@.len()
                            &&& t.order@ == before.order@.update(q1, before.order@[q2]).update(
                                q2,
                                before.order@[q1],
                            )
                        };
                    assert(before.order@ == assembled[p as int].order@);
                    assert(mutated_once(t, assembled[p as int], self.city_list@));
                }
                next_generation.set(p, t);
            }
            p = p + 1;
        }
        self.population = next_generation;
        proof {
            assert(next_generation_of(
                self.population@,
                old(self).population@,
                old(self).crossover_rate,
                old(self).survival_rate,
                old(self).city_list@,
            ));
        }
    }

    /// Run the generational loop for the configured number of iterations
    /// and return the best tour seen across all generations: its cost is
    /// never above any member of the starting population (the tracked
    /// best only improves), it is at least one unit (so its fitness, the
    /// inverse, is well defined), and with zero iterations it is exactly
    /// the fittest member of the starting population.
    #[verifier::loop_isolation(false)]
    pub fn run(&mut self) -> (best: Tour)
        requires
            old(self).wf(),
        ensures
            final(self).wf(),
            final(self).city_list@ == old(self).city_list@,
            best.wf(old(self).city_list@),
            best.cost >= 1,
            best.cost <= fittest_of(old(self).population@).cost,
            old(self).max_iterations == 0 ==> tour_like(
                best,
                fittest_of(old(self).population@),
            ),
    {
        let mut fittest = self.find_fittest();
        let mut it: usize = 0;
        while it < self.max_iterations
            invariant
                it <= self.max_iterations,
                self.wf(),
                self.city_list@ == old(self).city_list@,
                self.max_iterations == old(self).max_iterations,
                fittest.wf(self.city_list@),
                fittest.cost <= fittest_of(old(self).population@).cost,
                it == 0 ==> tour_like(fittest, fittest_of(old(self).population@)),
            decreases self.max_iterations - it,
        {
            self.generate_next_generation();
            let challenger = self.find_fittest();
            fittest = better_of(fittest, challenger);
            it = it + 1;
        }
        proof {
            lemma_cost_positive(fittest.order@, self.city_list@);
        }
        fittest
    }
}

} // verus!
