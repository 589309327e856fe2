use tsp_ga::{City, ConfigError, Simulation, Tour, isqrt};

const RATE_SCALE: u64 = 1_000_000;
const HALF: u64 = 500_000;
const SCALE: i64 = 65_536;

fn unit_square() -> Vec<City> {
    vec![
        City::new(0, 0),
        City::new(0, SCALE),
        City::new(SCALE, SCALE),
        City::new(SCALE, 0),
    ]
}

fn check_perm(order: &[usize], n: usize) {
    assert_eq!(order.len(), n);
    let mut seen = vec![false; n];
    for &x in order {
        assert!(x < n, "index out of range");
        assert!(!seen[x], "duplicate index");
        seen[x] = true;
    }
}

#[test]
fn isqrt_exact_values() {
    assert_eq!(isqrt(0), 0);
    assert_eq!(isqrt(1), 1);
    assert_eq!(isqrt(2), 1);
    assert_eq!(isqrt(3), 1);
    assert_eq!(isqrt(4), 2);
    assert_eq!(isqrt(99), 9);
    assert_eq!(isqrt(100), 10);
    assert_eq!(isqrt(2_000_000_000_000_000_000), 1_414_213_562);
    assert_eq!(isqrt(u64::MAX), 4_294_967_295);
}

#[test]
fn cost_of_right_triangle() {
    // A 3-4-5 right triangle: legs 3 and 4, hypotenuse 5.
    let cities = vec![City::new(0, 0), City::new(3, 0), City::new(3, 4)];
    assert_eq!(Tour::calculate_cost(&vec![0, 1, 2], &cities), 7);
    assert_eq!(Tour::calculate_cost(&vec![1, 0, 2], &cities), 8);
    assert_eq!(Tour::calculate_cost(&vec![0, 2, 1], &cities), 9);
}

#[test]
fn cost_of_square_perimeter() {
    let cities = unit_square();
    // Three unit edges of the square, open path.
    assert_eq!(Tour::calculate_cost(&vec![0, 1, 2, 3], &cities), 3 * SCALE as u64);
    // Two unit edges and one diagonal: floor(sqrt(2) * 65536) = 92681.
    assert_eq!(Tour::calculate_cost(&vec![1, 0, 2, 3], &cities), 2 * SCALE as u64 + 92_681);
}

#[test]
fn crossover_cut_zero_is_father() {
    let mother = vec![0usize, 1, 2, 3, 4];
    let father = vec![4usize, 3, 2, 1, 0];
    assert_eq!(Tour::crossover(&mother, &father, 0), father);
}

#[test]
fn crossover_cut_full_is_mother() {
    let mother = vec![2usize, 0, 3, 1, 4];
    let father = vec![4usize, 3, 2, 1, 0];
    assert_eq!(Tour::crossover(&mother, &father, mother.len()), mother);
}

#[test]
fn crossover_mid_cut_keeps_father_order() {
    let mother = vec![0usize, 1, 2, 3];
    let father = vec![3usize, 2, 1, 0];
    // Prefix [0, 1] from the mother, then 3 and 2 in the father's order.
    assert_eq!(Tour::crossover(&mother, &father, 2), vec![0, 1, 3, 2]);
}

#[test]
fn crossover_is_permutation_at_every_cut() {
    let mother = vec![4usize, 2, 0, 5, 1, 3];
    let father = vec![5usize, 4, 3, 2, 1, 0];
    for cut in 0..=mother.len() {
        let child = Tour::crossover(&mother, &father, cut);
        check_perm(&child, mother.len());
    }
}

#[test]
fn breed_keeps_permutation_and_cost() {
    let cities = unit_square();
    let mother = Tour { order: vec![0, 1, 2, 3], cost: Tour::calculate_cost(&vec![0, 1, 2, 3], &cities) };
    let father = Tour { order: vec![3, 1, 0, 2], cost: Tour::calculate_cost(&vec![3, 1, 0, 2], &cities) };
    for _ in 0..50 {
        let child = mother.breed(&father, &cities);
        check_perm(&child.order, 4);
        assert_eq!(child.cost, Tour::calculate_cost(&child.order, &cities));
    }
    // The parents are untouched.
    assert_eq!(mother.order, vec![0, 1, 2, 3]);
    assert_eq!(father.order, vec![3, 1, 0, 2]);
}

#[test]
fn mutate_keeps_permutation_and_cost() {
    let cities = unit_square();
    let mut t = Tour { order: vec![2, 0, 3, 1], cost: Tour::calculate_cost(&vec![2, 0, 3, 1], &cities) };
    for _ in 0..50 {
        t.mutate(&cities);
        check_perm(&t.order, 4);
        assert_eq!(t.cost, Tour::calculate_cost(&t.order, &cities));
    }
}

#[test]
fn initial_population_tours_are_permutations() {
    let cities = unit_square();
    let pop = Simulation::initial_population(&cities, 25);
    assert_eq!(pop.len(), 25);
    for t in &pop {
        check_perm(&t.order, 4);
        assert_eq!(t.cost, Tour::calculate_cost(&t.order, &cities));
    }
}

#[test]
fn new_rejects_too_few_cities() {
    let cities = vec![City::new(0, 0)];
    match Simulation::new(10, cities, 5, HALF, HALF, HALF) {
        Err(e) => assert_eq!(e, ConfigError::TooFewCities),
        Ok(_) => panic!("configuration accepted"),
    }
}

#[test]
fn new_rejects_coinciding_cities() {
    let cities = vec![City::new(7, 7), City::new(7, 7), City::new(7, 7)];
    match Simulation::new(10, cities, 5, HALF, HALF, HALF) {
        Err(e) => assert_eq!(e, ConfigError::CitiesCoincide),
        Ok(_) => panic!("configuration accepted"),
    }
}

#[test]
fn new_rejects_empty_breeding_pool() {
    match Simulation::new(10, unit_square(), 5, 0, HALF, HALF) {
        Err(e) => assert_eq!(e, ConfigError::EmptyBreedingPool),
        Ok(_) => panic!("configuration accepted"),
    }
}

#[test]
fn new_rejects_population_without_room() {
    // Pool of 2, both kept as elites: 2 elites + 2 weak > population of 2.
    match Simulation::new(2, unit_square(), 5, RATE_SCALE, HALF, RATE_SCALE) {
        Err(e) => assert_eq!(e, ConfigError::PopulationTooSmall),
        Ok(_) => panic!("configuration accepted"),
    }
}

#[test]
fn population_size_is_invariant_across_generations() {
    let mut sim = Simulation::new(30, unit_square(), 0, HALF, 50_000, HALF)
        .ok()
        .expect("valid configuration");
    for _ in 0..10 {
        sim.generate_next_generation();
        assert_eq!(sim.population.len(), 30);
        for t in &sim.population {
            check_perm(&t.order, 4);
            assert_eq!(t.cost, Tour::calculate_cost(&t.order, &sim.city_list));
        }
    }
}

#[test]
fn best_never_worse_than_initial_population() {
    let mut sim = Simulation::new(20, unit_square(), 50, HALF, 50_000, HALF)
        .ok()
        .expect("valid configuration");
    let initial_best = sim.population.iter().map(|t| t.cost).min().unwrap();
    let best = sim.run();
    assert!(best.cost <= initial_best);
    assert!(best.cost >= 1);
}

#[test]
fn zero_iterations_reports_fittest_of_initial_population() {
    let mut sim = Simulation::new(20, unit_square(), 0, HALF, 50_000, HALF)
        .ok()
        .expect("valid configuration");
    let mut bi: usize = 0;
    for i in 1..sim.population.len() {
        if sim.population[i].cost < sim.population[bi].cost {
            bi = i;
        }
    }
    let expected_order = sim.population[bi].order.clone();
    let expected_cost = sim.population[bi].cost;
    let best = sim.run();
    assert_eq!(best.order, expected_order);
    assert_eq!(best.cost, expected_cost);
}

#[test]
fn running_best_is_monotone_across_generations() {
    let mut sim = Simulation::new(20, unit_square(), 0, HALF, 50_000, HALF)
        .ok()
        .expect("valid configuration");
    let mut best = sim.find_fittest();
    for _ in 0..15 {
        sim.generate_next_generation();
        let challenger = sim.find_fittest();
        let previous = best.cost;
        let challenger_cost = challenger.cost;
        best = tsp_ga::better_of(best, challenger);
        assert!(best.cost <= previous);
        assert!(best.cost <= challenger_cost);
    }
}

#[test]
fn unit_square_converges_to_perimeter() {
    // The scenario of a unit square with pop_size 50, 200 iterations and
    // rates 0.5 / 0.05 / 0.5: the best open path walks three sides, cost
    // 3.0 in city units, fitness 1/3.
    let mut sim = Simulation::new(50, unit_square(), 200, HALF, 50_000, HALF)
        .ok()
        .expect("valid configuration");
    let best = sim.run();
    assert_eq!(best.cost, 3 * SCALE as u64);
    check_perm(&best.order, 4);
    let fitness = SCALE as f64 / best.cost as f64;
    assert!((fitness - 1.0 / 3.0).abs() < 1e-9);
}
