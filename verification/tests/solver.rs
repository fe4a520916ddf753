use tsp_genetic::matrix::DistanceMatrix;
use tsp_genetic::rng::Rng;
use tsp_genetic::route::Route;
use tsp_genetic::tsp_solver::{duration_to_ms, millis_from_parts, mutation_probability, solve_tsp};

fn matrix_of(rows: Vec<Vec<u64>>) -> DistanceMatrix {
    DistanceMatrix::new(rows).unwrap()
}

fn is_permutation(route: &Route, n: usize) -> bool {
    if route.len() != n {
        return false;
    }
    let mut cities: Vec<usize> = Vec::new();
    for i in 0..n {
        cities.push(route.city_at(i));
    }
    cities.sort();
    for (i, c) in cities.iter().enumerate() {
        if *c != i {
            return false;
        }
    }
    true
}

#[test]
fn test_solve_tsp() {
    // Run the solver on a six-city matrix, as the batch path does.
    let distances = matrix_of(vec![
        vec![0, 64, 378, 519, 434, 200],
        vec![64, 0, 318, 455, 375, 164],
        vec![378, 318, 0, 170, 265, 344],
        vec![519, 455, 170, 0, 223, 428],
        vec![434, 375, 265, 223, 0, 273],
        vec![200, 164, 344, 428, 273, 0],
    ]);
    let mut rng = Rng::new(7);
    let best = solve_tsp(&distances, 20, 10, 10, 3, &mut rng).unwrap();
    assert_eq!(best.len(), 3);
    for route in &best {
        assert!(is_permutation(route, 6));
    }
}

#[test]
fn test_tsp() {
    // The serving path's request: six cities, the default configuration
    // of thirty routes, ten injected per generation, three results.
    let distances = matrix_of(vec![
        vec![0, 64, 378, 519, 434, 200],
        vec![64, 0, 318, 455, 375, 164],
        vec![378, 318, 0, 170, 265, 344],
        vec![519, 455, 170, 0, 223, 428],
        vec![434, 375, 265, 223, 0, 273],
        vec![200, 164, 344, 428, 273, 0],
    ]);
    let mut rng = Rng::new(42);
    let best = solve_tsp(&distances, 10000, 30, 10, 3, &mut rng).unwrap();
    assert_eq!(best.len(), 3);
    // The results come best first.
    let l0 = best[0].tour_length(&distances);
    let l1 = best[1].tour_length(&distances);
    let l2 = best[2].tour_length(&distances);
    assert!(l0 <= l1 && l1 <= l2);
    // With this budget the optimum of the six-city tour is found.
    assert_eq!(l0, 1248);
}

#[test]
fn test_three_city_scenario() {
    // All three edges weigh one, so every tour has length exactly 3.
    let distances = matrix_of(vec![vec![0, 1, 1], vec![1, 0, 1], vec![1, 1, 0]]);
    let mut rng = Rng::new(1);
    let best = solve_tsp(&distances, 1, 4, 0, 1, &mut rng).unwrap();
    assert_eq!(best.len(), 1);
    assert!(is_permutation(&best[0], 3));
    assert_eq!(best[0].tour_length(&distances), 3);
}

#[test]
fn test_two_city_scenario() {
    // A two-city round trip always has length 10, whatever the order.
    let distances = matrix_of(vec![vec![0, 5], vec![5, 0]]);
    for generations in [0, 1, 9] {
        let mut rng = Rng::new(3);
        let best = solve_tsp(&distances, generations, 2, 1, 1, &mut rng).unwrap();
        assert_eq!(best.len(), 1);
        assert_eq!(best[0].tour_length(&distances), 10);
    }
}

#[test]
fn test_zero_generations() {
    // A zero budget reports on the untouched initial random population.
    let distances = matrix_of(vec![vec![0, 2, 4], vec![2, 0, 6], vec![4, 6, 0]]);
    let mut rng = Rng::new(11);
    let best = solve_tsp(&distances, 0, 5, 2, 3, &mut rng).unwrap();
    assert_eq!(best.len(), 3);
    for route in &best {
        assert!(is_permutation(route, 3));
    }
}

#[test]
fn test_solver_rejects_bad_configuration() {
    let distances = matrix_of(vec![vec![0, 5], vec![5, 0]]);
    let mut rng = Rng::new(0);
    // More results asked for than routes kept.
    assert_eq!(
        solve_tsp(&distances, 5, 3, 0, 4, &mut rng).unwrap_err(),
        tsp_genetic::error::Error::InvalidArgument
    );
    // A population of fewer than two routes.
    assert_eq!(
        solve_tsp(&distances, 5, 1, 0, 1, &mut rng).unwrap_err(),
        tsp_genetic::error::Error::InvalidArgument
    );
}

#[test]
fn test_mutation_probability_schedule() {
    // Probability one at the first generation.
    assert_eq!(mutation_probability(0, 10), (10, 10));
    // Falling to 1/n at the last generation.
    assert_eq!(mutation_probability(9, 10), (1, 10));
    // Monotonically non-increasing in between.
    for g in 0..9 {
        let (a, d1) = mutation_probability(g, 10);
        let (b, d2) = mutation_probability(g + 1, 10);
        assert_eq!(d1, 10);
        assert_eq!(d2, 10);
        assert!(b <= a);
    }
}

#[test]
fn test_duration() {
    // Twelve milliseconds report as exactly 12.
    let duration = std::time::Duration::from_millis(12);
    assert_eq!(duration_to_ms(duration), 12);
}

#[test]
fn test_millis_from_parts() {
    assert_eq!(millis_from_parts(0, 12_000_000), 12);
    assert_eq!(millis_from_parts(1, 500_000_000), 1500);
    assert_eq!(millis_from_parts(2, 999_999), 2000);
    assert_eq!(millis_from_parts(0, 0), 0);
    // Far beyond the representable range, the count saturates.
    assert_eq!(millis_from_parts(u64::MAX, 0), u64::MAX);
}
