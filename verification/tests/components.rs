use tsp_genetic::error::Error;
use tsp_genetic::matrix::DistanceMatrix;
use tsp_genetic::messages::{failed_computation, liveness_probe, not_found};
use tsp_genetic::population::Population;
use tsp_genetic::rng::Rng;
use tsp_genetic::route::Route;

fn matrix_of(rows: Vec<Vec<u64>>) -> DistanceMatrix {
    DistanceMatrix::new(rows).unwrap()
}

fn route_of(order: Vec<usize>) -> Route {
    Route::new(order).unwrap()
}

fn cities_of(route: &Route) -> Vec<usize> {
    let mut cities: Vec<usize> = Vec::new();
    for i in 0..route.len() {
        cities.push(route.city_at(i));
    }
    cities
}

fn is_permutation(route: &Route, n: usize) -> bool {
    let mut cities = cities_of(route);
    if cities.len() != n {
        return false;
    }
    cities.sort();
    cities.iter().enumerate().all(|(i, c)| *c == i)
}

#[test]
fn test_liveness() {
    // The liveness probe answers with the fixed text.
    assert_eq!(liveness_probe(), "alive");
}

#[test]
fn test_not_found() {
    // An unmatched route answers with the fixed text.
    assert_eq!(not_found(), "Not found!");
    assert_eq!(failed_computation(), "Your computation could not be done.");
}

#[test]
fn test_matrix_rejects_non_square() {
    // Three rows of differing lengths are rejected before any solving.
    let r = DistanceMatrix::new(vec![vec![0, 1, 2], vec![1, 0], vec![2, 1, 0]]);
    assert_eq!(r.unwrap_err(), Error::InputValidation);
}

#[test]
fn test_matrix_rejects_too_small() {
    assert_eq!(
        DistanceMatrix::new(vec![vec![0]]).unwrap_err(),
        Error::InputValidation
    );
    assert_eq!(DistanceMatrix::new(vec![]).unwrap_err(), Error::InputValidation);
}

#[test]
fn test_matrix_distance_lookup() {
    let m = matrix_of(vec![vec![0, 2, 9], vec![4, 0, 3], vec![1, 7, 0]]);
    assert_eq!(m.n(), 3);
    assert_eq!(m.distance(0, 1), Ok(2));
    assert_eq!(m.distance(2, 1), Ok(7));
    assert_eq!(m.distance(1, 1), Ok(0));
    // An out-of-range city index is an index error.
    assert_eq!(m.distance(3, 0), Err(Error::Index));
    assert_eq!(m.distance(0, 3), Err(Error::Index));
}

#[test]
fn test_route_validation() {
    assert!(Route::new(vec![2, 0, 1]).is_ok());
    // A repeated city is rejected.
    assert_eq!(Route::new(vec![0, 1, 1]).unwrap_err(), Error::InvalidArgument);
    // A city index beyond the length is rejected.
    assert_eq!(Route::new(vec![0, 1, 3]).unwrap_err(), Error::InvalidArgument);
}

#[test]
fn test_fitness_exact_value() {
    let m = matrix_of(vec![vec![0, 2, 9], vec![4, 0, 3], vec![1, 7, 0]]);
    let route = route_of(vec![0, 1, 2]);
    // The closed tour 0 -> 1 -> 2 -> 0 has length 2 + 3 + 1.
    assert_eq!(route.tour_length(&m), 6);
    // Fitness is the negated length, so larger is better.
    assert_eq!(route.fitness(&m), -6);
}

#[test]
fn test_fitness_deterministic() {
    let m = matrix_of(vec![vec![0, 2, 9], vec![4, 0, 3], vec![1, 7, 0]]);
    let route = route_of(vec![2, 0, 1]);
    assert_eq!(route.fitness(&m), route.fitness(&m));
}

#[test]
fn test_random_route_is_permutation() {
    let m = matrix_of(vec![vec![0, 1, 1, 1], vec![1, 0, 1, 1], vec![1, 1, 0, 1], vec![
        1, 1, 1, 0,
    ]]);
    let mut rng = Rng::new(5);
    for _ in 0..50 {
        let route = m.random_route(&mut rng);
        assert!(is_permutation(&route, 4));
    }
}

#[test]
fn test_mutate_probability_bounds() {
    let route = route_of(vec![0, 1, 2, 3]);
    let mut rng = Rng::new(9);
    // Probability zero leaves the route unchanged.
    let same = route.mutate(0, 1, &mut rng).unwrap();
    assert_eq!(cities_of(&same), vec![0, 1, 2, 3]);
    // Probability one still yields a permutation of the same cities.
    for _ in 0..20 {
        let swapped = route.mutate(1, 1, &mut rng).unwrap();
        assert!(is_permutation(&swapped, 4));
    }
    // A probability above one is a contract violation.
    assert_eq!(route.mutate(2, 1, &mut rng).unwrap_err(), Error::InvalidArgument);
    assert_eq!(route.mutate(0, 0, &mut rng).unwrap_err(), Error::InvalidArgument);
}

#[test]
fn test_recombine_yields_permutation() {
    let a = route_of(vec![0, 1, 2, 3, 4]);
    let b = route_of(vec![4, 3, 2, 1, 0]);
    let mut rng = Rng::new(13);
    for _ in 0..50 {
        let child = a.recombine(&b, &mut rng);
        assert!(is_permutation(&child, 5));
    }
}

#[test]
fn test_select_fittest_keeps_shortest() {
    // Tour 0 -> 1 -> 2 -> 0 has length 3; its reverse has length 27.
    let m = matrix_of(vec![vec![0, 1, 9], vec![9, 0, 1], vec![1, 9, 0]]);
    let long = route_of(vec![0, 2, 1]);
    let short = route_of(vec![0, 1, 2]);
    let p = Population::from_routes(vec![long, short]);
    let kept = p.select_fittest(1, &m).unwrap();
    assert_eq!(kept.len(), 1);
    assert_eq!(kept.get(0).tour_length(&m), 3);
    // Keeping more than the population holds is a contract violation.
    assert_eq!(p.select_fittest(3, &m).unwrap_err(), Error::InvalidArgument);
}

#[test]
fn test_select_fittest_stable_ties() {
    // Both two-city tours have length 10; ties keep the input order.
    let m = matrix_of(vec![vec![0, 5], vec![5, 0]]);
    let p = Population::from_routes(vec![route_of(vec![1, 0]), route_of(vec![0, 1])]);
    let kept = p.select_fittest(2, &m).unwrap();
    assert_eq!(cities_of(kept.get(0)), vec![1, 0]);
    assert_eq!(cities_of(kept.get(1)), vec![0, 1]);
}

#[test]
fn test_select_top_k_sorted_and_clamped() {
    let m = matrix_of(vec![vec![0, 1, 9], vec![9, 0, 1], vec![1, 9, 0]]);
    let p = Population::from_routes(vec![
        route_of(vec![0, 2, 1]),
        route_of(vec![0, 1, 2]),
        route_of(vec![1, 0, 2]),
    ]);
    // Asking for more than the population holds reports every member.
    let report = p.select_top_k(10, &m);
    assert_eq!(report.len(), 3);
    assert!(report[0].1 <= report[1].1 && report[1].1 <= report[2].1);
    assert_eq!(report[0].1, 3);
    let top = p.select_top_k(2, &m);
    assert_eq!(top.len(), 2);
    assert_eq!(top[0].1, 3);
}

#[test]
fn test_evolve_preserves_size_and_validity() {
    let m = matrix_of(vec![vec![0, 2, 4], vec![2, 0, 6], vec![4, 6, 0]]);
    let mut rng = Rng::new(21);
    let p = m.random_population(6, &mut rng);
    let next = p.evolve(1, 2, &m, &mut rng).unwrap();
    assert_eq!(next.len(), 6);
    for i in 0..next.len() {
        assert!(is_permutation(next.get(i), 3));
    }
    // A probability above one is a contract violation.
    assert_eq!(p.evolve(3, 2, &m, &mut rng).unwrap_err(), Error::InvalidArgument);
}

#[test]
fn test_add_random_routes_appends() {
    let m = matrix_of(vec![vec![0, 2, 4], vec![2, 0, 6], vec![4, 6, 0]]);
    let mut rng = Rng::new(31);
    let p = Population::from_routes(vec![route_of(vec![2, 1, 0]), route_of(vec![1, 2, 0])]);
    let grown = p.add_random_routes(3, &m, &mut rng);
    assert_eq!(grown.len(), 5);
    // The existing members stay, in order, ahead of the injected ones.
    assert_eq!(cities_of(grown.get(0)), vec![2, 1, 0]);
    assert_eq!(cities_of(grown.get(1)), vec![1, 2, 0]);
    for i in 2..5 {
        assert!(is_permutation(grown.get(i), 3));
    }
}
