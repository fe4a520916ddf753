//! The evolution loop: a fixed budget of generations over one
//! population, with a linearly annealed mutation probability.

use vstd::prelude::*;

use crate::error::Error;
use crate::matrix::DistanceMatrix;
use crate::population::pop_wf;
use crate::rng::Rng;
use crate::route::{tour_len, valid_perm, Route};

verus! {

/// The mutation probability for generation `g` of `n_generations`, as
/// the fraction `(n_generations - g) / n_generations`: exactly one at
/// the first generation, falling linearly to `1 / n_generations` at the
/// last.
pub open spec fn mutation_probability_spec(g: int, n_generations: int) -> (int, int) {
    (n_generations - g, n_generations)
}

/// The annealing schedule as executable code: the probability
/// `numerator / denominator` used for generation `g`.
pub fn mutation_probability(g: usize, n_generations: usize) -> (r: (usize, usize))
    requires
        g < n_generations,
    ensures
        (r.0 as int, r.1 as int) == mutation_probability_spec(g as int, n_generations as int),
        0 < r.0 <= r.1,
        g == 0 ==> r.0 == r.1,
        g == n_generations - 1 ==> r.0 == 1,
{
    (n_generations - g, n_generations)
}

/// The mutation schedule starts at probability one, never increases
/// from one generation to the next, and ends at `1 / n_generations`,
/// which approaches zero as the generation budget grows.
pub proof fn lemma_mutation_schedule(g1: int, g2: int, n_generations: int)
    requires
        0 <= g1 <= g2 < n_generations,
    ensures
        mutation_probability_spec(0, n_generations).0
            == mutation_probability_spec(0, n_generations).1,
        mutation_probability_spec(n_generations - 1, n_generations).0 == 1,
        mutation_probability_spec(g2, n_generations).0
            * mutation_probability_spec(g1, n_generations).1
            <= mutation_probability_spec(g1, n_generations).0
            * mutation_probability_spec(g2, n_generations).1,
{
    assert((n_generations - g2) * n_generations <= (n_generations - g1) * n_generations)
        by (nonlinear_arith)
        requires
            0 <= g1 <= g2 < n_generations,
    ;
}

/// The best tours for the problem given by the distance matrix, found
/// by evolving a random initial population for `n_generations`
/// generations.  Each generation produces a same-sized offspring
/// population, injects `n_random_individuals_per_generation` fresh
/// random tours, and keeps the `n_routes` fittest.  The `top_n` fittest
/// tours of the final population are returned, shortest first.
///
/// A population of fewer than two routes, or a result count beyond the
/// population size, is rejected with [`Error::InvalidArgument`] before
/// the loop starts.  A generation budget of zero is valid and reports
/// on the untouched initial random population.
pub fn solve_tsp(
    distance_matrix: &DistanceMatrix,
    n_generations: usize,
    n_routes: usize,
    n_random_individuals_per_generation: usize,
    top_n: usize,
    rng: &mut Rng,
) -> (r: Result<Vec<Route>, Error>)
    requires
        distance_matrix.wf(),
        n_routes + n_random_individuals_per_generation <= usize::MAX,
    ensures
        r is Ok <==> (2 <= n_routes && top_n <= n_routes),
        r matches Err(e) ==> e == Error::InvalidArgument,
        r matches Ok(v) ==> {
            &&& v@.len() == top_n
            &&& forall|i: int|
                0 <= i < v@.len() ==> valid_perm(
                    (#[trigger] v@[i])@,
                    distance_matrix.n_spec(),
                )
            &&& forall|a: int, b: int|
                0 <= a < b < v@.len() ==> tour_len(v@[a]@, distance_matrix.rows())
                    <= tour_len(v@[b]@, distance_matrix.rows())
        },
{
    if n_routes < 2 || top_n > n_routes {
        return Err(Error::InvalidArgument);
    }
    let mut population = distance_matrix.random_population(n_routes, rng);
    let mut g: usize = 0;
    while g < n_generations
        invariant
            distance_matrix.wf(),
            2 <= n_routes,
            n_routes + n_random_individuals_per_generation <= usize::MAX,
            g <= n_generations,
            population@.len() == n_routes,
            pop_wf(population@, distance_matrix.n_spec()),
        decreases n_generations - g,
    {
        let (num, den) = mutation_probability(g, n_generations);
        let evolved = match population.evolve(num, den, distance_matrix, rng) {
            Ok(p) => p,
            Err(_) => unreached(),
        };
        let injected = evolved.add_random_routes(
            n_random_individuals_per_generation,
            distance_matrix,
            rng,
        );
        population = match injected.select_fittest(n_routes, distance_matrix) {
            Ok(p) => p,
            Err(_) => unreached(),
        };
        g += 1;
    }
    let top = population.select_top_k(top_n, distance_matrix);
    let mut result: Vec<Route> = Vec::new();
    let mut t: usize = 0;
    while t < top.len()
        invariant
            t <= top@.len(),
            result@.len() == t,
            forall|i: int| 0 <= i < t ==> (#[trigger] result@[i])@ == top@[i].0@,
        decreases top@.len() - t,
    {
        let copy = top[t].0.duplicate();
        result.push(copy);
        t += 1;
    }
    Ok(result)
}

/// `total`, read as nanoseconds, expressed as whole milliseconds; a
/// count beyond what fits a `u64` of milliseconds saturates.
pub open spec fn millis_of(secs: int, nanos: int) -> int {
    let total = (1_000_000_000 * secs + nanos) / 1_000_000;
    if total > u64::MAX {
        u64::MAX as int
    } else {
        total
    }
}

/// The whole milliseconds in a duration of `secs` seconds plus `nanos`
/// nanoseconds.
pub fn millis_from_parts(secs: u64, nanos: u32) -> (r: u64)
    requires
        nanos < 1_000_000_000,
    ensures
        r == millis_of(secs as int, nanos as int),
{
    let total: u128 = 1_000_000_000u128 * (secs as u128) + (nanos as u128);
    let ms: u128 = total / 1_000_000;
    if ms > u64::MAX as u128 {
        u64::MAX
    } else {
        ms as u64
    }
}

/// Relies on `Duration::as_secs` of std: the whole seconds of the
/// duration.
pub assume_specification[ core::time::Duration::as_secs ](d: &core::time::Duration) -> u64;

/// Relies on `Duration::subsec_nanos` of std: the fractional part of
/// the duration in nanoseconds, which its documentation bounds below
/// one billion.
pub assume_specification[ core::time::Duration::subsec_nanos ](
    d: &core::time::Duration,
) -> (r: u32)
    ensures
        r < 1_000_000_000,
;

/// The elapsed milliseconds that a `Duration` describes: some split of
/// the duration into whole seconds and a nanosecond remainder, read as
/// milliseconds.
pub fn duration_to_ms(duration: std::time::Duration) -> (r: u64)
    ensures
        exists|secs: u64, nanos: u32|
            nanos < 1_000_000_000 && r == #[trigger] millis_of(secs as int, nanos as int),
{
    let secs = duration.as_secs();
    let nanos = duration.subsec_nanos();
    let r = millis_from_parts(secs, nanos);
    proof {
        assert(nanos < 1_000_000_000 && r == millis_of(secs as int, nanos as int));
    }
    r
}

} // verus!
