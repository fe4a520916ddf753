//! Populations of candidate tours and the per-generation operators.

use vstd::prelude::*;

use crate::error::Error;
use crate::matrix::DistanceMatrix;
use crate::rng::Rng;
use crate::route::{
    is_crossover, is_offspring, is_transposition, lemma_perm_contains_all, tour_len, valid_perm,
    Route,
};

verus! {

/// Every member of the population is a permutation over the same `n`
/// cities.
pub open spec fn pop_wf(rs: Seq<Seq<usize>>, n: nat) -> bool {
    forall|i: int| 0 <= i < rs.len() ==> valid_perm(#[trigger] rs[i], n)
}

/// `idx` ranks `orig`: it is a permutation of the member positions,
/// ordered by tour length from shortest (fittest) to longest — ties
/// broken by the stable input order — and `res` is the first `keep`
/// members in that order.
pub open spec fn ranking_witness(
    idx: Seq<usize>,
    orig: Seq<Seq<usize>>,
    res: Seq<Seq<usize>>,
    keep: int,
    d: Seq<Seq<u64>>,
) -> bool {
    &&& valid_perm(idx, orig.len())
    &&& 0 <= keep <= orig.len()
    &&& forall|a: int, b: int|
        0 <= a < b < idx.len() ==> tour_len(orig[idx[a] as int], d)
            < tour_len(orig[idx[b] as int], d) || (tour_len(orig[idx[a] as int], d)
            == tour_len(orig[idx[b] as int], d) && idx[a] < idx[b])
    &&& res.len() == keep
    &&& forall|i: int| 0 <= i < keep ==> res[i] == orig[#[trigger] idx[i] as int]
}

/// `res` holds the `keep` fittest members of `orig`, shortest tours
/// first, ties resolved some way.
pub open spec fn is_ranked_selection(
    orig: Seq<Seq<usize>>,
    res: Seq<Seq<usize>>,
    keep: int,
    d: Seq<Seq<u64>>,
) -> bool {
    exists|idx: Seq<usize>| ranking_witness(idx, orig, res, keep, d)
}

/// `m` descends from the population `pop`: it is an offspring of some
/// pair of its members.
pub open spec fn offspring_of_some(pop: Seq<Seq<usize>>, m: Seq<usize>) -> bool {
    exists|j: int, k: int|
        0 <= j < pop.len() && 0 <= k < pop.len() && #[trigger] is_offspring(pop[j], pop[k], m)
}

/// Elitist truncation never keeps a worse tour than one it discards:
/// whatever a ranked selection kept is at least as fit (no longer) than
/// any member of the original population it dropped.
pub proof fn lemma_selection_dominates(
    orig: Seq<Seq<usize>>,
    res: Seq<Seq<usize>>,
    keep: int,
    d: Seq<Seq<u64>>,
)
    requires
        is_ranked_selection(orig, res, keep, d),
        orig.len() <= usize::MAX,
    ensures
        forall|i: int, s: Seq<usize>|
            #![trigger res[i], tour_len(s, d)]
            0 <= i < res.len() && orig.contains(s) && !res.contains(s)
                ==> tour_len(res[i], d) <= tour_len(s, d),
{
    let idx = choose|idx: Seq<usize>| ranking_witness(idx, orig, res, keep, d);
    assert forall|i: int, s: Seq<usize>|
        #![trigger res[i], tour_len(s, d)]
        0 <= i < res.len() && orig.contains(s) && !res.contains(s)
            implies tour_len(res[i], d) <= tour_len(s, d) by {
        let p = choose|p: int| 0 <= p < orig.len() && orig[p] == s;
        lemma_perm_contains_all(idx, orig.len());
        assert(idx.contains(p as usize));
        let j = choose|j: int| 0 <= j < idx.len() && idx[j] == p as usize;
        if j < keep {
            assert(res[j] == orig[idx[j] as int]);
            assert(res.contains(s));
            assert(false);
        } else {
            assert(res[i] == orig[idx[i] as int]);
            assert(tour_len(orig[idx[i] as int], d) <= tour_len(orig[idx[j] as int], d));
        }
    }
}

/// A collection of candidate tours over one matrix's cities.  The order
/// of members carries no meaning; it only makes truncation stable.
#[derive(Debug)]
pub struct Population {
    routes: Vec<Route>,
}

impl View for Population {
    type V = Seq<Seq<usize>>;

    closed spec fn view(&self) -> Seq<Seq<usize>> {
        self.routes@.map_values(|r: Route| r@)
    }
}

impl Population {
    /// A population holding exactly the given routes, in order.
    pub fn from_routes(routes: Vec<Route>) -> (p: Population)
        ensures
            p@.len() == routes@.len(),
            forall|i: int| 0 <= i < routes@.len() ==> p@[i] == (#[trigger] routes@[i])@,
    {
        Population { routes }
    }

    /// The number of member routes.
    pub fn len(&self) -> (r: usize)
        ensures
            r == self@.len(),
    {
        self.routes.len()
    }

    /// The member route at position `i`.
    pub fn get(&self, i: usize) -> (r: &Route)
        requires
            i < self@.len(),
        ensures
            r@ == self@[i as int],
    {
        &self.routes[i]
    }

    /// The position of the fitter of two randomly drawn members: a
    /// tournament of size two, robust to any spread of tour lengths.
    fn tournament_pick(&self, matrix: &DistanceMatrix, rng: &mut Rng) -> (r: usize)
        requires
            matrix.wf(),
            pop_wf(self@, matrix.n_spec()),
            self@.len() >= 1,
        ensures
            r < self@.len(),
    {
        let len = self.routes.len();
        let i1 = rng.below(len);
        let i2 = rng.below(len);
        proof {
            assert(self@[i1 as int] == self.routes@[i1 as int]@);
            assert(self@[i2 as int] == self.routes@[i2 as int]@);
        }
        let l1 = self.routes[i1].tour_length(matrix);
        let l2 = self.routes[i2].tour_length(matrix);
        if l1 <= l2 {
            i1
        } else {
            i2
        }
    }

    /// One generation of offspring: for each slot of a same-sized new
    /// population, two parents are drawn by tournament selection, one
    /// child is recombined from them, and the child is mutated with
    /// probability `num / den`.  Every member of the result is an
    /// offspring of two members of this population: an order-preserving
    /// crossover of the pair, at most once swap-mutated.  A probability
    /// above one is a caller contract violation; an empty population
    /// has no parents to draw.
    pub fn evolve(
        &self,
        num: usize,
        den: usize,
        matrix: &DistanceMatrix,
        rng: &mut Rng,
    ) -> (r: Result<Population, Error>)
        requires
            matrix.wf(),
            pop_wf(self@, matrix.n_spec()),
        ensures
            r is Ok <==> (den > 0 && num <= den && self@.len() >= 1),
            r matches Ok(p) ==> p@.len() == self@.len() && pop_wf(p@, matrix.n_spec()),
            r matches Ok(p) ==> forall|t: int|
                0 <= t < p@.len() ==> offspring_of_some(self@, #[trigger] p@[t]),
            r matches Err(e) ==> e == Error::InvalidArgument,
    {
        let len = self.routes.len();
        if den == 0 || num > den || len == 0 {
            return Err(Error::InvalidArgument);
        }
        let mut out: Vec<Route> = Vec::new();
        let mut slot: usize = 0;
        while slot < len
            invariant
                slot <= len,
                len == self@.len(),
                den > 0,
                num <= den,
                matrix.wf(),
                pop_wf(self@, matrix.n_spec()),
                out@.len() == slot,
                forall|i: int|
                    0 <= i < slot ==> valid_perm((#[trigger] out@[i])@, matrix.n_spec()),
                forall|t: int|
                    0 <= t < slot ==> offspring_of_some(self@, (#[trigger] out@[t])@),
            decreases len - slot,
        {
            let p1 = self.tournament_pick(matrix, rng);
            let p2 = self.tournament_pick(matrix, rng);
            proof {
                assert(self@[p1 as int] == self.routes@[p1 as int]@);
                assert(self@[p2 as int] == self.routes@[p2 as int]@);
            }
            let child = self.routes[p1].recombine(&self.routes[p2], rng);
            let offspring = child.maybe_mutate(num, den, rng);
            proof {
                assert(is_crossover(self@[p1 as int], self@[p2 as int], child@));
                assert(is_transposition(child@, offspring@));
                assert(is_offspring(self@[p1 as int], self@[p2 as int], offspring@));
                assert(offspring_of_some(self@, offspring@));
            }
            let ghost old_out = out@;
            out.push(offspring);
            proof {
                assert forall|t: int|
                    0 <= t < slot + 1 implies offspring_of_some(
                    self@,
                    (#[trigger] out@[t])@,
                ) by {
                    if t < slot {
                        assert((old_out[t])@ == (out@[t])@);
                    } else {
                        assert((out@[t])@ == offspring@);
                    }
                }
            }
            slot += 1;
        }
        let p = Population { routes: out };
        proof {
            assert forall|t: int| 0 <= t < p@.len() implies offspring_of_some(
                self@,
                #[trigger] p@[t],
            ) by {
                assert(p@[t] == out@[t]@);
            }
        }
        Ok(p)
    }

    /// Diversity injection: the same members followed by `count` fresh
    /// random tours.
    pub fn add_random_routes(
        &self,
        count: usize,
        matrix: &DistanceMatrix,
        rng: &mut Rng,
    ) -> (r: Population)
        requires
            matrix.wf(),
            pop_wf(self@, matrix.n_spec()),
            self@.len() + count <= usize::MAX,
        ensures
            r@.len() == self@.len() + count,
            forall|i: int| 0 <= i < self@.len() ==> r@[i] == self@[i],
            pop_wf(r@, matrix.n_spec()),
    {
        let len = self.routes.len();
        let mut out: Vec<Route> = Vec::new();
        let mut k: usize = 0;
        while k < len
            invariant
                k <= len,
                len == self@.len(),
                out@.len() == k,
                forall|i: int| 0 <= i < k ==> (#[trigger] out@[i])@ == self@[i],
            decreases len - k,
        {
            let copy = self.routes[k].duplicate();
            out.push(copy);
            k += 1;
        }
        let mut added: usize = 0;
        while added < count
            invariant
                added <= count,
                len == self@.len(),
                matrix.wf(),
                pop_wf(self@, matrix.n_spec()),
                out@.len() == len + added,
                forall|i: int| 0 <= i < len ==> (#[trigger] out@[i])@ == self@[i],
                forall|i: int|
                    len <= i < len + added ==> valid_perm((#[trigger] out@[i])@, matrix.n_spec()),
            decreases count - added,
        {
            let fresh = matrix.random_route(rng);
            out.push(fresh);
            added += 1;
        }
        Population { routes: out }
    }

    /// The member positions ordered from shortest tour to longest, ties
    /// broken by the stable input order, as a permutation of `0..len-1`.
    /// Selection sort keeps the proof small.
    fn ranked_indices(&self, matrix: &DistanceMatrix) -> (idx: Vec<usize>)
        requires
            matrix.wf(),
            pop_wf(self@, matrix.n_spec()),
        ensures
            valid_perm(idx@, self@.len()),
            forall|a: int, b: int|
                0 <= a < b < idx@.len() ==> tour_len(self@[idx@[a] as int], matrix.rows())
                    < tour_len(self@[idx@[b] as int], matrix.rows())
                    || (tour_len(self@[idx@[a] as int], matrix.rows())
                    == tour_len(self@[idx@[b] as int], matrix.rows()) && idx@[a] < idx@[b]),
    {
        let len = self.routes.len();
        let ghost d = matrix.rows();
        let mut lens: Vec<u128> = Vec::new();
        let mut k: usize = 0;
        while k < len
            invariant
                k <= len,
                len == self@.len(),
                matrix.wf(),
                d == matrix.rows(),
                pop_wf(self@, matrix.n_spec()),
                lens@.len() == k,
                forall|i: int| 0 <= i < k ==> lens@[i] == tour_len(self@[i], d),
            decreases len - k,
        {
            proof {
                assert(self@[k as int] == self.routes@[k as int]@);
            }
            let l = self.routes[k].tour_length(matrix);
            lens.push(l);
            k += 1;
        }
        let mut idx: Vec<usize> = Vec::new();
        let mut t: usize = 0;
        while t < len
            invariant
                t <= len,
                idx@.len() == t,
                forall|a: int| 0 <= a < t ==> idx@[a] == a,
            decreases len - t,
        {
            idx.push(t);
            t += 1;
        }
        assert(valid_perm(idx@, len as nat));
        let mut i: usize = 0;
        while i < len
            invariant
                i <= len,
                len == self@.len() == lens@.len() == idx@.len(),
                forall|p: int| 0 <= p < len ==> lens@[p] == tour_len(self@[p], d),
                valid_perm(idx@, len as nat),
                forall|a: int, b: int|
                    0 <= a < b < i ==> lens@[idx@[a] as int] < lens@[idx@[b] as int]
                        || (lens@[idx@[a] as int] == lens@[idx@[b] as int]
                        && idx@[a] < idx@[b]),
                forall|a: int, b: int|
                    0 <= a < i && i <= b < len ==> lens@[idx@[a] as int]
                        < lens@[idx@[b] as int] || (lens@[idx@[a] as int]
                        == lens@[idx@[b] as int] && idx@[a] < idx@[b]),
            decreases len - i,
        {
            let mut mp: usize = i;
            let mut j: usize = i + 1;
            while j < len
                invariant
                    i <= mp < j <= len,
                    len == lens@.len() == idx@.len(),
                    forall|p: int| 0 <= p < idx@.len() ==> idx@[p] < len,
                    forall|t2: int|
                        i <= t2 < j ==> lens@[idx@[mp as int] as int]
                            < lens@[#[trigger] idx@[t2] as int]
                            || (lens@[idx@[mp as int] as int] == lens@[idx@[t2] as int]
                            && idx@[mp as int] <= idx@[t2]),
                decreases len - j,
            {
                let lj = lens[idx[j]];
                let lm = lens[idx[mp]];
                if lj < lm || (lj == lm && idx[j] < idx[mp]) {
                    mp = j;
                }
                j += 1;
            }
            let vi = idx[i];
            let vm = idx[mp];
            proof {
                crate::route::lemma_swap_preserves_perm(idx@, i as int, mp as int, len as nat);
            }
            idx[i] = vm;
            idx[mp] = vi;
            i += 1;
        }
        proof {
            assert forall|a: int, b: int|
                0 <= a < b < idx@.len() implies tour_len(self@[idx@[a] as int], d)
                    < tour_len(self@[idx@[b] as int], d) || (tour_len(self@[idx@[a] as int], d)
                    == tour_len(self@[idx@[b] as int], d) && idx@[a] < idx@[b]) by {
                assert(lens@[idx@[a] as int] == tour_len(self@[idx@[a] as int], d));
                assert(lens@[idx@[b] as int] == tour_len(self@[idx@[b] as int], d));
            }
        }
        idx
    }

    /// Elitist truncation: the `keep` fittest members, shortest tours
    /// first (ranking ties resolved by position), as the next
    /// population.  `keep` beyond the population size is a caller
    /// contract violation.
    pub fn select_fittest(&self, keep: usize, matrix: &DistanceMatrix) -> (r: Result<
        Population,
        Error,
    >)
        requires
            matrix.wf(),
            pop_wf(self@, matrix.n_spec()),
        ensures
            r is Ok <==> keep <= self@.len(),
            r matches Ok(p) ==> {
                &&& p@.len() == keep
                &&& pop_wf(p@, matrix.n_spec())
                &&& is_ranked_selection(self@, p@, keep as int, matrix.rows())
            },
            r matches Err(e) ==> e == Error::InvalidArgument,
    {
        let len = self.routes.len();
        if keep > len {
            return Err(Error::InvalidArgument);
        }
        let idx = self.ranked_indices(matrix);
        let mut out: Vec<Route> = Vec::new();
        let mut t: usize = 0;
        while t < keep
            invariant
                t <= keep <= len,
                len == self@.len() == idx@.len(),
                matrix.wf(),
                pop_wf(self@, matrix.n_spec()),
                forall|p: int| 0 <= p < idx@.len() ==> idx@[p] < len,
                out@.len() == t,
                forall|p: int| 0 <= p < t ==> (#[trigger] out@[p])@ == self@[idx@[p] as int],
            decreases keep - t,
        {
            let copy = self.routes[idx[t]].duplicate();
            out.push(copy);
            t += 1;
        }
        let p = Population { routes: out };
        proof {
            assert forall|q: int| 0 <= q < p@.len() implies valid_perm(
                #[trigger] p@[q],
                matrix.n_spec(),
            ) by {
                assert(p@[q] == self@[idx@[q] as int]);
            }
            assert(ranking_witness(idx@, self@, p@, keep as int, matrix.rows()));
        }
        Ok(p)
    }

    /// The final report: the `k` fittest members (all of them when `k`
    /// exceeds the population size), shortest tours first, each beside
    /// its tour length.  Read-only: the population itself is untouched.
    pub fn select_top_k(&self, k: usize, matrix: &DistanceMatrix) -> (r: Vec<(Route, u128)>)
        requires
            matrix.wf(),
            pop_wf(self@, matrix.n_spec()),
        ensures
            r@.len() == if k <= self@.len() { k as int } else { self@.len() as int },
            forall|t: int|
                0 <= t < r@.len() ==> {
                    &&& valid_perm((#[trigger] r@[t].0)@, matrix.n_spec())
                    &&& r@[t].1 == tour_len(r@[t].0@, matrix.rows())
                },
            forall|a: int, b: int| 0 <= a < b < r@.len() ==> r@[a].1 <= r@[b].1,
            is_ranked_selection(
                self@,
                r@.map_values(|pair: (Route, u128)| pair.0@),
                r@.len() as int,
                matrix.rows(),
            ),
    {
        let len = self.routes.len();
        let kk = if k <= len {
            k
        } else {
            len
        };
        let idx = self.ranked_indices(matrix);
        let mut out: Vec<(Route, u128)> = Vec::new();
        let mut t: usize = 0;
        while t < kk
            invariant
                t <= kk <= len,
                len == self@.len() == idx@.len(),
                matrix.wf(),
                pop_wf(self@, matrix.n_spec()),
                forall|p: int| 0 <= p < idx@.len() ==> idx@[p] < len,
                forall|a: int, b: int|
                    0 <= a < b < idx@.len() ==> tour_len(self@[idx@[a] as int], matrix.rows())
                        < tour_len(self@[idx@[b] as int], matrix.rows())
                        || (tour_len(self@[idx@[a] as int], matrix.rows())
                        == tour_len(self@[idx@[b] as int], matrix.rows()) && idx@[a] < idx@[b]),
                out@.len() == t,
                forall|p: int|
                    0 <= p < t ==> (#[trigger] out@[p]).0@ == self@[idx@[p] as int]
                        && out@[p].1 == tour_len(self@[idx@[p] as int], matrix.rows()),
            decreases kk - t,
        {
            let pos = idx[t];
            proof {
                assert(self@[pos as int] == self.routes@[pos as int]@);
            }
            let copy = self.routes[pos].duplicate();
            let l = copy.tour_length(matrix);
            out.push((copy, l));
            t += 1;
        }
        proof {
            let mapped = out@.map_values(|pair: (Route, u128)| pair.0@);
            assert forall|i: int| 0 <= i < kk implies mapped[i] == self@[idx@[i] as int] by {
                assert(mapped[i] == out@[i].0@);
            }
            assert(ranking_witness(idx@, self@, mapped, kk as int, matrix.rows()));
        }
        out
    }
}

} // verus!
