//! The immutable square matrix of city-to-city distances.

use vstd::prelude::*;

use crate::error::Error;
use crate::population::Population;
use crate::rng::Rng;
use crate::route::{valid_perm, Route};

verus! {

/// The rows of a matrix held as vectors, as one mathematical value.
pub open spec fn rows_of(d: Seq<Vec<u64>>) -> Seq<Seq<u64>> {
    d.map_values(|row: Vec<u64>| row@)
}

/// The matrix is square with at least two cities.  Distances are
/// unsigned, so non-negativity needs no clause of its own.
pub open spec fn matrix_wf(d: Seq<Seq<u64>>) -> bool {
    &&& d.len() >= 2
    &&& forall|i: int| 0 <= i < d.len() ==> (#[trigger] d[i]).len() == d.len()
}

/// An immutable square matrix of distances between city indices;
/// `rows()[i][j]` is the distance from city `i` to city `j`.
#[derive(Debug)]
pub struct DistanceMatrix {
    dist: Vec<Vec<u64>>,
}

impl DistanceMatrix {
    /// The matrix as a sequence of rows of distances.
    pub closed spec fn rows(self) -> Seq<Seq<u64>> {
        rows_of(self.dist@)
    }

    /// The number of cities.
    pub open spec fn n_spec(self) -> nat {
        self.rows().len()
    }

    /// The matrix is square with at least two cities.
    pub open spec fn wf(self) -> bool {
        matrix_wf(self.rows())
    }

    /// A matrix over the given rows.  Rejected with
    /// [`Error::InputValidation`] when the input is not square or has
    /// fewer than two cities; accepted otherwise.
    pub fn new(dist: Vec<Vec<u64>>) -> (r: Result<DistanceMatrix, Error>)
        ensures
            r is Ok <==> matrix_wf(rows_of(dist@)),
            r matches Ok(m) ==> m.rows() == rows_of(dist@),
            r matches Err(e) ==> e == Error::InputValidation,
    {
        let n = dist.len();
        if n < 2 {
            return Err(Error::InputValidation);
        }
        let mut i: usize = 0;
        while i < n
            invariant
                i <= n,
                n == dist@.len(),
                forall|a: int| 0 <= a < i ==> (#[trigger] rows_of(dist@)[a]).len() == n,
            decreases n - i,
        {
            if dist[i].len() != n {
                assert(rows_of(dist@)[i as int].len() != n);
                return Err(Error::InputValidation);
            }
            i += 1;
        }
        Ok(DistanceMatrix { dist })
    }

    /// The number of cities.
    pub fn n(&self) -> (r: usize)
        ensures
            r == self.n_spec(),
    {
        self.dist.len()
    }

    /// The distance from city `i` to city `j`, or
    /// [`Error::Index`] when either index lies outside the matrix.
    pub fn distance(&self, i: usize, j: usize) -> (r: Result<u64, Error>)
        requires
            self.wf(),
        ensures
            r is Ok <==> (i < self.n_spec() && j < self.n_spec()),
            r matches Ok(d) ==> d == self.rows()[i as int][j as int],
            r matches Err(e) ==> e == Error::Index,
    {
        let n = self.dist.len();
        if i >= n || j >= n {
            return Err(Error::Index);
        }
        Ok(self.lookup(i, j))
    }

    /// The distance lookup for callers that have bounded the indices.
    pub(crate) fn lookup(&self, i: usize, j: usize) -> (r: u64)
        requires
            self.wf(),
            i < self.n_spec(),
            j < self.n_spec(),
        ensures
            r == self.rows()[i as int][j as int],
    {
        proof {
            assert(self.rows()[i as int] == self.dist@[i as int]@);
            assert(self.rows()[i as int].len() == self.n_spec());
        }
        let row = &self.dist[i];
        row[j]
    }

    /// A uniformly drawn random tour over this matrix's cities, built
    /// by an unbiased shuffle of the identity order.
    pub fn random_route(&self, rng: &mut Rng) -> (r: Route)
        requires
            self.wf(),
        ensures
            r.valid(),
            r@.len() == self.n_spec(),
    {
        let n = self.dist.len();
        let mut v: Vec<usize> = Vec::new();
        let mut k: usize = 0;
        while k < n
            invariant
                k <= n,
                v@.len() == k,
                forall|a: int| 0 <= a < k ==> v@[a] == a,
            decreases n - k,
        {
            v.push(k);
            k += 1;
        }
        assert(valid_perm(v@, n as nat));
        let mut top: usize = n - 1;
        while top > 0
            invariant
                top < n,
                n == v@.len(),
                valid_perm(v@, n as nat),
            decreases top,
        {
            let j = rng.below(top + 1);
            let vt = v[top];
            let vj = v[j];
            proof {
                crate::route::lemma_swap_preserves_perm(v@, top as int, j as int, n as nat);
            }
            v[top] = vj;
            v[j] = vt;
            top -= 1;
        }
        Route::from_vec(v)
    }

    /// `size` independently drawn random tours as a fresh population.
    pub fn random_population(&self, size: usize, rng: &mut Rng) -> (p: Population)
        requires
            self.wf(),
        ensures
            p@.len() == size,
            crate::population::pop_wf(p@, self.n_spec()),
    {
        let mut routes: Vec<Route> = Vec::new();
        let mut k: usize = 0;
        while k < size
            invariant
                k <= size,
                self.wf(),
                routes@.len() == k,
                forall|a: int|
                    0 <= a < k ==> valid_perm((#[trigger] routes@[a])@, self.n_spec()),
            decreases size - k,
        {
            let r = self.random_route(rng);
            routes.push(r);
            k += 1;
        }
        let p = Population::from_routes(routes);
        proof {
            assert forall|i: int| 0 <= i < p@.len() implies valid_perm(
                #[trigger] p@[i],
                self.n_spec(),
            ) by {
                assert(p@[i] == routes@[i]@);
            }
        }
        p
    }
}

} // verus!
