//! Candidate tours and the operators that produce them.
//!
//! A [`Route`] is one candidate solution: a permutation of the city
//! indices `0..n-1`, read as a closed tour (the last city connects back
//! to the first).  Routes are immutable values; mutation and
//! recombination always build new routes.

use vstd::prelude::*;
use vstd::set_lib::lemma_len_subset;

use crate::error::Error;
use crate::matrix::DistanceMatrix;
use crate::rng::Rng;

verus! {

/// `s` is a permutation of the city indices `0..n-1`: it has length `n`,
/// every entry is a city index below `n`, and no entry repeats.
pub open spec fn valid_perm(s: Seq<usize>, n: nat) -> bool {
    &&& s.len() == n
    &&& forall|i: int| 0 <= i < s.len() ==> s[i] < n
    &&& s.no_duplicates()
}

/// The set of all city indices below `n`.
pub closed spec fn city_set(n: nat) -> Set<usize>
    decreases n,
{
    if n == 0 {
        Set::empty()
    } else {
        city_set((n - 1) as nat).insert((n - 1) as usize)
    }
}

/// `city_set(n)` is finite, has exactly `n` members, and holds exactly
/// the indices below `n`.
pub proof fn lemma_city_set(n: nat)
    requires
        n <= usize::MAX,
    ensures
        city_set(n).finite(),
        city_set(n).len() == n,
        forall|x: usize| city_set(n).contains(x) <==> x < n,
    decreases n,
{
    if n > 0 {
        lemma_city_set((n - 1) as nat);
    }
}

/// Pigeonhole: a permutation of `0..n-1` visits every city below `n`.
pub proof fn lemma_perm_contains_all(s: Seq<usize>, n: nat)
    requires
        valid_perm(s, n),
        n <= usize::MAX,
    ensures
        forall|c: usize| c < n ==> s.contains(c),
{
    lemma_city_set(n);
    s.unique_seq_to_set();
    assert forall|c: usize| c < n implies s.contains(c) by {
        if !s.contains(c) {
            let small = city_set(n).remove(c);
            assert forall|x: usize| s.to_set().contains(x) implies small.contains(x) by {
                assert(s.contains(x));
                let i = choose|i: int| 0 <= i < s.len() && s[i] == x;
                assert(s[i] < n);
            }
            lemma_len_subset(s.to_set(), small);
            assert(small.len() == n - 1);
            assert(false);
        }
    }
}

/// Exchanging two positions of a permutation yields a permutation.
pub proof fn lemma_swap_preserves_perm(s: Seq<usize>, i: int, j: int, n: nat)
    requires
        valid_perm(s, n),
        0 <= i < s.len(),
        0 <= j < s.len(),
    ensures
        valid_perm(s.update(i, s[j]).update(j, s[i]), n),
{
    let t = s.update(i, s[j]).update(j, s[i]);
    assert forall|a: int, b: int|
        0 <= a < t.len() && 0 <= b < t.len() && a != b implies t[a] != t[b] by {
        let pa = if a == j { i } else if a == i { j } else { a };
        let pb = if b == j { i } else if b == i { j } else { b };
        assert(t[a] == s[pa]);
        assert(t[b] == s[pb]);
        assert(pa != pb);
    }
}

/// The remaining tour length from position `i` on: the distance from
/// each later city to its successor, the last city wrapping back to the
/// first.
pub open spec fn tour_len_from(s: Seq<usize>, d: Seq<Seq<u64>>, i: int) -> int
    decreases s.len() - i,
{
    if i < 0 || i >= s.len() {
        0
    } else {
        d[s[i] as int][s[if i + 1 == s.len() { 0 } else { i + 1 }] as int]
            + tour_len_from(s, d, i + 1)
    }
}

/// The total length of the closed tour `s` under the distances `d`.
/// A degenerate tour of fewer than two cities has length zero.
pub open spec fn tour_len(s: Seq<usize>, d: Seq<Seq<u64>>) -> int {
    if s.len() < 2 {
        0
    } else {
        tour_len_from(s, d, 0)
    }
}

/// Each edge is one `u64` distance, so the remaining length from `i` is
/// bounded by the number of remaining edges times `u64::MAX`.
pub proof fn lemma_tour_len_from_bounds(s: Seq<usize>, d: Seq<Seq<u64>>, i: int)
    requires
        0 <= i <= s.len(),
    ensures
        0 <= tour_len_from(s, d, i) <= (s.len() - i) * u64::MAX,
    decreases s.len() - i,
{
    if i < s.len() {
        lemma_tour_len_from_bounds(s, d, i + 1);
    }
}

/// The cities of `p2` that lie outside the copied slice `p1slice` of
/// the first parent, in the order they appear on `p2`.
pub open spec fn crossover_fill(p1slice: Seq<usize>, p2: Seq<usize>) -> Seq<usize> {
    p2.filter(|x: usize| !p1slice.contains(x))
}

/// `c` is an order-preserving crossover of the parents `p1` and `p2`:
/// some contiguous slice of `p1` copied verbatim, followed by the
/// remaining cities in the order they appear on `p2`.
pub open spec fn is_crossover(p1: Seq<usize>, p2: Seq<usize>, c: Seq<usize>) -> bool {
    exists|a: int, b: int|
        0 <= a <= b <= p1.len() && c == #[trigger] p1.subrange(a, b) + crossover_fill(
            p1.subrange(a, b),
            p2,
        )
}

/// `m` is `c` unchanged, or `c` with the cities at two positions
/// exchanged.
pub open spec fn is_transposition(c: Seq<usize>, m: Seq<usize>) -> bool {
    m == c || exists|i: int, j: int|
        0 <= i < c.len() && 0 <= j < c.len() && m == #[trigger] c.update(i, c[j]).update(j, c[i])
}

/// `m` is an offspring of `p1` and `p2`: an order-preserving crossover
/// of the two, either unchanged or mutated by one pairwise swap.
pub open spec fn is_offspring(p1: Seq<usize>, p2: Seq<usize>, m: Seq<usize>) -> bool {
    exists|c: Seq<usize>| #[trigger] is_crossover(p1, p2, c) && is_transposition(c, m)
}

/// Filtering an empty sequence leaves an empty sequence.
proof fn lemma_fill_empty(p1slice: Seq<usize>, p2: Seq<usize>)
    requires
        p2.len() == 0,
    ensures
        crossover_fill(p1slice, p2).len() == 0,
{
    reveal(Seq::filter);
}

/// One step of the filler: appending a city to the second parent
/// appends it to the filler exactly when it lies outside the slice.
proof fn lemma_fill_push(p1slice: Seq<usize>, p2: Seq<usize>, x: usize)
    ensures
        !p1slice.contains(x) ==> crossover_fill(p1slice, p2.push(x)) == crossover_fill(
            p1slice,
            p2,
        ).push(x),
        p1slice.contains(x) ==> crossover_fill(p1slice, p2.push(x)) == crossover_fill(
            p1slice,
            p2,
        ),
{
    reveal(Seq::filter);
    assert(p2.push(x).drop_last() =~= p2);
    assert(p2.push(x).last() == x);
}

/// A city of the filler comes from the second parent and lies outside
/// the copied slice.
proof fn lemma_fill_membership(p1slice: Seq<usize>, p2: Seq<usize>, y: usize)
    requires
        crossover_fill(p1slice, p2).contains(y),
    ensures
        p2.contains(y),
        !p1slice.contains(y),
    decreases p2.len(),
{
    reveal(Seq::filter);
    let f = crossover_fill(p1slice, p2);
    if p2.len() == 0 {
    } else {
        let rest = p2.drop_last();
        let frest = crossover_fill(p1slice, rest);
        if !p1slice.contains(p2.last()) {
            assert(f == frest.push(p2.last()));
            let i = choose|i: int| 0 <= i < f.len() && f[i] == y;
            if i == f.len() - 1 {
                assert(p2[p2.len() - 1] == y);
            } else {
                assert(frest[i] == y);
                lemma_fill_membership(p1slice, rest, y);
                let q = choose|q: int| 0 <= q < rest.len() && rest[q] == y;
                assert(p2[q] == y);
            }
        } else {
            assert(f == frest);
            lemma_fill_membership(p1slice, rest, y);
            let q = choose|q: int| 0 <= q < rest.len() && rest[q] == y;
            assert(p2[q] == y);
        }
    }
}

/// One candidate tour: a permutation of the city indices, closed
/// implicitly by the edge from its last city back to its first.
#[derive(Debug)]
pub struct Route {
    order: Vec<usize>,
}

impl View for Route {
    type V = Seq<usize>;

    closed spec fn view(&self) -> Seq<usize> {
        self.order@
    }
}

impl Route {
    /// The route is a permutation of `0..n-1` for its own length `n`.
    pub open spec fn valid(self) -> bool {
        valid_perm(self@, self@.len() as nat)
    }

    /// Wraps an order known by the caller to be what it wants; the
    /// engine only calls it on permutations it has built itself.
    pub(crate) fn from_vec(order: Vec<usize>) -> (r: Route)
        ensures
            r@ == order@,
    {
        Route { order }
    }

    /// A route over the given city order, rejected with
    /// [`Error::InvalidArgument`] unless the order is a permutation of
    /// `0..n-1` where `n` is its length.
    pub fn new(order: Vec<usize>) -> (r: Result<Route, Error>)
        ensures
            r is Ok <==> valid_perm(order@, order@.len() as nat),
            r matches Ok(route) ==> route@ == order@,
            r matches Err(e) ==> e == Error::InvalidArgument,
    {
        let n = order.len();
        let mut seen: Vec<bool> = Vec::new();
        let mut t: usize = 0;
        while t < n
            invariant
                t <= n,
                seen@.len() == t,
                forall|x: int| 0 <= x < t ==> !seen@[x],
            decreases n - t,
        {
            seen.push(false);
            t += 1;
        }
        let mut k: usize = 0;
        while k < n
            invariant
                k <= n,
                n == order@.len(),
                seen@.len() == n,
                forall|a: int| 0 <= a < k ==> order@[a] < n,
                forall|a: int, b: int|
                    0 <= a < k && 0 <= b < k && a != b ==> order@[a] != order@[b],
                forall|x: usize|
                    x < n ==> (seen@[x as int] <==> exists|a: int|
                        0 <= a < k && order@[a] == x),
            decreases n - k,
        {
            let x = order[k];
            if x >= n {
                assert(!valid_perm(order@, order@.len() as nat));
                return Err(Error::InvalidArgument);
            }
            if seen[x] {
                proof {
                    let a = choose|a: int| 0 <= a < k && order@[a] == x;
                    assert(order@[a] == order@[k as int]);
                }
                return Err(Error::InvalidArgument);
            }
            seen[x] = true;
            k += 1;
        }
        Ok(Route { order })
    }

    /// The number of cities on the route.
    pub fn len(&self) -> (r: usize)
        ensures
            r == self@.len(),
    {
        self.order.len()
    }

    /// The city visited at position `i`.
    pub fn city_at(&self, i: usize) -> (r: usize)
        requires
            i < self@.len(),
        ensures
            r == self@[i as int],
    {
        self.order[i]
    }

    /// A fresh route with the same city order.
    pub fn duplicate(&self) -> (r: Route)
        ensures
            r@ == self@,
    {
        let n = self.order.len();
        let mut v: Vec<usize> = Vec::new();
        let mut k: usize = 0;
        while k < n
            invariant
                k <= n,
                n == self@.len(),
                v@.len() == k,
                forall|a: int| 0 <= a < k ==> v@[a] == self@[a],
            decreases n - k,
        {
            v.push(self.order[k]);
            k += 1;
        }
        proof {
            assert(v@ =~= self@);
        }
        Route { order: v }
    }

    /// The total length of this closed tour under `matrix`, the sum of
    /// the distances along its edges.
    pub fn tour_length(&self, matrix: &DistanceMatrix) -> (r: u128)
        requires
            matrix.wf(),
            self.valid(),
            self@.len() == matrix.n_spec(),
        ensures
            r == tour_len(self@, matrix.rows()),
    {
        let n = self.order.len();
        if n < 2 {
            return 0;
        }
        proof {
            lemma_tour_len_from_bounds(self@, matrix.rows(), 0);
            assert((n as int) * (u64::MAX as int) < u128::MAX as int) by (nonlinear_arith)
                requires
                    n <= u64::MAX,
            ;
        }
        let mut total: u128 = 0;
        let mut i: usize = 0;
        while i < n
            invariant
                i <= n,
                2 <= n == self@.len() == matrix.n_spec(),
                matrix.wf(),
                self.valid(),
                total + tour_len_from(self@, matrix.rows(), i as int)
                    == tour_len_from(self@, matrix.rows(), 0),
                total <= (n as int) * (u64::MAX as int),
                (n as int) * (u64::MAX as int) < u128::MAX as int,
            decreases n - i,
        {
            let from = self.order[i];
            let to = self.order[if i + 1 == n { 0 } else { i + 1 }];
            let d = matrix.lookup(from, to);
            proof {
                lemma_tour_len_from_bounds(self@, matrix.rows(), 0);
                lemma_tour_len_from_bounds(self@, matrix.rows(), i as int);
                lemma_tour_len_from_bounds(self@, matrix.rows(), i + 1);
            }
            total = total + d as u128;
            i += 1;
        }
        total
    }

    /// The fitness of this route: the negated tour length, so that a
    /// larger fitness means a shorter, better tour.  Deterministic: the
    /// result is a function of the route and the matrix alone.
    pub fn fitness(&self, matrix: &DistanceMatrix) -> (r: i128)
        requires
            matrix.wf(),
            self.valid(),
            self@.len() == matrix.n_spec(),
            tour_len(self@, matrix.rows()) <= i128::MAX,
        ensures
            r == -tour_len(self@, matrix.rows()),
    {
        let total = self.tour_length(matrix);
        -(total as i128)
    }

    /// With probability `num / den`, a copy with two random positions
    /// exchanged; otherwise an unchanged copy.  `num / den` above one is
    /// a caller contract violation.
    pub fn mutate(&self, num: usize, den: usize, rng: &mut Rng) -> (r: Result<Route, Error>)
        requires
            self.valid(),
        ensures
            r is Ok <==> (den > 0 && num <= den),
            r matches Ok(route) ==> {
                &&& route.valid()
                &&& route@.len() == self@.len()
                &&& is_transposition(self@, route@)
            },
            r matches Err(e) ==> e == Error::InvalidArgument,
    {
        if den == 0 || num > den {
            return Err(Error::InvalidArgument);
        }
        Ok(self.maybe_mutate(num, den, rng))
    }

    /// The mutation step proper, for callers that have already checked
    /// the probability.
    pub(crate) fn maybe_mutate(&self, num: usize, den: usize, rng: &mut Rng) -> (r: Route)
        requires
            self.valid(),
            den > 0,
            num <= den,
        ensures
            r.valid(),
            r@.len() == self@.len(),
            is_transposition(self@, r@),
    {
        let n = self.order.len();
        if n < 2 {
            return self.duplicate();
        }
        let draw = rng.below(den);
        if draw >= num {
            return self.duplicate();
        }
        let i = rng.below(n);
        let j = rng.below(n);
        let mut v = self.duplicate().into_order();
        let vi = v[i];
        let vj = v[j];
        v[i] = vj;
        v[j] = vi;
        proof {
            lemma_swap_preserves_perm(self@, i as int, j as int, self@.len() as nat);
            assert(v@ == self@.update(i as int, self@[j as int]).update(
                j as int,
                self@[i as int],
            ));
        }
        Route { order: v }
    }

    /// Gives up the underlying order.
    pub(crate) fn into_order(self) -> (r: Vec<usize>)
        ensures
            r@ == self@,
    {
        self.order
    }

    /// One child of this route and `other`, built by order-preserving
    /// crossover: a random contiguous slice of this route is copied
    /// verbatim, and the remaining cities follow in the order they
    /// appear on `other`.  The child is always a permutation of the same
    /// cities.
    pub fn recombine(&self, other: &Route, rng: &mut Rng) -> (r: Route)
        requires
            self.valid(),
            other.valid(),
            self@.len() == other@.len(),
        ensures
            r.valid(),
            r@.len() == self@.len(),
            is_crossover(self@, other@, r@),
    {
        let n = self.order.len();
        if n == 0 {
            let r = self.duplicate();
            proof {
                lemma_fill_empty(self@.subrange(0, 0), other@);
                assert(r@ =~= self@.subrange(0, 0) + crossover_fill(self@.subrange(0, 0), other@));
                assert(is_crossover(self@, other@, r@));
            }
            return r;
        }
        let a = rng.below(n);
        let b = a + 1 + rng.below(n - a);
        let ghost slice = self@.subrange(a as int, b as int);
        let mut child: Vec<usize> = Vec::new();
        let mut t: usize = a;
        while t < b
            invariant
                a <= t <= b <= n,
                n == self@.len(),
                self.valid(),
                slice == self@.subrange(a as int, b as int),
                child@ =~= self@.subrange(a as int, t as int),
            decreases b - t,
        {
            child.push(self.order[t]);
            t += 1;
        }
        proof {
            assert(child@ =~= slice);
            assert forall|p: int, q: int|
                0 <= p < child@.len() && 0 <= q < child@.len() && p != q
                    implies child@[p] != child@[q] by {
                assert(child@[p] == self@[a + p]);
                assert(child@[q] == self@[a + q]);
            }
            assert forall|p: int| 0 <= p < child@.len() implies child@[p] < n by {
                assert(child@[p] == self@[a + p]);
            }
            assert(other@.subrange(0, 0) =~= Seq::<usize>::empty());
            lemma_fill_empty(slice, other@.subrange(0, 0));
            assert(child@ =~= slice + crossover_fill(slice, other@.subrange(0, 0)));
        }
        let mut k: usize = 0;
        while k < n
            invariant
                k <= n,
                n == self@.len() == other@.len(),
                other.valid(),
                slice == self@.subrange(a as int, b as int),
                0 <= a < b <= n,
                child@.no_duplicates(),
                forall|p: int| 0 <= p < child@.len() ==> child@[p] < n,
                forall|y: usize|
                    other@.subrange(0, k as int).contains(y) ==> child@.contains(y),
                child@ == slice + crossover_fill(slice, other@.subrange(0, k as int)),
            decreases n - k,
        {
            let x = other.order[k];
            let already = contains_city(&child, x);
            let ghost old_child = child@;
            if !already {
                child.push(x);
                proof {
                    assert forall|p: int, q: int|
                        0 <= p < child@.len() && 0 <= q < child@.len() && p != q
                            implies child@[p] != child@[q] by {
                        if p == old_child.len() {
                            if child@[p] == child@[q] {
                                assert(old_child[q] == x);
                                assert(old_child.contains(x));
                            }
                        } else if q == old_child.len() {
                            if child@[p] == child@[q] {
                                assert(old_child[p] == x);
                                assert(old_child.contains(x));
                            }
                        }
                    }
                }
            }
            proof {
                assert forall|y: usize|
                    other@.subrange(0, k + 1).contains(y) implies child@.contains(y) by {
                    let sub = other@.subrange(0, k + 1);
                    let p = choose|p: int| 0 <= p < sub.len() && sub[p] == y;
                    if p < k {
                        assert(other@.subrange(0, k as int)[p] == y);
                        assert(old_child.contains(y));
                        let q = choose|q: int| 0 <= q < old_child.len() && old_child[q] == y;
                        assert(child@[q] == y);
                    } else {
                        assert(y == x);
                        if already {
                            let q = choose|q: int|
                                0 <= q < old_child.len() && old_child[q] == x;
                            assert(child@[q] == x);
                        } else {
                            assert(child@[old_child.len() as int] == x);
                        }
                    }
                }
            }
            proof {
                let sub_k = other@.subrange(0, k as int);
                let sub_k1 = other@.subrange(0, k + 1);
                assert(sub_k1 =~= sub_k.push(x));
                lemma_fill_push(slice, sub_k, x);
                if already {
                    assert(slice.contains(x)) by {
                        let p = choose|p: int| 0 <= p < old_child.len() && old_child[p] == x;
                        if p < slice.len() {
                            assert(slice[p] == x);
                        } else {
                            assert(crossover_fill(slice, sub_k)[p - slice.len()] == x);
                            assert(crossover_fill(slice, sub_k).contains(x));
                            lemma_fill_membership(slice, sub_k, x);
                            let q = choose|q: int| 0 <= q < sub_k.len() && sub_k[q] == x;
                            assert(other@[q] == x);
                            assert(other@[q] != other@[k as int]);
                            assert(false);
                        }
                    }
                    assert(child@ == slice + crossover_fill(slice, sub_k1));
                } else {
                    assert(!slice.contains(x)) by {
                        if slice.contains(x) {
                            let p = choose|p: int| 0 <= p < slice.len() && slice[p] == x;
                            assert(old_child[p] == x);
                            assert(old_child.contains(x));
                        }
                    }
                    assert(child@ =~= slice + crossover_fill(slice, sub_k1));
                }
            }
            k += 1;
        }
        proof {
            lemma_perm_contains_all(other@, n as nat);
            assert(other@.subrange(0, n as int) =~= other@);
            child@.unique_seq_to_set();
            lemma_city_set(n as nat);
            assert(child@.to_set() =~= city_set(n as nat)) by {
                assert forall|y: usize| child@.to_set().contains(y)
                    implies city_set(n as nat).contains(y) by {
                    assert(child@.contains(y));
                    let p = choose|p: int| 0 <= p < child@.len() && child@[p] == y;
                }
                assert forall|y: usize| city_set(n as nat).contains(y)
                    implies child@.to_set().contains(y) by {
                    assert(other@.contains(y));
                    assert(other@.subrange(0, n as int).contains(y));
                    assert(child@.contains(y));
                }
            }
            assert(child@.len() == n);
            assert(child@ == self@.subrange(a as int, b as int) + crossover_fill(
                self@.subrange(a as int, b as int),
                other@,
            ));
            assert(is_crossover(self@, other@, child@));
        }
        Route { order: child }
    }
}

/// Whether `v` already holds the city `x`.
fn contains_city(v: &Vec<usize>, x: usize) -> (r: bool)
    ensures
        r == v@.contains(x),
{
    let n = v.len();
    let mut k: usize = 0;
    while k < n
        invariant
            k <= n,
            n == v@.len(),
            forall|a: int| 0 <= a < k ==> v@[a] != x,
        decreases n - k,
    {
        if v[k] == x {
            return true;
        }
        k += 1;
    }
    false
}

} // verus!
