//! Training of the partition centroids: nearest and farthest choices, seeding, and the rounds
//! of assignment and update.
//!
//! Distances and means are arithmetic on real vectors: they come from functions that the caller
//! hands in.

use crate::ieee;
use vstd::prelude::*;

verus! {

/// Bits of the single precision number -1.
pub const SINGLE_MINUS_ONE: u32 = 0xBF80_0000;

/// The first place of the smallest of the first `n` distances that is less than the largest
/// finite number, and that distance; place 0 where there is none.
pub open spec fn nearest_among(dists: Seq<u32>, n: int) -> (int, u32)
    decreases n,
{
    if n <= 0 {
        (0, ieee::SINGLE_MAX)
    } else {
        let (place, best) = nearest_among(dists, n - 1);
        if ieee::single_lt(dists[n - 1], best) {
            (n - 1, dists[n - 1])
        } else {
            (place, best)
        }
    }
}

/// The place of the nearest centroid.
pub open spec fn nearest(dists: Seq<u32>) -> int {
    nearest_among(dists, dists.len() as int).0
}

/// What `nearest` chooses: no distance is smaller, and none before it is as small. Where no
/// distance is less than the largest finite number it chooses place 0.
pub proof fn nearest_is_first_smallest(dists: Seq<u32>)
    ensures
        0 <= nearest(dists),
        dists.len() > 0 ==> nearest(dists) < dists.len(),
        (exists|i: int| 0 <= i < dists.len() && ieee::single_lt(#[trigger] dists[i], ieee::SINGLE_MAX))
            ==> {
            &&& forall|j: int|
                0 <= j < dists.len() ==> !ieee::single_lt(#[trigger] dists[j], dists[nearest(dists)])
            &&& forall|j: int|
                0 <= j < nearest(dists) ==> ieee::single_nan(#[trigger] dists[j]) || ieee::single_lt(
                    dists[nearest(dists)],
                    dists[j],
                )
        },
        (forall|i: int|
            0 <= i < dists.len() ==> !ieee::single_lt(#[trigger] dists[i], ieee::SINGLE_MAX))
            ==> nearest(dists) == 0,
{
    nearest_among_properties(dists, dists.len() as int);
}

proof fn nearest_among_properties(dists: Seq<u32>, n: int)
    requires
        0 <= n <= dists.len(),
    ensures
        ({
            let (place, best) = nearest_among(dists, n);
            &&& 0 <= place
            &&& n > 0 ==> place < n
            &&& !ieee::single_nan(best)
            &&& forall|j: int| 0 <= j < n ==> !ieee::single_lt(#[trigger] dists[j], best)
            &&& if exists|i: int|
                0 <= i < n && ieee::single_lt(#[trigger] dists[i], ieee::SINGLE_MAX) {
                &&& best == dists[place]
                &&& ieee::single_lt(best, ieee::SINGLE_MAX)
                &&& forall|j: int|
                    0 <= j < place ==> ieee::single_nan(#[trigger] dists[j]) || ieee::single_lt(
                        best,
                        dists[j],
                    )
            } else {
                place == 0 && best == ieee::SINGLE_MAX
            }
        }),
    decreases n,
{
    if n > 0 {
        nearest_among_properties(dists, n - 1);
        let (place, best) = nearest_among(dists, n - 1);
        let last = dists[n - 1];
        if ieee::single_lt(last, best) {
            assert forall|j: int| 0 <= j < n - 1 implies ieee::single_nan(#[trigger] dists[j])
                || ieee::single_lt(last, dists[j]) by {
                assert(!ieee::single_lt(dists[j], best));
            }
        } else {
            if exists|i: int| 0 <= i < n && ieee::single_lt(#[trigger] dists[i], ieee::SINGLE_MAX) {
                let i = choose|i: int|
                    0 <= i < n && ieee::single_lt(#[trigger] dists[i], ieee::SINGLE_MAX);
                if i == n - 1 {
                    assert(best != ieee::SINGLE_MAX);
                }
                assert(exists|i: int|
                    0 <= i < n - 1 && ieee::single_lt(#[trigger] dists[i], ieee::SINGLE_MAX));
            }
        }
    }
}

/// The place of the nearest centroid, from the distances to all of them.
pub fn nearest_partition(dists: &[u32]) -> (place: usize)
    ensures
        place == nearest(dists@),
        dists@.len() > 0 ==> place < dists@.len(),
{
    let mut place: usize = 0;
    let mut best: u32 = ieee::SINGLE_MAX;
    let mut i: usize = 0;
    while i < dists.len()
        invariant
            i <= dists@.len(),
            nearest_among(dists@, i as int) == (place as int, best),
        decreases dists@.len() - i,
    {
        if ieee::single_less(dists[i], best) {
            best = dists[i];
            place = i;
        }
        i += 1;
    }
    proof {
        nearest_is_first_smallest(dists@);
    }
    place
}

/// The first place of the largest of the first `n` distances that is more than -1, and that
/// distance; place 0 where there is none.
pub open spec fn farthest_among(dists: Seq<u32>, n: int) -> (int, u32)
    decreases n,
{
    if n <= 0 {
        (0, SINGLE_MINUS_ONE)
    } else {
        let (place, best) = farthest_among(dists, n - 1);
        if ieee::single_lt(best, dists[n - 1]) {
            (n - 1, dists[n - 1])
        } else {
            (place, best)
        }
    }
}

/// The place of the farthest vector.
pub open spec fn farthest(dists: Seq<u32>) -> int {
    farthest_among(dists, dists.len() as int).0
}

/// The place of the farthest vector, from the distances to all of them.
pub fn farthest_vector(dists: &[u32]) -> (place: usize)
    ensures
        place == farthest(dists@),
        dists@.len() > 0 ==> place < dists@.len(),
{
    let mut place: usize = 0;
    let mut best: u32 = SINGLE_MINUS_ONE;
    let mut i: usize = 0;
    while i < dists.len()
        invariant
            i <= dists@.len(),
            farthest_among(dists@, i as int) == (place as int, best),
            i > 0 ==> place < i,
            i == 0 ==> place == 0,
        decreases dists@.len() - i,
    {
        if ieee::single_less(best, dists[i]) {
            best = dists[i];
            place = i;
        }
        i += 1;
    }
    place
}

/// `a >= b` on single precision numbers: false where either is NaN.
pub open spec fn at_least(a: u32, b: u32) -> bool {
    !ieee::single_nan(a) && !ieee::single_nan(b) && ieee::single_rank(a) >= ieee::single_rank(b)
}

/// The first place from `i` on at which the running sum reaches the threshold; place 0 where it
/// never does.
pub open spec fn reached_from(sums: Seq<u32>, threshold: u32, i: int) -> int
    decreases sums.len() - i,
{
    if i < 0 || i >= sums.len() {
        0
    } else if at_least(sums[i], threshold) {
        i
    } else {
        reached_from(sums, threshold, i + 1)
    }
}

/// The seed that a draw selects, given how many seeds there are: by the running sums of the
/// weights where their total is more than zero or NaN, else in sequence.
pub open spec fn drawn_seed(sums: Seq<u32>, threshold: u32, count: int) -> int {
    if sums.len() > 0 && at_least(0, sums.last()) {
        count % sums.len() as int
    } else {
        reached_from(sums, threshold, 0)
    }
}

/// Selects the next seed by weight.
///
/// `sums` are the running sums of the weights of all vectors, `threshold` is the drawn part of
/// their total and `count` is how many seeds there are.
pub fn pick_seed(sums: &[u32], threshold: u32, count: usize) -> (place: usize)
    requires
        sums@.len() > 0,
    ensures
        place == drawn_seed(sums@, threshold, count as int),
        place < sums@.len(),
{
    let n: usize = sums.len();
    let total: u32 = sums[n - 1];
    if !ieee::single_is_nan(total) && 0 >= ieee::single_key(total) {
        return count % n;
    }
    let mut i: usize = 0;
    while i < n
        invariant
            n == sums@.len(),
            i <= n,
            !at_least(0, sums@.last()),
            reached_from(sums@, threshold, 0) == reached_from(sums@, threshold, i as int),
        decreases n - i,
    {
        if !ieee::single_is_nan(sums[i]) && !ieee::single_is_nan(threshold) && ieee::single_key(
            sums[i],
        ) >= ieee::single_key(threshold) {
            return i;
        }
        i += 1;
    }
    0
}

/// Calls `rand::random` for a `usize`: any value may come back.
#[verifier::external_body]
fn random_usize() -> (r: usize) {
    rand::random::<usize>()
}

/// A place drawn from `0..n`.
pub fn random_place(n: usize) -> (place: usize)
    requires
        n > 0,
    ensures
        place < n,
{
    place_of_draw(random_usize(), n)
}

/// The place in `0..n` that a draw stands for.
pub fn place_of_draw(draw: usize, n: usize) -> (place: usize)
    requires
        n > 0,
    ensures
        place == draw % n,
        place < n,
{
    draw % n
}

/// The places that are assigned to a partition among the first `n`, in order.
pub open spec fn members(assignment: Seq<usize>, pid: int, n: int) -> Seq<usize>
    decreases n,
{
    if n <= 0 {
        Seq::empty()
    } else if assignment[n - 1] == pid {
        members(assignment, pid, n - 1).push((n - 1) as usize)
    } else {
        members(assignment, pid, n - 1)
    }
}

/// The members of a partition are exactly the places assigned to it, each once and in order.
pub proof fn members_are_assigned(assignment: Seq<usize>, pid: int, n: int)
    requires
        0 <= n <= assignment.len(),
        n <= usize::MAX,
    ensures
        forall|j: int|
            0 <= j < members(assignment, pid, n).len() ==> 0 <= #[trigger] members(
                assignment,
                pid,
                n,
            )[j] < n && assignment[members(assignment, pid, n)[j] as int] == pid,
        forall|i: int, j: int|
            0 <= i < j < members(assignment, pid, n).len() ==> #[trigger] members(
                assignment,
                pid,
                n,
            )[i] < #[trigger] members(assignment, pid, n)[j],
        forall|x: int|
            0 <= x < n && #[trigger] assignment[x] == pid ==> members(assignment, pid, n).contains(
                x as usize,
            ),
    decreases n,
{
    if n > 0 {
        members_are_assigned(assignment, pid, n - 1);
        let before = members(assignment, pid, n - 1);
        let now = members(assignment, pid, n);
        assert forall|x: int| 0 <= x < n && #[trigger] assignment[x] == pid implies now.contains(
            x as usize,
        ) by {
            if x == n - 1 {
                assert(now[now.len() - 1] == x);
            } else {
                assert(before.contains(x as usize));
                let j = choose|j: int| 0 <= j < before.len() && before[j] == x as usize;
                assert(now[j] == x as usize);
            }
        }
    }
}

/// The places that are assigned to a partition, in order.
pub fn members_of(assignment: &Vec<usize>, pid: usize) -> (places: Vec<usize>)
    ensures
        places@ == members(assignment@, pid as int, assignment@.len() as int),
{
    let mut places: Vec<usize> = Vec::new();
    let mut i: usize = 0;
    while i < assignment.len()
        invariant
            i <= assignment@.len(),
            places@ == members(assignment@, pid as int, i as int),
        decreases assignment@.len() - i,
    {
        if assignment[i] == pid {
            places.push(i);
        }
        i += 1;
    }
    places
}

/// Every vector has `dim` components.
pub open spec fn all_of_dim(vectors: Seq<Vec<u32>>, dim: int) -> bool {
    forall|i: int| 0 <= i < vectors.len() ==> (#[trigger] vectors[i])@.len() == dim
}

/// A function can be called on places among `n`, at least one of them.
pub open spec fn takes_places<M: Fn(&Vec<usize>) -> Vec<u32>>(mean: M, n: int) -> bool {
    forall|m: Vec<usize>|
        m@.len() > 0 && all_below(m@, n) ==> #[trigger] call_requires(mean, (&m,))
}

/// All places are below `n`.
pub open spec fn all_below(places: Seq<usize>, n: int) -> bool {
    forall|i: int| 0 <= i < places.len() ==> #[trigger] places[i] < n
}

/// The function gives means of `dim` components.
pub open spec fn means_of_dim<M: Fn(&Vec<usize>) -> Vec<u32>>(mean: M, dim: int) -> bool {
    forall|m: Vec<usize>, v: Vec<u32>| #[trigger] call_ensures(mean, (&m,), v) ==> v@.len() == dim
}

/// A distance function can be called on vectors of the same length.
pub open spec fn compares_equals<D: Fn(&Vec<u32>, &Vec<u32>) -> u32>(dist: D) -> bool {
    forall|a: Vec<u32>, b: Vec<u32>|
        a@.len() == b@.len() ==> #[trigger] call_requires(dist, (&a, &b))
}

/// `row` holds the distances from a vector to each of the others, as the function gave them.
pub open spec fn distances_to<D: Fn(&Vec<u32>, &Vec<u32>) -> u32>(
    dist: D,
    vector: Vec<u32>,
    others: Seq<Vec<u32>>,
    row: Seq<u32>,
) -> bool {
    &&& row.len() == others.len()
    &&& forall|c: int|
        0 <= c < others.len() ==> call_ensures(dist, (&vector, &others[c]), #[trigger] row[c])
}

/// The distances from a vector to each of the others.
pub fn distance_row<D: Fn(&Vec<u32>, &Vec<u32>) -> u32>(
    dist: &D,
    vector: &Vec<u32>,
    others: &Vec<Vec<u32>>,
) -> (row: Vec<u32>)
    requires
        forall|c: int| 0 <= c < others@.len() ==> call_requires(*dist, (vector, &#[trigger] others@[c])),
    ensures
        distances_to(*dist, *vector, others@, row@),
{
    let mut row: Vec<u32> = Vec::with_capacity(others.len());
    let mut c: usize = 0;
    while c < others.len()
        invariant
            c <= others@.len(),
            row@.len() == c,
            forall|c: int|
                0 <= c < others@.len() ==> call_requires(*dist, (vector, &#[trigger] others@[c])),
            forall|b: int|
                0 <= b < c ==> call_ensures(*dist, (vector, &others@[b]), #[trigger] row@[b]),
        decreases others@.len() - c,
    {
        let d: u32 = dist(vector, &others[c]);
        row.push(d);
        c += 1;
    }
    row
}

/// A copy of a vector.
pub fn copy_of(vector: &Vec<u32>) -> (copy: Vec<u32>)
    ensures
        copy@ == vector@,
{
    vstd::slice::slice_to_vec(vector.as_slice())
}

/// The numbers that the function of running sums gives back are as many as it was given.
pub open spec fn sums_all<S: Fn(&Vec<u32>) -> Vec<u32>>(running_sums: S) -> bool {
    &&& forall|w: Vec<u32>| #[trigger] call_requires(running_sums, (&w,))
    &&& forall|w: Vec<u32>, sums: Vec<u32>|
        call_ensures(running_sums, (&w,), sums) ==> sums@.len() == w@.len()
}

/// How a seed was drawn: the weights of the vectors, their running sums, the drawn part of the
/// total, and the place that it selects.
pub struct Pick {
    pub weights: Vec<u32>,
    pub sums: Vec<u32>,
    pub threshold: u32,
    pub chosen: usize,
}

/// Weights that are lowered to the distances where these are less.
pub open spec fn lowered(weights: Seq<u32>, col: Seq<u32>) -> Seq<u32> {
    Seq::new(
        weights.len(),
        |i: int|
            if ieee::single_lt(col[i], weights[i]) {
                col[i]
            } else {
                weights[i]
            },
    )
}

/// A seed was drawn: the weights are the least distances from the seeds so far, of which `last` is
/// the newest and `count` the number, and the drawn part of their total selects the place.
pub open spec fn drawn_by<
    D: Fn(&Vec<u32>, &Vec<u32>) -> u32,
    S: Fn(&Vec<u32>) -> Vec<u32>,
    T: Fn(u32) -> u32,
>(
    dist: D,
    running_sums: S,
    draw: T,
    vectors: Seq<Vec<u32>>,
    weights: Seq<u32>,
    last: Vec<u32>,
    count: int,
    pick: Pick,
) -> bool {
    &&& lowered_to(dist, vectors, weights, last, pick.weights@)
    &&& call_ensures(running_sums, (&pick.weights,), pick.sums)
    &&& call_ensures(draw, (pick.sums@.last(),), pick.threshold)
    &&& pick.chosen == drawn_seed(pick.sums@, pick.threshold, count)
    &&& pick.chosen < vectors.len()
}

/// Weights are lowered to the distances from a seed.
pub open spec fn lowered_to<D: Fn(&Vec<u32>, &Vec<u32>) -> u32>(
    dist: D,
    vectors: Seq<Vec<u32>>,
    weights: Seq<u32>,
    last: Vec<u32>,
    after: Seq<u32>,
) -> bool {
    exists|col: Seq<u32>| #[trigger]
        distances_from(dist, vectors, last, col) && after == lowered(weights, col)
}

/// The weights before draw `j`: before the first one they are as large as can be.
pub open spec fn weights_before(n: nat, picks: Seq<Pick>, j: int) -> Seq<u32> {
    if j == 0 {
        Seq::new(n, |i: int| ieee::SINGLE_MAX)
    } else {
        picks[j - 1].weights@
    }
}

/// Seeds were drawn one after the other: the first is any vector, each further one was drawn by
/// weight.
pub open spec fn seeded<
    D: Fn(&Vec<u32>, &Vec<u32>) -> u32,
    S: Fn(&Vec<u32>) -> Vec<u32>,
    T: Fn(u32) -> u32,
>(
    dist: D,
    running_sums: S,
    draw: T,
    vectors: Seq<Vec<u32>>,
    seeds: Seq<Vec<u32>>,
    first: int,
    picks: Seq<Pick>,
) -> bool {
    &&& seeds.len() == picks.len() + 1
    &&& 0 <= first < vectors.len()
    &&& seeds[0]@ == vectors[first]@
    &&& forall|j: int|
        0 <= j < picks.len() ==> {
            &&& drawn_by(
                dist,
                running_sums,
                draw,
                vectors,
                weights_before(vectors.len(), picks, j),
                seeds[j],
                j + 1,
                #[trigger] picks[j],
            )
            &&& seeds[j + 1]@ == vectors[picks[j].chosen as int]@
        }
}

/// Seeds drawn one after the other are all among the vectors.
pub proof fn seeds_are_vectors<
    D: Fn(&Vec<u32>, &Vec<u32>) -> u32,
    S: Fn(&Vec<u32>) -> Vec<u32>,
    T: Fn(u32) -> u32,
>(
    dist: D,
    running_sums: S,
    draw: T,
    vectors: Seq<Vec<u32>>,
    seeds: Seq<Vec<u32>>,
    first: int,
    picks: Seq<Pick>,
)
    requires
        seeded(dist, running_sums, draw, vectors, seeds, first, picks),
    ensures
        all_among(seeds, vectors),
{
    assert forall|j: int| 0 <= j < seeds.len() implies exists|i: int|
        0 <= i < vectors.len() && (#[trigger] seeds[j])@ == (#[trigger] vectors[i])@ by {
        if j == 0 {
            assert(seeds[0]@ == vectors[first]@);
        } else {
            assert(seeds[j]@ == vectors[picks[j - 1].chosen as int]@);
        }
    }
}

/// Every seed equals one of the vectors.
pub open spec fn all_among(seeds: Seq<Vec<u32>>, vectors: Seq<Vec<u32>>) -> bool {
    forall|j: int|
        0 <= j < seeds.len() ==> exists|i: int|
            0 <= i < vectors.len() && (#[trigger] seeds[j])@ == (#[trigger] vectors[i])@
}

/// Selects `k` seeds among the vectors: the first at random, each further one with a chance that
/// grows with its distance from the nearest seed so far.
///
/// `running_sums` adds up weights and `draw` gives a random part of a total.
pub fn kmeans_plus_plus_init<
    D: Fn(&Vec<u32>, &Vec<u32>) -> u32,
    S: Fn(&Vec<u32>) -> Vec<u32>,
    T: Fn(u32) -> u32,
>(vectors: &Vec<Vec<u32>>, k: usize, dist: &D, running_sums: &S, draw: &T) -> (seeds: Vec<Vec<u32>>)
    requires
        vectors@.len() > 0,
        k > 0,
        all_of_dim(vectors@, vectors@[0]@.len() as int),
        compares_equals(*dist),
        sums_all(*running_sums),
        forall|total: u32| #[trigger] call_requires(*draw, (total,)),
    ensures
        seeds@.len() == k,
        all_of_dim(seeds@, vectors@[0]@.len() as int),
        exists|first: int, picks: Seq<Pick>| #[trigger]
            seeded(*dist, *running_sums, *draw, vectors@, seeds@, first, picks),
{
    let n: usize = vectors.len();
    let ghost dim = vectors@[0]@.len() as int;
    let mut seeds: Vec<Vec<u32>> = Vec::with_capacity(k);
    let first: usize = random_place(n);
    let ghost mut picks: Seq<Pick> = Seq::empty();
    seeds.push(copy_of(&vectors[first]));
    let mut weights: Vec<u32> = vec![ieee::SINGLE_MAX; n];
    assert(weights@ =~= weights_before(n as nat, picks, 0));
    while seeds.len() < k
        invariant
            n == vectors@.len(),
            n > 0,
            0 < seeds@.len() <= k,
            weights@.len() == n,
            picks.len() == seeds@.len() - 1,
            weights@ == weights_before(n as nat, picks, picks.len() as int),
            dim == vectors@[0]@.len(),
            all_of_dim(vectors@, dim),
            all_of_dim(seeds@, dim),
            compares_equals(*dist),
            sums_all(*running_sums),
            forall|total: u32| #[trigger] call_requires(*draw, (total,)),
            seeded(*dist, *running_sums, *draw, vectors@, seeds@, first as int, picks),
        decreases k - seeds@.len(),
    {
        let count: usize = seeds.len();
        let ghost start = weights@;
        let ghost mut col: Seq<u32> = Seq::empty();
        let ghost last = seeds@[count - 1];
        let mut i: usize = 0;
        while i < n
            invariant
                n == vectors@.len(),
                i <= n,
                count == seeds@.len(),
                count > 0,
                last == seeds@[count - 1],
                weights@.len() == n,
                start.len() == n,
                col.len() == i,
                all_of_dim(vectors@, dim),
                last@.len() == dim,
                compares_equals(*dist),
                forall|j: int|
                    0 <= j < i ==> call_ensures(*dist, (&vectors@[j], &last), #[trigger] col[j]),
                forall|j: int|
                    0 <= j < n ==> #[trigger] weights@[j] == if j < i && ieee::single_lt(
                        col[j],
                        start[j],
                    ) {
                        col[j]
                    } else {
                        start[j]
                    },
            decreases n - i,
        {
            let d: u32 = dist(&vectors[i], &seeds[count - 1]);
            proof {
                col = col.push(d);
            }
            if ieee::single_less(d, weights[i]) {
                weights.set(i, d);
            }
            i += 1;
        }
        assert(weights@ =~= lowered(start, col));
        assert(distances_from(*dist, vectors@, last, col));
        let sums: Vec<u32> = running_sums(&weights);
        let threshold: u32 = draw(sums[n - 1]);
        let chosen: usize = pick_seed(sums.as_slice(), threshold, count);
        let ghost before = seeds@;
        seeds.push(copy_of(&vectors[chosen]));
        proof {
            let pick = Pick { weights, sums, threshold, chosen };
            let past = picks;
            picks = past.push(pick);
            assert(lowered_to(*dist, vectors@, start, last, weights@));
            assert forall|j: int| 0 <= j < picks.len() implies {
                &&& drawn_by(
                    *dist,
                    *running_sums,
                    *draw,
                    vectors@,
                    weights_before(n as nat, picks, j),
                    seeds@[j],
                    j + 1,
                    #[trigger] picks[j],
                )
                &&& seeds@[j + 1]@ == vectors@[picks[j].chosen as int]@
            } by {
                assert(weights_before(n as nat, picks, j) == weights_before(n as nat, past, j));
                if j < past.len() {
                    assert(picks[j] == past[j]);
                    assert(seeds@[j] == before[j]);
                    assert(seeds@[j + 1] == before[j + 1]);
                }
            }
        }
    }
    seeds
}

/// One round of training: the centroids before it, the partition of each vector, and the
/// centroids after it.
pub struct Round {
    pub before: Seq<Vec<u32>>,
    pub assignment: Seq<usize>,
    pub after: Seq<Vec<u32>>,
}

/// Each vector is assigned to the partition whose centroid is nearest.
pub open spec fn assigned<D: Fn(&Vec<u32>, &Vec<u32>) -> u32>(
    dist: D,
    vectors: Seq<Vec<u32>>,
    centroids: Seq<Vec<u32>>,
    assignment: Seq<usize>,
) -> bool {
    &&& assignment.len() == vectors.len()
    &&& forall|i: int|
        0 <= i < vectors.len() ==> #[trigger] nearest_by(dist, vectors[i], centroids, assignment[i])
}

/// `pid` is the place of the centroid nearest to a vector.
pub open spec fn nearest_by<D: Fn(&Vec<u32>, &Vec<u32>) -> u32>(
    dist: D,
    vector: Vec<u32>,
    centroids: Seq<Vec<u32>>,
    pid: usize,
) -> bool {
    exists|row: Seq<u32>| #[trigger] distances_to(dist, vector, centroids, row) && pid == nearest(row)
}

/// `col` holds the distances of all vectors from a centroid, as the function gave them.
pub open spec fn distances_from<D: Fn(&Vec<u32>, &Vec<u32>) -> u32>(
    dist: D,
    vectors: Seq<Vec<u32>>,
    centroid: Vec<u32>,
    col: Seq<u32>,
) -> bool {
    &&& col.len() == vectors.len()
    &&& forall|i: int|
        0 <= i < vectors.len() ==> call_ensures(dist, (&vectors[i], &centroid), #[trigger] col[i])
}

/// A new centroid: the mean of the vectors of its partition, or, where it has none, the vector
/// that is farthest from the old centroid.
pub open spec fn recentered<
    D: Fn(&Vec<u32>, &Vec<u32>) -> u32,
    M: Fn(&Vec<usize>) -> Vec<u32>,
>(
    dist: D,
    mean: M,
    vectors: Seq<Vec<u32>>,
    places: Seq<usize>,
    before: Vec<u32>,
    after: Vec<u32>,
) -> bool {
    if places.len() == 0 {
        exists|col: Seq<u32>| #[trigger]
            distances_from(dist, vectors, before, col) && after@ == vectors[farthest(col)]@
    } else {
        exists|m: Vec<usize>| m@ == places && #[trigger] call_ensures(mean, (&m,), after)
    }
}

/// A round assigns each vector to its nearest centroid and then moves every centroid.
pub open spec fn round_holds<
    D: Fn(&Vec<u32>, &Vec<u32>) -> u32,
    M: Fn(&Vec<usize>) -> Vec<u32>,
>(dist: D, mean: M, vectors: Seq<Vec<u32>>, round: Round) -> bool {
    &&& assigned(dist, vectors, round.before, round.assignment)
    &&& round.after.len() == round.before.len()
    &&& forall|p: int|
        0 <= p < round.before.len() ==> recentered(
            dist,
            mean,
            vectors,
            members(round.assignment, p, vectors.len() as int),
            round.before[p],
            #[trigger] round.after[p],
        )
}

/// The centroids after some rounds.
pub open spec fn centroids_after(seeds: Seq<Vec<u32>>, rounds: Seq<Round>) -> Seq<Vec<u32>> {
    if rounds.len() == 0 {
        seeds
    } else {
        rounds.last().after
    }
}

/// The assignment after some rounds: before the first one every vector is in partition 0.
pub open spec fn assignment_after(n: nat, rounds: Seq<Round>) -> Seq<usize> {
    if rounds.len() == 0 {
        Seq::new(n, |i: int| 0usize)
    } else {
        rounds.last().assignment
    }
}

/// Rounds follow on one another, and each moves some vector to another partition.
pub open spec fn rounds_hold<
    D: Fn(&Vec<u32>, &Vec<u32>) -> u32,
    M: Fn(&Vec<usize>) -> Vec<u32>,
>(dist: D, mean: M, vectors: Seq<Vec<u32>>, seeds: Seq<Vec<u32>>, rounds: Seq<Round>) -> bool {
    forall|r: int|
        0 <= r < rounds.len() ==> {
            &&& round_holds(dist, mean, vectors, #[trigger] rounds[r])
            &&& rounds[r].before == centroids_after(seeds, rounds.take(r))
            &&& rounds[r].assignment != assignment_after(vectors.len(), rounds.take(r))
        }
}

/// Training from given seeds: at most `max_iters` rounds, fewer only where no vector would move.
pub open spec fn trained<
    D: Fn(&Vec<u32>, &Vec<u32>) -> u32,
    M: Fn(&Vec<usize>) -> Vec<u32>,
>(
    dist: D,
    mean: M,
    vectors: Seq<Vec<u32>>,
    seeds: Seq<Vec<u32>>,
    max_iters: int,
    rounds: Seq<Round>,
    centroids: Seq<Vec<u32>>,
) -> bool {
    &&& rounds_hold(dist, mean, vectors, seeds, rounds)
    &&& rounds.len() <= max_iters
    &&& centroids == centroids_after(seeds, rounds)
    &&& rounds.len() < max_iters ==> assigned(
        dist,
        vectors,
        centroids,
        assignment_after(vectors.len(), rounds),
    )
}

/// The partition whose centroid is nearest, for each vector.
fn assign_all<D: Fn(&Vec<u32>, &Vec<u32>) -> u32>(
    vectors: &Vec<Vec<u32>>,
    centroids: &Vec<Vec<u32>>,
    dist: &D,
) -> (assignment: Vec<usize>)
    requires
        centroids@.len() > 0,
        vectors@.len() > 0,
        all_of_dim(vectors@, vectors@[0]@.len() as int),
        all_of_dim(centroids@, vectors@[0]@.len() as int),
        compares_equals(*dist),
    ensures
        assigned(*dist, vectors@, centroids@, assignment@),
{
    let mut assignment: Vec<usize> = Vec::with_capacity(vectors.len());
    let mut i: usize = 0;
    while i < vectors.len()
        invariant
            i <= vectors@.len(),
            assignment@.len() == i,
            vectors@.len() > 0,
            all_of_dim(vectors@, vectors@[0]@.len() as int),
            all_of_dim(centroids@, vectors@[0]@.len() as int),
            compares_equals(*dist),
            forall|j: int|
                0 <= j < i ==> #[trigger] nearest_by(
                    *dist,
                    vectors@[j],
                    centroids@,
                    assignment@[j],
                ),
        decreases vectors@.len() - i,
    {
        let row = distance_row(dist, &vectors[i], centroids);
        let place: usize = nearest_partition(row.as_slice());
        let ghost before = assignment@;
        assignment.push(place);
        assert(nearest_by(*dist, vectors@[i as int], centroids@, place));
        assert forall|j: int| 0 <= j < i + 1 implies #[trigger] nearest_by(
            *dist,
            vectors@[j],
            centroids@,
            assignment@[j],
        ) by {
            if j < i {
                assert(assignment@[j] == before[j]);
                assert(nearest_by(*dist, vectors@[j], centroids@, before[j]));
            }
        }
        i += 1;
    }
    assignment
}

/// The new centroid of one partition.
fn recenter<D: Fn(&Vec<u32>, &Vec<u32>) -> u32, M: Fn(&Vec<usize>) -> Vec<u32>>(
    vectors: &Vec<Vec<u32>>,
    assignment: &Vec<usize>,
    pid: usize,
    before: &Vec<u32>,
    dist: &D,
    mean: &M,
) -> (after: Vec<u32>)
    requires
        vectors@.len() > 0,
        assignment@.len() == vectors@.len(),
        all_of_dim(vectors@, before@.len() as int),
        compares_equals(*dist),
        takes_places(*mean, vectors@.len() as int),
        means_of_dim(*mean, before@.len() as int),
    ensures
        after@.len() == before@.len(),
        recentered(
            *dist,
            *mean,
            vectors@,
            members(assignment@, pid as int, vectors@.len() as int),
            *before,
            after,
        ),
{
    let places = members_of(assignment, pid);
    if places.len() > 0 {
        assert(vectors@.len() == vectors.len());
        proof {
            members_are_assigned(assignment@, pid as int, vectors@.len() as int);
        }
        return mean(&places);
    }
    let mut col: Vec<u32> = Vec::with_capacity(vectors.len());
    let mut i: usize = 0;
    while i < vectors.len()
        invariant
            i <= vectors@.len(),
            col@.len() == i,
            all_of_dim(vectors@, before@.len() as int),
            compares_equals(*dist),
            forall|j: int|
                0 <= j < i ==> call_ensures(*dist, (&vectors@[j], before), #[trigger] col@[j]),
        decreases vectors@.len() - i,
    {
        let d: u32 = dist(&vectors[i], before);
        col.push(d);
        i += 1;
    }
    assert(distances_from(*dist, vectors@, *before, col@));
    copy_of(&vectors[farthest_vector(col.as_slice())])
}

/// Whether two assignments are the same.
fn same_assignment(a: &Vec<usize>, b: &Vec<usize>) -> (r: bool)
    requires
        a@.len() == b@.len(),
    ensures
        r == (a@ == b@),
{
    let mut i: usize = 0;
    while i < a.len()
        invariant
            i <= a@.len(),
            a@.len() == b@.len(),
            forall|j: int| 0 <= j < i ==> a@[j] == b@[j],
        decreases a@.len() - i,
    {
        if a[i] != b[i] {
            return false;
        }
        i += 1;
    }
    assert(a@ =~= b@);
    true
}

/// Trains centroids from given seeds: in each round every vector goes to its nearest centroid and
/// every centroid to the mean of its vectors, until no vector moves or the rounds are used up.
pub fn train<D: Fn(&Vec<u32>, &Vec<u32>) -> u32, M: Fn(&Vec<usize>) -> Vec<u32>>(
    vectors: &Vec<Vec<u32>>,
    seeds: Vec<Vec<u32>>,
    max_iters: usize,
    dist: &D,
    mean: &M,
) -> (centroids: Vec<Vec<u32>>)
    requires
        vectors@.len() > 0,
        seeds@.len() > 0,
        all_of_dim(vectors@, vectors@[0]@.len() as int),
        all_of_dim(seeds@, vectors@[0]@.len() as int),
        compares_equals(*dist),
        takes_places(*mean, vectors@.len() as int),
        means_of_dim(*mean, vectors@[0]@.len() as int),
    ensures
        centroids@.len() == seeds@.len(),
        all_of_dim(centroids@, vectors@[0]@.len() as int),
        exists|rounds: Seq<Round>| #[trigger]
            trained(*dist, *mean, vectors@, seeds@, max_iters as int, rounds, centroids@),
{
    let ghost start = seeds@;
    let ghost dim = vectors@[0]@.len() as int;
    let ghost mut rounds: Seq<Round> = Seq::empty();
    let mut centroids = seeds;
    let mut assignment: Vec<usize> = vec![0usize; vectors.len()];
    assert(assignment@ =~= assignment_after(vectors@.len(), rounds));
    let mut iteration: usize = 0;
    let mut settled: bool = false;
    while iteration < max_iters && !settled
        invariant
            iteration <= max_iters,
            settled ==> assigned(*dist, vectors@, centroids@, assignment@),
            vectors@.len() > 0,
            start.len() > 0,
            centroids@.len() == start.len(),
            rounds.len() == iteration,
            assignment@.len() == vectors@.len(),
            dim == vectors@[0]@.len(),
            all_of_dim(vectors@, dim),
            all_of_dim(centroids@, dim),
            compares_equals(*dist),
            takes_places(*mean, vectors@.len() as int),
            means_of_dim(*mean, dim),
            rounds_hold(*dist, *mean, vectors@, start, rounds),
            centroids@ == centroids_after(start, rounds),
            assignment@ == assignment_after(vectors@.len(), rounds),
        decreases
            max_iters - iteration,
            if settled {
                0int
            } else {
                1int
            },
    {
        let moved = assign_all(vectors, &centroids, dist);
        if same_assignment(&assignment, &moved) {
            settled = true;
            continue;
        }
        let mut after: Vec<Vec<u32>> = Vec::with_capacity(centroids.len());
        let mut pid: usize = 0;
        while pid < centroids.len()
            invariant
                pid <= centroids@.len(),
                after@.len() == pid,
                vectors@.len() > 0,
                moved@.len() == vectors@.len(),
                all_of_dim(vectors@, dim),
                all_of_dim(centroids@, dim),
                all_of_dim(after@, dim),
                compares_equals(*dist),
                takes_places(*mean, vectors@.len() as int),
                means_of_dim(*mean, dim),
                forall|p: int|
                    0 <= p < pid ==> recentered(
                        *dist,
                        *mean,
                        vectors@,
                        members(moved@, p, vectors@.len() as int),
                        centroids@[p],
                        #[trigger] after@[p],
                    ),
            decreases centroids@.len() - pid,
        {
            let c = recenter(vectors, &moved, pid, &centroids[pid], dist, mean);
            after.push(c);
            pid += 1;
        }
        proof {
            let round = Round { before: centroids@, assignment: moved@, after: after@ };
            let longer = rounds.push(round);
            assert forall|r: int| 0 <= r < longer.len() implies {
                &&& round_holds(*dist, *mean, vectors@, #[trigger] longer[r])
                &&& longer[r].before == centroids_after(start, longer.take(r))
                &&& longer[r].assignment != assignment_after(vectors@.len(), longer.take(r))
            } by {
                assert(longer.take(r) =~= rounds.take(r));
                if r < rounds.len() {
                    assert(longer[r] == rounds[r]);
                } else {
                    assert(rounds.take(r) =~= rounds);
                    assert(round_holds(*dist, *mean, vectors@, round));
                }
            }
            rounds = longer;
        }
        centroids = after;
        assignment = moved;
        iteration += 1;
    }
    assert(trained(*dist, *mean, vectors@, start, max_iters as int, rounds, centroids@));
    centroids
}

/// Copies of the vectors in turn, from the first on again after the last, `n` in all.
fn vectors_in_turn(vectors: &Vec<Vec<u32>>, n: usize) -> (copies: Vec<Vec<u32>>)
    requires
        vectors@.len() > 0,
    ensures
        copies@.len() == n,
        forall|i: int|
            0 <= i < n ==> (#[trigger] copies@[i])@ == vectors@[i % (vectors@.len() as int)]@,
{
    let mut copies: Vec<Vec<u32>> = Vec::with_capacity(n);
    let mut i: usize = 0;
    while i < n
        invariant
            i <= n,
            vectors@.len() > 0,
            copies@.len() == i,
            forall|j: int|
                0 <= j < i ==> (#[trigger] copies@[j])@ == vectors@[j % (vectors@.len() as int)]@,
        decreases n - i,
    {
        copies.push(copy_of(&vectors[i % vectors.len()]));
        i += 1;
    }
    copies
}

/// One centroid for each partition: the vectors in turn where they are no more than the partitions,
/// else the outcome of training from seeds among the vectors. Without vectors there is no centroid.
pub open spec fn clustered<
    D: Fn(&Vec<u32>, &Vec<u32>) -> u32,
    M: Fn(&Vec<usize>) -> Vec<u32>,
    S: Fn(&Vec<u32>) -> Vec<u32>,
    T: Fn(u32) -> u32,
>(
    dist: D,
    mean: M,
    running_sums: S,
    draw: T,
    vectors: Seq<Vec<u32>>,
    num_partitions: int,
    max_iters: int,
    centroids: Seq<Vec<u32>>,
) -> bool {
    if vectors.len() == 0 {
        centroids.len() == 0
    } else if num_partitions >= vectors.len() {
        &&& centroids.len() == num_partitions
        &&& forall|i: int|
            0 <= i < num_partitions ==> (#[trigger] centroids[i])@ == vectors[i % (
            vectors.len() as int)]@
    } else {
        &&& centroids.len() == num_partitions
        &&& exists|seeds: Seq<Vec<u32>>, first: int, picks: Seq<Pick>, rounds: Seq<Round>|
            seeds.len() == num_partitions && #[trigger] seeded(
                dist,
                running_sums,
                draw,
                vectors,
                seeds,
                first,
                picks,
            ) && #[trigger] trained(dist, mean, vectors, seeds, max_iters, rounds, centroids)
    }
}

/// The centroids for a set of vectors, as many as there are partitions: the vectors in turn where
/// they are no more than the partitions, else trained from seeds that are drawn among them.
pub fn kmeans<
    D: Fn(&Vec<u32>, &Vec<u32>) -> u32,
    M: Fn(&Vec<usize>) -> Vec<u32>,
    S: Fn(&Vec<u32>) -> Vec<u32>,
    T: Fn(u32) -> u32,
>(
    vectors: &Vec<Vec<u32>>,
    num_partitions: usize,
    max_iters: usize,
    dist: &D,
    mean: &M,
    running_sums: &S,
    draw: &T,
) -> (centroids: Vec<Vec<u32>>)
    requires
        num_partitions > 0,
        vectors@.len() > 0 ==> all_of_dim(vectors@, vectors@[0]@.len() as int),
        vectors@.len() > 0 ==> means_of_dim(*mean, vectors@[0]@.len() as int),
        compares_equals(*dist),
        takes_places(*mean, vectors@.len() as int),
        sums_all(*running_sums),
        forall|total: u32| #[trigger] call_requires(*draw, (total,)),
    ensures
        clustered(
            *dist,
            *mean,
            *running_sums,
            *draw,
            vectors@,
            num_partitions as int,
            max_iters as int,
            centroids@,
        ),
        vectors@.len() > 0 ==> centroids@.len() == num_partitions,
        vectors@.len() > 0 ==> all_of_dim(centroids@, vectors@[0]@.len() as int),
{
    if vectors.len() == 0 {
        return Vec::new();
    }
    if num_partitions >= vectors.len() {
        return vectors_in_turn(vectors, num_partitions);
    }
    let seeds = kmeans_plus_plus_init(vectors, num_partitions, dist, running_sums, draw);
    let ghost start = seeds@;
    let centroids = train(vectors, seeds, max_iters, dist, mean);
    proof {
        let (first, picks) = choose|first: int, picks: Seq<Pick>| #[trigger]
            seeded(*dist, *running_sums, *draw, vectors@, start, first, picks);
        assert(seeded(*dist, *running_sums, *draw, vectors@, start, first, picks));
        let rounds = choose|rounds: Seq<Round>| #[trigger]
            trained(*dist, *mean, vectors@, start, max_iters as int, rounds, centroids@);
        assert(trained(*dist, *mean, vectors@, start, max_iters as int, rounds, centroids@));
    }
    centroids
}

} // verus!
