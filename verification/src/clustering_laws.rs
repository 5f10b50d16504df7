//! What training makes of vectors, centroid by centroid.

use crate::clustering;
use crate::clustering::{Pick, Round};
use crate::ieee;
use vstd::prelude::*;

verus! {

/// `place` is the first place of the smallest of numbers, or 0 where none of them is less than the
/// largest finite number.
pub open spec fn is_first_smallest(row: Seq<u32>, place: int) -> bool {
    if exists|i: int| 0 <= i < row.len() && ieee::single_lt(#[trigger] row[i], ieee::SINGLE_MAX) {
        &&& 0 <= place < row.len()
        &&& !ieee::single_nan(row[place])
        &&& forall|j: int| 0 <= j < row.len() ==> !ieee::single_lt(#[trigger] row[j], row[place])
        &&& forall|j: int|
            0 <= j < place ==> ieee::single_nan(#[trigger] row[j]) || ieee::single_lt(
                row[place],
                row[j],
            )
    } else {
        place == 0
    }
}

/// `place` is the first place of the largest of numbers, or 0 where none of them is more than -1.
pub open spec fn is_first_largest(col: Seq<u32>, place: int) -> bool {
    if exists|i: int|
        0 <= i < col.len() && ieee::single_lt(clustering::SINGLE_MINUS_ONE, #[trigger] col[i]) {
        &&& 0 <= place < col.len()
        &&& !ieee::single_nan(col[place])
        &&& forall|j: int| 0 <= j < col.len() ==> !ieee::single_lt(col[place], #[trigger] col[j])
        &&& forall|j: int|
            0 <= j < place ==> ieee::single_nan(#[trigger] col[j]) || ieee::single_lt(
                col[j],
                col[place],
            )
    } else {
        place == 0
    }
}

proof fn farthest_among_properties(dists: Seq<u32>, n: int)
    requires
        0 <= n <= dists.len(),
    ensures
        ({
            let (place, best) = clustering::farthest_among(dists, n);
            &&& 0 <= place
            &&& n > 0 ==> place < n
            &&& !ieee::single_nan(best)
            &&& forall|j: int| 0 <= j < n ==> !ieee::single_lt(best, #[trigger] dists[j])
            &&& if exists|i: int|
                0 <= i < n && ieee::single_lt(clustering::SINGLE_MINUS_ONE, #[trigger] dists[i]) {
                &&& best == dists[place]
                &&& ieee::single_lt(clustering::SINGLE_MINUS_ONE, best)
                &&& forall|j: int|
                    0 <= j < place ==> ieee::single_nan(#[trigger] dists[j]) || ieee::single_lt(
                        dists[j],
                        best,
                    )
            } else {
                place == 0 && best == clustering::SINGLE_MINUS_ONE
            }
        }),
    decreases n,
{
    if n > 0 {
        farthest_among_properties(dists, n - 1);
        let (place, best) = clustering::farthest_among(dists, n - 1);
        let last = dists[n - 1];
        if ieee::single_lt(best, last) {
            assert forall|j: int| 0 <= j < n - 1 implies ieee::single_nan(#[trigger] dists[j])
                || ieee::single_lt(dists[j], last) by {
                assert(!ieee::single_lt(best, dists[j]));
            }
        } else {
            if exists|i: int|
                0 <= i < n && ieee::single_lt(clustering::SINGLE_MINUS_ONE, #[trigger] dists[i]) {
                let i = choose|i: int|
                    0 <= i < n && ieee::single_lt(
                        clustering::SINGLE_MINUS_ONE,
                        #[trigger] dists[i],
                    );
                if i == n - 1 {
                    assert(best != clustering::SINGLE_MINUS_ONE);
                }
                assert(exists|i: int|
                    0 <= i < n - 1 && ieee::single_lt(
                        clustering::SINGLE_MINUS_ONE,
                        #[trigger] dists[i],
                    ));
            }
        }
    }
}

/// The nearest of distances is the first of the smallest.
pub proof fn nearest_is_chosen(row: Seq<u32>)
    ensures
        is_first_smallest(row, clustering::nearest(row)),
        row.len() > 0 ==> 0 <= clustering::nearest(row) < row.len(),
{
    clustering::nearest_is_first_smallest(row);
    if exists|i: int| 0 <= i < row.len() && ieee::single_lt(#[trigger] row[i], ieee::SINGLE_MAX) {
        let i = choose|i: int|
            0 <= i < row.len() && ieee::single_lt(#[trigger] row[i], ieee::SINGLE_MAX);
        let place = clustering::nearest(row);
        assert(!ieee::single_lt(row[i], row[place]));
        if ieee::single_nan(row[place]) {
            if i < place {
                assert(ieee::single_nan(row[i]) || ieee::single_lt(row[place], row[i]));
            }
            nearest_is_number(row);
        }
    }
}

proof fn nearest_is_number(row: Seq<u32>)
    requires
        exists|i: int| 0 <= i < row.len() && ieee::single_lt(#[trigger] row[i], ieee::SINGLE_MAX),
    ensures
        !ieee::single_nan(row[clustering::nearest(row)]),
{
    nearest_is_number_among(row, row.len() as int);
}

proof fn nearest_is_number_among(row: Seq<u32>, n: int)
    requires
        0 <= n <= row.len(),
    ensures
        ({
            let (place, best) = clustering::nearest_among(row, n);
            &&& !ieee::single_nan(best)
            &&& !ieee::single_lt(ieee::SINGLE_MAX, best)
            &&& best == row[place] || place == 0 && best == ieee::SINGLE_MAX
            &&& best == ieee::SINGLE_MAX ==> forall|i: int|
                0 <= i < n ==> !ieee::single_lt(#[trigger] row[i], ieee::SINGLE_MAX)
        }),
    decreases n,
{
    if n > 0 {
        nearest_is_number_among(row, n - 1);
    }
}

/// The farthest of distances is the first of the largest.
pub proof fn farthest_is_chosen(col: Seq<u32>)
    ensures
        is_first_largest(col, clustering::farthest(col)),
        col.len() > 0 ==> 0 <= clustering::farthest(col) < col.len(),
{
    farthest_among_properties(col, col.len() as int);
}

/// A vector goes to a partition: no centroid is nearer than that of the partition, and none before
/// it is as near.
pub open spec fn goes_to<D: Fn(&Vec<u32>, &Vec<u32>) -> u32>(
    dist: D,
    vector: Vec<u32>,
    centroids: Seq<Vec<u32>>,
    pid: int,
) -> bool {
    exists|row: Seq<u32>|
        {
            &&& row.len() == centroids.len()
            &&& forall|c: int|
                0 <= c < row.len() ==> call_ensures(
                    dist,
                    (&vector, &centroids[c]),
                    #[trigger] row[c],
                )
            &&& #[trigger] is_first_smallest(row, pid)
        }
}

/// A centroid is what the mean function gives for exactly the places of all vectors that are
/// assigned to a partition, from the first on.
pub open spec fn is_mean_of<M: Fn(&Vec<usize>) -> Vec<u32>>(
    mean: M,
    assignment: Seq<usize>,
    pid: int,
    centroid: Vec<u32>,
) -> bool {
    exists|m: Vec<usize>|
        {
            &&& #[trigger] call_ensures(mean, (&m,), centroid)
            &&& forall|i: int, j: int| 0 <= i < j < m@.len() ==> #[trigger] m@[i] < #[trigger] m@[j]
            &&& forall|j: int|
                0 <= j < m@.len() ==> (#[trigger] m@[j]) < assignment.len() && assignment[m@[j] as int]
                    == pid
            &&& forall|x: usize|
                x < assignment.len() && assignment[x as int] == pid ==> #[trigger] m@.contains(x)
        }
}

/// A centroid is the first of the vectors that are farthest from another one.
pub open spec fn is_farthest_from<D: Fn(&Vec<u32>, &Vec<u32>) -> u32>(
    dist: D,
    vectors: Seq<Vec<u32>>,
    before: Vec<u32>,
    centroid: Vec<u32>,
) -> bool {
    exists|col: Seq<u32>, place: int|
        {
            &&& col.len() == vectors.len()
            &&& forall|i: int|
                0 <= i < col.len() ==> call_ensures(dist, (&vectors[i], &before), #[trigger] col[i])
            &&& #[trigger] is_first_largest(col, place)
            &&& centroid@ == vectors[place]@
        }
}

/// A round of training: every vector goes to the partition of the nearest centroid, and then every
/// centroid goes to the mean of its vectors, or to the vector farthest from it where it has none.
pub open spec fn round_means<
    D: Fn(&Vec<u32>, &Vec<u32>) -> u32,
    M: Fn(&Vec<usize>) -> Vec<u32>,
>(dist: D, mean: M, vectors: Seq<Vec<u32>>, round: Round) -> bool {
    &&& round.assignment.len() == vectors.len()
    &&& round.after.len() == round.before.len()
    &&& forall|i: int|
        0 <= i < vectors.len() ==> goes_to(
            dist,
            vectors[i],
            round.before,
            #[trigger] round.assignment[i] as int,
        )
    &&& forall|p: int|
        #![trigger round.after[p]]
        0 <= p < round.after.len() ==> if exists|i: int|
            0 <= i < vectors.len() && #[trigger] round.assignment[i] == p {
            is_mean_of(mean, round.assignment, p, round.after[p])
        } else {
            is_farthest_from(dist, vectors, round.before[p], round.after[p])
        }
}

proof fn assigned_goes_to<D: Fn(&Vec<u32>, &Vec<u32>) -> u32>(
    dist: D,
    vectors: Seq<Vec<u32>>,
    centroids: Seq<Vec<u32>>,
    assignment: Seq<usize>,
    i: int,
)
    requires
        clustering::assigned(dist, vectors, centroids, assignment),
        0 <= i < vectors.len(),
    ensures
        goes_to(dist, vectors[i], centroids, assignment[i] as int),
{
    assert(clustering::nearest_by(dist, vectors[i], centroids, assignment[i]));
    let row = choose|row: Seq<u32>| #[trigger]
        clustering::distances_to(dist, vectors[i], centroids, row) && assignment[i]
            == clustering::nearest(row);
    nearest_is_chosen(row);
}

/// Every round of training is what it should be.
pub proof fn rounds_take_means<
    D: Fn(&Vec<u32>, &Vec<u32>) -> u32,
    M: Fn(&Vec<usize>) -> Vec<u32>,
>(dist: D, mean: M, vectors: Seq<Vec<u32>>, round: Round)
    requires
        0 < vectors.len() <= usize::MAX,
        clustering::round_holds(dist, mean, vectors, round),
    ensures
        round_means(dist, mean, vectors, round),
{
    let n = vectors.len() as int;
    let assignment = round.assignment;
    assert forall|i: int| 0 <= i < vectors.len() implies goes_to(
        dist,
        vectors[i],
        round.before,
        #[trigger] assignment[i] as int,
    ) by {
        assigned_goes_to(dist, vectors, round.before, assignment, i);
    }
    assert forall|p: int|
        #![trigger round.after[p]]
        0 <= p < round.after.len() implies if exists|i: int|
        0 <= i < vectors.len() && #[trigger] assignment[i] == p {
        is_mean_of(mean, assignment, p, round.after[p])
    } else {
        is_farthest_from(dist, vectors, round.before[p], round.after[p])
    } by {
        let places = clustering::members(assignment, p, n);
        clustering::members_are_assigned(assignment, p, n);
        assert(clustering::recentered(
            dist,
            mean,
            vectors,
            places,
            round.before[p],
            round.after[p],
        ));
        if exists|i: int| 0 <= i < vectors.len() && #[trigger] assignment[i] == p {
            let i = choose|i: int| 0 <= i < vectors.len() && #[trigger] assignment[i] == p;
            assert(places.contains(i as usize));
            let m = choose|m: Vec<usize>|
                m@ == places && #[trigger] call_ensures(mean, (&m,), round.after[p]);
            assert forall|x: usize|
                x < assignment.len() && assignment[x as int] == p implies #[trigger] m@.contains(x) by {
                assert(assignment[x as int] == p);
            }
            assert forall|j: int| 0 <= j < m@.len() implies (#[trigger] m@[j]) < assignment.len()
                && assignment[m@[j] as int] == p by {
                assert(places[j] < n);
            }
            assert forall|i: int, j: int| 0 <= i < j < m@.len() implies #[trigger] m@[i]
                < #[trigger] m@[j] by {
                assert(places[i] < places[j]);
            }
        } else {
            if places.len() > 0 {
                assert(0 <= places[0] < n && assignment[places[0] as int] == p);
            }
            let col = choose|col: Seq<u32>| #[trigger]
                clustering::distances_from(dist, vectors, round.before[p], col)
                    && round.after[p]@ == vectors[clustering::farthest(col)]@;
            farthest_is_chosen(col);
            assert(is_first_largest(col, clustering::farthest(col)));
        }
    }
}

/// A weight is the least of the distances from the first `n` seeds, and no more than the largest
/// finite number.
pub open spec fn is_least(cols: Seq<Seq<u32>>, n: int, i: int, weight: u32) -> bool {
    &&& weight == ieee::SINGLE_MAX || exists|s: int| 0 <= s < n && (#[trigger] cols[s])[i] == weight
    &&& !ieee::single_lt(ieee::SINGLE_MAX, weight)
    &&& forall|s: int| 0 <= s < n ==> !ieee::single_lt((#[trigger] cols[s])[i], weight)
}

/// A place is what a threshold selects among running sums: the first whose sum reaches it, or 0
/// where none does; where the total is zero or less, the places follow one another.
pub open spec fn is_selected(sums: Seq<u32>, threshold: u32, count: int, place: int) -> bool {
    let total = sums[sums.len() - 1];
    if !ieee::single_nan(total) && ieee::single_rank(total) <= 0 {
        place == count % (sums.len() as int)
    } else {
        let reaches = |j: int|
            !ieee::single_nan(sums[j]) && !ieee::single_nan(threshold) && ieee::single_rank(sums[j])
                >= ieee::single_rank(threshold);
        ||| 0 <= place < sums.len() && reaches(place) && forall|j: int|
            0 <= j < place ==> !(#[trigger] reaches(j))
        ||| place == 0 && forall|j: int| 0 <= j < sums.len() ==> !(#[trigger] reaches(j))
    }
}

proof fn reached_is_first(sums: Seq<u32>, threshold: u32, i: int)
    requires
        0 <= i <= sums.len(),
    ensures
        ({
            let place = clustering::reached_from(sums, threshold, i);
            ||| i <= place < sums.len() && clustering::at_least(sums[place], threshold) && forall|
                j: int,
            | i <= j < place ==> !clustering::at_least(#[trigger] sums[j], threshold)
            ||| place == 0 && forall|j: int|
                i <= j < sums.len() ==> !clustering::at_least(#[trigger] sums[j], threshold)
        }),
    decreases sums.len() - i,
{
    if i < sums.len() && !clustering::at_least(sums[i], threshold) {
        reached_is_first(sums, threshold, i + 1);
    }
}

/// A draw selects the first place whose running sum reaches the threshold.
pub proof fn draws_select(sums: Seq<u32>, threshold: u32, count: int)
    requires
        sums.len() > 0,
    ensures
        is_selected(sums, threshold, count, clustering::drawn_seed(sums, threshold, count)),
{
    let total = sums[sums.len() - 1];
    assert(ieee::single_rank(0) == 0 && !ieee::single_nan(0));
    if !(!ieee::single_nan(total) && ieee::single_rank(total) <= 0) {
        reached_is_first(sums, threshold, 0);
        let place = clustering::reached_from(sums, threshold, 0);
        let reaches = |j: int|
            !ieee::single_nan(sums[j]) && !ieee::single_nan(threshold) && ieee::single_rank(sums[j])
                >= ieee::single_rank(threshold);
        assert forall|j: int| 0 <= j < sums.len() implies (#[trigger] reaches(j))
            == clustering::at_least(sums[j], threshold) by {}
        if 0 <= place < sums.len() && clustering::at_least(sums[place], threshold) {
            assert(reaches(place));
        }
    }
}

/// Seeds are drawn one after the other: the first is one of the vectors; each further one is
/// selected by the running sums of the least distances of the vectors from the seeds before it.
pub open spec fn draws_mean<
    D: Fn(&Vec<u32>, &Vec<u32>) -> u32,
    S: Fn(&Vec<u32>) -> Vec<u32>,
    T: Fn(u32) -> u32,
>(
    dist: D,
    running_sums: S,
    draw: T,
    vectors: Seq<Vec<u32>>,
    seeds: Seq<Vec<u32>>,
    first: int,
    picks: Seq<Pick>,
    cols: Seq<Seq<u32>>,
) -> bool {
    &&& seeds.len() == picks.len() + 1
    &&& cols.len() == picks.len()
    &&& 0 <= first < vectors.len()
    &&& seeds[0]@ == vectors[first]@
    &&& forall|s: int|
        0 <= s < cols.len() ==> (#[trigger] cols[s]).len() == vectors.len() && forall|i: int|
            0 <= i < vectors.len() ==> call_ensures(
                dist,
                (&vectors[i], &seeds[s]),
                #[trigger] cols[s][i],
            )
    &&& forall|j: int|
        0 <= j < picks.len() ==> {
            &&& (#[trigger] picks[j]).weights@.len() == vectors.len()
            &&& forall|i: int|
                0 <= i < vectors.len() ==> is_least(cols, j + 1, i, #[trigger] picks[j].weights@[i])
            &&& call_ensures(running_sums, (&picks[j].weights,), picks[j].sums)
            &&& call_ensures(draw, (picks[j].sums@.last(),), picks[j].threshold)
            &&& is_selected(
                picks[j].sums@,
                picks[j].threshold,
                j + 1,
                picks[j].chosen as int,
            )
            &&& picks[j].chosen < vectors.len()
            &&& seeds[j + 1]@ == vectors[picks[j].chosen as int]@
        }
}

/// Seeds are drawn as they should be.
pub proof fn seeds_are_drawn<
    D: Fn(&Vec<u32>, &Vec<u32>) -> u32,
    S: Fn(&Vec<u32>) -> Vec<u32>,
    T: Fn(u32) -> u32,
>(
    dist: D,
    running_sums: S,
    draw: T,
    vectors: Seq<Vec<u32>>,
    seeds: Seq<Vec<u32>>,
    first: int,
    picks: Seq<Pick>,
)
    requires
        clustering::sums_all(running_sums),
        clustering::seeded(dist, running_sums, draw, vectors, seeds, first, picks),
    ensures
        exists|cols: Seq<Seq<u32>>| #[trigger]
            draws_mean(dist, running_sums, draw, vectors, seeds, first, picks, cols),
{
    let n = vectors.len();
    let cols = Seq::new(
        picks.len(),
        |j: int|
            choose|col: Seq<u32>| #[trigger]
                clustering::distances_from(dist, vectors, seeds[j], col) && picks[j].weights@
                    == clustering::lowered(clustering::weights_before(n, picks, j), col),
    );
    assert forall|j: int| 0 <= j < picks.len() implies {
        &&& clustering::distances_from(dist, vectors, seeds[j], #[trigger] cols[j])
        &&& picks[j].weights@ == clustering::lowered(
            clustering::weights_before(n, picks, j),
            cols[j],
        )
    } by {
        assert(clustering::drawn_by(
            dist,
            running_sums,
            draw,
            vectors,
            clustering::weights_before(n, picks, j),
            seeds[j],
            j + 1,
            picks[j],
        ));
    }
    assert forall|j: int| 0 <= j < picks.len() implies {
        &&& (#[trigger] picks[j]).weights@.len() == vectors.len()
        &&& forall|i: int|
            0 <= i < vectors.len() ==> is_least(cols, j + 1, i, #[trigger] picks[j].weights@[i])
        &&& call_ensures(running_sums, (&picks[j].weights,), picks[j].sums)
        &&& call_ensures(draw, (picks[j].sums@.last(),), picks[j].threshold)
        &&& is_selected(picks[j].sums@, picks[j].threshold, j + 1, picks[j].chosen as int)
        &&& picks[j].chosen < vectors.len()
        &&& seeds[j + 1]@ == vectors[picks[j].chosen as int]@
    } by {
        weights_are_least(vectors.len(), picks, cols, j);
        draws_select(picks[j].sums@, picks[j].threshold, j + 1);
    }
    assert(draws_mean(dist, running_sums, draw, vectors, seeds, first, picks, cols));
}

proof fn weights_are_least(n: nat, picks: Seq<Pick>, cols: Seq<Seq<u32>>, j: int)
    requires
        0 <= j < picks.len(),
        cols.len() == picks.len(),
        forall|s: int|
            0 <= s < picks.len() ==> {
                &&& (#[trigger] cols[s]).len() == n
                &&& picks[s].weights@ == clustering::lowered(
                    clustering::weights_before(n, picks, s),
                    cols[s],
                )
            },
    ensures
        picks[j].weights@.len() == n,
        forall|i: int| 0 <= i < n ==> is_least(cols, j + 1, i, #[trigger] picks[j].weights@[i]),
    decreases j,
{
    assert(cols[j].len() == n);
    let before = clustering::weights_before(n, picks, j);
    if j > 0 {
        weights_are_least(n, picks, cols, j - 1);
    }
    assert forall|i: int| 0 <= i < n implies is_least(cols, j + 1, i, #[trigger] picks[j].weights@[i]) by {
        let weight = picks[j].weights@[i];
        if j > 0 {
            assert(is_least(cols, j, i, picks[j - 1].weights@[i]));
        } else {
            assert(before[i] == ieee::SINGLE_MAX);
        }
        if ieee::single_lt(cols[j][i], before[i]) {
            assert(cols[j][i] == weight);
            assert forall|s: int| 0 <= s < j + 1 implies !ieee::single_lt(
                (#[trigger] cols[s])[i],
                weight,
            ) by {
                if s < j {
                    assert(!ieee::single_lt(cols[s][i], before[i]));
                }
            }
        } else {
            assert(weight == before[i]);
            if weight != ieee::SINGLE_MAX {
                let s = choose|s: int| 0 <= s < j && (#[trigger] cols[s])[i] == weight;
                assert(cols[s][i] == weight);
            }
        }
    }
}

/// Training: it starts from seeds among the vectors; every round begins with the centroids that the
/// one before ended with, and moves some vector to another partition; the centroids are those of
/// the last round, and where the rounds were not used up, no vector would move.
pub open spec fn training_means<
    D: Fn(&Vec<u32>, &Vec<u32>) -> u32,
    M: Fn(&Vec<usize>) -> Vec<u32>,
>(
    dist: D,
    mean: M,
    vectors: Seq<Vec<u32>>,
    seeds: Seq<Vec<u32>>,
    max_iters: int,
    rounds: Seq<Round>,
    centroids: Seq<Vec<u32>>,
) -> bool {
    let n = rounds.len() as int;
    &&& n <= max_iters
    &&& n == 0 ==> centroids == seeds
    &&& n > 0 ==> centroids == rounds[n - 1].after
    &&& forall|r: int|
        #![trigger rounds[r]]
        0 <= r < n ==> {
            &&& round_means(dist, mean, vectors, rounds[r])
            &&& rounds[r].before == if r == 0 {
                seeds
            } else {
                rounds[r - 1].after
            }
            &&& exists|i: int|
                0 <= i < vectors.len() && #[trigger] rounds[r].assignment[i] != if r == 0 {
                    0
                } else {
                    rounds[r - 1].assignment[i]
                }
        }
    &&& n < max_iters ==> forall|i: int|
        0 <= i < vectors.len() ==> goes_to(
            dist,
            #[trigger] vectors[i],
            centroids,
            if n == 0 {
                0
            } else {
                rounds[n - 1].assignment[i] as int
            },
        )
}

/// Training from seeds is what it should be.
pub proof fn training_takes_means<
    D: Fn(&Vec<u32>, &Vec<u32>) -> u32,
    M: Fn(&Vec<usize>) -> Vec<u32>,
>(
    dist: D,
    mean: M,
    vectors: Seq<Vec<u32>>,
    seeds: Seq<Vec<u32>>,
    max_iters: int,
    rounds: Seq<Round>,
    centroids: Seq<Vec<u32>>,
)
    requires
        0 < vectors.len() <= usize::MAX,
        clustering::trained(dist, mean, vectors, seeds, max_iters, rounds, centroids),
    ensures
        training_means(dist, mean, vectors, seeds, max_iters, rounds, centroids),
{
    let n = rounds.len() as int;
    assert forall|r: int|
        #![trigger rounds[r]]
        0 <= r < n implies {
        &&& round_means(dist, mean, vectors, rounds[r])
        &&& rounds[r].before == if r == 0 {
            seeds
        } else {
            rounds[r - 1].after
        }
        &&& exists|i: int|
            0 <= i < vectors.len() && #[trigger] rounds[r].assignment[i] != if r == 0 {
                0
            } else {
                rounds[r - 1].assignment[i]
            }
    } by {
        rounds_take_means(dist, mean, vectors, rounds[r]);
        let earlier = clustering::assignment_after(vectors.len(), rounds.take(r));
        if r > 0 {
            assert(rounds.take(r).last() == rounds[r - 1]);
            rounds_take_means(dist, mean, vectors, rounds[r - 1]);
        }
        let now = rounds[r].assignment;
        assert(now.len() == earlier.len());
        if forall|i: int| 0 <= i < vectors.len() ==> #[trigger] now[i] == earlier[i] {
            assert(now =~= earlier);
        }
        let i = choose|i: int| 0 <= i < vectors.len() && #[trigger] now[i] != earlier[i];
        assert(rounds[r].assignment[i] != earlier[i]);
    }
    if n < max_iters {
        let last = clustering::assignment_after(vectors.len(), rounds);
        assert forall|i: int| 0 <= i < vectors.len() implies goes_to(
            dist,
            #[trigger] vectors[i],
            centroids,
            if n == 0 {
                0
            } else {
                rounds[n - 1].assignment[i] as int
            },
        ) by {
            assigned_goes_to(dist, vectors, centroids, last, i);
        }
    }
}

/// What the centroids for a set of vectors are: where the vectors are no more than the partitions,
/// the vectors in turn; else the outcome of training, from seeds that were drawn among the vectors,
/// by rounds that take the mean of every partition.
pub proof fn centroids_are_trained<
    D: Fn(&Vec<u32>, &Vec<u32>) -> u32,
    M: Fn(&Vec<usize>) -> Vec<u32>,
    S: Fn(&Vec<u32>) -> Vec<u32>,
    T: Fn(u32) -> u32,
>(
    dist: D,
    mean: M,
    running_sums: S,
    draw: T,
    vectors: Seq<Vec<u32>>,
    num_partitions: int,
    max_iters: int,
    centroids: Seq<Vec<u32>>,
)
    requires
        0 < num_partitions,
        vectors.len() <= usize::MAX,
        clustering::sums_all(running_sums),
        clustering::clustered(
            dist,
            mean,
            running_sums,
            draw,
            vectors,
            num_partitions,
            max_iters,
            centroids,
        ),
    ensures
        vectors.len() == 0 ==> centroids.len() == 0,
        vectors.len() > 0 ==> centroids.len() == num_partitions,
        0 < vectors.len() <= num_partitions ==> forall|i: int|
            0 <= i < centroids.len() ==> (#[trigger] centroids[i])@ == vectors[i % (
            vectors.len() as int)]@,
        num_partitions < vectors.len() ==> exists|
            seeds: Seq<Vec<u32>>,
            first: int,
            picks: Seq<Pick>,
            cols: Seq<Seq<u32>>,
            rounds: Seq<Round>,
        |
            #![trigger draws_mean(dist, running_sums, draw, vectors, seeds, first, picks, cols), training_means(dist, mean, vectors, seeds, max_iters, rounds, centroids)]
            {
                &&& seeds.len() == num_partitions
                &&& draws_mean(dist, running_sums, draw, vectors, seeds, first, picks, cols)
                &&& training_means(dist, mean, vectors, seeds, max_iters, rounds, centroids)
            },
{
    if num_partitions < vectors.len() {
        let (seeds, first, picks, rounds) = choose|
            seeds: Seq<Vec<u32>>,
            first: int,
            picks: Seq<Pick>,
            rounds: Seq<Round>,
        |
            seeds.len() == num_partitions && #[trigger] clustering::seeded(
                dist,
                running_sums,
                draw,
                vectors,
                seeds,
                first,
                picks,
            ) && #[trigger] clustering::trained(
                dist,
                mean,
                vectors,
                seeds,
                max_iters,
                rounds,
                centroids,
            );
        seeds_are_drawn(dist, running_sums, draw, vectors, seeds, first, picks);
        let cols = choose|cols: Seq<Seq<u32>>| #[trigger]
            draws_mean(dist, running_sums, draw, vectors, seeds, first, picks, cols);
        training_takes_means(dist, mean, vectors, seeds, max_iters, rounds, centroids);
        assert(draws_mean(dist, running_sums, draw, vectors, seeds, first, picks, cols));
        assert(training_means(dist, mean, vectors, seeds, max_iters, rounds, centroids));
    }
}

} // verus!
