//! Fusing several result lists into one.

use crate::ieee;
use crate::ordering::SortKey;
use crate::ordering;
use std::collections::HashMap;
use vstd::prelude::*;
use vstd::std_specs::hash::*;

verus! {

/// What the items of an id contribute, in the order of the items.
pub open spec fn contributions<A>(items: Seq<(u64, A)>, id: u64) -> Seq<A>
    decreases items.len(),
{
    if items.len() == 0 {
        Seq::empty()
    } else if items.last().0 == id {
        contributions(items.drop_last(), id).push(items.last().1)
    } else {
        contributions(items.drop_last(), id)
    }
}

/// The scores that come of zero by adding contributions one after the other.
pub open spec fn sums<A, F: Fn(u32, A) -> u32>(credit: F, parts: Seq<A>, trace: Seq<u32>) -> bool {
    &&& trace.len() == parts.len() + 1
    &&& trace[0] == 0
    &&& forall|i: int|
        0 <= i < parts.len() ==> call_ensures(
            credit,
            (trace[i], #[trigger] parts[i]),
            trace[i + 1],
        )
}

/// `score` comes of zero by adding contributions one after the other.
pub open spec fn summed<A, F: Fn(u32, A) -> u32>(credit: F, parts: Seq<A>, score: u32) -> bool {
    exists|trace: Seq<u32>| #[trigger] sums(credit, parts, trace) && score == trace.last()
}

/// An id is among the items.
pub open spec fn occurs<A>(items: Seq<(u64, A)>, id: u64) -> bool {
    exists|i: int| 0 <= i < items.len() && (#[trigger] items[i]).0 == id
}

/// Every id of the items has its score once.
pub open spec fn scored<A, F: Fn(u32, A) -> u32>(
    credit: F,
    items: Seq<(u64, A)>,
    scores: Seq<(u64, u32)>,
) -> bool {
    &&& forall|i: int, j: int|
        0 <= i < j < scores.len() ==> (#[trigger] scores[i]).0 != (#[trigger] scores[j]).0
    &&& forall|i: int|
        0 <= i < scores.len() ==> {
            &&& occurs(items, (#[trigger] scores[i]).0)
            &&& summed(credit, contributions(items, scores[i].0), scores[i].1)
        }
    &&& forall|id: u64| #[trigger] occurs(items, id) ==> occurs(scores, id)
}

/// From the highest score to the lowest, equal scores from the lowest id to the highest.
pub open spec fn ranked(results: Seq<(u64, u32)>) -> bool {
    forall|i: int, j: int|
        0 <= i < j < results.len() ==> {
            ||| ieee::single_rank((#[trigger] results[i]).1) > ieee::single_rank(
                (#[trigger] results[j]).1,
            )
            ||| ieee::single_rank(results[i].1) == ieee::single_rank(results[j].1) && results[i].0
                < results[j].0
        }
}

/// The scores of the items are numbers wherever there are two to be compared.
pub open spec fn adds_numbers<A, F: Fn(u32, A) -> u32>(credit: F, items: Seq<(u64, A)>) -> bool {
    &&& forall|s: u32, a: A| #[trigger] call_requires(credit, (s, a))
    &&& forall|id: u64, other: u64, score: u32|
        #![trigger summed(credit, contributions(items, id), score), occurs(items, other)]
        occurs(items, id) && occurs(items, other) && id != other && summed(
            credit,
            contributions(items, id),
            score,
        ) ==> !ieee::single_nan(score)
}

/// The scores that are kept per id, and where each id has its score.
spec fn tabled(scores: Seq<(u64, u32)>, places: Map<u64, usize>) -> bool {
    &&& forall|i: int|
        0 <= i < scores.len() ==> places.contains_key((#[trigger] scores[i]).0)
            && places[scores[i].0] == i
    &&& forall|id: u64| #[trigger]
        places.contains_key(id) ==> places[id] < scores.len() && scores[places[id] as int].0 == id
}

/// What one more item adds to the contributions.
proof fn contributions_push<A>(items: Seq<(u64, A)>, item: (u64, A), id: u64)
    ensures
        contributions(items.push(item), id) == if item.0 == id {
            contributions(items, id).push(item.1)
        } else {
            contributions(items, id)
        },
{
    assert(items.push(item).drop_last() =~= items);
}

/// An id that does not occur has no contributions.
proof fn no_contributions<A>(items: Seq<(u64, A)>, id: u64)
    requires
        !occurs(items, id),
    ensures
        contributions(items, id).len() == 0,
    decreases items.len(),
{
    if items.len() > 0 {
        assert(items[items.len() - 1].0 != id);
        assert forall|i: int| 0 <= i < items.drop_last().len() implies (
        #[trigger] items.drop_last()[i]).0 != id by {
            assert(items[i].0 != id);
        }
        no_contributions(items.drop_last(), id);
    }
}

/// Scores stay right where an item is added to its score.
proof fn score_step<A, F: Fn(u32, A) -> u32>(
    credit: F,
    items: Seq<(u64, A)>,
    item: (u64, A),
    old_scores: Seq<(u64, u32)>,
    new_scores: Seq<(u64, u32)>,
    p: int,
    before: u32,
)
    requires
        scored(credit, items, old_scores),
        0 <= p < new_scores.len(),
        new_scores[p].0 == item.0,
        call_ensures(credit, (before, item.1), new_scores[p].1),
        if p < old_scores.len() {
            &&& old_scores[p] == (item.0, before)
            &&& new_scores == old_scores.update(p, new_scores[p])
        } else {
            &&& before == 0
            &&& !occurs(items, item.0)
            &&& new_scores == old_scores.push(new_scores[p])
        },
    ensures
        scored(credit, items.push(item), new_scores),
{
    let more = items.push(item);
    assert forall|i: int| 0 <= i < new_scores.len() implies {
        &&& occurs(more, (#[trigger] new_scores[i]).0)
        &&& summed(credit, contributions(more, new_scores[i].0), new_scores[i].1)
    } by {
        let id = new_scores[i].0;
        contributions_push(items, item, id);
        if i == p {
            assert(more[items.len() as int].0 == id);
            if p >= old_scores.len() {
                no_contributions(items, id);
            }
            let parts = contributions(more, id);
            let past = contributions(items, id);
            assert(parts =~= past.push(item.1));
            if p >= old_scores.len() {
                assert(sums(credit, past, seq![0u32]));
            }
            assert(summed(credit, past, before));
            let trace = choose|trace: Seq<u32>| #[trigger]
                sums(credit, past, trace) && before == trace.last();
            let longer = trace.push(new_scores[p].1);
            assert forall|k: int| 0 <= k < parts.len() implies call_ensures(
                credit,
                (longer[k], #[trigger] parts[k]),
                longer[k + 1],
            ) by {
                if k < past.len() {
                    assert(parts[k] == past[k]);
                }
            }
            assert(sums(credit, parts, longer));
        } else {
            assert(new_scores[i] == old_scores[i]);
            let k = choose|k: int| 0 <= k < items.len() && (#[trigger] items[k]).0 == id;
            assert(more[k].0 == id);
            if p < old_scores.len() {
                assert(old_scores[p].0 != old_scores[i].0);
            } else {
                assert(occurs(items, id));
            }
        }
    }
    assert forall|i: int, j: int| 0 <= i < j < new_scores.len() implies (
    #[trigger] new_scores[i]).0 != (#[trigger] new_scores[j]).0 by {
        if p < old_scores.len() {
            assert(new_scores[i].0 == old_scores[i].0);
            assert(new_scores[j].0 == old_scores[j].0);
        } else {
            assert(new_scores[i] == old_scores[i]);
            assert(occurs(items, old_scores[i].0));
            if j < p {
                assert(new_scores[j] == old_scores[j]);
            }
        }
    }
    assert forall|id: u64| #[trigger] occurs(more, id) implies occurs(new_scores, id) by {
        if id == item.0 {
            assert(new_scores[p].0 == id);
        } else {
            let k = choose|k: int| 0 <= k < more.len() && (#[trigger] more[k]).0 == id;
            assert(items[k].0 == id);
            assert(occurs(items, id));
            let i = choose|i: int| 0 <= i < old_scores.len() && (#[trigger] old_scores[i]).0 == id;
            assert(new_scores[i].0 == id);
        }
    }
}

/// The score of every id.
fn collect_scores<A: Copy, F: Fn(u32, A) -> u32>(items: &Vec<(u64, A)>, credit: &F) -> (scores: Vec<
    (u64, u32),
>)
    requires
        forall|s: u32, a: A| #[trigger] call_requires(*credit, (s, a)),
    ensures
        scored(*credit, items@, scores@),
{
    broadcast use vstd::std_specs::hash::group_hash_axioms;

    let mut scores: Vec<(u64, u32)> = Vec::new();
    let mut places: HashMap<u64, usize> = HashMap::new();
    let mut n: usize = 0;
    assert(items@.take(0) =~= Seq::empty());
    assert forall|id: u64| !(#[trigger] occurs(items@.take(0), id)) by {}
    while n < items.len()
        invariant
            n <= items@.len(),
            forall|s: u32, a: A| #[trigger] call_requires(*credit, (s, a)),
            scored(*credit, items@.take(n as int), scores@),
            tabled(scores@, places@),
        decreases items@.len() - n,
    {
        let (id, part): (u64, A) = items[n];
        let ghost done = items@.take(n as int);
        let ghost before = scores@;
        let place: usize = match places.get(&id) {
            Some(p) => *p,
            None => scores.len(),
        };
        let score: u32 = if place < scores.len() {
            scores[place].1
        } else {
            0
        };
        let sum: u32 = credit(score, part);
        if place < scores.len() {
            scores.set(place, (id, sum));
        } else {
            proof {
                if occurs(done, id) {
                    assert(occurs(before, id));
                    let i = choose|i: int| 0 <= i < before.len() && (#[trigger] before[i]).0 == id;
                    assert(places@.contains_key(before[i].0));
                }
            }
            scores.push((id, sum));
            places.insert(id, place);
        }
        proof {
            assert(items@.take(n + 1) =~= done.push((id, part)));
            score_step(*credit, done, (id, part), before, scores@, place as int, score);
        }
        n += 1;
    }
    assert(items@.take(n as int) =~= items@);
    scores
}

/// The keys that rank scores.
pub open spec fn rank_keys(scores: Seq<(u64, u32)>) -> Seq<SortKey> {
    Seq::new(
        scores.len(),
        |i: int|
            SortKey { major: (-ieee::single_rank(scores[i].1)) as i64, minor: scores[i].0 },
    )
}

/// Ranks scores.
fn rank(scores: &Vec<(u64, u32)>) -> (results: Vec<(u64, u32)>)
    requires
        forall|i: int, j: int|
            0 <= i < j < scores@.len() ==> (#[trigger] scores@[i]).0 != (#[trigger] scores@[j]).0,
    ensures
        ranked(results@),
        results@.to_multiset() == scores@.to_multiset(),
        results@.len() == scores@.len(),
        forall|i: int|
            0 <= i < results@.len() ==> scores@.contains(#[trigger] results@[i]),
        forall|i: int|
            0 <= i < scores@.len() ==> results@.contains(#[trigger] scores@[i]),
{
    let mut keys: Vec<SortKey> = Vec::with_capacity(scores.len());
    let mut i: usize = 0;
    while i < scores.len()
        invariant
            i <= scores@.len(),
            keys@ == rank_keys(scores@).take(i as int),
        decreases scores@.len() - i,
    {
        let key: i64 = ieee::single_key(scores[i].1);
        keys.push(SortKey { major: -key, minor: scores[i].0 });
        i += 1;
        assert(keys@ =~= rank_keys(scores@).take(i as int));
    }
    assert(keys@ =~= rank_keys(scores@));
    let order = ordering::stable_order(&keys);
    let results = ordering::arrange(scores, &order);
    proof {
        ordering::ordered_has_no_duplicates(keys@, order@);
        ordering::arranged_is_permutation(scores@, order@);
        assert forall|a: int, b: int| 0 <= a < b < results@.len() implies {
            ||| ieee::single_rank((#[trigger] results@[a]).1) > ieee::single_rank(
                (#[trigger] results@[b]).1,
            )
            ||| ieee::single_rank(results@[a].1) == ieee::single_rank(results@[b].1)
                && results@[a].0 < results@[b].0
        } by {
            let (x, y) = (order@[a] as int, order@[b] as int);
            assert(ordering::before(keys@, x, y));
            assert(results@[a] == scores@[x] && results@[b] == scores@[y]);
            assert(x != y);
            if x < y {
                assert(scores@[x].0 != scores@[y].0);
            } else {
                assert(scores@[y].0 != scores@[x].0);
            }
        }
        assert forall|i: int| 0 <= i < scores@.len() implies results@.contains(
            #[trigger] scores@[i],
        ) by {
            assert(order@.contains(i as usize));
            let j = order@.index_of(i as usize);
            assert(results@[j] == scores@[i]);
        }
    }
    results
}

/// Results are the scores of the items, ranked.
pub open spec fn fused<A, F: Fn(u32, A) -> u32>(
    credit: F,
    items: Seq<(u64, A)>,
    results: Seq<(u64, u32)>,
) -> bool {
    &&& scored(credit, items, results)
    &&& ranked(results)
}

/// Gives every id the sum of what its items contribute, and ranks the ids.
pub fn fuse<A: Copy, F: Fn(u32, A) -> u32>(items: &Vec<(u64, A)>, credit: &F) -> (results: Vec<
    (u64, u32),
>)
    requires
        adds_numbers(*credit, items@),
    ensures
        fused(*credit, items@, results@),
{
    let scores = collect_scores(items, credit);
    let results = rank(&scores);
    proof {
        assert forall|i: int| 0 <= i < results@.len() implies {
            &&& occurs(items@, (#[trigger] results@[i]).0)
            &&& summed(*credit, contributions(items@, results@[i].0), results@[i].1)
        } by {
            let j = scores@.index_of(results@[i]);
            assert(scores@[j] == results@[i]);
        }
        assert forall|id: u64| #[trigger] occurs(items@, id) implies occurs(results@, id) by {
            assert(occurs(scores@, id));
            let i = choose|i: int| 0 <= i < scores@.len() && (#[trigger] scores@[i]).0 == id;
            let j = results@.index_of(scores@[i]);
            assert(results@[j].0 == id);
        }
        assert forall|i: int, j: int| 0 <= i < j < results@.len() implies (
        #[trigger] results@[i]).0 != (#[trigger] results@[j]).0 by {
            let x = scores@.index_of(results@[i]);
            let y = scores@.index_of(results@[j]);
            if results@[i].0 == results@[j].0 {
                assert(scores@[x].0 == scores@[y].0);
                if x < y {
                    assert(scores@[x].0 != scores@[y].0);
                }
                if y < x {
                    assert(scores@[y].0 != scores@[x].0);
                }
                assert(results@[i] == results@[j]);
            }
        }
    }
    results
}

/// The items of the first `n` entries of a list, each with its rank from 1 on and `k`.
pub open spec fn rank_items(k: usize, list: Seq<(u64, u32)>, n: int) -> Seq<(u64, (usize, usize))> {
    Seq::new(n as nat, |i: int| (list[i].0, (k, (i + 1) as usize)))
}

/// The items of the first `n` lists, list by list.
pub open spec fn all_rank_items(k: usize, lists: Seq<Vec<(u64, u32)>>, n: int) -> Seq<
    (u64, (usize, usize)),
>
    decreases n,
{
    if n <= 0 {
        Seq::empty()
    } else {
        all_rank_items(k, lists, n - 1) + rank_items(
            k,
            lists[n - 1]@,
            lists[n - 1]@.len() as int,
        )
    }
}

/// Fuses lists by the places of their entries. `credit` adds to a score what an entry contributes,
/// given the constant `k` and its rank.
pub fn reciprocal_rank_fusion<F: Fn(u32, (usize, usize)) -> u32>(
    k: usize,
    lists: &[Vec<(u64, u32)>],
    credit: &F,
) -> (results: Vec<(u64, u32)>)
    requires
        adds_numbers(*credit, all_rank_items(k, lists@, lists@.len() as int)),
    ensures
        fused(*credit, all_rank_items(k, lists@, lists@.len() as int), results@),
{
    let mut items: Vec<(u64, (usize, usize))> = Vec::new();
    let mut n: usize = 0;
    while n < lists.len()
        invariant
            n <= lists@.len(),
            items@ == all_rank_items(k, lists@, n as int),
        decreases lists@.len() - n,
    {
        let list = &lists[n];
        let ghost before = items@;
        let mut i: usize = 0;
        assert(before + rank_items(k, list@, 0) =~= before);
        while i < list.len()
            invariant
                i <= list@.len(),
                items@ == before + rank_items(k, list@, i as int),
            decreases list@.len() - i,
        {
            items.push((list[i].0, (k, i + 1)));
            i += 1;
            assert(items@ =~= before + rank_items(k, list@, i as int));
        }
        n += 1;
    }
    fuse(&items, credit)
}

/// The items of the first `n` entries of a list, each with the weight of the list and its score.
pub open spec fn weight_items(weight: u32, list: Seq<(u64, u32)>, n: int) -> Seq<(u64, (u32, u32))> {
    Seq::new(n as nat, |i: int| (list[i].0, (weight, list[i].1)))
}

/// The items of the first `n` lists, list by list.
pub open spec fn all_weight_items(lists: Seq<(u32, Vec<(u64, u32)>)>, n: int) -> Seq<
    (u64, (u32, u32)),
>
    decreases n,
{
    if n <= 0 {
        Seq::empty()
    } else {
        all_weight_items(lists, n - 1) + weight_items(
            lists[n - 1].0,
            lists[n - 1].1@,
            lists[n - 1].1@.len() as int,
        )
    }
}

/// Fuses lists by weighted scores. `credit` adds to a score what an entry contributes, given the
/// weight of its list and its score there.
pub fn weighted_fusion<F: Fn(u32, (u32, u32)) -> u32>(
    lists: &[(u32, Vec<(u64, u32)>)],
    credit: &F,
) -> (results: Vec<(u64, u32)>)
    requires
        adds_numbers(*credit, all_weight_items(lists@, lists@.len() as int)),
    ensures
        fused(*credit, all_weight_items(lists@, lists@.len() as int), results@),
{
    let mut items: Vec<(u64, (u32, u32))> = Vec::new();
    let mut n: usize = 0;
    while n < lists.len()
        invariant
            n <= lists@.len(),
            items@ == all_weight_items(lists@, n as int),
        decreases lists@.len() - n,
    {
        let weight: u32 = lists[n].0;
        let list = &lists[n].1;
        let ghost before = items@;
        let mut i: usize = 0;
        assert(before + weight_items(weight, list@, 0) =~= before);
        while i < list.len()
            invariant
                i <= list@.len(),
                items@ == before + weight_items(weight, list@, i as int),
            decreases list@.len() - i,
        {
            items.push((list[i].0, (weight, list[i].1)));
            i += 1;
            assert(items@ =~= before + weight_items(weight, list@, i as int));
        }
        n += 1;
    }
    fuse(&items, credit)
}

} // verus!
