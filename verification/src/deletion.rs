//! Deleting the blocks of several draws at once.

use vstd::prelude::*;

use crate::data::{Draw, ResultModel, TestResult};

verus! {

/// The draws that are picked among those from place `i` up to place `j`: in turn, each
/// that starts no earlier than the one picked before it ends, and at most `k` of them.
pub open spec fn picked_before(draws: Seq<Draw>, i: int, j: int, k: int) -> Seq<Draw>
    decreases j - i,
{
    if j <= i {
        Seq::empty()
    } else {
        let earlier = picked_before(draws, i, j - 1, k);
        let draw = draws[j - 1];
        if earlier.len() < k && (earlier.len() == 0 || earlier.last().end <= draw.start) {
            earlier.push(draw)
        } else {
            earlier
        }
    }
}

/// At most `k` draws that do not overlap, from the one at place `i` on.
pub open spec fn picked(draws: Seq<Draw>, i: int, k: int) -> Seq<Draw> {
    picked_before(draws, i, draws.len() as int, k)
}

/// One of the draws covers block `p`.
pub open spec fn covered(draws: Seq<Draw>, p: int) -> bool {
    exists|d: int| 0 <= d < draws.len() && (#[trigger] draws[d]).start <= p < draws[d].end
}

/// Of the first `n` blocks, those that none of the draws covers.
pub open spec fn uncovered(record: Seq<u64>, draws: Seq<Draw>, n: int) -> Seq<u64>
    decreases n,
{
    if n <= 0 {
        Seq::empty()
    } else {
        let earlier = uncovered(record, draws, n - 1);
        if covered(draws, n - 1) {
            earlier
        } else {
            earlier.push(record[n - 1])
        }
    }
}

/// The record of `target` without the blocks of up to `k` draws that do not overlap,
/// from the draw at place `i` on.
pub open spec fn without_draws(target: ResultModel, i: int, k: int) -> Seq<u64> {
    uncovered(target.record, picked(target.draws, i, k), target.record.len() as int)
}

/// The draws follow one another without overlap.
pub open spec fn apart(draws: Seq<Draw>) -> bool {
    &&& forall|d: int| 0 <= d < draws.len() ==> (#[trigger] draws[d]).start < draws[d].end
    &&& forall|c: int, d: int|
        0 <= c < d < draws.len() ==> (#[trigger] draws[c]).end <= (#[trigger] draws[d]).start
}

/// Picked draws come from the draws from place `i` on, are at most `k`, and lie apart.
pub proof fn lemma_picked_before(draws: Seq<Draw>, i: int, j: int, k: int)
    requires
        0 <= i,
        j <= draws.len(),
        forall|d: int| 0 <= d < draws.len() ==> (#[trigger] draws[d]).start < draws[d].end,
    ensures
        apart(picked_before(draws, i, j, k)),
        picked_before(draws, i, j, k).len() <= if k < 0 { 0 } else { k },
        forall|d: int|
            0 <= d < picked_before(draws, i, j, k).len() ==> draws.subrange(
                i,
                draws.len() as int,
            ).contains(#[trigger] picked_before(draws, i, j, k)[d]),
    decreases j - i,
{
    if i < j {
        lemma_picked_before(draws, i, j - 1, k);
        let earlier = picked_before(draws, i, j - 1, k);
        let all = picked_before(draws, i, j, k);
        assert(draws.subrange(i, draws.len() as int)[j - 1 - i] == draws[j - 1]);
        assert forall|c: int, d: int| 0 <= c < d < all.len() implies (#[trigger] all[c]).end <= (
        #[trigger] all[d]).start by {
            if d == earlier.len() && c < earlier.len() - 1 {
                assert(earlier[c].end <= earlier[earlier.len() - 1].start);
            }
        }
    }
}

/// The draw at `p` is among those at `places`, or comes when there are `k` already, or
/// starts before an earlier one of them ends.
pub open spec fn accounted_for(draws: Seq<Draw>, k: int, places: Seq<int>, p: int) -> bool {
    ||| places.contains(p)
    ||| places.len() == k && forall|n: int| 0 <= n < places.len() ==> #[trigger] places[n] < p
    ||| exists|n: int|
        0 <= n < places.len() && #[trigger] places[n] < p && draws[p].start
            < draws[places[n]].end
}

/// `places` lists, in order, the places of draws from `i` up to `j` that are picked in
/// turn: the first draw, and then each that starts no earlier than the one picked before
/// it ends, until there are `k`.
pub open spec fn is_pick(draws: Seq<Draw>, i: int, j: int, k: int, places: Seq<int>) -> bool {
    &&& places.len() <= k
    &&& forall|n: int| 0 <= n < places.len() ==> i <= #[trigger] places[n] < j
    &&& forall|m: int, n: int|
        0 <= m < n < places.len() ==> #[trigger] places[m] < #[trigger] places[n]
            && draws[places[m]].end <= draws[places[n]].start
    &&& forall|p: int|
        i <= p < j ==> #[trigger] accounted_for(draws, k, places, p)
}

proof fn lemma_is_pick(draws: Seq<Draw>, i: int, j: int, k: int) -> (places: Seq<int>)
    requires
        0 <= i <= j <= draws.len(),
        0 <= k,
        forall|d: int| 0 <= d < draws.len() ==> (#[trigger] draws[d]).start < draws[d].end,
    ensures
        is_pick(draws, i, j, k, places),
        places.len() == picked_before(draws, i, j, k).len(),
        forall|n: int|
            0 <= n < places.len() ==> #[trigger] picked_before(draws, i, j, k)[n]
                == draws[places[n]],
    decreases j - i,
{
    if i == j {
        Seq::empty()
    } else {
        let old_places = lemma_is_pick(draws, i, j - 1, k);
        let earlier = picked_before(draws, i, j - 1, k);
        let draw = draws[j - 1];
        if earlier.len() < k && (earlier.len() == 0 || earlier.last().end <= draw.start) {
            let places = old_places.push(j - 1);
            assert forall|m: int, n: int| 0 <= m < n < places.len() implies #[trigger] places[m]
                < #[trigger] places[n] && draws[places[m]].end <= draws[places[n]].start by {
                if n == old_places.len() {
                    let last = old_places.len() - 1;
                    assert(earlier[last] == draws[old_places[last]]);
                    if m < last {
                        assert(old_places[m] < old_places[last]);
                    }
                }
            }
            assert forall|p: int| i <= p < j implies #[trigger] accounted_for(
                draws,
                k,
                places,
                p,
            ) by {
                assert(p < j - 1 ==> accounted_for(draws, k, old_places, p));
                if p == j - 1 {
                    assert(places[old_places.len() as int] == p);
                } else if old_places.contains(p) {
                    let n = choose|n: int| 0 <= n < old_places.len() && old_places[n] == p;
                    assert(places[n] == p);
                } else {
                    let n = choose|n: int|
                        0 <= n < old_places.len() && #[trigger] old_places[n] < p
                            && draws[p].start < draws[old_places[n]].end;
                    assert(places[n] < p);
                }
            }
            places
        } else {
            assert forall|p: int| i <= p < j implies #[trigger] accounted_for(
                draws,
                k,
                old_places,
                p,
            ) by {
                if p == j - 1 && old_places.len() < k {
                    let last = old_places.len() - 1;
                    assert(earlier[last] == draws[old_places[last]]);
                    assert(old_places[last] < p);
                    assert(draws[p].start < draws[old_places[last]].end);
                }
            }
            old_places
        }
    }
}

/// The draws that are picked from place `i` on are picked in turn, and none is passed over
/// but for overlap or because there are enough.
pub proof fn law_picked_in_turn(draws: Seq<Draw>, i: int, k: int)
    requires
        0 <= i <= draws.len(),
        0 <= k,
        forall|d: int| 0 <= d < draws.len() ==> (#[trigger] draws[d]).start < draws[d].end,
    ensures
        exists|places: Seq<int>| #[trigger]
            is_pick(draws, i, draws.len() as int, k, places) && picked(draws, i, k)
                == places.map_values(|p: int| draws[p]),
{
    let places = lemma_is_pick(draws, i, draws.len() as int, k);
    assert(picked(draws, i, k) =~= places.map_values(|p: int| draws[p]));
}

/// `places` lists, in order, the places below `n` that lie in none of the draws.
pub open spec fn is_rest(draws: Seq<Draw>, n: int, places: Seq<int>) -> bool {
    &&& forall|m: int| 0 <= m < places.len() ==> 0 <= #[trigger] places[m] < n
    &&& forall|l: int, m: int|
        0 <= l < m < places.len() ==> #[trigger] places[l] < #[trigger] places[m]
    &&& forall|p: int|
        0 <= p < n ==> (#[trigger] places.contains(p) <==> forall|d: int|
            0 <= d < draws.len() ==> !((#[trigger] draws[d]).start <= p && p < draws[d].end))
}

proof fn lemma_is_rest(record: Seq<u64>, draws: Seq<Draw>, n: int) -> (places: Seq<int>)
    requires
        0 <= n <= record.len(),
    ensures
        is_rest(draws, n, places),
        uncovered(record, draws, n) == places.map_values(|p: int| record[p]),
    decreases n,
{
    if n == 0 {
        let places = Seq::<int>::empty();
        assert(uncovered(record, draws, n) =~= places.map_values(|p: int| record[p]));
        places
    } else {
        let earlier = lemma_is_rest(record, draws, n - 1);
        let places = if covered(draws, n - 1) {
            earlier
        } else {
            earlier.push(n - 1)
        };
        assert forall|p: int| 0 <= p < n implies (#[trigger] places.contains(p) <==> forall|d: int|
            0 <= d < draws.len() ==> !((#[trigger] draws[d]).start <= p && p < draws[d].end)) by {
            if p < n - 1 {
                if earlier.contains(p) {
                    let m = choose|m: int| 0 <= m < earlier.len() && earlier[m] == p;
                    assert(places[m] == p);
                }
                if places.contains(p) {
                    let m = choose|m: int| 0 <= m < places.len() && places[m] == p;
                    assert(earlier[m] == p);
                }
            } else if covered(draws, p) {
                if places.contains(p) {
                    let m = choose|m: int| 0 <= m < places.len() && places[m] == p;
                    assert(earlier[m] < n - 1);
                }
            } else {
                assert(places[earlier.len() as int] == p);
            }
        }
        assert(uncovered(record, draws, n) =~= places.map_values(|p: int| record[p]));
        places
    }
}

/// Deleting draws leaves, in order, exactly the blocks that lie in none of the draws that
/// are picked in turn from place `i` on.
pub proof fn law_deleted_draws(target: ResultModel, i: int, k: int)
    requires
        target.wf(),
        0 <= i <= target.draws.len(),
        0 <= k,
    ensures
        exists|picks: Seq<int>, chosen: Seq<Draw>, rest: Seq<int>|
            {
                &&& #[trigger] is_pick(target.draws, i, target.draws.len() as int, k, picks)
                &&& chosen == picks.map_values(|p: int| target.draws[p])
                &&& #[trigger] is_rest(chosen, target.record.len() as int, rest)
                &&& without_draws(target, i, k) == rest.map_values(|p: int| target.record[p])
            },
{
    let picks = lemma_is_pick(target.draws, i, target.draws.len() as int, k);
    let chosen = picks.map_values(|p: int| target.draws[p]);
    assert(picked(target.draws, i, k) =~= chosen);
    let rest = lemma_is_rest(target.record, chosen, target.record.len() as int);
    assert(is_pick(target.draws, i, target.draws.len() as int, k, picks));
    assert(is_rest(chosen, target.record.len() as int, rest));
}

/// Once `k` draws are picked, no more are.
proof fn lemma_picked_enough(draws: Seq<Draw>, i: int, j: int, m: int, k: int)
    requires
        j <= m,
        picked_before(draws, i, j, k).len() >= k,
    ensures
        picked_before(draws, i, m, k) == picked_before(draws, i, j, k),
    decreases m - j,
{
    if j < m {
        lemma_picked_enough(draws, i, j, m - 1, k);
        if m <= i {
            assert(picked_before(draws, i, m, k) =~= picked_before(draws, i, j, k));
        }
    }
}

/// Picks up to `k` draws that do not overlap, from the one at place `i` on.
pub fn pick_draws(draws: &Vec<Draw>, i: usize, k: usize) -> (chosen: Vec<Draw>)
    requires
        i <= draws@.len(),
    ensures
        chosen@ == picked(draws@, i as int, k as int),
{
    let mut chosen: Vec<Draw> = Vec::new();
    let mut j: usize = i;
    while j < draws.len() && chosen.len() < k
        invariant
            i <= j <= draws@.len(),
            chosen@ == picked_before(draws@, i as int, j as int, k as int),
        decreases draws@.len() - j,
    {
        let draw: Draw = draws[j];
        if chosen.len() == 0 || chosen[chosen.len() - 1].end <= draw.start {
            chosen.push(draw);
        }
        j += 1;
    }
    proof {
        if j < draws@.len() {
            lemma_picked_enough(draws@, i as int, j as int, draws@.len() as int, k as int);
        }
    }
    chosen
}

/// The record without the blocks that the draws cover.
pub fn delete_draws(record: &Vec<u64>, chosen: &Vec<Draw>) -> (kept: Vec<u64>)
    requires
        apart(chosen@),
    ensures
        kept@ == uncovered(record@, chosen@, record@.len() as int),
{
    let mut kept: Vec<u64> = Vec::new();
    let mut d: usize = 0;
    let mut p: usize = 0;
    while p < record.len()
        invariant
            p <= record@.len(),
            d <= chosen@.len(),
            apart(chosen@),
            forall|c: int| 0 <= c < d ==> (#[trigger] chosen@[c]).end <= p,
            d < chosen@.len() ==> p < chosen@[d as int].end,
            kept@ == uncovered(record@, chosen@, p as int),
        decreases record@.len() - p,
    {
        if d < chosen.len() && chosen[d].start <= p {
            assert(covered(chosen@, p as int));
            if p + 1 == chosen[d].end {
                d += 1;
            }
        } else {
            assert(!covered(chosen@, p as int)) by {
                if covered(chosen@, p as int) {
                    let c = choose|c: int|
                        0 <= c < chosen@.len() && (#[trigger] chosen@[c]).start <= p
                            < chosen@[c].end;
                    assert(c > d);
                    assert(chosen@[d as int].end <= chosen@[c].start);
                }
            }
            kept.push(record[p]);
        }
        p += 1;
    }
    kept
}

/// The record of `target` without the blocks of up to `k` draws that do not overlap,
/// from the draw at place `i` on.
pub fn delete_draws_from(target: &TestResult, i: usize, k: usize) -> (attempt: Vec<u64>)
    requires
        target@.wf(),
        i <= target@.draws.len(),
    ensures
        attempt@ == without_draws(target@, i as int, k as int),
{
    let chosen: Vec<Draw> = pick_draws(&target.draws, i, k);
    proof {
        lemma_picked_before(
            target@.draws,
            i as int,
            target@.draws.len() as int,
            k as int,
        );
    }
    delete_draws(&target.record, &chosen)
}

} // verus!
