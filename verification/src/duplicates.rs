//! Blocks that hold the same value.

use vstd::prelude::*;

use crate::data::{ResultModel, TestResult};
use crate::streams;

verus! {

broadcast use vstd::std_specs::hash::group_hash_axioms;

/// The test itself did not write the block at `p`.
pub open spec fn drawn(result: ResultModel, p: int) -> bool {
    0 <= p < result.record.len() && !result.written_indices.contains(p as usize)
}

/// The blocks at `p` and `q` hold the same value of the same size.
pub open spec fn alike(result: ResultModel, p: int, q: int) -> bool {
    result.record[p] == result.record[q] && result.sizes[p] == result.sizes[q]
}

/// The places below `n` of the drawn blocks that are like the one at `p`, in order.
pub open spec fn group_below(result: ResultModel, p: int, n: int) -> Seq<usize>
    decreases n,
{
    if n <= 0 {
        Seq::empty()
    } else {
        let earlier = group_below(result, p, n - 1);
        if drawn(result, n - 1) && alike(result, p, n - 1) {
            earlier.push((n - 1) as usize)
        } else {
            earlier
        }
    }
}

/// The places of the drawn blocks that are like the one at `p`, in order.
pub open spec fn group_of(result: ResultModel, p: int) -> Seq<usize> {
    group_below(result, p, result.record.len() as int)
}

/// The block at `p` is drawn, and no drawn block before it is like it.
pub open spec fn leads(result: ResultModel, p: int) -> bool {
    drawn(result, p) && forall|q: int| 0 <= q < p && drawn(result, q) ==> !alike(result, q, p)
}

/// `groups` with `group` put behind all those that are at least as long.
pub open spec fn with_group(groups: Seq<Seq<usize>>, group: Seq<usize>) -> Seq<Seq<usize>>
    decreases groups.len(),
{
    if groups.len() > 0 && groups.last().len() < group.len() {
        with_group(groups.drop_last(), group).push(groups.last())
    } else {
        groups.push(group)
    }
}

/// The groups of at least two blocks whose first block lies below `n`.
pub open spec fn groups_below(result: ResultModel, n: int) -> Seq<Seq<usize>>
    decreases n,
{
    if n <= 0 {
        Seq::empty()
    } else {
        let earlier = groups_below(result, n - 1);
        if leads(result, n - 1) && group_of(result, n - 1).len() > 1 {
            with_group(earlier, group_of(result, n - 1))
        } else {
            earlier
        }
    }
}

/// All groups of at least two drawn blocks that are alike, the longest first; of two
/// that are equally long, the one that starts first.
pub open spec fn groups_of(result: ResultModel) -> Seq<Seq<usize>> {
    groups_below(result, result.record.len() as int)
}

/// No group is without blocks.
pub open spec fn all_nonempty(groups: Seq<Seq<usize>>) -> bool {
    forall|g: int| 0 <= g < groups.len() ==> (#[trigger] groups[g]).len() > 0
}

/// The model of a list of groups.
pub open spec fn groups_view(groups: Seq<Vec<usize>>) -> Seq<Seq<usize>> {
    groups.map_values(|group: Vec<usize>| group@)
}

/// A group lists, in order, drawn blocks that are alike, and all there are below `n`.
pub open spec fn is_group(result: ResultModel, group: Seq<usize>, p: int, n: int) -> bool {
    &&& forall|g: int|
        0 <= g < group.len() ==> {
            &&& (#[trigger] group[g]) < n
            &&& drawn(result, group[g] as int)
            &&& alike(result, p, group[g] as int)
        }
    &&& forall|g: int, h: int|
        0 <= g < h < group.len() ==> #[trigger] group[g] < #[trigger] group[h]
    &&& forall|q: int|
        0 <= q < n && #[trigger] drawn(result, q) && alike(result, p, q) ==> streams::lists(
            group,
            q,
        )
}

proof fn lemma_group_below(result: ResultModel, p: int, n: int)
    requires
        0 <= n <= result.record.len(),
        result.record.len() <= usize::MAX,
    ensures
        is_group(result, group_below(result, p, n), p, n),
    decreases n,
{
    if n > 0 {
        lemma_group_below(result, p, n - 1);
        let earlier = group_below(result, p, n - 1);
        let group = group_below(result, p, n);
        assert forall|q: int|
            0 <= q < n && #[trigger] drawn(result, q) && alike(
                result,
                p,
                q,
            ) implies streams::lists(group, q) by {
            if q == n - 1 {
                assert(group[group.len() - 1] == q);
            } else {
                let g = choose|g: int| 0 <= g < earlier.len() && earlier[g] == q;
                assert(group[g] == q);
            }
        }
    } else {
        assert(group_below(result, p, n) =~= Seq::empty());
    }
}

/// The groups are in order: the longest come first.
pub open spec fn longest_first(groups: Seq<Seq<usize>>) -> bool {
    forall|g: int, h: int|
        0 <= g < h < groups.len() ==> (#[trigger] groups[g]).len() >= (#[trigger] groups[h]).len()
}

/// Adding a group keeps the order, keeps the groups that are there, and adds no other.
proof fn lemma_added_group(groups: Seq<Seq<usize>>, group: Seq<usize>)
    requires
        longest_first(groups),
    ensures
        longest_first(with_group(groups, group)),
        with_group(groups, group).len() == groups.len() + 1,
        with_group(groups, group).contains(group),
        forall|g: int|
            0 <= g < groups.len() ==> with_group(groups, group).contains(#[trigger] groups[g]),
        forall|g: int|
            0 <= g < with_group(groups, group).len() ==> #[trigger] with_group(groups, group)[g]
                == group || groups.contains(with_group(groups, group)[g]),
        groups.no_duplicates() && !groups.contains(group) ==> with_group(
            groups,
            group,
        ).no_duplicates(),
    decreases groups.len(),
{
    let all = with_group(groups, group);
    if groups.len() > 0 && groups.last().len() < group.len() {
        let fewer = groups.drop_last();
        let rest = with_group(fewer, group);
        lemma_added_group(fewer, group);
        assert(all =~= rest.push(groups.last()));
        let w = choose|w: int| 0 <= w < rest.len() && rest[w] == group;
        assert(all[w] == group);
        assert forall|g: int| 0 <= g < groups.len() implies all.contains(#[trigger] groups[g]) by {
            if g < fewer.len() {
                assert(rest.contains(fewer[g]));
                let v = choose|v: int| 0 <= v < rest.len() && rest[v] == fewer[g];
                assert(all[v] == groups[g]);
            } else {
                assert(all[rest.len() as int] == groups[g]);
            }
        }
        assert forall|g: int| 0 <= g < all.len() implies #[trigger] all[g] == group
            || groups.contains(all[g]) by {
            if g < rest.len() {
                if rest[g] != group {
                    let v = choose|v: int| 0 <= v < fewer.len() && fewer[v] == rest[g];
                    assert(groups[v] == all[g]);
                }
            } else {
                assert(groups[groups.len() - 1] == all[g]);
            }
        }
        assert forall|g: int, h: int| 0 <= g < h < all.len() implies (#[trigger] all[g]).len()
            >= (#[trigger] all[h]).len() by {
            if h == rest.len() {
                if rest[g] != group {
                    let v = choose|v: int| 0 <= v < fewer.len() && fewer[v] == rest[g];
                    assert(groups[v].len() >= groups[groups.len() - 1].len());
                }
            }
        }
        if groups.no_duplicates() && !groups.contains(group) {
            assert(!fewer.contains(group)) by {
                if fewer.contains(group) {
                    let v = choose|v: int| 0 <= v < fewer.len() && fewer[v] == group;
                    assert(groups[v] == group);
                }
            }
            assert(groups[groups.len() - 1] != group);
            assert forall|g: int, h: int| 0 <= g < h < all.len() implies all[g] != all[h] by {
                if h == rest.len() && rest[g] != group {
                    let v = choose|v: int| 0 <= v < fewer.len() && fewer[v] == rest[g];
                    assert(groups[v] != groups[groups.len() - 1]);
                }
            }
        }
    } else {
        assert(all =~= groups.push(group));
        assert(all[groups.len() as int] == group);
        assert forall|g: int| 0 <= g < groups.len() implies all.contains(#[trigger] groups[g]) by {
            assert(all[g] == groups[g]);
        }
        assert forall|g: int| 0 <= g < all.len() implies #[trigger] all[g] == group
            || groups.contains(all[g]) by {
            if g < groups.len() {
                assert(groups[g] == all[g]);
            }
        }
        assert forall|g: int, h: int| 0 <= g < h < all.len() implies (#[trigger] all[g]).len()
            >= (#[trigger] all[h]).len() by {
            if h == groups.len() && g < groups.len() - 1 {
                assert(groups[g].len() >= groups[groups.len() - 1].len());
            }
        }
    }
}

/// What holds of the groups whose first block lies below `n`.
spec fn lists_groups(result: ResultModel, groups: Seq<Seq<usize>>, n: int) -> bool {
    &&& longest_first(groups)
    &&& groups.len() <= n
    &&& groups.no_duplicates()
    &&& forall|g: int|
        0 <= g < groups.len() ==> exists|p: int|
            0 <= p < n && leads(result, p) && #[trigger] group_of(result, p) == (
            #[trigger] groups[g]) && groups[g].len() > 1
    &&& forall|p: int|
        0 <= p < n && leads(result, p) && group_of(result, p).len() > 1 ==> groups.contains(
            #[trigger] group_of(result, p),
        )
}

proof fn lemma_groups_below(result: ResultModel, n: int)
    requires
        0 <= n <= result.record.len(),
        result.record.len() <= usize::MAX,
    ensures
        lists_groups(result, groups_below(result, n), n),
    decreases n,
{
    if n > 0 {
        lemma_groups_below(result, n - 1);
        let earlier = groups_below(result, n - 1);
        let group = group_of(result, n - 1);
        let groups = groups_below(result, n);
        if leads(result, n - 1) && group.len() > 1 {
            lemma_added_group(earlier, group);
            assert(!earlier.contains(group)) by {
                if earlier.contains(group) {
                    let v = choose|v: int| 0 <= v < earlier.len() && earlier[v] == group;
                    let p = choose|p: int|
                        0 <= p < n - 1 && leads(result, p) && #[trigger] group_of(result, p)
                            == earlier[v] && earlier[v].len() > 1;
                    lemma_group_below(result, n - 1, result.record.len() as int);
                    lemma_group_below(result, p, result.record.len() as int);
                    assert(alike(result, n - 1, n - 1));
                    assert(streams::lists(group, n - 1));
                    assert(alike(result, p, n - 1));
                }
            }
            assert forall|g: int| 0 <= g < groups.len() implies exists|p: int|
                0 <= p < n && leads(result, p) && #[trigger] group_of(result, p) == (
                #[trigger] groups[g]) && groups[g].len() > 1 by {
                if groups[g] != group {
                    let v = choose|v: int| 0 <= v < earlier.len() && earlier[v] == groups[g];
                    let p = choose|p: int|
                        0 <= p < n - 1 && leads(result, p) && #[trigger] group_of(result, p)
                            == earlier[v] && earlier[v].len() > 1;
                    assert(group_of(result, p) == groups[g]);
                }
            }
            assert forall|p: int|
                0 <= p < n && leads(result, p) && group_of(
                    result,
                    p,
                ).len() > 1 implies groups.contains(#[trigger] group_of(result, p)) by {
                if p < n - 1 {
                    let v = choose|v: int|
                        0 <= v < earlier.len() && earlier[v] == group_of(result, p);
                    assert(groups.contains(earlier[v]));
                }
            }
        }
    }
}

/// The first drawn block that is like the one at `q`.
proof fn lemma_leader(result: ResultModel, q: int) -> (p: int)
    requires
        drawn(result, q),
    ensures
        0 <= p <= q,
        leads(result, p),
        alike(result, p, q),
    decreases q,
{
    if leads(result, q) {
        q
    } else {
        let r = choose|r: int| 0 <= r < q && drawn(result, r) && alike(result, r, q);
        lemma_leader(result, r)
    }
}

/// There are no more groups than blocks.
pub proof fn lemma_few_groups(result: ResultModel)
    requires
        result.record.len() <= usize::MAX,
    ensures
        groups_of(result).len() <= result.record.len(),
{
    lemma_groups_below(result, result.record.len() as int);
}

/// The groups of a result come longest first, and none of them twice; each lists, in
/// order, at least two blocks that the test drew, all alike and none missing; and any two
/// drawn blocks that are alike lie in the same group.
pub proof fn law_groups(result: ResultModel)
    requires
        result.record.len() <= usize::MAX,
    ensures
        longest_first(groups_of(result)),
        groups_of(result).no_duplicates(),
        forall|g: int|
            0 <= g < groups_of(result).len() ==> {
                &&& (#[trigger] groups_of(result)[g]).len() > 1
                &&& is_group(
                    result,
                    groups_of(result)[g],
                    groups_of(result)[g][0] as int,
                    result.record.len() as int,
                )
            },
        forall|q: int, r: int|
            drawn(result, q) && drawn(result, r) && q != r && #[trigger] alike(result, q, r)
                ==> exists|g: int|
                0 <= g < groups_of(result).len() && streams::lists(
                    #[trigger] groups_of(result)[g],
                    q,
                ) && streams::lists(groups_of(result)[g], r),
{
    let n = result.record.len() as int;
    let groups = groups_of(result);
    lemma_groups_below(result, n);
    assert forall|g: int| 0 <= g < groups.len() implies {
        &&& (#[trigger] groups[g]).len() > 1
        &&& is_group(result, groups[g], groups[g][0] as int, n)
    } by {
        let p = choose|p: int|
            0 <= p < n && leads(result, p) && #[trigger] group_of(result, p) == groups[g]
                && groups[g].len() > 1;
        lemma_group_below(result, p, n);
        assert(alike(result, p, groups[g][0] as int));
    }
    assert forall|q: int, r: int|
        drawn(result, q) && drawn(result, r) && q != r && #[trigger] alike(
            result,
            q,
            r,
        ) implies exists|g: int|
        0 <= g < groups.len() && streams::lists(#[trigger] groups[g], q) && streams::lists(
            groups[g],
            r,
        ) by {
        let p = lemma_leader(result, q);
        let group = group_of(result, p);
        lemma_group_below(result, p, n);
        assert(streams::lists(group, q));
        assert(alike(result, p, r));
        assert(streams::lists(group, r));
        let a = choose|a: int| 0 <= a < group.len() && group[a] == q;
        let b = choose|b: int| 0 <= b < group.len() && group[b] == r;
        assert(a != b);
        assert(group.len() > 1);
        let g = choose|g: int| 0 <= g < groups.len() && groups[g] == group;
        assert(streams::lists(groups[g], q));
    }
}

/// Two blocks are in a group together exactly if they are different blocks that the test
/// did not write, with the same value and the same size. Every group has at least two
/// blocks, in the order of the record, no block is in two groups, and no group comes before
/// a longer one.
pub proof fn law_blocks_in_groups(result: ResultModel)
    requires
        result.record.len() <= usize::MAX,
    ensures
        forall|q: int, r: int|
            #![trigger result.record[q], result.record[r]]
            0 <= q < r < result.record.len() ==> ({
                &&& !result.written_indices.contains(q as usize)
                &&& !result.written_indices.contains(r as usize)
                &&& result.record[q] == result.record[r]
                &&& result.sizes[q] == result.sizes[r]
            } <==> exists|g: int|
                0 <= g < groups_of(result).len() && (#[trigger] groups_of(result)[g]).contains(
                    q as usize,
                ) && groups_of(result)[g].contains(r as usize)),
        forall|g: int|
            0 <= g < groups_of(result).len() ==> (#[trigger] groups_of(result)[g]).len() >= 2,
        forall|g: int, a: int|
            0 <= g < groups_of(result).len() && 0 <= a < groups_of(result)[g].len() ==> (
            #[trigger] groups_of(result)[g][a]) < result.record.len(),
        forall|g: int, a: int, b: int|
            0 <= g < groups_of(result).len() && 0 <= a < b < groups_of(result)[g].len()
                ==> #[trigger] groups_of(result)[g][a] < #[trigger] groups_of(result)[g][b],
        forall|g: int, h: int, q: usize|
            0 <= g < h < groups_of(result).len() && #[trigger] groups_of(result)[g].contains(q)
                ==> !(#[trigger] groups_of(result)[h]).contains(q),
        forall|g: int, h: int|
            0 <= g < h < groups_of(result).len() ==> (#[trigger] groups_of(result)[g]).len() >= (
            #[trigger] groups_of(result)[h]).len(),
{
    law_groups(result);
    let n = result.record.len() as int;
    let groups = groups_of(result);
    assert forall|q: int, r: int|
        #![trigger result.record[q], result.record[r]]
        0 <= q < r < result.record.len() implies ({
        &&& !result.written_indices.contains(q as usize)
        &&& !result.written_indices.contains(r as usize)
        &&& result.record[q] == result.record[r]
        &&& result.sizes[q] == result.sizes[r]
    } <==> exists|g: int|
        0 <= g < groups.len() && (#[trigger] groups[g]).contains(q as usize) && groups[g].contains(
            r as usize,
        )) by {
        if drawn(result, q) && drawn(result, r) && alike(result, q, r) {
            let g = choose|g: int|
                0 <= g < groups.len() && streams::lists(#[trigger] groups[g], q) && streams::lists(
                    groups[g],
                    r,
                );
            let a = choose|a: int| 0 <= a < groups[g].len() && groups[g][a] == q;
            let b = choose|b: int| 0 <= b < groups[g].len() && groups[g][b] == r;
            assert(groups[g][a] == q as usize);
            assert(groups[g][b] == r as usize);
            assert(groups[g].contains(q as usize) && groups[g].contains(r as usize));
        }
        if exists|g: int|
            0 <= g < groups.len() && (#[trigger] groups[g]).contains(q as usize)
                && groups[g].contains(r as usize) {
            let g = choose|g: int|
                0 <= g < groups.len() && (#[trigger] groups[g]).contains(q as usize)
                    && groups[g].contains(r as usize);
            let first = groups[g][0] as int;
            assert(is_group(result, groups[g], first, n));
            let a = choose|a: int| 0 <= a < groups[g].len() && groups[g][a] == q as usize;
            let b = choose|b: int| 0 <= b < groups[g].len() && groups[g][b] == r as usize;
            assert(alike(result, first, groups[g][a] as int));
            assert(alike(result, first, groups[g][b] as int));
        }
    }
    assert forall|g: int, a: int|
        0 <= g < groups.len() && 0 <= a < groups[g].len() implies (#[trigger] groups[g][a])
        < result.record.len() by {
        assert(is_group(result, groups[g], groups[g][0] as int, n));
    }
    assert forall|g: int, a: int, b: int|
        0 <= g < groups.len() && 0 <= a < b < groups[g].len() implies #[trigger] groups[g][a]
        < #[trigger] groups[g][b] by {
        assert(is_group(result, groups[g], groups[g][0] as int, n));
    }
    assert forall|g: int, h: int, q: usize|
        0 <= g < h < groups.len() && #[trigger] groups[g].contains(q) implies !(
    #[trigger] groups[h]).contains(q) by {
        if groups[h].contains(q) {
            lemma_shared_block(result, groups[g], groups[h], q);
            assert(groups[g] != groups[h]);
        }
    }
}

/// A list of groups holds the places that its groups list.
pub proof fn law_groups_view(groups: Seq<Vec<usize>>)
    ensures
        groups_view(groups).len() == groups.len(),
        forall|g: int| 0 <= g < groups.len() ==> #[trigger] groups_view(groups)[g] == groups[g]@,
{
}

/// Two groups that share a block are the same.
proof fn lemma_shared_block(result: ResultModel, a: Seq<usize>, b: Seq<usize>, q: usize)
    requires
        result.record.len() <= usize::MAX,
        groups_of(result).contains(a),
        groups_of(result).contains(b),
        a.contains(q),
        b.contains(q),
    ensures
        a == b,
{
    let n = result.record.len() as int;
    lemma_groups_below(result, n);
    let groups = groups_of(result);
    let g = choose|g: int| 0 <= g < groups.len() && groups[g] == a;
    let h = choose|h: int| 0 <= h < groups.len() && groups[h] == b;
    let p = choose|p: int|
        0 <= p < n && leads(result, p) && #[trigger] group_of(result, p) == groups[g]
            && groups[g].len() > 1;
    let r = choose|r: int|
        0 <= r < n && leads(result, r) && #[trigger] group_of(result, r) == groups[h]
            && groups[h].len() > 1;
    lemma_group_below(result, p, n);
    lemma_group_below(result, r, n);
    let c = choose|c: int| 0 <= c < a.len() && a[c] == q;
    let d = choose|d: int| 0 <= d < b.len() && b[d] == q;
    assert(alike(result, p, a[c] as int));
    assert(alike(result, r, b[d] as int));
    assert(alike(result, p, r) && alike(result, r, p));
    assert(p == r);
}

/// Whether the test itself did not write the block at `p`.
pub fn is_drawn(result: &TestResult, p: usize) -> (yes: bool)
    requires
        p < result@.record.len(),
    ensures
        yes == drawn(result@, p as int),
{
    !result.written_indices.contains(&p)
}

/// Whether the block at `p` is drawn and no drawn block before it is like it.
fn is_leader(result: &TestResult, p: usize) -> (yes: bool)
    requires
        p < result@.record.len(),
        result@.record.len() == result@.sizes.len(),
    ensures
        yes == leads(result@, p as int),
{
    if !is_drawn(result, p) {
        return false;
    }
    let mut q: usize = 0;
    while q < p
        invariant
            q <= p < result@.record.len(),
            result@.record.len() == result@.sizes.len(),
            forall|m: int|
                0 <= m < q && drawn(result@, m) ==> !alike(result@, m, p as int),
        decreases p - q,
    {
        if is_drawn(result, q) && result.record[q] == result.record[p] && result.sizes[q]
            == result.sizes[p] {
            assert(alike(result@, q as int, p as int));
            return false;
        }
        q += 1;
    }
    true
}

/// The places of the drawn blocks that are like the one at `p`.
fn collect_group(result: &TestResult, p: usize) -> (group: Vec<usize>)
    requires
        p < result@.record.len(),
        result@.record.len() == result@.sizes.len(),
    ensures
        group@ == group_of(result@, p as int),
{
    let mut group: Vec<usize> = Vec::new();
    let mut n: usize = 0;
    while n < result.record.len()
        invariant
            p < result@.record.len(),
            n <= result@.record.len(),
            result@.record.len() == result@.sizes.len(),
            group@ == group_below(result@, p as int, n as int),
        decreases result@.record.len() - n,
    {
        if is_drawn(result, n) && result.record[n] == result.record[p] && result.sizes[n]
            == result.sizes[p] {
            group.push(n);
        }
        n += 1;
    }
    group
}

/// Putting a group behind those that are at least as long is inserting it at a place
/// that only shorter ones follow.
proof fn lemma_with_group(groups: Seq<Seq<usize>>, group: Seq<usize>, place: int)
    requires
        0 <= place <= groups.len(),
        forall|m: int| place <= m < groups.len() ==> (#[trigger] groups[m]).len() < group.len(),
        place > 0 ==> groups[place - 1].len() >= group.len(),
    ensures
        with_group(groups, group) == groups.insert(place, group),
    decreases groups.len(),
{
    if place < groups.len() {
        lemma_with_group(groups.drop_last(), group, place);
    }
    assert(with_group(groups, group) =~= groups.insert(place, group));
}

/// Puts `group` behind all groups that are at least as long.
fn insert_group(groups: &mut Vec<Vec<usize>>, group: Vec<usize>)
    ensures
        groups_view(final(groups)@) == with_group(groups_view(old(groups)@), group@),
{
    let mut place: usize = groups.len();
    while place > 0 && groups[place - 1].len() < group.len()
        invariant
            place <= groups@.len(),
            groups@ == old(groups)@,
            forall|m: int|
                place <= m < groups@.len() ==> (#[trigger] groups@[m])@.len() < group@.len(),
        decreases place,
    {
        place -= 1;
    }
    let ghost added = group@;
    groups.insert(place, group);
    proof {
        let before = groups_view(old(groups)@);
        lemma_with_group(before, added, place as int);
        assert(groups_view(groups@) =~= before.insert(place as int, added));
    }
}

/// Lists the groups of at least two drawn blocks that are alike, the longest first.
pub fn calc_duplicates(result: &TestResult) -> (groups: Vec<Vec<usize>>)
    requires
        result@.record.len() == result@.sizes.len(),
    ensures
        groups_view(groups@) == groups_of(result@),
{
    let mut groups: Vec<Vec<usize>> = Vec::new();
    let mut p: usize = 0;
    assert(groups_view(groups@) =~= Seq::empty());
    while p < result.record.len()
        invariant
            p <= result@.record.len(),
            result@.record.len() == result@.sizes.len(),
            groups_view(groups@) == groups_below(result@, p as int),
        decreases result@.record.len() - p,
    {
        if is_leader(result, p) {
            let group: Vec<usize> = collect_group(result, p);
            if group.len() > 1 {
                insert_group(&mut groups, group);
            }
        }
        p += 1;
    }
    groups
}

} // verus!
