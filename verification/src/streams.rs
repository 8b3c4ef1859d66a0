//! Operations on the blocks of a data stream, and the order by which one stream is
//! simpler than another.

use vstd::prelude::*;

verus! {

/// `a` and `b` first differ at block `k`, and there `a` is the lower one.
pub open spec fn lower_at(a: Seq<u64>, b: Seq<u64>, k: int) -> bool {
    &&& 0 <= k < a.len()
    &&& k < b.len()
    &&& forall|m: int| 0 <= m < k ==> a[m] == b[m]
    &&& a[k] < b[k]
}

/// `a` is lower than `b` at the first block where the two differ.
pub open spec fn lex_less(a: Seq<u64>, b: Seq<u64>) -> bool {
    exists|k: int| lower_at(a, b, k)
}

/// `a` is simpler than `b`: it is shorter, or as long and lower where they first differ.
pub open spec fn simpler(a: Seq<u64>, b: Seq<u64>) -> bool {
    a.len() < b.len() || (a.len() == b.len() && lex_less(a, b))
}

/// `s` without the blocks from `start` up to `end`.
pub open spec fn without_range(s: Seq<u64>, start: int, end: int) -> Seq<u64> {
    s.take(start) + s.skip(end)
}

/// `s` with the blocks at `i` and `j` exchanged.
pub open spec fn swapped(s: Seq<u64>, i: int, j: int) -> Seq<u64> {
    s.update(i, s[j]).update(j, s[i])
}

/// `places` lists the place `p`.
pub open spec fn lists(places: Seq<usize>, p: int) -> bool {
    exists|n: int| 0 <= n < places.len() && places[n] == p
}

/// `s` with `value` in every place that `places` lists.
pub open spec fn with_all(s: Seq<u64>, places: Seq<usize>, value: u64) -> Seq<u64> {
    Seq::new(
        s.len(),
        |p: int|
            if lists(places, p) {
                value
            } else {
                s[p]
            },
    )
}

/// Every one of `places` is the place of a block of a stream of that length.
pub open spec fn places_within(places: Seq<usize>, length: nat) -> bool {
    forall|n: int| 0 <= n < places.len() ==> #[trigger] places[n] < length
}

/// Of two different streams exactly one is simpler than the other, no stream is simpler
/// than itself, and what is simpler than something simpler is simpler.
pub proof fn law_simpler_is_an_order(a: Seq<u64>, b: Seq<u64>, c: Seq<u64>)
    ensures
        !simpler(a, a),
        a == b || simpler(a, b) || simpler(b, a),
        !(simpler(a, b) && simpler(b, a)),
        simpler(a, b) && simpler(b, c) ==> simpler(a, c),
{
    if lex_less(a, b) && lex_less(b, a) {
        let k = choose|k: int| lower_at(a, b, k);
        let m = choose|m: int| lower_at(b, a, m);
        assert(k < m ==> a[k] == b[k]);
    }
    if a.len() == b.len() && a != b {
        lemma_first_difference(a, b, 0);
    }
    if a.len() == b.len() && b.len() == c.len() && lex_less(a, b) && lex_less(b, c) {
        let k = choose|k: int| lower_at(a, b, k);
        let m = choose|m: int| lower_at(b, c, m);
        if k <= m {
            assert(lower_at(a, c, k));
        } else {
            assert(lower_at(a, c, m));
        }
    }
}

/// A stream without a range of blocks holds the other blocks, in order.
pub proof fn law_without_range(s: Seq<u64>, start: int, end: int)
    requires
        0 <= start <= end <= s.len(),
    ensures
        without_range(s, start, end).len() + (end - start) == s.len(),
        forall|p: int| 0 <= p < start ==> #[trigger] without_range(s, start, end)[p] == s[p],
        forall|p: int|
            start <= p < without_range(s, start, end).len() ==> #[trigger] without_range(
                s,
                start,
                end,
            )[p] == s[p + (end - start)],
{
}

/// Exchanging two blocks puts each in the place of the other and leaves the rest; doing so
/// again undoes it.
pub proof fn law_swapped(s: Seq<u64>, i: int, j: int)
    requires
        0 <= i < s.len(),
        0 <= j < s.len(),
    ensures
        swapped(s, i, j).len() == s.len(),
        swapped(s, i, j)[i] == s[j],
        swapped(s, i, j)[j] == s[i],
        forall|p: int| 0 <= p < s.len() && p != i && p != j ==> #[trigger] swapped(s, i, j)[p]
            == s[p],
        swapped(swapped(s, i, j), i, j) == s,
{
    assert(swapped(swapped(s, i, j), i, j) =~= s);
}

/// Putting a value in several places puts it in every one of them, and leaves all others.
pub proof fn law_with_all(s: Seq<u64>, places: Seq<usize>, value: u64)
    requires
        forall|n: int| 0 <= n < places.len() ==> #[trigger] places[n] < s.len(),
    ensures
        with_all(s, places, value).len() == s.len(),
        forall|n: int|
            0 <= n < places.len() ==> with_all(s, places, value)[#[trigger] places[n] as int]
                == value,
        forall|p: int|
            #![trigger with_all(s, places, value)[p]]
            0 <= p < s.len() && (forall|n: int| 0 <= n < places.len() ==> #[trigger] places[n] != p)
                ==> with_all(s, places, value)[p] == s[p],
{
    assert forall|n: int| 0 <= n < places.len() implies with_all(s, places, value)[
    #[trigger] places[n] as int] == value by {
        assert(lists(places, places[n] as int));
    }
}

/// Places lie within a length exactly if none of them reaches it.
pub proof fn law_places_within(places: Seq<usize>, length: nat)
    ensures
        places_within(places, length) <==> !exists|n: int|
            0 <= n < places.len() && #[trigger] places[n] >= length,
{
}

/// Two streams that agree up to `n` and are different are ordered where they first differ.
proof fn lemma_first_difference(a: Seq<u64>, b: Seq<u64>, n: int)
    requires
        a.len() == b.len(),
        a != b,
        0 <= n <= a.len(),
        forall|m: int| 0 <= m < n ==> a[m] == b[m],
    ensures
        lex_less(a, b) || lex_less(b, a),
    decreases a.len() - n,
{
    if n == a.len() {
        assert(a =~= b);
    } else if a[n] < b[n] {
        assert(lower_at(a, b, n));
    } else if a[n] > b[n] {
        assert(lower_at(b, a, n));
    } else {
        lemma_first_difference(a, b, n + 1);
    }
}

/// The place of a stream in the order: its blocks read as the digits of a number, behind
/// a leading digit of one.
pub open spec fn rank(s: Seq<u64>) -> nat
    decreases s.len(),
{
    if s.len() == 0 {
        1
    } else {
        rank(s.drop_last()) * 0x1_0000_0000_0000_0000 + s.last() as nat
    }
}

proof fn lemma_rank_positive(s: Seq<u64>)
    ensures
        rank(s) >= 1,
    decreases s.len(),
{
    if s.len() > 0 {
        lemma_rank_positive(s.drop_last());
    }
}

/// A simpler stream has a lower rank. So a stream cannot be replaced by a simpler one over
/// and over without an end.
pub proof fn law_simpler_has_lower_rank(a: Seq<u64>, b: Seq<u64>)
    requires
        simpler(a, b),
    ensures
        rank(a) < rank(b),
    decreases b.len(),
{
    lemma_rank_positive(b.drop_last());
    if a.len() > 0 {
        let a_start = a.drop_last();
        let b_start = b.drop_last();
        if a.len() == b.len() {
            let k = choose|k: int| lower_at(a, b, k);
            if k < a_start.len() {
                assert(lower_at(a_start, b_start, k));
                law_simpler_has_lower_rank(a_start, b_start);
            } else {
                assert(a_start =~= b_start);
            }
        } else {
            law_simpler_has_lower_rank(a_start, b_start);
        }
    }
}

/// A copy of the stream.
pub fn copy_of(s: &Vec<u64>) -> (copy: Vec<u64>)
    ensures
        copy@ == s@,
{
    let copy: Vec<u64> = s.clone();
    assert(copy@ =~= s@);
    copy
}

/// Whether `a` is lower than `b` at the first block where the two differ.
pub fn is_lex_less(a: &Vec<u64>, b: &Vec<u64>) -> (less: bool)
    ensures
        less == lex_less(a@, b@),
{
    let mut k: usize = 0;
    while k < a.len() && k < b.len()
        invariant
            k <= a.len(),
            k <= b.len(),
            forall|m: int| 0 <= m < k ==> a@[m] == b@[m],
        decreases a.len() - k,
    {
        if a[k] < b[k] {
            assert(lower_at(a@, b@, k as int));
            return true;
        }
        if a[k] > b[k] {
            assert forall|n: int| !lower_at(a@, b@, n) by {
                if n > k {
                    assert(a@[k as int] != b@[k as int]);
                }
            }
            return false;
        }
        k += 1;
    }
    false
}

/// Whether `a` is simpler than `b`.
pub fn is_simpler(a: &Vec<u64>, b: &Vec<u64>) -> (less: bool)
    ensures
        less == simpler(a@, b@),
{
    a.len() < b.len() || (a.len() == b.len() && is_lex_less(a, b))
}

/// Whether `s` starts with the blocks of `start`.
pub fn starts_with(s: &Vec<u64>, start: &Vec<u64>) -> (starts: bool)
    ensures
        starts == start@.is_prefix_of(s@),
{
    if start.len() > s.len() {
        return false;
    }
    let mut k: usize = 0;
    while k < start.len()
        invariant
            k <= start.len() <= s.len(),
            forall|m: int| 0 <= m < k ==> start@[m] == s@[m],
        decreases start.len() - k,
    {
        if start[k] != s[k] {
            assert(start@[k as int] != s@.subrange(0, start@.len() as int)[k as int]);
            return false;
        }
        k += 1;
    }
    assert(start@ =~= s@.subrange(0, start@.len() as int));
    true
}

/// The stream without the blocks from `start` up to `end`.
pub fn remove_range(s: &Vec<u64>, start: usize, end: usize) -> (rest: Vec<u64>)
    requires
        start <= end <= s@.len(),
    ensures
        rest@ == without_range(s@, start as int, end as int),
{
    let mut rest: Vec<u64> = Vec::new();
    let mut k: usize = 0;
    while k < start
        invariant
            k <= start <= s@.len(),
            rest@ == s@.take(k as int),
        decreases start - k,
    {
        rest.push(s[k]);
        assert(s@.take(k + 1) =~= s@.take(k as int).push(s@[k as int]));
        k += 1;
    }
    k = end;
    assert(rest@ =~= s@.take(start as int) + s@.subrange(end as int, end as int));
    while k < s.len()
        invariant
            start <= end <= k <= s@.len(),
            rest@ == s@.take(start as int) + s@.subrange(end as int, k as int),
        decreases s@.len() - k,
    {
        rest.push(s[k]);
        assert(s@.subrange(end as int, k + 1) =~= s@.subrange(end as int, k as int).push(
            s@[k as int],
        ));
        assert(rest@ =~= s@.take(start as int) + s@.subrange(end as int, k + 1));
        k += 1;
    }
    assert(s@.subrange(end as int, k as int) =~= s@.skip(end as int));
    rest
}

/// The stream with the blocks at `i` and `j` exchanged.
pub fn swap_blocks(s: &Vec<u64>, i: usize, j: usize) -> (other: Vec<u64>)
    requires
        i < s@.len(),
        j < s@.len(),
    ensures
        other@ == swapped(s@, i as int, j as int),
{
    let mut other: Vec<u64> = copy_of(s);
    other.set(i, s[j]);
    other.set(j, s[i]);
    other
}

/// The stream with `value` at place `i`.
pub fn replace_block(s: &Vec<u64>, i: usize, value: u64) -> (other: Vec<u64>)
    requires
        i < s@.len(),
    ensures
        other@ == s@.update(i as int, value),
{
    let mut other: Vec<u64> = copy_of(s);
    other.set(i, value);
    other
}

/// Whether every one of `places` is the place of a block of a stream of that length.
pub fn are_places_within(places: &Vec<usize>, length: usize) -> (within: bool)
    ensures
        within == places_within(places@, length as nat),
{
    let mut n: usize = 0;
    while n < places.len()
        invariant
            n <= places@.len(),
            forall|m: int| 0 <= m < n ==> #[trigger] places@[m] < length,
        decreases places@.len() - n,
    {
        if places[n] >= length {
            return false;
        }
        n += 1;
    }
    true
}

/// The stream with `value` in every place that `places` lists.
pub fn replace_all(s: &Vec<u64>, places: &Vec<usize>, value: u64) -> (other: Vec<u64>)
    requires
        places_within(places@, s@.len()),
    ensures
        other@ == with_all(s@, places@, value),
{
    let mut other: Vec<u64> = copy_of(s);
    let mut n: usize = 0;
    assert(other@ =~= with_all(s@, places@.take(0), value));
    while n < places.len()
        invariant
            n <= places@.len(),
            places_within(places@, s@.len()),
            other@ == with_all(s@, places@.take(n as int), value),
        decreases places@.len() - n,
    {
        let place: usize = places[n];
        other.set(place, value);
        proof {
            let old_places = places@.take(n as int);
            let new_places = places@.take(n + 1);
            assert(new_places =~= old_places.push(place));
            assert forall|p: int| 0 <= p < s@.len() implies other@[p] == with_all(
                s@,
                new_places,
                value,
            )[p] by {
                if p == place {
                    assert(new_places[n as int] == p);
                } else if lists(old_places, p) {
                    let m = choose|m: int| 0 <= m < old_places.len() && old_places[m] == p;
                    assert(new_places[m] == p);
                } else if lists(new_places, p) {
                    let m = choose|m: int| 0 <= m < new_places.len() && new_places[m] == p;
                    assert(m < n);
                    assert(old_places[m] == p);
                }
            }
            assert(other@ =~= with_all(s@, new_places, value));
        }
        n += 1;
    }
    assert(places@.take(n as int) =~= places@);
    other
}

} // verus!
