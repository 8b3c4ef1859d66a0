//! What a shrinker asks for next, in every pass and after every reply.

use vstd::prelude::*;

use crate::data::ResultModel;
use crate::deletion;
use crate::duplicates;
use crate::laws;
use crate::minimality;
use crate::passes;
use crate::passes::{CursorModel, Fault, Probe, RequestModel, ShrinkerModel, Stage};
use crate::shrinker;
use crate::shrinker::Request;
use crate::streams;

verus! {

/// `now` stands at a point where it asks for a run on `attempt`, with all else as in `from`.
pub open spec fn asks_for_run(
    from: ShrinkerModel,
    now: ShrinkerModel,
    cursor: CursorModel,
    attempt: Seq<u64>,
) -> bool {
    &&& now == ShrinkerModel { cursor, ..from }
    &&& now.request() == Some(RequestModel::Run(attempt))
}

/// `from` with the result taken in: an interesting result takes the place of the target if
/// it is simpler.
pub open spec fn taken_in(from: ShrinkerModel, result: ResultModel) -> ShrinkerModel {
    if result.status is Interesting && streams::simpler(result.record, from.target.record) {
        ShrinkerModel { target: result, changes: (from.changes + 1) as u64, ..from }
    } else {
        from
    }
}

/// What is left of `record` without the blocks from `start` up to `end`.
pub open spec fn rest_of(record: Seq<u64>, start: int, end: int) -> Seq<u64> {
    record.subrange(0, start) + record.subrange(end, record.len() as int)
}

// ---- Single blocks ----

/// `now` asks for a search on the block at `p`, which is the first from `i` on that the test
/// did not write.
pub open spec fn searches_at(from: ShrinkerModel, i: int, p: int, now: ShrinkerModel) -> bool {
    let target = from.target;
    &&& i <= p < target.record.len()
    &&& !target.written_indices.contains(p as usize)
    &&& forall|q: int| i <= q < p ==> #[trigger] target.written_indices.contains(q as usize)
    &&& now == ShrinkerModel {
        cursor: CursorModel::IndividualBlocks { i: p as nat, stage: Stage::Search },
        ..from
    }
    &&& now.request() == Some(RequestModel::Minimize(target.record[p]))
}

/// `now` asks for a search on the first block from `i` on that the test did not write; if
/// there is none, it has turned to the groups of the target.
pub open spec fn next_single(from: ShrinkerModel, i: int, now: ShrinkerModel) -> bool {
    let target = from.target;
    ||| exists|p: int| searches_at(from, i, p, now)
    ||| {
        &&& forall|q: int|
            i <= q < target.record.len() ==> #[trigger] target.written_indices.contains(q as usize)
        &&& turns_to_groups(from, 0, now)
    }
}

/// `now` has listed the groups of the target and turned to the one at `next`.
pub open spec fn turns_to_groups(from: ShrinkerModel, next: int, now: ShrinkerModel) -> bool {
    if from.target.record.len() != from.target.sizes.len() {
        now == ShrinkerModel { cursor: CursorModel::Failed(Fault::SizesMismatch), ..from }
    } else {
        next_group(from, duplicates::groups_of(from.target), next, now)
    }
}

/// `now` asks for a search on the value of the group at `next`. If there is none, the cheap
/// passes are over: the others follow if they have followed before or if nothing changed in
/// this round, and otherwise another round starts.
pub open spec fn next_group(
    from: ShrinkerModel,
    targets: Seq<Seq<usize>>,
    next: int,
    now: ShrinkerModel,
) -> bool {
    let record = from.target.record;
    if next < targets.len() {
        let group = targets[next];
        let first = group[0] as int;
        if first >= record.len() {
            now == ShrinkerModel { cursor: CursorModel::Failed(Fault::OutOfRange), ..from }
        } else {
            &&& now == ShrinkerModel {
                cursor: CursorModel::DuplicatedBlocks {
                    targets,
                    next: (next + 1) as nat,
                    group,
                    start: record[first],
                    base: record,
                    stage: Stage::Search,
                },
                ..from
            }
            &&& now.request() == Some(RequestModel::Minimize(record[first]))
        }
    } else if from.expensive || from.prev == from.changes {
        now == (ShrinkerModel {
            expensive: true,
            cursor: CursorModel::ReorderBlocks { i: 0, j: 1 },
            ..from
        }).seek()
    } else {
        now == (ShrinkerModel {
            prev: from.changes,
            cursor: CursorModel::AdaptiveDelete { target: from.target, i: 0, probe: Probe::Two },
            ..from
        }).seek()
    }
}

/// Groups are turned to one after the other.
pub proof fn law_next_group(from: ShrinkerModel, targets: Seq<Seq<usize>>, next: nat)
    requires
        from.wf(),
        from.cursor == (CursorModel::DuplicateGroups { targets, next }),
    ensures
        next_group(from, targets, next as int, from.seek()),
{
    let once = from.skip();
    assert(from.seek() == once.seek());
    if next < targets.len() {
        assert(once.seek() == once);
    }
}

/// Blocks are searched one after the other, and none that the test drew is passed over.
pub proof fn law_next_single(from: ShrinkerModel, i: nat)
    requires
        from.wf(),
        from.cursor == (CursorModel::IndividualBlocks { i, stage: Stage::Search }),
    ensures
        next_single(from, i as int, from.seek()),
    decreases from.target.record.len() - i,
{
    let target = from.target;
    if i >= target.record.len() {
        let once = from.skip();
        assert(from.seek() == once.seek());
        passes::lemma_skip_wf(from);
        if target.record.len() == target.sizes.len() {
            law_next_group(once, duplicates::groups_of(target), 0);
            lemma_groups_from(from, once, duplicates::groups_of(target), 0, once.seek());
        } else {
            assert(once.seek() == once);
        }
    } else if target.written_indices.contains(i as usize) {
        let once = from.skip();
        assert(from.seek() == once.seek());
        passes::lemma_skip_wf(from);
        law_next_single(once, i + 1);
        let now = once.seek();
        let after = i as int + 1;
        if exists|p: int| searches_at(once, after, p, now) {
            let p = choose|p: int| searches_at(once, after, p, now);
            assert(searches_at(from, i as int, p, now));
        } else {
            assert(turns_to_groups(once, 0, now));
            if target.record.len() == target.sizes.len() {
                lemma_groups_from(once, from, duplicates::groups_of(target), 0, now);
            }
            assert(turns_to_groups(from, 0, now));
        }
    } else {
        assert(from.seek() == from);
        assert(searches_at(from, i as int, i as int, from));
    }
}

/// Where the groups are turned to from makes no difference to what follows.
proof fn lemma_groups_from(
    a: ShrinkerModel,
    b: ShrinkerModel,
    targets: Seq<Seq<usize>>,
    next: int,
    now: ShrinkerModel,
)
    requires
        a == (ShrinkerModel { cursor: a.cursor, ..b }),
    ensures
        next_group(a, targets, next, now) == next_group(b, targets, next, now),
{
}

/// A search that ends for one block is followed by one for the next block that the test
/// drew.
pub proof fn law_search_moves_on(shrinker: ShrinkerModel, i: nat, stage: Stage, value: u64)
    requires
        shrinker.wf(),
        shrinker.awaits_search(),
        shrinker.cursor == (CursorModel::IndividualBlocks { i, stage }),
    ensures
        next_single(shrinker, i as int + 1, shrinker.minimized(value)),
{
    let next = shrinker.at(CursorModel::IndividualBlocks { i: i + 1, stage: Stage::Search });
    law_next_single(next, i + 1);
    lemma_single_from(next, shrinker, i as int + 1, next.seek());
}

proof fn lemma_single_from(a: ShrinkerModel, b: ShrinkerModel, i: int, now: ShrinkerModel)
    requires
        a == (ShrinkerModel { cursor: a.cursor, ..b }),
        next_single(a, i, now),
    ensures
        next_single(b, i, now),
{
    let target = a.target;
    if exists|p: int| searches_at(a, i, p, now) {
        let p = choose|p: int| searches_at(a, i, p, now);
        assert(searches_at(b, i, p, now));
    } else {
        assert(turns_to_groups(a, 0, now));
        lemma_groups_from(a, b, duplicates::groups_of(target), 0, now);
    }
}

/// A value that is proposed for a single block is run with all other blocks as they are, if
/// it is lower than what the block holds. If it is not, it will not do.
pub proof fn law_value_is_tried(shrinker: ShrinkerModel, i: nat, stage: Stage, value: u64)
    requires
        shrinker.wf(),
        shrinker.awaits_search(),
        shrinker.cursor == (CursorModel::IndividualBlocks { i, stage }),
    ensures
        ({
            let record = shrinker.target.record;
            let asked = shrinker.candidate(value).request();
            if i >= record.len() {
                shrinker.candidate(value).cursor == CursorModel::Failed(Fault::OutOfRange)
            } else if value >= record[i as int] {
                &&& asked == Some(RequestModel::Answer(false))
                &&& shrinker.candidate(value).cursor == (CursorModel::IndividualBlocks {
                    i,
                    stage: Stage::Answered(false),
                })
            } else {
                &&& asked matches Some(RequestModel::Run(attempt)) && {
                    &&& attempt.len() == record.len()
                    &&& attempt[i as int] == value
                    &&& forall|p: int|
                        0 <= p < record.len() && p != i ==> #[trigger] attempt[p] == record[p]
                }
                &&& shrinker.candidate(value).cursor == (CursorModel::IndividualBlocks {
                    i,
                    stage: Stage::Testing(value),
                })
            }
        }),
{
}

/// Where a value that was tried for the block at `i` gives a valid result that is shorter
/// than the target, by however many blocks, the value is run once more without as many of
/// the blocks behind it, unless that is how the target starts. In all other cases the search
/// is told whether the result was interesting. If there are not as many blocks behind it, or
/// the result is longer than the target, the shrinker fails.
pub proof fn law_second_chance(
    shrinker: ShrinkerModel,
    i: nat,
    value: u64,
    result: ResultModel,
)
    requires
        shrinker.wf(),
        shrinker.cursor == (CursorModel::IndividualBlocks { i, stage: Stage::Testing(value) }),
        shrinker.changes < u64::MAX,
        result.wf(),
    ensures
        ({
            let record = shrinker.target.record;
            let after = shrinker.completed(result);
            let lost = record.len() - result.record.len();
            let cut = record.subrange(0, i as int) + seq![value] + record.subrange(
                i + 1 + lost,
                record.len() as int,
            );
            if lost < 0 {
                after.cursor == CursorModel::Failed(Fault::ResultTooLong)
            } else if result.status is Valid && lost >= 1 {
                if i + 1 + lost > record.len() {
                    after.cursor == CursorModel::Failed(Fault::OutOfRange)
                } else if cut == record.subrange(0, cut.len() as int) {
                    &&& after.request() == Some(RequestModel::Answer(false))
                    &&& after == ShrinkerModel {
                        cursor: CursorModel::IndividualBlocks { i, stage: Stage::Answered(false) },
                        ..shrinker
                    }
                } else {
                    &&& after.request() == Some(RequestModel::Run(cut))
                    &&& after == ShrinkerModel {
                        cursor: CursorModel::IndividualBlocks {
                            i,
                            stage: Stage::Cutting(value, lost as usize),
                        },
                        ..shrinker
                    }
                }
            } else {
                &&& after.request() == Some(
                    RequestModel::Answer(result.status is Interesting),
                )
                &&& after == ShrinkerModel {
                    cursor: CursorModel::IndividualBlocks {
                        i,
                        stage: Stage::Answered(result.status is Interesting),
                    },
                    ..taken_in(shrinker, result)
                }
            }
        }),
{
    let record = shrinker.target.record;
    let lost = record.len() - result.record.len();
    let next = shrinker.after_run(result.status is Interesting, result).consider(result);
    passes::lemma_completed_wf(shrinker, result);
    if 0 <= lost && i + 1 + lost <= record.len() {
        let cut = record.subrange(0, i as int) + seq![value] + record.subrange(
            i + 1 + lost,
            record.len() as int,
        );
        assert(shrinker.cut(i, value, lost) =~= cut);
        assert(cut.is_prefix_of(record) <==> cut == record.subrange(0, cut.len() as int)) by {
            assert(cut.is_prefix_of(record) ==> cut =~= record.subrange(0, cut.len() as int));
        }
    }
    assert(next.seek() == next);
}

/// A second chance is decided by its own run: the search is told whether that was
/// interesting.
pub proof fn law_second_chance_answers(
    shrinker: ShrinkerModel,
    i: nat,
    value: u64,
    lost: usize,
    result: ResultModel,
)
    requires
        shrinker.wf(),
        shrinker.cursor == (CursorModel::IndividualBlocks { i, stage: Stage::Cutting(value, lost) }),
        shrinker.changes < u64::MAX,
        result.wf(),
    ensures
        shrinker.completed(result).request() == Some(
            RequestModel::Answer(result.status is Interesting),
        ),
        shrinker.completed(result) == (ShrinkerModel {
            cursor: CursorModel::IndividualBlocks {
                i,
                stage: Stage::Answered(result.status is Interesting),
            },
            ..taken_in(shrinker, result)
        }),
{
    let next = shrinker.after_run(result.status is Interesting, result).consider(result);
    assert(next.seek() == next);
}

/// Trying a value for a block from beginning to end: the search proposes it, the test is
/// run, perhaps once more without the blocks that it no longer read, and the search is told
/// whether the last of these runs was interesting. What the test left each time is given by
/// `test`.
pub proof fn law_trying_a_value(
    shrinker: ShrinkerModel,
    i: nat,
    stage: Stage,
    value: u64,
    test: spec_fn(Seq<u64>) -> ResultModel,
)
    requires
        shrinker.wf(),
        shrinker.awaits_search(),
        shrinker.cursor == (CursorModel::IndividualBlocks { i, stage }),
        i < shrinker.target.record.len(),
        value < shrinker.target.record[i as int],
        shrinker.changes < u64::MAX,
        forall|blocks: Seq<u64>| (#[trigger] test(blocks)).wf(),
    ensures
        ({
            let record = shrinker.target.record;
            let attempt = record.subrange(0, i as int) + seq![value] + record.subrange(
                i as int + 1,
                record.len() as int,
            );
            let first = test(attempt);
            let lost = record.len() - first.record.len();
            let cut = record.subrange(0, i as int) + seq![value] + record.subrange(
                i + 1 + lost,
                record.len() as int,
            );
            let running = shrinker.candidate(value);
            let after = running.completed(first);
            &&& running.request() == Some(RequestModel::Run(attempt))
            &&& first.status is Interesting && lost >= 0 ==> after.request() == Some(
                RequestModel::Answer(true),
            )
            &&& (first.status is Invalid || first.status is Overflow) && lost >= 0
                ==> after.request() == Some(RequestModel::Answer(false))
            &&& first.status is Valid && lost == 0 ==> after.request() == Some(
                RequestModel::Answer(false),
            )
            &&& first.status is Valid && lost > 0 && i < first.record.len() && cut
                != record.subrange(0, cut.len() as int) ==> {
                &&& after.request() == Some(RequestModel::Run(cut))
                &&& after.completed(test(cut)).request() == Some(
                    RequestModel::Answer(test(cut).status is Interesting),
                )
            }
        }),
{
    let record = shrinker.target.record;
    let attempt = record.subrange(0, i as int) + seq![value] + record.subrange(
        i as int + 1,
        record.len() as int,
    );
    let running = shrinker.candidate(value);
    passes::lemma_candidate_wf(shrinker, value);
    assert(record.update(i as int, value) =~= attempt);
    let first = test(attempt);
    assert(first.wf());
    law_second_chance(running, i, value, first);
    passes::lemma_completed_wf(running, first);
    let lost = record.len() - first.record.len();
    let cut = record.subrange(0, i as int) + seq![value] + record.subrange(
        i + 1 + lost,
        record.len() as int,
    );
    if first.status is Valid && lost > 0 && i < first.record.len() && cut != record.subrange(
        0,
        cut.len() as int,
    ) {
        let after = running.completed(first);
        assert(running.cut(i, value, lost) =~= cut);
        assert(cut.is_prefix_of(record) ==> cut =~= record.subrange(0, cut.len() as int));
        let next = running.after_run(false, first).consider(first);
        assert(next.seek() == next);
        assert(test(cut).wf());
        law_second_chance_answers(after, i, value, lost as usize, test(cut));
    }
}

/// A value that is proposed changes nothing but the point at which the shrinker stands.
pub proof fn law_proposals_keep(shrinker: ShrinkerModel, value: u64)
    requires
        shrinker.wf(),
        shrinker.awaits_search(),
    ensures
        shrinker.candidate(value) == (ShrinkerModel {
            cursor: shrinker.candidate(value).cursor,
            ..shrinker
        }),
{
}

/// When no more changes of the target can be counted, one more makes the shrinker fail.
pub proof fn law_changes_are_limited(shrinker: ShrinkerModel, result: ResultModel)
    requires
        shrinker.wf(),
        shrinker.awaits_run(),
        shrinker.changes == u64::MAX,
        result.wf(),
        result.status is Interesting,
        streams::simpler(result.record, shrinker.target.record),
    ensures
        shrinker.completed(result).cursor == CursorModel::Failed(Fault::Overflow),
{
    let moved = shrinker.after_run(true, result).consider(result);
    assert(moved.seek() == moved);
}

/// No attempt that is run on behalf of a pass is how the target starts: the test would read
/// the same blocks there as in the target until it ran out of data.
pub proof fn law_attempts_are_no_beginnings(shrinker: ShrinkerModel, attempt: Seq<u64>)
    requires
        shrinker.wf(),
        shrinker.request() == Some(RequestModel::Run(attempt)),
        !(shrinker.cursor is IndividualBlocks),
        !(shrinker.cursor is DuplicatedBlocks),
    ensures
        attempt.len() <= shrinker.target.record.len(),
        attempt != shrinker.target.record.subrange(0, attempt.len() as int),
{
    let record = shrinker.target.record;
    laws::law_attempts_are_simpler(shrinker, attempt);
    if attempt == record.subrange(0, attempt.len() as int) {
        assert(attempt.is_prefix_of(record));
        match shrinker.cursor {
            CursorModel::ReorderBlocks { i, j } => {
                assert(attempt[i as int] == record[i as int]);
            },
            CursorModel::LowerAndDelete { i, draw } => {
                if draw is None {
                    assert(attempt[i as int] == record[i as int]);
                }
            },
            _ => {},
        }
    }
}

/// A request is what its model says.
pub proof fn law_request_view(request: Request)
    ensures
        match request {
            Request::Run(attempt) => request@ == RequestModel::Run(attempt@),
            Request::Minimize(start) => request@ == RequestModel::Minimize(start),
            Request::Answer(answer) => request@ == RequestModel::Answer(answer),
        },
        shrinker::request_view(Some(request)) == Some(request@),
        shrinker::request_view(None) is None,
{
}

// ---- Groups ----

/// A value that is proposed for a group is run with that value in every place of the group
/// and all other blocks as they were when the search began. It has to lie within the record,
/// and to make it simpler than the target is; if it is how the target starts, it will not do.
pub proof fn law_group_value_is_tried(
    shrinker: ShrinkerModel,
    targets: Seq<Seq<usize>>,
    next: nat,
    group: Seq<usize>,
    start: u64,
    base: Seq<u64>,
    stage: Stage,
    value: u64,
)
    requires
        shrinker.wf(),
        shrinker.awaits_search(),
        shrinker.cursor == (CursorModel::DuplicatedBlocks {
            targets,
            next,
            group,
            start,
            base,
            stage,
        }),
    ensures
        ({
            let after = shrinker.candidate(value);
            let record = shrinker.target.record;
            let outside = exists|n: int|
                0 <= n < group.len() && #[trigger] group[n] as int >= base.len();
            &&& outside <==> after.cursor == CursorModel::Failed(Fault::OutOfRange)
            &&& !outside ==> exists|attempt: Seq<u64>|
                {
                    &&& #[trigger] is_group_attempt(base, group, value, attempt)
                    &&& if attempt.len() > record.len() {
                        after.cursor == CursorModel::Failed(Fault::AttemptTooLong)
                    } else if attempt == record.subrange(0, attempt.len() as int) && attempt.len()
                        < record.len() {
                        &&& after.request() == Some(RequestModel::Answer(false))
                        &&& after.cursor == (CursorModel::DuplicatedBlocks {
                            targets,
                            next,
                            group,
                            start,
                            base,
                            stage: Stage::Answered(false),
                        })
                    } else if streams::simpler(attempt, record) {
                        &&& after.request() == Some(RequestModel::Run(attempt))
                        &&& after.cursor == (CursorModel::DuplicatedBlocks {
                            targets,
                            next,
                            group,
                            start,
                            base,
                            stage: Stage::Testing(value),
                        })
                    } else {
                        after.cursor == CursorModel::Failed(Fault::AttemptNotLower)
                    }
                }
        }),
{
    let record = shrinker.target.record;
    let attempt = streams::with_all(base, group, value);
    streams::law_places_within(group, base.len());
    if streams::places_within(group, base.len()) {
        streams::law_with_all(base, group, value);
        assert(is_group_attempt(base, group, value, attempt));
        assert(attempt.is_prefix_of(record) ==> attempt =~= record.subrange(
            0,
            attempt.len() as int,
        ));
        streams::law_simpler_is_an_order(attempt, record, record);
    }
}

/// `attempt` is `base` with `value` in every place of the group, and nowhere else changed.
pub open spec fn is_group_attempt(
    base: Seq<u64>,
    group: Seq<usize>,
    value: u64,
    attempt: Seq<u64>,
) -> bool {
    &&& attempt.len() == base.len()
    &&& forall|n: int| 0 <= n < group.len() ==> attempt[#[trigger] group[n] as int] == value
    &&& forall|p: int|
        #![trigger attempt[p]]
        0 <= p < base.len() && !group.contains(p as usize) ==> attempt[p] == base[p]
}

/// While a value is tried for a group, the run that is asked for is on the record in which
/// the search began, with the value in every place of the group; and the search is told
/// whether the result was interesting.
pub proof fn law_group_run(
    shrinker: ShrinkerModel,
    targets: Seq<Seq<usize>>,
    next: nat,
    group: Seq<usize>,
    start: u64,
    base: Seq<u64>,
    value: u64,
    result: ResultModel,
)
    requires
        shrinker.wf(),
        shrinker.cursor == (CursorModel::DuplicatedBlocks {
            targets,
            next,
            group,
            start,
            base,
            stage: Stage::Testing(value),
        }),
        shrinker.changes < u64::MAX,
        result.wf(),
    ensures
        shrinker.request() matches Some(RequestModel::Run(attempt)) && is_group_attempt(
            base,
            group,
            value,
            attempt,
        ),
        shrinker.completed(result).request() == Some(
            RequestModel::Answer(result.status is Interesting),
        ),
        shrinker.completed(result) == (ShrinkerModel {
            cursor: CursorModel::DuplicatedBlocks {
                targets,
                next,
                group,
                start,
                base,
                stage: Stage::Answered(result.status is Interesting),
            },
            ..taken_in(shrinker, result)
        }),
{
    streams::law_with_all(base, group, value);
    let attempt = streams::with_all(base, group, value);
    assert forall|p: int|
        #![trigger attempt[p]]
        0 <= p < base.len() && !group.contains(p as usize) implies attempt[p] == base[p] by {
        assert forall|n: int| 0 <= n < group.len() implies #[trigger] group[n] != p by {
            if group[n] == p {
                assert(group[n] == p as usize);
            }
        }
    }
    let moved = shrinker.after_run(result.status is Interesting, result).consider(result);
    assert(moved.seek() == moved);
}

/// When the search for a group ends, the next group is turned to. If the search has moved
/// away from the value that it started with, the groups are listed anew from the target as it
/// then is, and the count goes on.
pub proof fn law_group_search_moves_on(
    shrinker: ShrinkerModel,
    targets: Seq<Seq<usize>>,
    next: nat,
    group: Seq<usize>,
    start: u64,
    base: Seq<u64>,
    stage: Stage,
    value: u64,
)
    requires
        shrinker.wf(),
        shrinker.awaits_search(),
        shrinker.cursor == (CursorModel::DuplicatedBlocks {
            targets,
            next,
            group,
            start,
            base,
            stage,
        }),
    ensures
        value == start ==> next_group(shrinker, targets, next as int, shrinker.minimized(value)),
        value != start ==> turns_to_groups(shrinker, next as int, shrinker.minimized(value)),
{
    passes::lemma_minimized_wf(shrinker, value);
    if value == start {
        let mid = shrinker.at(CursorModel::DuplicateGroups { targets, next });
        law_next_group(mid, targets, next);
        lemma_groups_from(mid, shrinker, targets, next as int, mid.seek());
    } else {
        let mid = shrinker.list_groups(next);
        if shrinker.target.record.len() == shrinker.target.sizes.len() {
            let listed = duplicates::groups_of(shrinker.target);
            law_next_group(mid, listed, next);
            lemma_groups_from(mid, shrinker, listed, next as int, mid.seek());
        } else {
            assert(mid.seek() == mid);
        }
    }
}

// ---- Order ----

/// `record` with what stands at `p` and `q` exchanged.
pub open spec fn exchanged(record: Seq<u64>, p: int, q: int) -> Seq<u64> {
    Seq::new(
        record.len(),
        |k: int|
            record[if k == p {
                q
            } else if k == q {
                p
            } else {
                k
            }],
    )
}

/// `now` asks for a run with the blocks at `p` and `q` exchanged, the first pair in the order
/// of places, from `i` and `j` on, whose later block is the lower one.
pub open spec fn exchanges_at(
    from: ShrinkerModel,
    i: int,
    j: int,
    p: int,
    q: int,
    now: ShrinkerModel,
) -> bool {
    let record = from.target.record;
    &&& 0 <= p < q < record.len()
    &&& !minimality::pair_before(p, q, i, j)
    &&& record[q] < record[p]
    &&& forall|a: int, b: int|
        0 <= a < b < record.len() && !minimality::pair_before(a, b, i, j)
            && minimality::pair_before(a, b, p, q) ==> #[trigger] record[a] <= #[trigger] record[b]
    &&& asks_for_run(
        from,
        now,
        CursorModel::ReorderBlocks { i: p as nat, j: q as nat },
        exchanged(record, p, q),
    )
}

/// `now` asks for a run on the record with two blocks exchanged: those of the first pair, in
/// the order of places, from `i` and `j` on, whose later block is the lower one. If there is
/// none, it has turned to lowering blocks by one.
pub open spec fn next_exchange(from: ShrinkerModel, i: int, j: int, now: ShrinkerModel) -> bool {
    let record = from.target.record;
    ||| exists|p: int, q: int| exchanges_at(from, i, j, p, q, now)
    ||| {
        &&& forall|a: int, b: int|
            0 <= a < b < record.len() && !minimality::pair_before(a, b, i, j) ==> #[trigger]
                record[a] <= #[trigger] record[b]
        &&& now == (ShrinkerModel {
            cursor: CursorModel::LowerAndDelete { i: 0, draw: None },
            ..from
        }).seek()
    }
}

/// Pairs of blocks are gone through in order, and none whose later block is the lower one is
/// passed over.
pub proof fn law_next_exchange(from: ShrinkerModel, i: nat, j: nat)
    requires
        from.wf(),
        from.cursor == (CursorModel::ReorderBlocks { i, j }),
    ensures
        next_exchange(from, i as int, j as int, from.seek()),
    decreases from.target.record.len() - i, from.target.record.len() - j,
{
    let record = from.target.record;
    let length = record.len() as int;
    if i < length && j < length && record[j as int] < record[i as int] {
        assert(streams::swapped(record, i as int, j as int) =~= exchanged(
            record,
            i as int,
            j as int,
        ));
        assert(from.seek() == from);
        assert(exchanges_at(from, i as int, j as int, i as int, j as int, from));
    } else {
        let once = from.skip();
        let now = once.seek();
        assert(from.seek() == now);
        passes::lemma_skip_wf(from);
        if i < length && j < length && record[i as int] > 0 {
            law_next_exchange(once, i, j + 1);
            lemma_exchange_from(from, once, i as int, j as int, i as int, j as int + 1, now);
        } else if i + 1 < length {
            law_next_exchange(once, i + 1, i + 2);
            lemma_exchange_from(from, once, i as int, j as int, i as int + 1, i as int + 2, now);
        }
    }
}

proof fn lemma_exchange_from(
    from: ShrinkerModel,
    once: ShrinkerModel,
    i: int,
    j: int,
    k: int,
    l: int,
    now: ShrinkerModel,
)
    requires
        once == (ShrinkerModel { cursor: once.cursor, ..from }),
        next_exchange(once, k, l, now),
        k > i || (k == i && l >= j),
        forall|a: int, b: int|
            0 <= a < b < from.target.record.len() && !minimality::pair_before(a, b, i, j)
                && minimality::pair_before(a, b, k, l) ==> #[trigger] from.target.record[a]
                <= #[trigger] from.target.record[b],
    ensures
        next_exchange(from, i, j, now),
{
    if exists|p: int, q: int| exchanges_at(once, k, l, p, q, now) {
        let (p, q) = choose|p: int, q: int| exchanges_at(once, k, l, p, q, now);
        assert(exchanges_at(from, i, j, p, q, now));
    }
}

/// After a run on the record with the blocks at `i` and `j` exchanged, whatever came of it,
/// the next pair is turned to.
pub proof fn law_exchange_moves_on(
    shrinker: ShrinkerModel,
    i: nat,
    j: nat,
    result: ResultModel,
)
    requires
        shrinker.wf(),
        shrinker.awaits_run(),
        shrinker.cursor == (CursorModel::ReorderBlocks { i, j }),
        shrinker.changes < u64::MAX,
        result.wf(),
    ensures
        shrinker.request() == Some(
            RequestModel::Run(exchanged(shrinker.target.record, i as int, j as int)),
        ),
        next_exchange(
            taken_in(shrinker, result),
            i as int,
            j as int + 1,
            shrinker.completed(result),
        ),
{
    let record = shrinker.target.record;
    assert(streams::swapped(record, i as int, j as int) =~= exchanged(record, i as int, j as int));
    passes::lemma_completed_wf(shrinker, result);
    let moved = shrinker.after_run(result.status is Interesting, result).consider(result);
    law_next_exchange(moved, i, j + 1);
    lemma_exchange_from(
        taken_in(shrinker, result),
        moved,
        i as int,
        j as int + 1,
        i as int,
        j as int + 1,
        moved.seek(),
    );
}

// ---- Lowering by one ----

/// `now` asks for a run with the block at `p` lowered by one, the first from `i` on that is
/// not 0.
pub open spec fn lowers_at(from: ShrinkerModel, i: int, p: int, now: ShrinkerModel) -> bool {
    let record = from.target.record;
    &&& i <= p < record.len()
    &&& record[p] > 0
    &&& forall|q: int| i <= q < p ==> #[trigger] record[q] == 0
    &&& asks_for_run(
        from,
        now,
        CursorModel::LowerAndDelete { i: p as nat, draw: None },
        record.subrange(0, p) + seq![(record[p] - 1) as u64] + record.subrange(
            p + 1,
            record.len() as int,
        ),
    )
}

/// `now` asks for a run with the first block from `i` on that is not 0 lowered by one. If
/// there is none, it has turned to deleting ranges.
pub open spec fn next_lowering(from: ShrinkerModel, i: int, now: ShrinkerModel) -> bool {
    let record = from.target.record;
    ||| exists|p: int| lowers_at(from, i, p, now)
    ||| {
        &&& forall|q: int| i <= q < record.len() ==> #[trigger] record[q] == 0
        &&& now == (ShrinkerModel {
            cursor: CursorModel::DeleteAllRanges { i: 0, j: 1, start_length: record.len() },
            ..from
        }).seek()
    }
}

/// Blocks are lowered one after the other, and none that can be lowered is passed over.
pub proof fn law_next_lowering(from: ShrinkerModel, i: nat)
    requires
        from.wf(),
        from.cursor == (CursorModel::LowerAndDelete { i, draw: None }),
    ensures
        next_lowering(from, i as int, from.seek()),
    decreases from.target.record.len() - i,
{
    let record = from.target.record;
    if i < record.len() && record[i as int] > 0 {
        assert(from.lowered(i) =~= record.subrange(0, i as int) + seq![
            (record[i as int] - 1) as u64,
        ] + record.subrange(i as int + 1, record.len() as int));
        assert(from.seek() == from);
        assert(lowers_at(from, i as int, i as int, from));
    } else {
        let once = from.skip();
        let now = once.seek();
        assert(from.seek() == now);
        passes::lemma_skip_wf(from);
        if i < record.len() {
            law_next_lowering(once, i + 1);
            let after = i as int + 1;
            if exists|p: int| lowers_at(once, after, p, now) {
                let p = choose|p: int| lowers_at(once, after, p, now);
                assert(lowers_at(from, i as int, p, now));
            }
        }
    }
}

/// The record with the block at `i` lowered by one and the blocks of the draw at `d` left
/// out.
pub open spec fn lowered_without(target: ResultModel, i: int, d: int) -> Seq<u64> {
    let record = target.record;
    record.subrange(0, i) + seq![(record[i] - 1) as u64] + record.subrange(
        i + 1,
        target.draws[d].start as int,
    ) + record.subrange(target.draws[d].end as int, record.len() as int)
}

/// Leaving out the draw at `d` is worth a run when the block at `i` is lowered: the draw
/// starts behind the block, and what is left is not how the record starts.
pub open spec fn worth_leaving_out(target: ResultModel, i: int, d: int) -> bool {
    let attempt = lowered_without(target, i, d);
    &&& target.draws[d].start > i
    &&& attempt != target.record.subrange(0, attempt.len() as int)
}

/// `now` asks for a run with the block at `i` lowered by one and the draw at `e` left out, the
/// first from `d` on that is worth it.
pub open spec fn leaves_out(
    from: ShrinkerModel,
    i: int,
    d: int,
    e: int,
    now: ShrinkerModel,
) -> bool {
    let target = from.target;
    &&& d <= e < target.draws.len()
    &&& worth_leaving_out(target, i, e)
    &&& forall|c: int| d <= c < e ==> !#[trigger] worth_leaving_out(target, i, c)
    &&& asks_for_run(
        from,
        now,
        CursorModel::LowerAndDelete { i: i as nat, draw: Some(e as nat) },
        lowered_without(target, i, e),
    )
}

/// `now` asks for a run with the block at `i` lowered by one and the first draw from `d` on
/// left out that is worth it. If there is none, the next block is turned to.
pub open spec fn next_draw_with(
    from: ShrinkerModel,
    i: int,
    d: int,
    now: ShrinkerModel,
) -> bool {
    ||| exists|e: int| leaves_out(from, i, d, e, now)
    ||| {
        &&& forall|c: int|
            d <= c < from.target.draws.len() ==> !#[trigger] worth_leaving_out(from.target, i, c)
        &&& next_lowering(from, i + 1, now)
    }
}

proof fn lemma_lowering_from(a: ShrinkerModel, b: ShrinkerModel, i: int, now: ShrinkerModel)
    requires
        a == (ShrinkerModel { cursor: a.cursor, ..b }),
        next_lowering(a, i, now),
    ensures
        next_lowering(b, i, now),
{
    if exists|p: int| lowers_at(a, i, p, now) {
        let p = choose|p: int| lowers_at(a, i, p, now);
        assert(lowers_at(b, i, p, now));
    }
}

proof fn lemma_draw_with_from(
    a: ShrinkerModel,
    b: ShrinkerModel,
    i: int,
    d: int,
    now: ShrinkerModel,
)
    requires
        a == (ShrinkerModel { cursor: a.cursor, ..b }),
        next_draw_with(a, i, d, now),
    ensures
        next_draw_with(b, i, d, now),
{
    if exists|e: int| leaves_out(a, i, d, e, now) {
        let e = choose|e: int| leaves_out(a, i, d, e, now);
        assert(leaves_out(b, i, d, e, now));
    } else {
        lemma_lowering_from(a, b, i + 1, now);
    }
}

/// What the model asks for is the record with the block lowered and the draw left out.
pub proof fn lemma_lowered_without(from: ShrinkerModel, i: nat, d: nat)
    requires
        from.wf(),
        i < from.target.record.len(),
        from.target.record[i as int] > 0,
        d < from.target.draws.len(),
    ensures
        from.target.draws[d as int].start > i ==> streams::without_range(
            from.lowered(i),
            from.target.draws[d as int].start as int,
            from.target.draws[d as int].end as int,
        ) == lowered_without(from.target, i as int, d as int),
        from.lower_and_delete(i, Some(d)) == if worth_leaving_out(
            from.target,
            i as int,
            d as int,
        ) {
            Some(RequestModel::Run(lowered_without(from.target, i as int, d as int)))
        } else {
            None
        },
{
    let draw = from.target.draws[d as int];
    let record = from.target.record;
    if draw.start > i {
        let attempt = lowered_without(from.target, i as int, d as int);
        assert(streams::without_range(from.lowered(i), draw.start as int, draw.end as int)
            =~= attempt);
        assert(attempt.is_prefix_of(record) ==> attempt =~= record.subrange(
            0,
            attempt.len() as int,
        ));
    }
}

/// Draws are left out one after the other, and none that is worth it is passed over.
pub proof fn law_next_draw_with(from: ShrinkerModel, i: nat, d: nat)
    requires
        from.wf(),
        from.cursor == (CursorModel::LowerAndDelete { i, draw: Some(d) }),
        i < from.target.record.len(),
        from.target.record[i as int] > 0,
    ensures
        next_draw_with(from, i as int, d as int, from.seek()),
    decreases from.target.draws.len() - d,
{
    let draws = from.target.draws;
    if d < draws.len() {
        lemma_lowered_without(from, i, d);
    }
    if d < draws.len() && worth_leaving_out(from.target, i as int, d as int) {
        assert(from.seek() == from);
        assert(leaves_out(from, i as int, d as int, d as int, from));
    } else {
        let once = from.skip();
        let now = once.seek();
        assert(from.seek() == now);
        passes::lemma_skip_wf(from);
        if d < draws.len() {
            law_next_draw_with(once, i, d + 1);
            let after = d as int + 1;
            if exists|e: int| leaves_out(once, i as int, after, e, now) {
                let e = choose|e: int| leaves_out(once, i as int, after, e, now);
                assert(leaves_out(from, i as int, d as int, e, now));
            } else {
                lemma_lowering_from(once, from, i as int + 1, now);
            }
        } else {
            law_next_lowering(once, i + 1);
            lemma_lowering_from(once, from, i as int + 1, now);
        }
    }
}

/// After a run with the block at `i` lowered by one: if it was not interesting and left
/// fewer blocks than the target has, the draws behind the block are left out with it, from
/// the first on. Otherwise the next block is turned to.
pub proof fn law_lowering_moves_on(shrinker: ShrinkerModel, i: nat, result: ResultModel)
    requires
        shrinker.wf(),
        shrinker.awaits_run(),
        shrinker.cursor == (CursorModel::LowerAndDelete { i, draw: None }),
        shrinker.changes < u64::MAX,
        result.wf(),
    ensures
        ({
            let after = shrinker.completed(result);
            if !(result.status is Interesting) && result.record.len()
                < shrinker.target.record.len() {
                next_draw_with(shrinker, i as int, 0, after)
            } else {
                next_lowering(taken_in(shrinker, result), i as int + 1, after)
            }
        }),
{
    passes::lemma_completed_wf(shrinker, result);
    let moved = shrinker.after_run(result.status is Interesting, result).consider(result);
    if !(result.status is Interesting) && result.record.len() < shrinker.target.record.len() {
        law_next_draw_with(moved, i, 0);
        lemma_draw_with_from(moved, shrinker, i as int, 0, moved.seek());
    } else {
        law_next_lowering(moved, i + 1);
        lemma_lowering_from(moved, taken_in(shrinker, result), i as int + 1, moved.seek());
    }
}

/// After a run with the block at `i` lowered by one and the draw at `d` left out: if it was
/// not interesting, the draws behind `d` are left out, each in its turn; if it was, the next
/// block is turned to.
pub proof fn law_leaving_out_moves_on(
    shrinker: ShrinkerModel,
    i: nat,
    d: nat,
    result: ResultModel,
)
    requires
        shrinker.wf(),
        shrinker.awaits_run(),
        shrinker.cursor == (CursorModel::LowerAndDelete { i, draw: Some(d) }),
        shrinker.changes < u64::MAX,
        result.wf(),
    ensures
        shrinker.request() == Some(
            RequestModel::Run(lowered_without(shrinker.target, i as int, d as int)),
        ),
        if result.status is Interesting {
            next_lowering(taken_in(shrinker, result), i as int + 1, shrinker.completed(result))
        } else {
            next_draw_with(shrinker, i as int, d as int + 1, shrinker.completed(result))
        },
{
    lemma_lowered_without(shrinker, i, d);
    passes::lemma_completed_wf(shrinker, result);
    let moved = shrinker.after_run(result.status is Interesting, result).consider(result);
    if result.status is Interesting {
        law_next_lowering(moved, i + 1);
        lemma_lowering_from(moved, taken_in(shrinker, result), i as int + 1, moved.seek());
    } else {
        law_next_draw_with(moved, i, d + 1);
        lemma_draw_with_from(moved, shrinker, i as int, d as int + 1, moved.seek());
    }
}

// ---- Ranges ----

/// Leaving out the blocks from `p` up to `q` is worth a run: what is left is not how the
/// record starts.
pub open spec fn worth_deleting(record: Seq<u64>, p: int, q: int) -> bool {
    rest_of(record, p, q) != record.subrange(0, record.len() - (q - p))
}

/// `now` asks for a run without the blocks from `i` up to `q`, the first place from `j` on for
/// which that is worth it.
pub open spec fn deletes_to(
    from: ShrinkerModel,
    i: int,
    j: int,
    start_length: nat,
    q: int,
    now: ShrinkerModel,
) -> bool {
    let record = from.target.record;
    &&& j <= q < record.len()
    &&& worth_deleting(record, i, q)
    &&& forall|b: int| j <= b < q ==> !#[trigger] worth_deleting(record, i, b)
    &&& asks_for_run(
        from,
        now,
        CursorModel::DeleteAllRanges { i: i as nat, j: q as nat, start_length },
        rest_of(record, i, q),
    )
}

/// `now` asks for a run without the blocks from `i` up to the first place from `j` on for
/// which that is worth it. If there is none, the same place is gone through once more where
/// the record has changed its length meanwhile, and the next place otherwise. At the end of
/// the record the round is over: another one starts if something changed in it, and
/// otherwise the shrinker is done.
pub open spec fn next_range(
    from: ShrinkerModel,
    i: int,
    j: int,
    start_length: nat,
    now: ShrinkerModel,
) -> bool {
    let record = from.target.record;
    let length = record.len();
    if i >= length {
        round_ends(from, now)
    } else {
        ||| exists|q: int| deletes_to(from, i, j, start_length, q, now)
        ||| {
            &&& forall|b: int| j <= b < length ==> !#[trigger] worth_deleting(record, i, b)
            &&& if start_length != length {
                now == (ShrinkerModel {
                    cursor: CursorModel::DeleteAllRanges {
                        i: i as nat,
                        j: (i + 1) as nat,
                        start_length: length,
                    },
                    ..from
                }).seek()
            } else if i + 1 < length {
                now == (ShrinkerModel {
                    cursor: CursorModel::DeleteAllRanges {
                        i: (i + 1) as nat,
                        j: (i + 2) as nat,
                        start_length: length,
                    },
                    ..from
                }).seek()
            } else {
                round_ends(from, now)
            }
        }
    }
}

/// Another round starts with the first pass if something changed in this one; otherwise the
/// shrinker is done.
pub open spec fn round_ends(from: ShrinkerModel, now: ShrinkerModel) -> bool {
    if from.prev == from.changes {
        now == ShrinkerModel { cursor: CursorModel::Complete, ..from }
    } else {
        now == (ShrinkerModel {
            prev: from.changes,
            cursor: CursorModel::AdaptiveDelete { target: from.target, i: 0, probe: Probe::Two },
            ..from
        }).seek()
    }
}

proof fn lemma_rest_of(record: Seq<u64>, i: int, j: int)
    requires
        0 <= i <= j <= record.len(),
    ensures
        streams::without_range(record, i, j) == rest_of(record, i, j),
        rest_of(record, i, j).is_prefix_of(record) <==> !worth_deleting(record, i, j),
{
    let attempt = rest_of(record, i, j);
    assert(streams::without_range(record, i, j) =~= attempt);
    assert(attempt.len() == record.len() - (j - i));
    assert(attempt.is_prefix_of(record) ==> attempt =~= record.subrange(0, attempt.len() as int));
}

/// Ranges are gone through in order, and none that is worth deleting is passed over.
pub proof fn law_next_range(from: ShrinkerModel, i: nat, j: nat, start_length: nat)
    requires
        from.wf(),
        from.cursor == (CursorModel::DeleteAllRanges { i, j, start_length }),
    ensures
        next_range(from, i as int, j as int, start_length, from.seek()),
    decreases from.target.record.len() - j,
{
    let record = from.target.record;
    let length = record.len();
    if i < length && j < length {
        lemma_rest_of(record, i as int, j as int);
    }
    if i < length && j < length && worth_deleting(record, i as int, j as int) {
        assert(from.seek() == from);
        assert(deletes_to(from, i as int, j as int, start_length, j as int, from));
    } else {
        let once = from.skip();
        let now = once.seek();
        assert(from.seek() == now);
        passes::lemma_skip_wf(from);
        if i < length && j < length {
            law_next_range(once, i, j + 1, start_length);
            let after = j as int + 1;
            if exists|q: int| deletes_to(once, i as int, after, start_length, q, now) {
                let q = choose|q: int| deletes_to(once, i as int, after, start_length, q, now);
                assert(deletes_to(from, i as int, j as int, start_length, q, now));
            }
        } else if once.cursor is Complete {
            assert(once.seek() == once);
        }
    }
}

/// After a run without the blocks from `i` up to `j`: if it was interesting, the same places
/// are turned to again, in the record as it then is; otherwise the range is made longer.
pub proof fn law_range_moves_on(
    shrinker: ShrinkerModel,
    i: nat,
    j: nat,
    start_length: nat,
    result: ResultModel,
)
    requires
        shrinker.wf(),
        shrinker.awaits_run(),
        shrinker.cursor == (CursorModel::DeleteAllRanges { i, j, start_length }),
        shrinker.changes < u64::MAX,
        result.wf(),
    ensures
        shrinker.request() == Some(
            RequestModel::Run(rest_of(shrinker.target.record, i as int, j as int)),
        ),
        next_range(
            taken_in(shrinker, result),
            i as int,
            if result.status is Interesting {
                j as int
            } else {
                j as int + 1
            },
            start_length,
            shrinker.completed(result),
        ),
{
    lemma_rest_of(shrinker.target.record, i as int, j as int);
    passes::lemma_completed_wf(shrinker, result);
    let moved = shrinker.after_run(result.status is Interesting, result).consider(result);
    let k = if result.status is Interesting {
        j
    } else {
        j + 1
    };
    law_next_range(moved, i, k, start_length);
    let now = moved.seek();
    let next = taken_in(shrinker, result);
    if exists|q: int| deletes_to(moved, i as int, k as int, start_length, q, now) {
        let q = choose|q: int| deletes_to(moved, i as int, k as int, start_length, q, now);
        assert(deletes_to(next, i as int, k as int, start_length, q, now));
    }
}

// ---- Draws ----

/// `now` asks for a run without draws of `target` from the one at `i` on, as many as the probe
/// says, if that is shorter than the target and not how it starts; if not, it goes on as if
/// the draws could not be deleted. When there are no more draws, it has turned to single
/// blocks.
pub open spec fn next_deletion(
    from: ShrinkerModel,
    target: ResultModel,
    i: int,
    probe: Probe,
    now: ShrinkerModel,
) -> bool {
    let record = from.target.record;
    if i < target.draws.len() {
        let attempt = deletion::without_draws(target, i, probe.spec_count() as int);
        if attempt.len() < record.len() && attempt != record.subrange(0, attempt.len() as int) {
            asks_for_run(
                from,
                now,
                CursorModel::AdaptiveDelete { target, i: i as nat, probe },
                attempt,
            )
        } else {
            match probe.spec_after(false) {
                Some(after) => now == (ShrinkerModel {
                    cursor: CursorModel::AdaptiveDelete { target, i: i as nat, probe: after },
                    ..from
                }).seek(),
                None => now == (ShrinkerModel {
                    cursor: CursorModel::AdaptiveDelete {
                        target,
                        i: (i + 1) as nat,
                        probe: Probe::Two,
                    },
                    ..from
                }).seek(),
            }
        }
    } else {
        next_single(from, 0, now)
    }
}

/// Draws are deleted from one draw after the other, in the numbers that the probes give.
pub proof fn law_next_deletion(from: ShrinkerModel, target: ResultModel, i: nat, probe: Probe)
    requires
        from.wf(),
        from.cursor == (CursorModel::AdaptiveDelete { target, i, probe }),
    ensures
        next_deletion(from, target, i as int, probe, from.seek()),
{
    let record = from.target.record;
    if i < target.draws.len() {
        let attempt = deletion::without_draws(target, i as int, probe.spec_count() as int);
        if attempt.len() < record.len() {
            assert(attempt.is_prefix_of(record) ==> attempt =~= record.subrange(
                0,
                attempt.len() as int,
            ));
        }
        if from.request() is Some {
            assert(from.seek() == from);
        } else {
            assert(from.seek() == from.skip().seek());
        }
    } else {
        let once = from.skip();
        assert(from.seek() == once.seek());
        passes::lemma_skip_wf(from);
        law_next_single(once, 0);
        lemma_single_from(once, from, 0, once.seek());
    }
}

/// The numbers of draws that are tried at one place. As long as draws can be deleted they are
/// 2, 3, 4 and 5, and from then on each is twice the one before. A single draw is tried
/// exactly where two were too many. A number between two others halves what lies between
/// them.
pub proof fn law_probe_numbers(probe: Probe)
    requires
        probe.wf(),
        2 * probe.spec_count() <= usize::MAX,
    ensures
        Probe::Two.spec_count() == 2,
        probe is One ==> probe.spec_count() == 1 && probe.spec_after(true) is None
            && probe.spec_after(false) is None,
        probe.spec_after(false) == Some(Probe::One) <==> probe is Two,
        probe is Two || probe is Three || probe is Four || probe is Ahead ==> {
            &&& probe.spec_count() >= 2
            &&& probe.spec_after(true) matches Some(next) && next.spec_count() == if probe is Ahead {
                2 * probe.spec_count()
            } else {
                probe.spec_count() + 1
            } && !(next is Between)
        },
        probe is Three || probe is Four ==> probe.spec_after(false) is None,
        probe is Ahead ==> match probe.spec_after(false) {
            Some(Probe::Between(low, high)) => low == 4 && high == probe.spec_count(),
            None => probe.spec_count() == 5,
            _ => false,
        },
        probe matches Probe::Between(low, high) ==> {
            let middle = probe.spec_count();
            &&& low < middle < high
            &&& middle - low <= high - middle <= middle - low + 1
            &&& match probe.spec_after(true) {
                Some(Probe::Between(l, h)) => l == middle && h == high,
                None => high == middle + 1,
                _ => false,
            }
            &&& match probe.spec_after(false) {
                Some(Probe::Between(l, h)) => l == low && h == middle,
                None => middle == low + 1,
                _ => false,
            }
        },
{
}

/// After a run without some draws, either the next number is tried at the same place or the
/// next draw is turned to, in the draws that the target had when the pass began.
pub proof fn law_deletion_moves_on(
    shrinker: ShrinkerModel,
    target: ResultModel,
    i: nat,
    probe: Probe,
    result: ResultModel,
)
    requires
        shrinker.wf(),
        shrinker.awaits_run(),
        shrinker.cursor == (CursorModel::AdaptiveDelete { target, i, probe }),
        2 * target.draws.len() <= usize::MAX,
        shrinker.changes < u64::MAX,
        result.wf(),
    ensures
        ({
            let ok = result.status is Interesting;
            let now = shrinker.completed(result);
            let next = taken_in(shrinker, result);
            if ok && probe is Ahead && probe.spec_count() > target.draws.len() {
                next_deletion(next, target, i as int + 1, Probe::Two, now)
            } else {
                match probe.spec_after(ok) {
                    Some(after) => next_deletion(next, target, i as int, after, now),
                    None => next_deletion(next, target, i as int + 1, Probe::Two, now),
                }
            }
        }),
{
    passes::lemma_completed_wf(shrinker, result);
    laws::law_deletion_goes_on(shrinker, target, i, probe, result);
    let moved = shrinker.after_run(result.status is Interesting, result).consider(result);
    match moved.cursor {
        CursorModel::AdaptiveDelete { target: t, i: k, probe: p } => {
            law_next_deletion(moved, t, k, p);
            if k >= t.draws.len() {
                lemma_single_from(moved, taken_in(shrinker, result), 0, moved.seek());
            }
        },
        _ => {},
    }
}

/// A shrinker sets out with the deletion of draws, from the first draw of its target on, and
/// without the expensive passes.
pub proof fn law_start(target: ResultModel)
    requires
        target.wf(),
        target.status is Interesting,
    ensures
        ({
            let from = ShrinkerModel {
                target,
                changes: 0,
                prev: 0,
                expensive: false,
                cursor: CursorModel::AdaptiveDelete { target, i: 0, probe: Probe::Two },
            };
            next_deletion(from, target, 0, Probe::Two, ShrinkerModel::start(target))
        }),
{
    let from = ShrinkerModel {
        target,
        changes: 0,
        prev: 0,
        expensive: false,
        cursor: CursorModel::AdaptiveDelete { target, i: 0, probe: Probe::Two },
    };
    law_next_deletion(from, target, 0, Probe::Two);
}

} // verus!
