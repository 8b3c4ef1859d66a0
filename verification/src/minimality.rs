//! What a shrinker achieves: where it is fixed on which blocks a test is interesting, the
//! target that it ends with cannot be made simpler by any single one of its steps.

use vstd::prelude::*;

use crate::data::ResultModel;
use crate::deletion;
use crate::generation::{LoopExitReason, LoopModel, PhaseModel};
use crate::laws;
use crate::passes;
use crate::passes::{CursorModel, RequestModel, ShrinkerModel, Stage};
use crate::streams;

verus! {

/// Deleting up to `k` draws from the draw at `i` on does not help: no block goes, or the
/// record only goes on behind what is left, or the test is not interesting on that.
pub open spec fn draws_needed(
    target: ResultModel,
    i: int,
    k: int,
    interesting: spec_fn(Seq<u64>) -> bool,
) -> bool {
    let attempt = deletion::without_draws(target, i, k);
    attempt.len() >= target.record.len() || attempt.is_prefix_of(target.record) || !interesting(
        attempt,
    )
}

/// Exchanging the blocks at `p` and `q` does not help.
pub open spec fn order_needed(
    record: Seq<u64>,
    p: int,
    q: int,
    interesting: spec_fn(Seq<u64>) -> bool,
) -> bool {
    record[q] < record[p] ==> !interesting(streams::swapped(record, p, q))
}

/// Lowering the block at `p` by one does not help.
pub open spec fn value_needed(
    record: Seq<u64>,
    p: int,
    interesting: spec_fn(Seq<u64>) -> bool,
) -> bool {
    record[p] > 0 ==> !interesting(record.update(p, (record[p] - 1) as u64))
}

/// Deleting the blocks from `p` up to `q` does not help.
pub open spec fn range_needed(
    record: Seq<u64>,
    p: int,
    q: int,
    interesting: spec_fn(Seq<u64>) -> bool,
) -> bool {
    let attempt = streams::without_range(record, p, q);
    attempt.is_prefix_of(record) || !interesting(attempt)
}

/// No draw before the one at `n` can be deleted, alone or with one more behind it.
pub open spec fn draws_needed_before(
    target: ResultModel,
    n: int,
    interesting: spec_fn(Seq<u64>) -> bool,
) -> bool {
    forall|i: int|
        0 <= i < n && i < target.draws.len() ==> {
            &&& #[trigger] draws_needed(target, i, 1, interesting)
            &&& draws_needed(target, i, 2, interesting)
        }
}

/// The pair of places `p` and `q` comes before the pair `i` and `j`.
pub open spec fn pair_before(p: int, q: int, i: int, j: int) -> bool {
    p < i || (p == i && q < j)
}

/// No two blocks can be exchanged, up to those at `i` and `j`.
pub open spec fn order_needed_before(
    record: Seq<u64>,
    i: int,
    j: int,
    interesting: spec_fn(Seq<u64>) -> bool,
) -> bool {
    forall|p: int, q: int|
        0 <= p < q < record.len() && pair_before(p, q, i, j) ==> #[trigger] order_needed(
            record,
            p,
            q,
            interesting,
        )
}

/// No block before the one at `n` can be lowered by one.
pub open spec fn values_needed_before(
    record: Seq<u64>,
    n: int,
    interesting: spec_fn(Seq<u64>) -> bool,
) -> bool {
    forall|p: int|
        0 <= p < n && p < record.len() ==> #[trigger] value_needed(record, p, interesting)
}

/// No range of blocks can be deleted, up to the one from `i` to `j`.
pub open spec fn ranges_needed_before(
    record: Seq<u64>,
    i: int,
    j: int,
    interesting: spec_fn(Seq<u64>) -> bool,
) -> bool {
    forall|p: int, q: int|
        0 <= p < q < record.len() && pair_before(p, q, i, j) ==> #[trigger] range_needed(
            record,
            p,
            q,
            interesting,
        )
}

/// The target cannot be made simpler by deleting one draw or two, by exchanging two
/// blocks, by lowering a block by one, or by deleting a range of blocks.
pub open spec fn minimal(target: ResultModel, interesting: spec_fn(Seq<u64>) -> bool) -> bool {
    let length = target.record.len() as int;
    &&& draws_needed_before(target, target.draws.len() as int, interesting)
    &&& order_needed_before(target.record, length, 0, interesting)
    &&& values_needed_before(target.record, length, interesting)
    &&& ranges_needed_before(target.record, length, 0, interesting)
}

/// As far as a round has got without changing the target, nothing that it tried helps.
pub open spec fn in_vain(
    shrinker: ShrinkerModel,
    interesting: spec_fn(Seq<u64>) -> bool,
) -> bool {
    let target = shrinker.target;
    let record = target.record;
    let length = record.len() as int;
    let draws = target.draws.len() as int;
    shrinker.prev == shrinker.changes ==> match shrinker.cursor {
        CursorModel::AdaptiveDelete { target: snapshot, i, probe } => {
            &&& snapshot == target
            &&& draws_needed_before(target, i as int, interesting)
            &&& probe is Two || (probe is One && draws_needed(target, i as int, 2, interesting))
        },
        CursorModel::ReorderBlocks { i, j } => {
            &&& draws_needed_before(target, draws, interesting)
            &&& order_needed_before(record, i as int, j as int, interesting)
        },
        CursorModel::LowerAndDelete { i, draw } => {
            &&& draws_needed_before(target, draws, interesting)
            &&& order_needed_before(record, length, 0, interesting)
            &&& values_needed_before(record, i as int, interesting)
            &&& draw is Some ==> value_needed(record, i as int, interesting)
        },
        CursorModel::DeleteAllRanges { i, j, start_length } => {
            &&& draws_needed_before(target, draws, interesting)
            &&& order_needed_before(record, length, 0, interesting)
            &&& values_needed_before(record, length, interesting)
            &&& ranges_needed_before(record, i as int, j as int, interesting)
        },
        CursorModel::Complete => minimal(target, interesting),
        CursorModel::Failed(_) => true,
        _ => draws_needed_before(target, draws, interesting),
    }
}

/// The result is what the test makes of the attempt that it was run on, and whatever is
/// interesting is simpler than the target, as it is where tests write nothing.
pub open spec fn answers(
    shrinker: ShrinkerModel,
    result: ResultModel,
    interesting: spec_fn(Seq<u64>) -> bool,
) -> bool {
    &&& shrinker.request() matches Some(RequestModel::Run(attempt)) ==> (
    result.status is Interesting <==> interesting(attempt))
    &&& result.status is Interesting ==> streams::simpler(
        result.record,
        shrinker.target.record,
    )
}

proof fn lemma_skip_in_vain(
    shrinker: ShrinkerModel,
    interesting: spec_fn(Seq<u64>) -> bool,
)
    requires
        shrinker.wf(),
        in_vain(shrinker, interesting),
        !shrinker.is_over(),
        shrinker.request() is None,
    ensures
        in_vain(shrinker.skip(), interesting),
{
}

proof fn lemma_seek_in_vain(
    shrinker: ShrinkerModel,
    interesting: spec_fn(Seq<u64>) -> bool,
)
    requires
        shrinker.wf(),
        in_vain(shrinker, interesting),
    ensures
        in_vain(shrinker.seek(), interesting),
    decreases
        shrinker.rounds_ahead(),
        shrinker.passes_ahead(),
        shrinker.steps_ahead().0,
        shrinker.steps_ahead().1,
        shrinker.steps_ahead().2,
{
    if !shrinker.settled() {
        passes::lemma_skip_wf(shrinker);
        lemma_skip_in_vain(shrinker, interesting);
        lemma_seek_in_vain(shrinker.skip(), interesting);
    }
}

/// A shrinker sets out with nothing tried; if it is done at once, there is nothing to try.
pub proof fn law_nothing_tried_at_start(
    target: ResultModel,
    interesting: spec_fn(Seq<u64>) -> bool,
)
    requires
        target.wf(),
        target.status is Interesting,
    ensures
        in_vain(ShrinkerModel::start(target), interesting),
        ShrinkerModel::start(target).cursor is Complete ==> minimal(target, interesting),
{
    passes::lemma_start_wf(target);
    let fresh = ShrinkerModel {
        target,
        changes: 0,
        prev: 1,
        expensive: false,
        cursor: CursorModel::Complete,
    };
    lemma_seek_in_vain(fresh.next_round(), interesting);
}

/// A run either changes the target or shows that one more attempt does not help.
pub proof fn law_runs_are_remembered(
    shrinker: ShrinkerModel,
    result: ResultModel,
    interesting: spec_fn(Seq<u64>) -> bool,
)
    requires
        shrinker.wf(),
        shrinker.awaits_run(),
        in_vain(shrinker, interesting),
        result.wf(),
        answers(shrinker, result, interesting),
    ensures
        in_vain(shrinker.completed(result), interesting),
{
    passes::lemma_completed_wf(shrinker, result);
    let next = shrinker.after_run(result.status is Interesting, result).consider(result);
    assert(in_vain(next, interesting));
    lemma_seek_in_vain(next, interesting);
}

/// A search leaves what is known of the other attempts as it is.
pub proof fn law_search_forgets_nothing(
    shrinker: ShrinkerModel,
    value: u64,
    interesting: spec_fn(Seq<u64>) -> bool,
)
    requires
        shrinker.wf(),
        shrinker.awaits_search(),
        in_vain(shrinker, interesting),
    ensures
        in_vain(shrinker.candidate(value), interesting),
        in_vain(shrinker.minimized(value), interesting),
{
    passes::lemma_minimized_wf(shrinker, value);
    match shrinker.cursor {
        CursorModel::IndividualBlocks { i, stage } => {
            lemma_seek_in_vain(
                shrinker.at(CursorModel::IndividualBlocks { i: i + 1, stage: Stage::Search }),
                interesting,
            );
        },
        CursorModel::DuplicatedBlocks { targets, next, group, start, base, stage } => {
            lemma_seek_in_vain(shrinker.list_groups(next), interesting);
            lemma_seek_in_vain(
                shrinker.at(CursorModel::DuplicateGroups { targets, next }),
                interesting,
            );
        },
        _ => {},
    }
}

/// When a shrinker is done, its target cannot be made simpler: not by deleting one draw or
/// two, nor by exchanging two blocks, lowering a block by one, or deleting a range of
/// blocks.
pub proof fn law_complete_is_minimal(
    shrinker: ShrinkerModel,
    interesting: spec_fn(Seq<u64>) -> bool,
)
    requires
        shrinker.wf(),
        in_vain(shrinker, interesting),
        shrinker.cursor is Complete,
    ensures
        minimal(shrinker.target, interesting),
{
}

/// If a run is the last that the loop asks for, the result that the loop keeps cannot be
/// made simpler.
pub proof fn law_last_run_leaves_minimal(
    main_loop: LoopModel,
    shrinker: ShrinkerModel,
    result: ResultModel,
    interesting: spec_fn(Seq<u64>) -> bool,
)
    requires
        main_loop.wf(),
        main_loop.phase == PhaseModel::Shrinking(shrinker),
        main_loop.best_example == Some(shrinker.target),
        main_loop.awaits_run(),
        in_vain(shrinker, interesting),
        result.wf(),
        answers(shrinker, result, interesting),
        main_loop.completed(result).phase == PhaseModel::Finished(LoopExitReason::Complete),
    ensures
        main_loop.completed(result).best_example matches Some(best) && minimal(best, interesting),
{
    passes::lemma_completed_wf(shrinker, result);
    law_runs_are_remembered(shrinker, result, interesting);
    laws::law_target_only_gets_simpler(shrinker, result);
}

/// If the end of a search is the last thing that the loop asks for, the result that the
/// loop keeps cannot be made simpler.
pub proof fn law_last_search_leaves_minimal(
    main_loop: LoopModel,
    shrinker: ShrinkerModel,
    value: u64,
    interesting: spec_fn(Seq<u64>) -> bool,
)
    requires
        main_loop.wf(),
        main_loop.phase == PhaseModel::Shrinking(shrinker),
        main_loop.best_example == Some(shrinker.target),
        main_loop.awaits_search(),
        in_vain(shrinker, interesting),
        main_loop.minimized(value).phase == PhaseModel::Finished(LoopExitReason::Complete),
    ensures
        main_loop.minimized(value).best_example matches Some(best) && minimal(best, interesting),
{
    passes::lemma_minimized_wf(shrinker, value);
    law_search_forgets_nothing(shrinker, value, interesting);
}

} // verus!
