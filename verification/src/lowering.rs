//! What lowering blocks together with the deletion of draws achieves: where it is fixed what
//! a test makes of which blocks, no block of the target that a shrinker ends with can be
//! lowered by one along with the deletion of a draw behind it.

use vstd::prelude::*;

use crate::data::ResultModel;
use crate::minimality;
use crate::passes;
use crate::passes::{CursorModel, RequestModel, ShrinkerModel, Stage};
use crate::steps;

verus! {

/// Lowering the block at `p` by one and leaving out the draw at `d`, which starts behind it,
/// does not help: what is left is how the record starts, or the test is not interesting on
/// it.
pub open spec fn draw_needed_with(
    target: ResultModel,
    p: int,
    d: int,
    interesting: spec_fn(Seq<u64>) -> bool,
) -> bool {
    let attempt = steps::lowered_without(target, p, d);
    target.draws[d].start > p ==> attempt == target.record.subrange(0, attempt.len() as int)
        || !interesting(attempt)
}

/// No draw before the one at `n` can be left out when the block at `p` is lowered by one.
pub open spec fn draws_needed_with(
    target: ResultModel,
    p: int,
    n: int,
    interesting: spec_fn(Seq<u64>) -> bool,
) -> bool {
    forall|d: int|
        0 <= d < n && d < target.draws.len() ==> #[trigger] draw_needed_with(
            target,
            p,
            d,
            interesting,
        )
}

/// If a test reads fewer blocks once the block at `p` is lowered by one, no draw can be left
/// out along with that. `left` tells how many blocks a test leaves on record.
pub open spec fn block_keeps_draws(
    target: ResultModel,
    p: int,
    interesting: spec_fn(Seq<u64>) -> bool,
    left: spec_fn(Seq<u64>) -> nat,
) -> bool {
    let record = target.record;
    let lowered = record.subrange(0, p) + seq![(record[p] - 1) as u64] + record.subrange(
        p + 1,
        record.len() as int,
    );
    record[p] > 0 && left(lowered) < record.len() ==> draws_needed_with(
        target,
        p,
        target.draws.len() as int,
        interesting,
    )
}

/// This holds of every block before the one at `n`.
pub open spec fn blocks_keep_draws(
    target: ResultModel,
    n: int,
    interesting: spec_fn(Seq<u64>) -> bool,
    left: spec_fn(Seq<u64>) -> nat,
) -> bool {
    forall|p: int|
        0 <= p < n && p < target.record.len() ==> #[trigger] block_keeps_draws(
            target,
            p,
            interesting,
            left,
        )
}

/// As far as a round has got without changing the target, no draw that it left out along with
/// a lowered block helps.
pub open spec fn in_vain(
    shrinker: ShrinkerModel,
    interesting: spec_fn(Seq<u64>) -> bool,
    left: spec_fn(Seq<u64>) -> nat,
) -> bool {
    let target = shrinker.target;
    let length = target.record.len() as int;
    shrinker.prev == shrinker.changes ==> match shrinker.cursor {
        CursorModel::LowerAndDelete { i, draw } => {
            &&& blocks_keep_draws(target, i as int, interesting, left)
            &&& draw matches Some(d) ==> (i < length && target.record[i as int] > 0
                ==> draws_needed_with(target, i as int, d as int, interesting))
        },
        CursorModel::DeleteAllRanges { .. } => blocks_keep_draws(target, length, interesting, left),
        CursorModel::Complete => blocks_keep_draws(target, length, interesting, left),
        _ => true,
    }
}

proof fn lemma_skip_in_vain(
    shrinker: ShrinkerModel,
    interesting: spec_fn(Seq<u64>) -> bool,
    left: spec_fn(Seq<u64>) -> nat,
)
    requires
        shrinker.wf(),
        in_vain(shrinker, interesting, left),
        !shrinker.is_over(),
        shrinker.request() is None,
    ensures
        in_vain(shrinker.skip(), interesting, left),
{
    match shrinker.cursor {
        CursorModel::LowerAndDelete { i, draw } => {
            match draw {
                Some(d) => {
                    if i < shrinker.target.record.len() && shrinker.target.record[i as int] > 0
                        && d < shrinker.target.draws.len() {
                        lemma_not_worth(shrinker, i, d, interesting);
                    }
                },
                None => {},
            }
        },
        _ => {},
    }
}

/// Where there is nothing to ask for, the draw cannot be left out.
proof fn lemma_not_worth(
    shrinker: ShrinkerModel,
    i: nat,
    d: nat,
    interesting: spec_fn(Seq<u64>) -> bool,
)
    requires
        shrinker.wf(),
        i < shrinker.target.record.len(),
        shrinker.target.record[i as int] > 0,
        d < shrinker.target.draws.len(),
        shrinker.lower_and_delete(i, Some(d)) is None,
    ensures
        draw_needed_with(shrinker.target, i as int, d as int, interesting),
{
    steps::lemma_lowered_without(shrinker, i, d);
}

proof fn lemma_seek_in_vain(
    shrinker: ShrinkerModel,
    interesting: spec_fn(Seq<u64>) -> bool,
    left: spec_fn(Seq<u64>) -> nat,
)
    requires
        shrinker.wf(),
        in_vain(shrinker, interesting, left),
    ensures
        in_vain(shrinker.seek(), interesting, left),
    decreases
        shrinker.rounds_ahead(),
        shrinker.passes_ahead(),
        shrinker.steps_ahead().0,
        shrinker.steps_ahead().1,
        shrinker.steps_ahead().2,
{
    if !shrinker.settled() {
        passes::lemma_skip_wf(shrinker);
        lemma_skip_in_vain(shrinker, interesting, left);
        lemma_seek_in_vain(shrinker.skip(), interesting, left);
    }
}

/// A shrinker sets out with nothing tried.
pub proof fn law_nothing_left_out_at_start(
    target: ResultModel,
    interesting: spec_fn(Seq<u64>) -> bool,
    left: spec_fn(Seq<u64>) -> nat,
)
    requires
        target.wf(),
        target.status is Interesting,
    ensures
        in_vain(ShrinkerModel::start(target), interesting, left),
        ShrinkerModel::start(target).cursor is Complete ==> blocks_keep_draws(
            target,
            target.record.len() as int,
            interesting,
            left,
        ),
{
    passes::lemma_start_wf(target);
    let fresh = ShrinkerModel {
        target,
        changes: 0,
        prev: 1,
        expensive: false,
        cursor: CursorModel::Complete,
    };
    lemma_seek_in_vain(fresh.next_round(), interesting, left);
}

/// A run either changes the target or shows that leaving out one more draw does not help.
pub proof fn law_left_out_draws_are_remembered(
    shrinker: ShrinkerModel,
    result: ResultModel,
    interesting: spec_fn(Seq<u64>) -> bool,
    left: spec_fn(Seq<u64>) -> nat,
)
    requires
        shrinker.wf(),
        shrinker.awaits_run(),
        in_vain(shrinker, interesting, left),
        result.wf(),
        minimality::answers(shrinker, result, interesting),
        shrinker.request() matches Some(RequestModel::Run(attempt)) ==> result.record.len() == left(
            attempt,
        ),
    ensures
        in_vain(shrinker.completed(result), interesting, left),
{
    passes::lemma_completed_wf(shrinker, result);
    let target = shrinker.target;
    let record = target.record;
    let next = shrinker.after_run(result.status is Interesting, result).consider(result);
    match shrinker.cursor {
        CursorModel::LowerAndDelete { i, draw } => {
            match draw {
                Some(d) => {
                    steps::lemma_lowered_without(shrinker, i, d);
                    if !(result.status is Interesting) {
                        assert(draw_needed_with(target, i as int, d as int, interesting));
                    }
                },
                None => {
                    let lowered = record.subrange(0, i as int) + seq![
                        (record[i as int] - 1) as u64,
                    ] + record.subrange(i as int + 1, record.len() as int);
                    assert(shrinker.lowered(i) =~= lowered);
                },
            }
        },
        _ => {},
    }
    assert(in_vain(next, interesting, left));
    lemma_seek_in_vain(next, interesting, left);
}

/// A search leaves what is known of the draws as it is.
pub proof fn law_search_forgets_no_draw(
    shrinker: ShrinkerModel,
    value: u64,
    interesting: spec_fn(Seq<u64>) -> bool,
    left: spec_fn(Seq<u64>) -> nat,
)
    requires
        shrinker.wf(),
        shrinker.awaits_search(),
        in_vain(shrinker, interesting, left),
    ensures
        in_vain(shrinker.candidate(value), interesting, left),
        in_vain(shrinker.minimized(value), interesting, left),
{
    passes::lemma_minimized_wf(shrinker, value);
    match shrinker.cursor {
        CursorModel::IndividualBlocks { i, stage } => {
            lemma_seek_in_vain(
                shrinker.at(CursorModel::IndividualBlocks { i: i + 1, stage: Stage::Search }),
                interesting,
                left,
            );
        },
        CursorModel::DuplicatedBlocks { targets, next, group, start, base, stage } => {
            lemma_seek_in_vain(shrinker.list_groups(next), interesting, left);
            lemma_seek_in_vain(
                shrinker.at(CursorModel::DuplicateGroups { targets, next }),
                interesting,
                left,
            );
        },
        _ => {},
    }
}

/// When a shrinker is done, no block of its target can be lowered by one along with the
/// deletion of a draw behind it, if the test reads fewer blocks once it is lowered.
pub proof fn law_complete_keeps_draws(
    shrinker: ShrinkerModel,
    interesting: spec_fn(Seq<u64>) -> bool,
    left: spec_fn(Seq<u64>) -> nat,
    p: int,
    d: int,
)
    requires
        shrinker.wf(),
        in_vain(shrinker, interesting, left),
        shrinker.cursor is Complete,
        0 <= p < shrinker.target.record.len(),
        0 <= d < shrinker.target.draws.len(),
        shrinker.target.record[p] > 0,
        p < shrinker.target.draws[d].start,
        left(
            shrinker.target.record.update(p, (shrinker.target.record[p] - 1) as u64),
        ) < shrinker.target.record.len(),
    ensures
        ({
            let record = shrinker.target.record;
            let draw = shrinker.target.draws[d];
            let lowered = record.update(p, (record[p] - 1) as u64);
            let attempt = lowered.take(draw.start as int) + lowered.skip(draw.end as int);
            attempt.is_prefix_of(record) || !interesting(attempt)
        }),
{
    lemma_block_keeps_draw(shrinker.target, interesting, left, p, d);
}

/// What it means that blocks keep their draws, for one block and one draw.
pub proof fn lemma_block_keeps_draw(
    target: ResultModel,
    interesting: spec_fn(Seq<u64>) -> bool,
    left: spec_fn(Seq<u64>) -> nat,
    p: int,
    d: int,
)
    requires
        target.wf(),
        blocks_keep_draws(target, target.record.len() as int, interesting, left),
    ensures
        ({
            let record = target.record;
            let draw = target.draws[d];
            let lowered = record.update(p, (record[p] - 1) as u64);
            let attempt = lowered.take(draw.start as int) + lowered.skip(draw.end as int);
            0 <= p < draw.start && 0 <= d < target.draws.len() && record[p] > 0 && left(lowered)
                < record.len() ==> attempt.is_prefix_of(record) || !interesting(attempt)
        }),
{
    let record = target.record;
    let draw = target.draws[d];
    let lowered = record.update(p, (record[p] - 1) as u64);
    if 0 <= p < draw.start && 0 <= d < target.draws.len() && record[p] > 0 {
        assert(lowered =~= record.subrange(0, p) + seq![(record[p] - 1) as u64] + record.subrange(
            p + 1,
            record.len() as int,
        ));
        let attempt = lowered.take(draw.start as int) + lowered.skip(draw.end as int);
        assert(attempt =~= steps::lowered_without(target, p, d));
        assert(block_keeps_draws(target, p, interesting, left));
        if left(lowered) < record.len() {
            assert(draw_needed_with(target, p, d, interesting));
        }
    }
}

} // verus!
