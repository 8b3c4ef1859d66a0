//! What holds of shrinkers, loops and engines over several steps.

use vstd::prelude::*;

use crate::data::{Draw, GeneratorModel, ResultModel, SourceModel, Status};
use crate::deletion;
use crate::duplicates;
use crate::engine::EngineModel;
use crate::generation::{CommandModel, LoopExitReason, LoopModel, PhaseModel};
use crate::passes;
use crate::passes::{CursorModel, Fault, Probe, RequestModel, ShrinkerModel, Stage};
use crate::random;
use crate::streams;

verus! {

/// Every attempt that a shrinker asks to be run is simpler than its target.
pub proof fn law_attempts_are_simpler(shrinker: ShrinkerModel, attempt: Seq<u64>)
    requires
        shrinker.wf(),
        shrinker.request() == Some(RequestModel::Run(attempt)),
    ensures
        streams::simpler(attempt, shrinker.target.record),
{
    let record = shrinker.target.record;
    match shrinker.cursor {
        CursorModel::IndividualBlocks { i, stage } => {
            match stage {
                Stage::Testing(value) => {
                    assert(streams::lower_at(attempt, record, i as int));
                },
                _ => {},
            }
        },
        CursorModel::ReorderBlocks { i, j } => {
            assert(streams::lower_at(attempt, record, i as int));
        },
        CursorModel::LowerAndDelete { i, draw } => {
            match draw {
                None => {
                    assert(streams::lower_at(attempt, record, i as int));
                },
                Some(d) => {},
            }
        },
        _ => {},
    }
}

/// The target of a shrinker only ever changes to a simpler result that is interesting,
/// and each change is counted.
pub proof fn law_target_only_gets_simpler(shrinker: ShrinkerModel, result: ResultModel)
    requires
        shrinker.wf(),
        shrinker.awaits_run(),
        result.wf(),
    ensures
        ({
            let after = shrinker.completed(result);
            if result.status is Interesting && streams::simpler(
                result.record,
                shrinker.target.record,
            ) && shrinker.changes < u64::MAX {
                after.target == result && after.changes == shrinker.changes + 1
            } else {
                after.target == shrinker.target && after.changes == shrinker.changes
            }
        }),
{
    passes::lemma_completed_wf(shrinker, result);
    passes::lemma_seek_wf(
        shrinker.after_run(result.status is Interesting, result).consider(result),
    );
}

/// A search leaves the target alone; only runs change it.
pub proof fn law_search_keeps_target(shrinker: ShrinkerModel, value: u64)
    requires
        shrinker.wf(),
        shrinker.awaits_search(),
    ensures
        shrinker.candidate(value).target == shrinker.target,
        shrinker.minimized(value).target == shrinker.target,
{
    passes::lemma_candidate_wf(shrinker, value);
    passes::lemma_minimized_wf(shrinker, value);
}

/// When a shrinker is done, it has been through a round of all passes, the expensive ones
/// with the others, in which nothing changed.
pub proof fn law_complete_after_idle_round(shrinker: ShrinkerModel)
    requires
        shrinker.wf(),
        shrinker.cursor is Complete,
    ensures
        shrinker.expensive,
        shrinker.prev == shrinker.changes,
{
}

/// Going on to the next point fails only for want of sizes or blocks.
proof fn lemma_seek_fault(shrinker: ShrinkerModel, fault: Fault)
    requires
        shrinker.wf(),
        shrinker.seek().cursor == CursorModel::Failed(fault),
    ensures
        shrinker.cursor == CursorModel::Failed(fault) || fault is SizesMismatch
            || fault is OutOfRange,
    decreases
        shrinker.rounds_ahead(),
        shrinker.passes_ahead(),
        shrinker.steps_ahead().0,
        shrinker.steps_ahead().1,
        shrinker.steps_ahead().2,
{
    if !shrinker.settled() {
        passes::lemma_skip_wf(shrinker);
        lemma_seek_fault(shrinker.skip(), fault);
    }
}

/// A result that holds no more blocks than the attempt that was run never turns out too
/// long; and no run makes a shrinker fail for an attempt of its own.
pub proof fn law_runs_do_not_grow(
    shrinker: ShrinkerModel,
    attempt: Seq<u64>,
    result: ResultModel,
    fault: Fault,
)
    requires
        shrinker.wf(),
        shrinker.request() == Some(RequestModel::Run(attempt)),
        result.wf(),
        result.record.len() <= attempt.len(),
        shrinker.completed(result).cursor == CursorModel::Failed(fault),
    ensures
        !(fault is ResultTooLong),
        !(fault is AttemptTooLong),
        !(fault is AttemptNotLower),
{
    passes::lemma_completed_wf(shrinker, result);
    law_attempts_are_simpler(shrinker, attempt);
    lemma_seek_fault(
        shrinker.after_run(result.status is Interesting, result).consider(result),
        fault,
    );
}

/// The first of two shrinkers with the same target is closer to its end.
pub open spec fn closer(a: ShrinkerModel, b: ShrinkerModel) -> bool {
    let (a1, a2, a3) = a.steps_ahead();
    let (b1, b2, b3) = b.steps_ahead();
    ||| a.rounds_ahead() < b.rounds_ahead()
    ||| a.rounds_ahead() == b.rounds_ahead() && {
        ||| a.passes_ahead() < b.passes_ahead()
        ||| a.passes_ahead() == b.passes_ahead() && {
            ||| a1 < b1
            ||| a1 == b1 && {
                ||| a2 < b2
                ||| a2 == b2 && a3 < b3
            }
        }
    }
}

/// Passing over points brings the shrinker closer to its end.
proof fn lemma_seek_is_closer(shrinker: ShrinkerModel)
    requires
        shrinker.wf(),
    ensures
        shrinker.seek() == shrinker || closer(shrinker.seek(), shrinker),
    decreases
        shrinker.rounds_ahead(),
        shrinker.passes_ahead(),
        shrinker.steps_ahead().0,
        shrinker.steps_ahead().1,
        shrinker.steps_ahead().2,
{
    if !shrinker.settled() {
        passes::lemma_skip_wf(shrinker);
        duplicates::lemma_few_groups(shrinker.target);
        assert(closer(shrinker.skip(), shrinker));
        lemma_seek_is_closer(shrinker.skip());
    }
}

/// A run that is not interesting brings the shrinker closer to its end, unless it is part
/// of a search. So the passes cannot go on for ever without anything simpler being found.
pub proof fn law_rejection_is_progress(shrinker: ShrinkerModel, result: ResultModel)
    requires
        shrinker.wf(),
        shrinker.awaits_run(),
        result.wf(),
        !(result.status is Interesting),
        !(shrinker.cursor is IndividualBlocks),
        !(shrinker.cursor is DuplicatedBlocks),
    ensures
        closer(shrinker.completed(result), shrinker),
{
    passes::lemma_completed_wf(shrinker, result);
    let next = shrinker.after_run(false, result);
    assert(closer(next, shrinker));
    lemma_seek_is_closer(next);
}

/// The end of a search brings the shrinker closer to its end.
pub proof fn law_end_of_search_is_progress(shrinker: ShrinkerModel, value: u64)
    requires
        shrinker.wf(),
        shrinker.awaits_search(),
    ensures
        closer(shrinker.minimized(value), shrinker) || shrinker.minimized(value).cursor is Failed,
{
    passes::lemma_minimized_wf(shrinker, value);
    duplicates::lemma_few_groups(shrinker.target);
    match shrinker.cursor {
        CursorModel::IndividualBlocks { i, stage } => {
            let next = shrinker.at(
                CursorModel::IndividualBlocks { i: i + 1, stage: Stage::Search },
            );
            lemma_seek_is_closer(next);
        },
        CursorModel::DuplicatedBlocks { targets, next, group, start, base, stage } => {
            lemma_seek_is_closer(shrinker.list_groups(next));
            lemma_seek_is_closer(shrinker.at(CursorModel::DuplicateGroups { targets, next }));
        },
        _ => {},
    }
}

/// What a probe takes for granted of the numbers of draws that can be deleted.
pub open spec fn known_of(probe: Probe, can_delete: spec_fn(int) -> bool) -> bool {
    match probe {
        Probe::One => !can_delete(2),
        Probe::Two => true,
        Probe::Three => can_delete(2),
        Probe::Four => can_delete(3),
        Probe::Ahead(high) => can_delete(4) && (high == 5 || (high % 2 == 0 && can_delete(
            high as int / 2,
        ))),
        Probe::Between(low, high) => can_delete(low as int) && !can_delete(high as int),
    }
}

/// Where it is fixed which numbers of draws can be deleted, the probes at a place end with
/// a number of draws that can be deleted while one more cannot (no draw at all can always
/// be deleted). On the way the lower of the two numbers that are halved can be deleted and
/// the upper one cannot, and what lies between them is at least halved each time.
pub proof fn law_probes_find_limit(probe: Probe, can_delete: spec_fn(int) -> bool)
    requires
        probe.wf(),
        known_of(probe, can_delete),
        can_delete(0),
        probe matches Probe::Ahead(high) ==> 2 * high <= usize::MAX,
    ensures
        match probe.spec_after(can_delete(probe.spec_count() as int)) {
            Some(next) => {
                &&& next.wf()
                &&& known_of(next, can_delete)
                &&& (probe matches Probe::Between(low, high) ==> next matches Probe::Between(l, h)
                    && 2 * (h - l) <= high - low + 1)
            },
            None => exists|k: int|
                0 <= k <= probe.spec_count() && #[trigger] can_delete(k) && !can_delete(k + 1),
        },
{
    let count = probe.spec_count() as int;
    match probe {
        Probe::One => {
            assert(if can_delete(1) {
                !can_delete(1int + 1)
            } else {
                !can_delete(0int + 1)
            });
        },
        Probe::Three => {
            assert(can_delete(2));
        },
        Probe::Four => {
            assert(can_delete(3));
        },
        Probe::Ahead(high) => {
            assert(can_delete(4));
        },
        Probe::Between(low, high) => {
            assert(can_delete(low as int));
        },
        _ => {},
    }
}

/// How often `n` can be halved until nothing is left of it.
pub open spec fn halvings(n: int) -> nat
    decreases n,
{
    if n <= 0 {
        0
    } else {
        1 + halvings(n / 2)
    }
}

/// How many numbers of draws are tried at one place from `probe` on, if up to `limit` draws
/// can be deleted there.
pub open spec fn probes_made(probe: Probe, limit: int) -> nat
    decreases
        (match probe {
            Probe::Two => 5nat,
            Probe::Three => 4,
            Probe::Four => 3,
            Probe::Ahead(_) => 2,
            Probe::Between(..) => 1,
            Probe::One => 0,
        }),
        (match probe {
            Probe::Ahead(high) => if high <= limit {
                limit - high + 1
            } else {
                0
            },
            Probe::Between(low, high) => high - low,
            _ => 0,
        }),
    when probe.wf() && 2 * limit <= usize::MAX
{
    match probe.spec_after(probe.spec_count() <= limit) {
        Some(next) => 1 + probes_made(next, limit),
        None => 1,
    }
}

/// Halving finds the limit in as many probes as the distance can be halved.
proof fn lemma_probes_between(low: usize, high: usize, limit: int)
    requires
        Probe::Between(low, high).wf(),
        2 * limit <= usize::MAX,
    ensures
        probes_made(Probe::Between(low, high), limit) <= halvings(high - low - 1),
    decreases high - low,
{
    let probe = Probe::Between(low, high);
    let middle = probe.spec_count();
    assert(halvings(high - low - 1) == 1 + halvings((high - low - 1) / 2));
    match probe.spec_after(middle <= limit) {
        Some(next) => {
            match next {
                Probe::Between(l, h) => {
                    lemma_probes_between(l, h, limit);
                    assert(h - l - 1 <= (high - low - 1) / 2);
                    lemma_halvings_grow(h - l - 1, (high - low - 1) / 2);
                },
                _ => {},
            }
        },
        None => {},
    }
}

proof fn lemma_halvings_grow(a: int, b: int)
    requires
        a <= b,
    ensures
        halvings(a) <= halvings(b),
    decreases b,
{
    if a > 0 {
        lemma_halvings_grow(a / 2, b / 2);
    }
}

/// Doubling passes the limit in as many probes as the limit is doublings away.
proof fn lemma_probes_ahead(high: usize, limit: int)
    requires
        5 <= high,
        4 <= limit,
        high <= 2 * limit,
        2 * limit <= usize::MAX,
    ensures
        probes_made(Probe::Ahead(high), limit) <= 1 + halvings(limit / high as int) + halvings(
            2 * limit,
        ),
    decreases limit - high + 1 + limit,
{
    let probe = Probe::Ahead(high);
    if high <= limit {
        let twice = (2 * high) as usize;
        assert(probe.spec_after(true) == Some(Probe::Ahead(twice)));
        lemma_probes_ahead(twice, limit);
        assert(limit / high as int >= 1) by (nonlinear_arith)
            requires
                5 <= high <= limit,
        ;
        vstd::arithmetic::div_mod::lemma_div_denominator(limit, high as int, 2);
        assert(high as int * 2 == twice as int);
        assert(halvings(limit / high as int) == 1 + halvings((limit / high as int) / 2));
    } else if high > 5 {
        lemma_probes_between(4, high, limit);
        lemma_halvings_grow(high - 5, 2 * limit);
    }
}

/// The number of draws that can be deleted at a place is found in about twice as many
/// probes as it can be halved.
pub proof fn law_probes_are_few(limit: int)
    requires
        0 <= limit,
        2 * limit <= usize::MAX,
    ensures
        limit < 2 ==> probes_made(Probe::Two, limit) == 2,
        probes_made(Probe::Two, limit) <= 4 + halvings(limit / 5) + halvings(2 * limit),
{
    reveal_with_fuel(probes_made, 5);
    if limit >= 4 {
        if 5 <= 2 * limit {
            lemma_probes_ahead(5, limit);
        }
    }
}

/// Up to `k` draws are picked, from the draw at `i` on, and no two of them overlap; the
/// draw at `i` is among them.
pub proof fn law_picked_draws(target: ResultModel, i: int, k: int)
    requires
        target.wf(),
        0 <= i < target.draws.len(),
        k > 0,
    ensures
        deletion::apart(deletion::picked(target.draws, i, k)),
        0 < deletion::picked(target.draws, i, k).len() <= k,
        deletion::picked(target.draws, i, k)[0] == target.draws[i],
        forall|d: int|
            0 <= d < deletion::picked(target.draws, i, k).len() ==> target.draws.subrange(
                i,
                target.draws.len() as int,
            ).contains(#[trigger] deletion::picked(target.draws, i, k)[d]),
{
    deletion::lemma_picked_before(target.draws, i, target.draws.len() as int, k);
    lemma_first_is_picked(target.draws, i, target.draws.len() as int, k);
}

proof fn lemma_all_are_picked(draws: Seq<Draw>, i: int, j: int, k: int, m: int)
    requires
        k >= j - i,
        m >= j - i,
    ensures
        deletion::picked_before(draws, i, j, k) == deletion::picked_before(draws, i, j, m),
        deletion::picked_before(draws, i, j, k).len() <= if i < j {
            j - i
        } else {
            0
        },
    decreases j - i,
{
    if i < j {
        lemma_all_are_picked(draws, i, j - 1, k, m);
    }
}

/// Once as many draws may be deleted as there are from a place on, larger numbers delete
/// the same.
pub proof fn law_no_more_to_delete(target: ResultModel, i: int, k: int, m: int)
    requires
        0 <= i <= target.draws.len(),
        k >= target.draws.len() - i,
        m >= target.draws.len() - i,
    ensures
        deletion::without_draws(target, i, k) == deletion::without_draws(target, i, m),
{
    lemma_all_are_picked(target.draws, i, target.draws.len() as int, k, m);
}

/// No run makes the deletion of draws fail, however many draws can go: the shrinker tries
/// another number of draws or turns to the next draw.
pub proof fn law_deletion_goes_on(
    shrinker: ShrinkerModel,
    target: ResultModel,
    i: nat,
    probe: Probe,
    result: ResultModel,
)
    requires
        shrinker.wf(),
        shrinker.awaits_run(),
        shrinker.cursor == (CursorModel::AdaptiveDelete { target, i, probe }),
        2 * target.draws.len() <= usize::MAX,
        shrinker.changes < u64::MAX,
        result.wf(),
    ensures
        ({
            let ok = result.status is Interesting;
            let next = shrinker.after_run(ok, result).consider(result);
            &&& shrinker.completed(result) == next.seek()
            &&& next.cursor matches CursorModel::AdaptiveDelete { target: t, i: j, probe: p }
                && t == target && if ok && probe.spec_count() > target.draws.len()
                && probe is Ahead {
                j == i + 1 && p is Two
            } else {
                match probe.spec_after(ok) {
                    Some(after) => j == i && p == after,
                    None => j == i + 1 && p is Two,
                }
            }
            &&& shrinker.completed(result).cursor matches CursorModel::Failed(fault) ==> (
            fault is SizesMismatch || fault is OutOfRange)
        }),
{
    passes::lemma_completed_wf(shrinker, result);
    let next = shrinker.after_run(result.status is Interesting, result).consider(result);
    match next.seek().cursor {
        CursorModel::Failed(fault) => {
            lemma_seek_fault(next, fault);
        },
        _ => {},
    }
}

/// Deleting draws leaves what they do not cover: there are fewer blocks as soon as one
/// draw is picked, and all blocks are left if none is.
pub proof fn law_deletion_shortens(target: ResultModel, i: int, k: int)
    requires
        target.wf(),
        0 <= i < target.draws.len(),
    ensures
        k > 0 ==> deletion::without_draws(target, i, k).len() < target.record.len(),
        k <= 0 ==> deletion::without_draws(target, i, k) == target.record,
{
    let length = target.record.len() as int;
    let chosen = deletion::picked(target.draws, i, k);
    deletion::lemma_picked_before(target.draws, i, target.draws.len() as int, k);
    if k > 0 {
        lemma_first_is_picked(target.draws, i, target.draws.len() as int, k);
        assert(deletion::covered(chosen, target.draws[i].start as int));
        lemma_uncovered_length(target.record, chosen, length, target.draws[i].start as int);
    } else {
        lemma_uncovered_all(target.record, chosen, length);
        assert(target.record.take(length) =~= target.record);
    }
}

proof fn lemma_first_is_picked(
    draws: Seq<Draw>,
    i: int,
    j: int,
    k: int,
)
    requires
        0 <= i < j <= draws.len(),
        k > 0,
    ensures
        deletion::picked_before(draws, i, j, k).len() > 0,
        deletion::picked_before(draws, i, j, k)[0] == draws[i],
    decreases j,
{
    if i < j - 1 {
        lemma_first_is_picked(draws, i, j - 1, k);
    } else {
        assert(deletion::picked_before(draws, i, i, k) =~= Seq::empty());
    }
}

proof fn lemma_uncovered_length(
    record: Seq<u64>,
    draws: Seq<Draw>,
    n: int,
    p: int,
)
    requires
        0 <= n,
    ensures
        deletion::uncovered(record, draws, n).len() <= n,
        0 <= p < n && deletion::covered(draws, p) ==> deletion::uncovered(record, draws, n).len()
            < n,
    decreases n,
{
    if n > 0 {
        lemma_uncovered_length(record, draws, n - 1, p);
    }
}

proof fn lemma_uncovered_all(
    record: Seq<u64>,
    draws: Seq<Draw>,
    n: int,
)
    requires
        0 <= n <= record.len(),
        draws.len() == 0,
    ensures
        deletion::uncovered(record, draws, n) == record.take(n),
    decreases n,
{
    if n > 0 {
        lemma_uncovered_all(record, draws, n - 1);
        assert(record.take(n) =~= record.take(n - 1).push(record[n - 1]));
    } else {
        assert(record.take(n) =~= Seq::empty());
    }
}

/// Every result is counted once under its status, overflows not at all; and the last
/// interesting one is kept.
pub proof fn law_results_are_counted(main_loop: LoopModel, result: ResultModel, status: Status)
    requires
        main_loop.awaits_run(),
        main_loop.count_of(result.status) < u64::MAX,
    ensures
        main_loop.completed(result).count_of(status) == main_loop.count_of(status) + if status
            == result.status && !(status is Overflow) {
            1int
        } else {
            0int
        },
        main_loop.completed(result).best_example == if result.status is Interesting {
            Some(result)
        } else {
            main_loop.best_example
        },
        main_loop.completed(result).max_examples == main_loop.max_examples,
{
}

/// Tests are generated only while fewer of them were valid than allowed, fewer than ten
/// times as many invalid, and none interesting.
pub proof fn law_generation_is_bounded(main_loop: LoopModel)
    requires
        main_loop.wf(),
        main_loop.phase is Generating,
    ensures
        main_loop.valid_examples < main_loop.max_examples,
        main_loop.invalid_examples < 10 * main_loop.max_examples,
        main_loop.interesting_examples == 0,
        main_loop.best_example is None,
{
}

/// As long as no test was interesting, sources are random; from then on they are
/// recorded, and each is simpler than the simplest interesting record there is.
pub proof fn law_sources(main_loop: LoopModel)
    requires
        main_loop.wf(),
        main_loop.awaits_run(),
    ensures
        match main_loop.phase {
            PhaseModel::Generating(words) => {
                &&& main_loop.interesting_examples == 0
                &&& main_loop.command() == CommandModel::RunThis(
                    SourceModel::fresh(GeneratorModel::Random(words)),
                )
            },
            PhaseModel::Shrinking(shrinker) => {
                &&& main_loop.interesting_examples > 0
                &&& exists|attempt: Seq<u64>|
                    main_loop.command() == CommandModel::RunThis(
                        SourceModel::fresh(GeneratorModel::Recorded(attempt)),
                    ) && #[trigger] streams::simpler(attempt, shrinker.target.record)
            },
            _ => false,
        },
{
    match main_loop.phase {
        PhaseModel::Shrinking(shrinker) => {
            match shrinker.request()->0 {
                RequestModel::Run(attempt) => {
                    law_attempts_are_simpler(shrinker, attempt);
                },
                _ => {},
            }
        },
        _ => {},
    }
}

/// The loop ends for want of an interesting test exactly if there was none; the one that
/// it keeps is always interesting.
pub proof fn law_exit_reason(main_loop: LoopModel, reason: LoopExitReason)
    requires
        main_loop.wf(),
        main_loop.command() == CommandModel::Finished(reason),
    ensures
        reason is Complete <==> main_loop.interesting_examples > 0,
        reason is MaxExamples <==> main_loop.best_example is None,
        main_loop.best_example matches Some(result) ==> result.status is Interesting,
        reason is MaxExamples ==> main_loop.valid_examples >= main_loop.max_examples
            || main_loop.invalid_examples >= 10 * main_loop.max_examples,
{
}

/// As long as every interesting result is simpler than the target, as it is where tests
/// write nothing, the kept result is the target of the shrinker.
pub proof fn law_best_example_is_target(
    main_loop: LoopModel,
    shrinker: ShrinkerModel,
    result: ResultModel,
)
    requires
        main_loop.wf(),
        main_loop.phase == PhaseModel::Shrinking(shrinker),
        main_loop.best_example == Some(shrinker.target),
        main_loop.awaits_run(),
        main_loop.count_of(result.status) < u64::MAX,
        shrinker.changes < u64::MAX,
        result.wf(),
        result.status is Interesting ==> streams::simpler(result.record, shrinker.target.record),
    ensures
        main_loop.completed(result).best_example == Some(shrinker.completed(result).target),
{
    law_target_only_gets_simpler(shrinker, result);
}

/// When the first interesting result turns up, it is both kept and the target.
pub proof fn law_first_best_example(main_loop: LoopModel, result: ResultModel)
    requires
        main_loop.wf(),
        main_loop.phase is Generating,
        result.wf(),
        result.status is Interesting,
    ensures
        main_loop.completed(result).best_example == Some(result),
        ShrinkerModel::start(result).target == result,
{
    passes::lemma_start_wf(result);
}

/// Once an engine has noticed that its loop is over, this stays so, whatever is reported
/// to it: no further source is handed out, and what it tells of the outcome stays.
pub proof fn law_shutdown_stays(engine: EngineModel, source: SourceModel, status: Status)
    requires
        engine.wf(),
        engine.has_shutdown,
    ensures
        engine.state is ReadyToProvide ==> engine.may_provide(),
        engine.main_loop.command() is Finished,
        engine.next_source().has_shutdown,
        engine.next_source().main_loop == engine.main_loop,
        engine.mark_finished(source, status).has_shutdown,
        engine.mark_finished(source, status).main_loop == engine.main_loop,
        engine.mark_finished(source, status).best_record() == engine.best_record(),
        engine.next_source().best_record() == engine.best_record(),
{
}

/// An engine without a valid or interesting test has no test to run again; one that has
/// shut down has one exactly if a test was interesting.
pub proof fn law_unsatisfiable(engine: EngineModel)
    requires
        engine.wf(),
        engine.has_shutdown,
    ensures
        engine.main_loop.interesting_examples == 0 <==> engine.best_record() is None,
        engine.best_record() matches Some(record) ==> exists|result: ResultModel|
            result.status is Interesting && #[trigger] result.record == record
                && engine.main_loop.best_example == Some(result),
{
}

/// Sources and reports alternate: after a source has been asked for, a report is due, and
/// after a report the next source may be asked for, but for a search that is going on and
/// unless the loop has failed.
pub proof fn law_turns(engine: EngineModel, source: SourceModel, status: Status)
    requires
        engine.wf(),
        source.wf(),
        source.fits(),
    ensures
        engine.may_provide() ==> engine.next_source().state is AwaitingCompletion,
        engine.state is AwaitingCompletion ==> {
            let after = engine.mark_finished(source, status);
            after.may_provide() || after.main_loop.awaits_search()
                || after.main_loop.command() is Failed
        },
{
}

/// Two seeds whose first eight words are the same, missing words being zero, give the same
/// engine. Words past the eighth make no difference.
pub proof fn law_seed(max_examples: u64, seed: Seq<u32>, other: Seq<u32>)
    requires
        forall|i: int|
            #![trigger seed[i]]
            #![trigger other[i]]
            0 <= i < 8 ==> (if i < seed.len() {
                seed[i]
            } else {
                0
            }) == (if i < other.len() {
                other[i]
            } else {
                0
            }),
    ensures
        EngineModel::start(max_examples, seed) == EngineModel::start(max_examples, other),
{
    assert(random::seed_key(seed) =~= random::seed_key(other));
}

} // verus!
