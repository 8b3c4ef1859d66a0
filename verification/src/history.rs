//! What holds of an engine over a whole run, from its start to its end.

use vstd::prelude::*;

use crate::data;
use crate::data::{GeneratorModel, ResultModel, SourceModel, Status};
use crate::engine::EngineModel;
use crate::generation;
use crate::generation::{CommandModel, LoopCommand, LoopExitReason, LoopModel, PhaseModel};
use crate::laws;
use crate::lowering;
use crate::minimality;
use crate::passes;
use crate::passes::{CursorModel, Fault, RequestModel, ShrinkerModel};
use crate::random;
use crate::replay;
use crate::replay::Op;
use crate::streams;

verus! {

/// What is done with an engine.
pub enum Event {
    NextSource,
    MarkFinished(SourceModel, Status),
    Candidate(u64),
    Minimized(u64),
}

/// The event is one that the engine allows where it stands.
pub open spec fn may_happen(engine: EngineModel, event: Event) -> bool {
    match event {
        Event::NextSource => engine.may_provide(),
        Event::MarkFinished(source, status) => {
            &&& engine.state is AwaitingCompletion
            &&& source.wf()
            &&& source.fits()
            &&& source.may_finish(status)
        },
        Event::Candidate(_) => engine.main_loop.awaits_search(),
        Event::Minimized(_) => engine.main_loop.awaits_search(),
    }
}

/// The engine after the event.
pub open spec fn happened(engine: EngineModel, event: Event) -> EngineModel {
    match event {
        Event::NextSource => engine.next_source(),
        Event::MarkFinished(source, status) => engine.mark_finished(source, status),
        Event::Candidate(value) => EngineModel {
            main_loop: engine.main_loop.candidate(value),
            ..engine
        },
        Event::Minimized(value) => EngineModel {
            main_loop: engine.main_loop.minimized(value),
            ..engine
        },
    }
}

/// The engine after all of `events`.
pub open spec fn after(engine: EngineModel, events: Seq<Event>) -> EngineModel
    decreases events.len(),
{
    if events.len() == 0 {
        engine
    } else {
        happened(after(engine, events.drop_last()), events.last())
    }
}

/// Each of `events` is one that the engine allows where it then stands.
pub open spec fn allowed(engine: EngineModel, events: Seq<Event>) -> bool
    decreases events.len(),
{
    events.len() == 0 || (allowed(engine, events.drop_last()) && may_happen(
        after(engine, events.drop_last()),
        events.last(),
    ))
}

/// The results of the tests that were reported, in order. Once the engine has shut down it
/// asks for none, and what is reported then is not among them.
pub open spec fn reported(engine: EngineModel, events: Seq<Event>) -> Seq<ResultModel>
    decreases events.len(),
{
    if events.len() == 0 {
        Seq::empty()
    } else {
        let earlier = reported(engine, events.drop_last());
        match events.last() {
            Event::MarkFinished(source, status) => if after(
                engine,
                events.drop_last(),
            ).has_shutdown {
                earlier
            } else {
                earlier.push(source.result(status))
            },
            _ => earlier,
        }
    }
}

/// One of the results is interesting.
pub open spec fn any_interesting(results: Seq<ResultModel>) -> bool {
    exists|n: int| 0 <= n < results.len() && (#[trigger] results[n]).status is Interesting
}

/// None of the results that are interesting has a simpler record than `record`.
pub open spec fn none_simpler(results: Seq<ResultModel>, record: Seq<u64>) -> bool {
    forall|n: int|
        0 <= n < results.len() && (#[trigger] results[n]).status is Interesting
            ==> !streams::simpler(results[n].record, record)
}

/// `source` is what a test that writes nothing makes of the source that the engine handed
/// out.
pub open spec fn is_unwritten(engine: EngineModel, source: SourceModel) -> bool {
    exists|ops: Seq<Op>|
        #![trigger replay::writes_nothing(ops)]
        replay::writes_nothing(ops) && match engine.main_loop.command() {
            CommandModel::RunThis(handed_out) => source == replay::played(handed_out, ops),
            _ => false,
        }
}

/// Every test that was reported ran on the source that was handed out for it, and wrote
/// nothing.
pub open spec fn all_unwritten(engine: EngineModel, events: Seq<Event>) -> bool
    decreases events.len(),
{
    events.len() == 0 || (all_unwritten(engine, events.drop_last()) && match events.last() {
        Event::MarkFinished(source, _) => {
            let before = after(engine, events.drop_last());
            before.has_shutdown || is_unwritten(before, source)
        },
        _ => true,
    })
}

/// Every test that was run on recorded blocks was reported interesting if and only if it is
/// on those blocks.
pub open spec fn all_answered(
    engine: EngineModel,
    events: Seq<Event>,
    interesting: spec_fn(Seq<u64>) -> bool,
) -> bool
    decreases events.len(),
{
    events.len() == 0 || (all_answered(engine, events.drop_last(), interesting)
        && match events.last() {
        Event::MarkFinished(_, status) => match after(
            engine,
            events.drop_last(),
        ).main_loop.command() {
            CommandModel::RunThis(handed_out) => match handed_out.generator {
                GeneratorModel::Recorded(blocks) => status is Interesting <==> interesting(blocks),
                GeneratorModel::Random(_) => true,
            },
            _ => true,
        },
        _ => true,
    })
}

/// An event that is allowed keeps an engine well-formed.
proof fn lemma_event_wf(engine: EngineModel, event: Event)
    requires
        engine.wf(),
        may_happen(engine, event),
    ensures
        happened(engine, event).wf(),
        !(engine.main_loop.command() is Failed),
{
    match event {
        Event::MarkFinished(source, status) => {
            if !engine.has_shutdown {
                data::lemma_result_wf(source, status);
                generation::lemma_loop_completed_wf(engine.main_loop, source.result(status));
            }
        },
        Event::Candidate(value) => {
            generation::lemma_loop_search_wf(engine.main_loop, value);
        },
        Event::Minimized(value) => {
            generation::lemma_loop_search_wf(engine.main_loop, value);
        },
        _ => {},
    }
}

/// An engine stays well-formed whatever is done with it.
pub proof fn law_engines_stay_wf(max_examples: u64, seed: Seq<u32>, events: Seq<Event>)
    requires
        allowed(EngineModel::start(max_examples, seed), events),
    ensures
        after(EngineModel::start(max_examples, seed), events).wf(),
    decreases events.len(),
{
    if events.len() > 0 {
        law_engines_stay_wf(max_examples, seed, events.drop_last());
        lemma_event_wf(
            after(EngineModel::start(max_examples, seed), events.drop_last()),
            events.last(),
        );
    }
}

/// Unless the loop has failed, it keeps a result exactly if one was interesting, namely
/// one of those that were reported.
proof fn lemma_kept_if_interesting(max_examples: u64, seed: Seq<u32>, events: Seq<Event>)
    requires
        allowed(EngineModel::start(max_examples, seed), events),
    ensures
        ({
            let start = EngineModel::start(max_examples, seed);
            let main_loop = after(start, events).main_loop;
            main_loop.command() is Failed || {
                &&& main_loop.best_example is Some <==> any_interesting(reported(start, events))
                &&& main_loop.best_example matches Some(best) ==> reported(start, events).contains(
                    best,
                )
            }
        }),
    decreases events.len(),
{
    if events.len() > 0 {
        let start = EngineModel::start(max_examples, seed);
        let before = after(start, events.drop_last());
        let earlier = reported(start, events.drop_last());
        let results = reported(start, events);
        law_engines_stay_wf(max_examples, seed, events.drop_last());
        lemma_kept_if_interesting(max_examples, seed, events.drop_last());
        lemma_event_wf(before, events.last());
        match events.last() {
            Event::MarkFinished(source, status) => {
                if !before.has_shutdown {
                    let result = source.result(status);
                    assert(results[earlier.len() as int] == result);
                    assert forall|n: int| 0 <= n < earlier.len() implies #[trigger] results[n]
                        == earlier[n] by {}
                    if any_interesting(earlier) {
                        let n = choose|n: int|
                            0 <= n < earlier.len() && (
                            #[trigger] earlier[n]).status is Interesting;
                        assert(results[n].status is Interesting);
                    }
                    if before.main_loop.best_example is Some {
                        let best = before.main_loop.best_example->0;
                        let n = choose|n: int| 0 <= n < earlier.len() && earlier[n] == best;
                        assert(results[n] == best);
                    }
                }
            },
            _ => {},
        }
    }
}

/// An engine that has shut down has a test to run again exactly if an interesting test was
/// reported, and it is the record of one that was.
pub proof fn law_best_source_iff_interesting(
    max_examples: u64,
    seed: Seq<u32>,
    events: Seq<Event>,
)
    requires
        allowed(EngineModel::start(max_examples, seed), events),
        after(EngineModel::start(max_examples, seed), events).has_shutdown,
    ensures
        ({
            let start = EngineModel::start(max_examples, seed);
            let results = reported(start, events);
            &&& after(start, events).best_record() is Some <==> any_interesting(results)
            &&& after(start, events).best_record() matches Some(record) ==> exists|n: int|
                0 <= n < results.len() && (#[trigger] results[n]).status is Interesting
                    && results[n].record == record
        }),
{
    let start = EngineModel::start(max_examples, seed);
    law_engines_stay_wf(max_examples, seed, events);
    lemma_kept_if_interesting(max_examples, seed, events);
    if after(start, events).main_loop.best_example is Some {
        let best = after(start, events).main_loop.best_example->0;
        let results = reported(start, events);
        let n = choose|n: int| 0 <= n < results.len() && results[n] == best;
        assert(results[n].status is Interesting);
    }
}

/// If a test writes nothing, each of its interesting results is simpler than the target at
/// that time.
proof fn lemma_unwritten_is_simpler(
    engine: EngineModel,
    shrinker: ShrinkerModel,
    source: SourceModel,
)
    requires
        engine.wf(),
        engine.main_loop.phase == PhaseModel::Shrinking(shrinker),
        is_unwritten(engine, source),
    ensures
        streams::simpler(source.record, shrinker.target.record),
{
    let ops = choose|ops: Seq<Op>|
        #![trigger replay::writes_nothing(ops)]
        replay::writes_nothing(ops) && match engine.main_loop.command() {
            CommandModel::RunThis(handed_out) => source == replay::played(handed_out, ops),
            _ => false,
        };
    match shrinker.request()->0 {
        RequestModel::Run(attempt) => {
            laws::law_attempts_are_simpler(shrinker, attempt);
            replay::law_unwritten_record(attempt, ops);
            streams::law_simpler_is_an_order(source.record, attempt, shrinker.target.record);
        },
        _ => {},
    }
}

/// Unless the loop has failed, the kept result is the target, and none is simpler.
proof fn lemma_kept_is_simplest(max_examples: u64, seed: Seq<u32>, events: Seq<Event>)
    requires
        allowed(EngineModel::start(max_examples, seed), events),
        all_unwritten(EngineModel::start(max_examples, seed), events),
    ensures
        ({
            let start = EngineModel::start(max_examples, seed);
            let main_loop = after(start, events).main_loop;
            main_loop.command() is Failed || {
                &&& main_loop.best_example matches Some(best) ==> none_simpler(
                    reported(start, events),
                    best.record,
                )
                &&& main_loop.phase matches PhaseModel::Shrinking(shrinker)
                    ==> main_loop.best_example == Some(shrinker.target)
            }
        }),
    decreases events.len(),
{
    if events.len() > 0 {
        let start = EngineModel::start(max_examples, seed);
        let before = after(start, events.drop_last());
        let earlier = reported(start, events.drop_last());
        let results = reported(start, events);
        law_engines_stay_wf(max_examples, seed, events.drop_last());
        lemma_kept_if_interesting(max_examples, seed, events.drop_last());
        lemma_kept_is_simplest(max_examples, seed, events.drop_last());
        lemma_event_wf(before, events.last());
        match events.last() {
            Event::NextSource => {},
            Event::MarkFinished(source, status) => {
                if !before.has_shutdown {
                    let result = source.result(status);
                    data::lemma_result_wf(source, status);
                    streams::law_simpler_is_an_order(
                        result.record,
                        result.record,
                        result.record,
                    );
                    match before.main_loop.phase {
                        PhaseModel::Generating(_) => {
                            if status is Interesting {
                                laws::law_first_best_example(before.main_loop, result);
                                assert(!any_interesting(earlier));
                                assert forall|n: int|
                                    0 <= n < results.len() && (
                                    #[trigger] results[n]).status is Interesting implies !streams::simpler(
                                    results[n].record,
                                    result.record,
                                ) by {
                                    if n < earlier.len() {
                                        assert(earlier[n].status is Interesting);
                                    }
                                }
                            }
                        },
                        PhaseModel::Shrinking(shrinker) => {
                            lemma_unwritten_is_simpler(before, shrinker, source);
                            laws::law_target_only_gets_simpler(shrinker, result);
                            passes::lemma_completed_wf(shrinker, result);
                            assert forall|n: int|
                                0 <= n < results.len() && (
                                #[trigger] results[n]).status is Interesting && !(after(
                                    start,
                                    events,
                                ).main_loop.command() is Failed) implies !streams::simpler(
                                results[n].record,
                                after(start, events).main_loop.best_example->0.record,
                            ) by {
                                if n < earlier.len() {
                                    assert(earlier[n].status is Interesting);
                                    streams::law_simpler_is_an_order(
                                        earlier[n].record,
                                        result.record,
                                        shrinker.target.record,
                                    );
                                }
                            }
                        },
                        _ => {},
                    }
                }
            },
            Event::Candidate(value) => {
                let shrinker = before.main_loop.phase->Shrinking_0;
                laws::law_search_keeps_target(shrinker, value);
            },
            Event::Minimized(value) => {
                let shrinker = before.main_loop.phase->Shrinking_0;
                laws::law_search_keeps_target(shrinker, value);
            },
        }
    }
}

/// If the tests wrote nothing, the test that an engine has to run again when it has shut
/// down is the simplest that there was: of all interesting tests that were reported, none
/// has a simpler record.
pub proof fn law_best_source_is_simplest(max_examples: u64, seed: Seq<u32>, events: Seq<Event>)
    requires
        allowed(EngineModel::start(max_examples, seed), events),
        all_unwritten(EngineModel::start(max_examples, seed), events),
        after(EngineModel::start(max_examples, seed), events).has_shutdown,
    ensures
        ({
            let start = EngineModel::start(max_examples, seed);
            &&& after(start, events).best_record() is Some <==> any_interesting(
                reported(start, events),
            )
            &&& after(start, events).best_record() matches Some(record) ==> none_simpler(
                reported(start, events),
                record,
            )
        }),
{
    law_engines_stay_wf(max_examples, seed, events);
    law_best_source_iff_interesting(max_examples, seed, events);
    lemma_kept_is_simplest(max_examples, seed, events);
}

/// As far as shrinking has got, nothing that it tried in vain helps; and when it is done,
/// the kept result is minimal.
proof fn lemma_kept_is_minimal(
    max_examples: u64,
    seed: Seq<u32>,
    events: Seq<Event>,
    interesting: spec_fn(Seq<u64>) -> bool,
)
    requires
        allowed(EngineModel::start(max_examples, seed), events),
        all_unwritten(EngineModel::start(max_examples, seed), events),
        all_answered(EngineModel::start(max_examples, seed), events, interesting),
    ensures
        ({
            let main_loop = after(EngineModel::start(max_examples, seed), events).main_loop;
            match main_loop.phase {
                PhaseModel::Shrinking(shrinker) => minimality::in_vain(shrinker, interesting),
                PhaseModel::Finished(LoopExitReason::Complete) => {
                    main_loop.best_example matches Some(best) && minimality::minimal(
                        best,
                        interesting,
                    )
                },
                _ => true,
            }
        }),
    decreases events.len(),
{
    if events.len() > 0 {
        let start = EngineModel::start(max_examples, seed);
        let before = after(start, events.drop_last());
        law_engines_stay_wf(max_examples, seed, events.drop_last());
        lemma_kept_is_simplest(max_examples, seed, events.drop_last());
        lemma_kept_is_minimal(max_examples, seed, events.drop_last(), interesting);
        lemma_event_wf(before, events.last());
        match events.last() {
            Event::NextSource => {},
            Event::MarkFinished(source, status) => {
                if !before.has_shutdown {
                    let result = source.result(status);
                    data::lemma_result_wf(source, status);
                    match before.main_loop.phase {
                        PhaseModel::Generating(_) => {
                            if status is Interesting {
                                minimality::law_nothing_tried_at_start(result, interesting);
                            }
                        },
                        PhaseModel::Shrinking(shrinker) => {
                            lemma_unwritten_is_simpler(before, shrinker, source);
                            passes::lemma_completed_wf(shrinker, result);
                            minimality::law_runs_are_remembered(shrinker, result, interesting);
                            if after(start, events).main_loop.phase is Finished {
                                minimality::law_last_run_leaves_minimal(
                                    before.main_loop,
                                    shrinker,
                                    result,
                                    interesting,
                                );
                            }
                        },
                        _ => {},
                    }
                }
            },
            Event::Candidate(value) => {
                let shrinker = before.main_loop.phase->Shrinking_0;
                minimality::law_search_forgets_nothing(shrinker, value, interesting);
            },
            Event::Minimized(value) => {
                let shrinker = before.main_loop.phase->Shrinking_0;
                minimality::law_search_forgets_nothing(shrinker, value, interesting);
                if after(start, events).main_loop.phase is Finished {
                    minimality::law_last_search_leaves_minimal(
                        before.main_loop,
                        shrinker,
                        value,
                        interesting,
                    );
                }
            },
        }
    }
}

/// If the tests wrote nothing, and it is fixed on which blocks they are interesting, the
/// loop ends with an interesting result that no single step of a pass makes simpler, if
/// there was an interesting one at all.
pub proof fn law_best_source_is_minimal(
    max_examples: u64,
    seed: Seq<u32>,
    events: Seq<Event>,
    interesting: spec_fn(Seq<u64>) -> bool,
)
    requires
        allowed(EngineModel::start(max_examples, seed), events),
        all_unwritten(EngineModel::start(max_examples, seed), events),
        all_answered(EngineModel::start(max_examples, seed), events, interesting),
        after(EngineModel::start(max_examples, seed), events).has_shutdown,
    ensures
        ({
            let start = EngineModel::start(max_examples, seed);
            any_interesting(reported(start, events)) ==> {
                &&& after(start, events).main_loop.best_example matches Some(best)
                    && minimality::minimal(best, interesting)
                &&& after(start, events).best_record() == Some(
                    after(start, events).main_loop.best_example->0.record,
                )
            }
        }),
{
    law_engines_stay_wf(max_examples, seed, events);
    law_best_source_iff_interesting(max_examples, seed, events);
    lemma_kept_is_minimal(max_examples, seed, events, interesting);
}

/// The words that a seed stands for.
pub open spec fn words_of(seed: Seq<u32>) -> Map<nat, u32> {
    random::seeded_words(
        Seq::new(
            8,
            |i: int|
                if i < seed.len() {
                    seed[i]
                } else {
                    0
                },
        ),
    )
}

proof fn lemma_words_of(max_examples: u64, seed: Seq<u32>)
    ensures
        EngineModel::start(max_examples, seed).main_loop == LoopModel::start(
            max_examples,
            words_of(seed),
        ),
{
    assert(random::seed_key(seed) =~= Seq::new(
        8,
        |i: int|
            if i < seed.len() {
                seed[i]
            } else {
                0
            },
    ));
}

/// A search changes nothing but where the shrinker stands.
proof fn lemma_search_keeps(main_loop: LoopModel, value: u64)
    requires
        main_loop.wf(),
        main_loop.awaits_search(),
    ensures
        main_loop.phase is Shrinking,
        main_loop.candidate(value) == (LoopModel {
            phase: phase_at(main_loop.phase->Shrinking_0.candidate(value)),
            ..main_loop
        }),
        main_loop.minimized(value) == (LoopModel {
            phase: phase_at(main_loop.phase->Shrinking_0.minimized(value)),
            ..main_loop
        }),
{
}

/// What a report does to the loop, whatever its shrinker makes of it.
proof fn lemma_report(main_loop: LoopModel, result: ResultModel)
    requires
        main_loop.wf(),
        main_loop.awaits_run(),
    ensures
        ({
            let next = main_loop.completed(result);
            &&& next.max_examples == main_loop.max_examples
            &&& main_loop.phase is Generating || main_loop.phase is Shrinking
            &&& next.phase is Generating ==> {
                &&& main_loop.phase is Generating
                &&& next.phase == PhaseModel::Generating(random::split_words(main_loop.random))
                &&& next.random == random::words_from(main_loop.random, 8)
            }
            &&& next.phase is Failed || {
                &&& next.valid_examples == main_loop.valid_examples + if result.status is Valid {
                    1int
                } else {
                    0
                }
                &&& next.invalid_examples == main_loop.invalid_examples
                    + if result.status is Invalid {
                    1int
                } else {
                    0
                }
                &&& next.interesting_examples == main_loop.interesting_examples
                    + if result.status is Interesting {
                    1int
                } else {
                    0
                }
                &&& next.best_example == if result.status is Interesting {
                    Some(result)
                } else {
                    main_loop.best_example
                }
            }
            &&& main_loop.phase is Generating && !(result.status is Interesting) && 10
                * main_loop.max_examples <= u64::MAX && main_loop.valid_examples < u64::MAX
                && main_loop.invalid_examples < u64::MAX ==> if next.valid_examples
                < main_loop.max_examples && next.invalid_examples < 10 * main_loop.max_examples {
                next.phase is Generating
            } else {
                next.phase == PhaseModel::Finished(LoopExitReason::MaxExamples)
            } && !(next.phase is Failed)
        }),
{
}

/// The loop generates a test from the words behind those that `n` tests before it took.
spec fn uses_words(main_loop: LoopModel, all: Map<nat, u32>, n: nat) -> bool {
    main_loop.phase matches PhaseModel::Generating(words) ==> {
        &&& words == random::split_words(random::words_from(all, 8 * n))
        &&& main_loop.random == random::words_from(all, 8 * n + 8)
    }
}

proof fn lemma_event_uses_words(engine: EngineModel, event: Event, all: Map<nat, u32>, n: nat)
    requires
        engine.wf(),
        may_happen(engine, event),
        uses_words(engine.main_loop, all, n),
    ensures
        uses_words(
            happened(engine, event).main_loop,
            all,
            if event is MarkFinished && !engine.has_shutdown {
                n + 1
            } else {
                n
            },
        ),
{
    match event {
        Event::NextSource => {},
        Event::MarkFinished(source, status) => {
            if !engine.has_shutdown {
                lemma_report(engine.main_loop, source.result(status));
                assert(random::words_from(random::words_from(all, 8 * n + 8), 8)
                    =~= random::words_from(all, 8 * n + 16));
            }
        },
        Event::Candidate(value) => {
            lemma_search_keeps(engine.main_loop, value);
        },
        Event::Minimized(value) => {
            lemma_search_keeps(engine.main_loop, value);
        },
    }
}

/// Every source that is generated takes eight words of the engine's generator.
proof fn lemma_words_used(max_examples: u64, seed: Seq<u32>, events: Seq<Event>)
    requires
        allowed(EngineModel::start(max_examples, seed), events),
    ensures
        uses_words(
            after(EngineModel::start(max_examples, seed), events).main_loop,
            words_of(seed),
            reported(EngineModel::start(max_examples, seed), events).len(),
        ),
    decreases events.len(),
{
    let start = EngineModel::start(max_examples, seed);
    let all = words_of(seed);
    lemma_words_of(max_examples, seed);
    if events.len() > 0 {
        lemma_words_used(max_examples, seed, events.drop_last());
        law_engines_stay_wf(max_examples, seed, events.drop_last());
        lemma_event_uses_words(
            after(start, events.drop_last()),
            events.last(),
            all,
            reported(start, events.drop_last()).len(),
        );
    } else {
        assert(random::words_from(all, 0) =~= all);
    }
}

/// Each random source is made of words of its own: the one that is handed out when `n` tests
/// have been reported is seeded with the eight words that follow the first `8 * n` of those
/// that the engine's seed stands for, whatever was reported of the tests before it.
pub proof fn law_generated_sources(max_examples: u64, seed: Seq<u32>, events: Seq<Event>)
    requires
        allowed(EngineModel::start(max_examples, seed), events),
        after(EngineModel::start(max_examples, seed), events).main_loop.phase is Generating,
    ensures
        ({
            let start = EngineModel::start(max_examples, seed);
            let n = reported(start, events).len();
            let all = words_of(seed);
            let behind = random::words_from(all, 8 * n);
            let key = Seq::new(8, |i: int| behind[i as nat]);
            &&& after(start, events).main_loop.command() == CommandModel::RunThis(
                SourceModel::fresh(GeneratorModel::Random(random::seeded_words(key))),
            )
            &&& forall|i: int|
                0 <= i < 8 && all.dom().contains((8 * n + i) as nat) ==> #[trigger] key[i] == all[(8
                    * n + i) as nat]
        }),
{
    let start = EngineModel::start(max_examples, seed);
    let n = reported(start, events).len();
    let all = words_of(seed);
    let behind = random::words_from(all, 8 * n);
    let key = Seq::new(8, |i: int| behind[i as nat]);
    lemma_words_used(max_examples, seed, events);
    assert(random::split_words(behind) == random::seeded_words(key)) by {
        assert(Seq::new(8, |i: int| behind[i as nat]) =~= key);
    }
    assert forall|i: int| 0 <= i < 8 && all.dom().contains((8 * n + i) as nat) implies
        #[trigger] key[i] == all[(8 * n + i) as nat] by {
        assert((i as nat) + 8 * n == (8 * n + i) as nat);
    }
}

/// How many of the results have this status.
pub open spec fn count(results: Seq<ResultModel>, status: Status) -> nat
    decreases results.len(),
{
    if results.len() == 0 {
        0
    } else if results.last().status == status {
        count(results.drop_last(), status) + 1
    } else {
        count(results.drop_last(), status)
    }
}

proof fn lemma_count(results: Seq<ResultModel>, status: Status)
    ensures
        count(results, status) <= results.len(),
        count(results, status) > 0 <==> exists|n: int|
            0 <= n < results.len() && (#[trigger] results[n]).status == status,
    decreases results.len(),
{
    if results.len() > 0 {
        lemma_count(results.drop_last(), status);
        if exists|n: int| 0 <= n < results.len() && (#[trigger] results[n]).status == status {
            let n = choose|n: int|
                0 <= n < results.len() && (#[trigger] results[n]).status == status;
            if n < results.len() - 1 {
                assert(results.drop_last()[n].status == status);
            }
        }
        if count(results.drop_last(), status) > 0 {
            let n = choose|n: int|
                0 <= n < results.drop_last().len() && (#[trigger] results.drop_last()[n]).status
                    == status;
            assert(results[n].status == status);
        }
        if results.last().status == status {
            assert(results[results.len() - 1].status == status);
        }
    }
}

/// The last of the results that is interesting.
pub open spec fn latest_interesting(results: Seq<ResultModel>) -> Option<ResultModel>
    decreases results.len(),
{
    if results.len() == 0 {
        None
    } else if results.last().status is Interesting {
        Some(results.last())
    } else {
        latest_interesting(results.drop_last())
    }
}

/// What the loop has counted and kept is what was reported, and it generates tests until
/// enough were.
spec fn has_counted(
    main_loop: LoopModel,
    max_examples: u64,
    results: Seq<ResultModel>,
) -> bool {
    &&& main_loop.max_examples == max_examples
    &&& main_loop.phase is Failed || {
        &&& main_loop.valid_examples == count(results, Status::Valid)
        &&& main_loop.invalid_examples == count(results, Status::Invalid)
        &&& main_loop.interesting_examples == count(results, Status::Interesting)
        &&& main_loop.best_example == latest_interesting(results)
    }
    &&& count(results, Status::Interesting) == 0 && 10 * max_examples <= u64::MAX && results.len()
        < u64::MAX ==> if count(results, Status::Valid) < max_examples && count(
        results,
        Status::Invalid,
    ) < 10 * max_examples {
        main_loop.phase is Generating
    } else {
        main_loop.phase == PhaseModel::Finished(LoopExitReason::MaxExamples)
    }
}

proof fn lemma_event_has_counted(
    engine: EngineModel,
    event: Event,
    max_examples: u64,
    results: Seq<ResultModel>,
)
    requires
        engine.wf(),
        may_happen(engine, event),
        has_counted(engine.main_loop, max_examples, results),
    ensures
        has_counted(
            happened(engine, event).main_loop,
            max_examples,
            match event {
                Event::MarkFinished(source, status) => if engine.has_shutdown {
                    results
                } else {
                    results.push(source.result(status))
                },
                _ => results,
            },
        ),
{
    match event {
        Event::NextSource => {},
        Event::MarkFinished(source, status) => {
            if !engine.has_shutdown {
                let result = source.result(status);
                lemma_report(engine.main_loop, result);
                assert(results.push(result).drop_last() =~= results);
                lemma_count(results, Status::Valid);
                lemma_count(results, Status::Invalid);
                lemma_count(results, Status::Interesting);
            }
        },
        Event::Candidate(value) => {
            lemma_search_keeps(engine.main_loop, value);
        },
        Event::Minimized(value) => {
            lemma_search_keeps(engine.main_loop, value);
        },
    }
}

proof fn lemma_counts(max_examples: u64, seed: Seq<u32>, events: Seq<Event>)
    requires
        allowed(EngineModel::start(max_examples, seed), events),
    ensures
        has_counted(
            after(EngineModel::start(max_examples, seed), events).main_loop,
            max_examples,
            reported(EngineModel::start(max_examples, seed), events),
        ),
    decreases events.len(),
{
    let start = EngineModel::start(max_examples, seed);
    if events.len() > 0 {
        lemma_counts(max_examples, seed, events.drop_last());
        law_engines_stay_wf(max_examples, seed, events.drop_last());
        lemma_event_has_counted(
            after(start, events.drop_last()),
            events.last(),
            max_examples,
            reported(start, events.drop_last()),
        );
    }
}

/// As long as no test was interesting, tests are generated until `max_examples` of those that
/// were reported were valid, or ten times as many invalid, and not longer. Tests that ran out
/// of data do not count.
pub proof fn law_generation_goes_on(max_examples: u64, seed: Seq<u32>, events: Seq<Event>)
    requires
        allowed(EngineModel::start(max_examples, seed), events),
        !any_interesting(reported(EngineModel::start(max_examples, seed), events)),
        10 * max_examples <= u64::MAX,
        reported(EngineModel::start(max_examples, seed), events).len() < u64::MAX,
    ensures
        ({
            let start = EngineModel::start(max_examples, seed);
            let main_loop = after(start, events).main_loop;
            let results = reported(start, events);
            if count(results, Status::Valid) < max_examples && count(results, Status::Invalid) < 10
                * max_examples {
                main_loop.command() matches CommandModel::RunThis(source)
                    && source.generator is Random
            } else {
                main_loop.command() == CommandModel::Finished(LoopExitReason::MaxExamples)
            }
        }),
{
    let start = EngineModel::start(max_examples, seed);
    lemma_counts(max_examples, seed, events);
    lemma_count(reported(start, events), Status::Interesting);
    if count(reported(start, events), Status::Interesting) > 0 {
        let results = reported(start, events);
        let n = choose|n: int|
            0 <= n < results.len() && (#[trigger] results[n]).status == Status::Interesting;
        assert(results[n].status is Interesting);
    }
}

/// An engine that has shut down tells of the tests that were reported: it was unsatisfiable
/// if and only if none of them was valid or interesting, and the test that it has to run
/// again is the latest that was interesting.
pub proof fn law_what_engine_tells(max_examples: u64, seed: Seq<u32>, events: Seq<Event>)
    requires
        allowed(EngineModel::start(max_examples, seed), events),
    ensures
        ({
            let start = EngineModel::start(max_examples, seed);
            let engine = after(start, events);
            let results = reported(start, events);
            if engine.has_shutdown {
                &&& (engine.main_loop.interesting_examples == 0 && engine.main_loop.valid_examples
                    == 0) <==> forall|n: int|
                    0 <= n < results.len() ==> (#[trigger] results[n]).status == Status::Invalid
                        || results[n].status == Status::Overflow
                &&& match latest_interesting(results) {
                    Some(result) => engine.best_record() == Some(result.record),
                    None => engine.best_record() is None,
                }
            } else {
                engine.best_record() is None
            }
        }),
{
    let start = EngineModel::start(max_examples, seed);
    let results = reported(start, events);
    law_engines_stay_wf(max_examples, seed, events);
    lemma_counts(max_examples, seed, events);
    lemma_count(results, Status::Valid);
    lemma_count(results, Status::Interesting);
}

/// An engine starts with nothing reported and nothing kept, ready for the first source. If
/// ten times `max_examples` cannot be counted to, its loop fails at once.
pub proof fn law_engine_start(max_examples: u64, seed: Seq<u32>)
    ensures
        ({
            let start = EngineModel::start(max_examples, seed);
            &&& start.state is ReadyToProvide
            &&& !start.has_shutdown
            &&& start.main_loop.max_examples == max_examples
            &&& start.main_loop.valid_examples == 0
            &&& start.main_loop.invalid_examples == 0
            &&& start.main_loop.interesting_examples == 0
            &&& start.main_loop.best_example is None
            &&& 10 * max_examples > u64::MAX ==> start.main_loop.phase == PhaseModel::Failed(
                Fault::Overflow,
            )
            &&& max_examples == 0 ==> start.main_loop.phase == PhaseModel::Finished(
                LoopExitReason::MaxExamples,
            )
            &&& 0 < 10 * max_examples <= u64::MAX ==> start.main_loop.phase is Generating
        }),
{
}

/// After a report the next source may be asked for, as soon as no search is going on; a
/// search changes nothing about whose turn it is.
pub proof fn law_whose_turn(engine: EngineModel, source: SourceModel, status: Status, value: u64)
    ensures
        engine.mark_finished(source, status).state is ReadyToProvide,
        engine.next_source().state is AwaitingCompletion,
        happened(engine, Event::Candidate(value)).state == engine.state,
        happened(engine, Event::Minimized(value)).state == engine.state,
        engine.may_provide() <==> engine.state is ReadyToProvide && (
        engine.main_loop.command() is RunThis || engine.main_loop.command() is Finished),
{
}

/// A loop that is over, or has failed, says so and why; and counts are asked for by status.
pub proof fn law_loop_tells(main_loop: LoopModel)
    ensures
        main_loop.phase matches PhaseModel::Finished(reason) ==> main_loop.command()
            == CommandModel::Finished(reason),
        main_loop.phase matches PhaseModel::Failed(fault) ==> main_loop.command()
            == CommandModel::Failed(fault),
        main_loop.count_of(Status::Overflow) == 0,
        main_loop.count_of(Status::Invalid) == main_loop.invalid_examples,
        main_loop.count_of(Status::Valid) == main_loop.valid_examples,
        main_loop.count_of(Status::Interesting) == main_loop.interesting_examples,
{
}

/// A command is what its model says.
pub proof fn law_command_view(command: LoopCommand)
    ensures
        match command {
            LoopCommand::RunThis(source) => command@ == CommandModel::RunThis(source@),
            LoopCommand::Minimize(start) => command@ == CommandModel::Minimize(start),
            LoopCommand::Answer(answer) => command@ == CommandModel::Answer(answer),
            LoopCommand::Finished(reason) => command@ == CommandModel::Finished(reason),
            LoopCommand::Failed(fault) => command@ == CommandModel::Failed(fault),
        },
{
}

/// Asking for a source makes the engine notice that its loop is over, exactly if it is; and
/// nothing but a report, or the search, makes the loop go on.
pub proof fn law_asking_for_sources(engine: EngineModel)
    requires
        engine.wf(),
        engine.may_provide(),
    ensures
        engine.next_source().has_shutdown <==> engine.main_loop.phase is Finished,
        engine.next_source().main_loop == engine.main_loop,
{
}

/// While it shrinks, the loop passes on what its shrinker asks for. A run is asked for on a
/// source that holds just the blocks of the attempt.
pub proof fn law_loop_asks_for_shrinker(main_loop: LoopModel, shrinker: ShrinkerModel)
    requires
        main_loop.wf(),
        main_loop.phase == PhaseModel::Shrinking(shrinker),
    ensures
        match shrinker.request() {
            Some(RequestModel::Run(attempt)) => main_loop.command() matches CommandModel::RunThis(
                source,
            ) && source.generator == GeneratorModel::Recorded(attempt) && source.record.len() == 0
                && source.draws.len() == 0 && source.sizes.len() == 0,
            Some(RequestModel::Minimize(start)) => main_loop.command() == CommandModel::Minimize(
                start,
            ),
            Some(RequestModel::Answer(answer)) => main_loop.command() == CommandModel::Answer(
                answer,
            ),
            None => false,
        },
{
}

/// The phase of a loop whose shrinker stands at `shrinker`.
pub open spec fn phase_at(shrinker: ShrinkerModel) -> PhaseModel {
    match shrinker.cursor {
        CursorModel::Complete => PhaseModel::Finished(LoopExitReason::Complete),
        CursorModel::Failed(fault) => PhaseModel::Failed(fault),
        _ => PhaseModel::Shrinking(shrinker),
    }
}

/// Shrinking starts with the first interesting result, and what is reported to the loop or
/// found by the search from then on is handed to the shrinker.
pub proof fn law_loop_shrinks(main_loop: LoopModel, result: ResultModel, value: u64)
    requires
        main_loop.wf(),
        result.wf(),
        main_loop.valid_examples < u64::MAX,
        main_loop.invalid_examples < u64::MAX,
        main_loop.interesting_examples < u64::MAX,
    ensures
        main_loop.phase is Generating && result.status is Interesting ==> main_loop.completed(
            result,
        ).phase == phase_at(ShrinkerModel::start(result)),
        main_loop.phase matches PhaseModel::Shrinking(shrinker) ==> {
            &&& main_loop.completed(result).phase == phase_at(shrinker.completed(result))
            &&& main_loop.candidate(value).phase == phase_at(shrinker.candidate(value))
            &&& main_loop.minimized(value).phase == phase_at(shrinker.minimized(value))
            &&& main_loop.candidate(value) == (LoopModel {
                phase: main_loop.candidate(value).phase,
                ..main_loop
            })
            &&& main_loop.minimized(value) == (LoopModel {
                phase: main_loop.minimized(value).phase,
                ..main_loop
            })
        },
{
}

/// Every test that was run on recorded blocks left as many blocks on record as `left` says.
pub open spec fn all_left(
    engine: EngineModel,
    events: Seq<Event>,
    left: spec_fn(Seq<u64>) -> nat,
) -> bool
    decreases events.len(),
{
    events.len() == 0 || (all_left(engine, events.drop_last(), left) && match events.last() {
        Event::MarkFinished(source, _) => match after(
            engine,
            events.drop_last(),
        ).main_loop.command() {
            CommandModel::RunThis(handed_out) => match handed_out.generator {
                GeneratorModel::Recorded(blocks) => source.record.len() == left(blocks),
                GeneratorModel::Random(_) => true,
            },
            _ => true,
        },
        _ => true,
    })
}

/// As far as shrinking has got, no draw that was left out in vain helps; and when it is done,
/// the kept result keeps its draws.
spec fn keeps_draws(
    main_loop: LoopModel,
    interesting: spec_fn(Seq<u64>) -> bool,
    left: spec_fn(Seq<u64>) -> nat,
) -> bool {
    match main_loop.phase {
        PhaseModel::Shrinking(shrinker) => lowering::in_vain(shrinker, interesting, left),
        PhaseModel::Finished(LoopExitReason::Complete) => {
            main_loop.best_example matches Some(best) && lowering::blocks_keep_draws(
                best,
                best.record.len() as int,
                interesting,
                left,
            )
        },
        _ => true,
    }
}

proof fn lemma_first_keeps_draws(
    main_loop: LoopModel,
    result: ResultModel,
    interesting: spec_fn(Seq<u64>) -> bool,
    left: spec_fn(Seq<u64>) -> nat,
)
    requires
        main_loop.wf(),
        main_loop.phase is Generating,
        result.wf(),
    ensures
        keeps_draws(main_loop.completed(result), interesting, left),
{
    if result.status is Interesting {
        lowering::law_nothing_left_out_at_start(result, interesting, left);
        laws::law_first_best_example(main_loop, result);
    }
    lemma_report(main_loop, result);
}

proof fn lemma_run_keeps_draws(
    main_loop: LoopModel,
    shrinker: ShrinkerModel,
    result: ResultModel,
    interesting: spec_fn(Seq<u64>) -> bool,
    left: spec_fn(Seq<u64>) -> nat,
)
    requires
        main_loop.wf(),
        main_loop.awaits_run(),
        main_loop.phase == PhaseModel::Shrinking(shrinker),
        main_loop.best_example == Some(shrinker.target),
        keeps_draws(main_loop, interesting, left),
        result.wf(),
        minimality::answers(shrinker, result, interesting),
        shrinker.request() matches Some(RequestModel::Run(attempt)) ==> result.record.len() == left(
            attempt,
        ),
    ensures
        keeps_draws(main_loop.completed(result), interesting, left),
{
    let next = shrinker.completed(result);
    lowering::law_left_out_draws_are_remembered(shrinker, result, interesting, left);
    laws::law_target_only_gets_simpler(shrinker, result);
    passes::lemma_completed_wf(shrinker, result);
    lemma_report(main_loop, result);
    assert(main_loop.completed(result).phase is Failed || main_loop.completed(result).phase
        == phase_at(next));
}

proof fn lemma_search_keeps_draws(
    main_loop: LoopModel,
    value: u64,
    interesting: spec_fn(Seq<u64>) -> bool,
    left: spec_fn(Seq<u64>) -> nat,
)
    requires
        main_loop.wf(),
        main_loop.awaits_search(),
        main_loop.phase matches PhaseModel::Shrinking(shrinker) ==> main_loop.best_example == Some(
            shrinker.target,
        ),
        keeps_draws(main_loop, interesting, left),
    ensures
        keeps_draws(main_loop.candidate(value), interesting, left),
        keeps_draws(main_loop.minimized(value), interesting, left),
{
    lemma_search_keeps(main_loop, value);
    let shrinker = main_loop.phase->Shrinking_0;
    lowering::law_search_forgets_no_draw(shrinker, value, interesting, left);
    laws::law_search_keeps_target(shrinker, value);
    passes::lemma_candidate_wf(shrinker, value);
    passes::lemma_minimized_wf(shrinker, value);
}

proof fn lemma_kept_keeps_draws(
    max_examples: u64,
    seed: Seq<u32>,
    events: Seq<Event>,
    interesting: spec_fn(Seq<u64>) -> bool,
    left: spec_fn(Seq<u64>) -> nat,
)
    requires
        allowed(EngineModel::start(max_examples, seed), events),
        all_unwritten(EngineModel::start(max_examples, seed), events),
        all_answered(EngineModel::start(max_examples, seed), events, interesting),
        all_left(EngineModel::start(max_examples, seed), events, left),
    ensures
        keeps_draws(
            after(EngineModel::start(max_examples, seed), events).main_loop,
            interesting,
            left,
        ),
    decreases events.len(),
{
    if events.len() > 0 {
        let start = EngineModel::start(max_examples, seed);
        let before = after(start, events.drop_last());
        law_engines_stay_wf(max_examples, seed, events.drop_last());
        lemma_kept_is_simplest(max_examples, seed, events.drop_last());
        lemma_kept_keeps_draws(max_examples, seed, events.drop_last(), interesting, left);
        lemma_not_failed(before, events.last());
        match events.last() {
            Event::NextSource => {},
            Event::MarkFinished(source, status) => {
                if !before.has_shutdown {
                    let result = source.result(status);
                    data::lemma_result_wf(source, status);
                    match before.main_loop.phase {
                        PhaseModel::Generating(_) => {
                            lemma_first_keeps_draws(before.main_loop, result, interesting, left);
                        },
                        PhaseModel::Shrinking(shrinker) => {
                            lemma_unwritten_is_simpler(before, shrinker, source);
                            lemma_run_keeps_draws(
                                before.main_loop,
                                shrinker,
                                result,
                                interesting,
                                left,
                            );
                        },
                        _ => {},
                    }
                }
            },
            Event::Candidate(value) => {
                lemma_search_keeps_draws(before.main_loop, value, interesting, left);
            },
            Event::Minimized(value) => {
                lemma_search_keeps_draws(before.main_loop, value, interesting, left);
            },
        }
    }
}

/// Nothing can be done with an engine whose loop has failed.
proof fn lemma_not_failed(engine: EngineModel, event: Event)
    requires
        engine.wf(),
        may_happen(engine, event),
    ensures
        !(engine.main_loop.phase is Failed),
        !(engine.main_loop.command() is Failed),
{
}

/// If the tests wrote nothing, and it is fixed on which blocks they are interesting and how
/// many they leave, no block of the result that the loop ends with can be lowered by one
/// along with the deletion of a draw behind it, where lowering it makes the test read fewer
/// blocks.
pub proof fn law_best_source_keeps_draws(
    max_examples: u64,
    seed: Seq<u32>,
    events: Seq<Event>,
    interesting: spec_fn(Seq<u64>) -> bool,
    left: spec_fn(Seq<u64>) -> nat,
    p: int,
    d: int,
)
    requires
        allowed(EngineModel::start(max_examples, seed), events),
        all_unwritten(EngineModel::start(max_examples, seed), events),
        all_answered(EngineModel::start(max_examples, seed), events, interesting),
        all_left(EngineModel::start(max_examples, seed), events, left),
        after(EngineModel::start(max_examples, seed), events).has_shutdown,
    ensures
        ({
            let engine = after(EngineModel::start(max_examples, seed), events);
            engine.main_loop.best_example matches Some(best) ==> {
                let record = best.record;
                let lowered = record.update(p, (record[p] - 1) as u64);
                let draw = best.draws[d];
                let attempt = lowered.take(draw.start as int) + lowered.skip(draw.end as int);
                &&& engine.best_record() == Some(record)
                &&& 0 <= p < draw.start && 0 <= d < best.draws.len() && record[p] > 0 && left(
                    lowered,
                ) < record.len() ==> attempt.is_prefix_of(record) || !interesting(attempt)
            }
        }),
{
    let start = EngineModel::start(max_examples, seed);
    let engine = after(start, events);
    law_engines_stay_wf(max_examples, seed, events);
    lemma_kept_keeps_draws(max_examples, seed, events, interesting, left);
    lemma_kept_wf(max_examples, seed, events);
    if engine.main_loop.best_example is Some {
        let best = engine.main_loop.best_example->0;
        lowering::lemma_block_keeps_draw(best, interesting, left, p, d);
    }
}

/// The kept result is well-formed.
proof fn lemma_kept_wf(max_examples: u64, seed: Seq<u32>, events: Seq<Event>)
    requires
        allowed(EngineModel::start(max_examples, seed), events),
    ensures
        after(EngineModel::start(max_examples, seed), events).main_loop.best_example matches Some(
            best,
        ) ==> best.wf(),
    decreases events.len(),
{
    if events.len() > 0 {
        lemma_kept_wf(max_examples, seed, events.drop_last());
        match events.last() {
            Event::MarkFinished(source, status) => {
                data::lemma_result_wf(source, status);
            },
            _ => {},
        }
    }
}

} // verus!
