//! The engine, which hands out the sources that a test is to be run on.

use vstd::prelude::*;

use crate::data::{DataSource, GeneratorModel, SourceModel, Status};
use crate::generation;
use crate::generation::{CommandModel, LoopCommand, LoopModel, MainGenerationLoop};
use crate::passes::Fault;
use crate::random;
use crate::streams;

verus! {

/// Whose turn it is.
#[derive(Debug, Clone, Copy, PartialEq, Eq, Structural)]
pub enum EngineState {
    /// A test is being run.
    AwaitingCompletion,
    /// The next source can be asked for.
    ReadyToProvide,
}

/// What the search for a lower value is told.
#[derive(Debug, Clone, Copy, PartialEq, Eq, Structural)]
pub enum SearchStep {
    /// Start from this value and search downwards.
    Start(u64),
    /// The value that was proposed will do, or it will not.
    Answer(bool),
}

/// Hands out the sources that a test is to be run on, and takes in what came of it.
///
/// The engine leaves one thing to its owner: the search for the lowest value of a block
/// that keeps a test interesting. While [`search_step`](Engine::search_step) gives a
/// step, the owner answers it by [`candidate`](Engine::candidate) or
/// [`minimized`](Engine::minimized).
#[derive(Debug)]
pub struct Engine {
    main_loop: MainGenerationLoop,
    state: EngineState,
    has_shutdown: bool,
}

/// The model of an engine.
pub struct EngineModel {
    pub main_loop: LoopModel,
    pub state: EngineState,
    /// It has been noticed that the loop is over.
    pub has_shutdown: bool,
}

impl View for Engine {
    type V = EngineModel;

    closed spec fn view(&self) -> EngineModel {
        EngineModel {
            main_loop: self.main_loop@,
            state: self.state,
            has_shutdown: self.has_shutdown,
        }
    }
}

impl EngineModel {
    /// The engine at its start.
    pub open spec fn start(max_examples: u64, seed: Seq<u32>) -> EngineModel {
        EngineModel {
            main_loop: LoopModel::start(
                max_examples,
                random::seeded_words(random::seed_key(seed)),
            ),
            state: EngineState::ReadyToProvide,
            has_shutdown: false,
        }
    }

    /// What holds of every engine: while a test is being run, the loop waits for it,
    /// unless the loop is over; and once that has been noticed, it stays over.
    pub open spec fn wf(self) -> bool {
        &&& self.main_loop.wf()
        &&& self.has_shutdown ==> self.main_loop.command() is Finished
        &&& self.state is AwaitingCompletion ==> self.has_shutdown || self.main_loop.awaits_run()
    }

    /// The next source can be asked for: no test is being run, no search is going on,
    /// and the loop has not failed.
    pub open spec fn may_provide(self) -> bool {
        &&& self.state is ReadyToProvide
        &&& self.main_loop.command() is RunThis || self.main_loop.command() is Finished
    }

    /// The engine after the next source has been asked for.
    pub open spec fn next_source(self) -> EngineModel {
        EngineModel {
            main_loop: self.main_loop,
            state: EngineState::AwaitingCompletion,
            has_shutdown: self.main_loop.command() is Finished,
        }
    }

    /// The engine after a test was run on `source` with that status.
    pub open spec fn mark_finished(self, source: SourceModel, status: Status) -> EngineModel {
        EngineModel {
            main_loop: if self.has_shutdown {
                self.main_loop
            } else {
                self.main_loop.completed(source.result(status))
            },
            state: EngineState::ReadyToProvide,
            has_shutdown: self.has_shutdown,
        }
    }

    /// The record of the interesting test that is left in the end, if there is one.
    pub open spec fn best_record(self) -> Option<Seq<u64>> {
        if self.has_shutdown {
            match self.main_loop.best_example {
                Some(result) => Some(result.record),
                None => None,
            }
        } else {
            None
        }
    }
}

impl Engine {
    /// An engine that runs until `max_examples` tests were valid, or ten times as many
    /// invalid, or one was interesting and has been shrunk. The seed fixes its choices.
    pub fn new(max_examples: u64, seed: &[u32]) -> (engine: Engine)
        ensures
            engine@ == EngineModel::start(max_examples, seed@),
            engine@.wf(),
    {
        Engine {
            main_loop: MainGenerationLoop::new(max_examples, seed),
            state: EngineState::ReadyToProvide,
            has_shutdown: false,
        }
    }

    /// Takes in what came of the test that was run on `source`.
    pub fn mark_finished(&mut self, source: DataSource, status: Status)
        requires
            old(self)@.wf(),
            old(self)@.state is AwaitingCompletion,
            source.wf(),
            source@.may_finish(status),
        ensures
            final(self)@ == old(self)@.mark_finished(source@, status),
            final(self)@.wf(),
    {
        let result = source.to_result(status);
        proof {
            if !self.has_shutdown {
                generation::lemma_loop_completed_wf(self.main_loop@, result@);
            }
        }
        self.state = EngineState::ReadyToProvide;
        if self.has_shutdown {
            return ;
        }
        self.main_loop.completed(result);
    }

    /// The source that the test is to be run on next; none if the loop is over.
    pub fn next_source(&mut self) -> (source: Option<DataSource>)
        requires
            old(self)@.wf(),
            old(self)@.may_provide(),
        ensures
            final(self)@ == old(self)@.next_source(),
            final(self)@.wf(),
            match source {
                Some(source) => {
                    &&& source.wf()
                    &&& old(self)@.main_loop.command() == CommandModel::RunThis(source@)
                },
                None => old(self)@.main_loop.command() is Finished,
            },
    {
        self.state = EngineState::AwaitingCompletion;
        match self.main_loop.command() {
            LoopCommand::RunThis(source) => Some(source),
            _ => {
                self.has_shutdown = true;
                None
            },
        }
    }

    /// Once the loop is over, the interesting test that is left, to be run again.
    pub fn best_source(&self) -> (source: Option<DataSource>)
        ensures
            match source {
                Some(source) => {
                    &&& source.wf()
                    &&& self@.best_record() is Some
                    &&& source@ == SourceModel::fresh(
                        GeneratorModel::Recorded(self@.best_record()->0),
                    )
                },
                None => self@.best_record() is None,
            },
    {
        if !self.has_shutdown {
            return None;
        }
        match self.main_loop.best_record() {
            Some(record) => Some(DataSource::from_vec(streams::copy_of(record))),
            None => None,
        }
    }

    /// Whether the loop is over, and no test was valid or interesting.
    pub fn was_unsatisfiable(&self) -> (unsatisfiable: bool)
        ensures
            unsatisfiable == (self@.has_shutdown && self@.main_loop.interesting_examples == 0
                && self@.main_loop.valid_examples == 0),
    {
        self.has_shutdown && self.main_loop.count_of(Status::Interesting) == 0
            && self.main_loop.count_of(Status::Valid) == 0
    }

    /// Whose turn it is.
    pub fn state(&self) -> (state: EngineState)
        ensures
            state == self@.state,
    {
        self.state
    }

    /// Why the loop cannot go on, if it has failed.
    pub fn failure(&self) -> (failure: Option<Fault>)
        requires
            self@.wf(),
        ensures
            failure == (match self@.main_loop.command() {
                CommandModel::Failed(fault) => Some(fault),
                _ => None,
            }),
    {
        match self.main_loop.command() {
            LoopCommand::Failed(fault) => Some(fault),
            _ => None,
        }
    }

    /// What the search for a lower value is told, if one is going on.
    pub fn search_step(&self) -> (step: Option<SearchStep>)
        requires
            self@.wf(),
        ensures
            step == (match self@.main_loop.command() {
                CommandModel::Minimize(start) => Some(SearchStep::Start(start)),
                CommandModel::Answer(answer) => Some(SearchStep::Answer(answer)),
                _ => None,
            }),
    {
        match self.main_loop.command() {
            LoopCommand::Minimize(start) => Some(SearchStep::Start(start)),
            LoopCommand::Answer(answer) => Some(SearchStep::Answer(answer)),
            _ => None,
        }
    }

    /// Takes in a value that the search proposes.
    pub fn candidate(&mut self, value: u64)
        requires
            old(self)@.wf(),
            old(self)@.main_loop.awaits_search(),
        ensures
            final(self)@ == (EngineModel {
                main_loop: old(self)@.main_loop.candidate(value),
                ..old(self)@
            }),
            final(self)@.wf(),
    {
        self.main_loop.candidate(value);
    }

    /// Takes in the value with which the search ends.
    pub fn minimized(&mut self, value: u64)
        requires
            old(self)@.wf(),
            old(self)@.main_loop.awaits_search(),
        ensures
            final(self)@ == (EngineModel {
                main_loop: old(self)@.main_loop.minimized(value),
                ..old(self)@
            }),
            final(self)@.wf(),
    {
        self.main_loop.minimized(value);
    }
}

} // verus!
