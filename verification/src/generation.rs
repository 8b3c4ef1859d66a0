//! The main loop: it generates tests until one is interesting, and then shrinks that one.

use rand::ChaChaRng;
use vstd::prelude::*;

use crate::data::{DataSource, DataStream, GeneratorModel, ResultModel, SourceModel, Status, TestResult};
use crate::passes;
use crate::passes::{CursorModel, Fault, RequestModel, ShrinkerModel};
use crate::random;
use crate::shrinker::{Request, Shrinker};

verus! {

/// Why the loop has ended.
#[derive(Debug, Clone, Copy, PartialEq, Eq, Structural)]
pub enum LoopExitReason {
    /// An interesting test was found and shrunk.
    Complete,
    /// No interesting test was found among as many as were allowed.
    MaxExamples,
}

/// What the loop asks for.
#[derive(Debug)]
pub enum LoopCommand {
    /// A run of the test on this source.
    RunThis(DataSource),
    /// A search for the lowest value that will do, from this one downwards.
    Minimize(u64),
    /// The search is to go on; the value that was tried will do, or it will not.
    Answer(bool),
    /// Nothing any more.
    Finished(LoopExitReason),
    /// Nothing any more: the loop cannot go on.
    Failed(Fault),
}

#[derive(Debug)]
enum Phase {
    Generating(ChaChaRng),
    Shrinking(Shrinker),
    Finished(LoopExitReason),
    Failed(Fault),
}

/// Generates tests until one is interesting, and shrinks that one.
#[derive(Debug)]
pub struct MainGenerationLoop {
    max_examples: u64,
    random: ChaChaRng,
    best_example: Option<TestResult>,
    valid_examples: u64,
    invalid_examples: u64,
    interesting_examples: u64,
    phase: Phase,
}

/// The model of what the loop asks for.
pub enum CommandModel {
    RunThis(SourceModel),
    Minimize(u64),
    Answer(bool),
    Finished(LoopExitReason),
    Failed(Fault),
}

/// The model of where the loop stands.
pub enum PhaseModel {
    /// A test is to be run on a generator with these words ahead.
    Generating(Map<nat, u32>),
    Shrinking(ShrinkerModel),
    Finished(LoopExitReason),
    Failed(Fault),
}

/// The model of the main loop.
pub struct LoopModel {
    pub max_examples: u64,
    /// The words from which the generators of further tests are made.
    pub random: Map<nat, u32>,
    /// The latest interesting result.
    pub best_example: Option<ResultModel>,
    pub valid_examples: u64,
    pub invalid_examples: u64,
    pub interesting_examples: u64,
    pub phase: PhaseModel,
}

impl View for LoopCommand {
    type V = CommandModel;

    open spec fn view(&self) -> CommandModel {
        match *self {
            LoopCommand::RunThis(source) => CommandModel::RunThis(source@),
            LoopCommand::Minimize(start) => CommandModel::Minimize(start),
            LoopCommand::Answer(answer) => CommandModel::Answer(answer),
            LoopCommand::Finished(reason) => CommandModel::Finished(reason),
            LoopCommand::Failed(fault) => CommandModel::Failed(fault),
        }
    }
}

impl View for Phase {
    type V = PhaseModel;

    closed spec fn view(&self) -> PhaseModel {
        match *self {
            Phase::Generating(random) => PhaseModel::Generating(random::words_ahead(random)),
            Phase::Shrinking(shrinker) => PhaseModel::Shrinking(shrinker@),
            Phase::Finished(reason) => PhaseModel::Finished(reason),
            Phase::Failed(fault) => PhaseModel::Failed(fault),
        }
    }
}

impl View for MainGenerationLoop {
    type V = LoopModel;

    closed spec fn view(&self) -> LoopModel {
        LoopModel {
            max_examples: self.max_examples,
            random: random::words_ahead(self.random),
            best_example: match self.best_example {
                Some(result) => Some(result@),
                None => None,
            },
            valid_examples: self.valid_examples,
            invalid_examples: self.invalid_examples,
            interesting_examples: self.interesting_examples,
            phase: self.phase@,
        }
    }
}

impl LoopModel {
    pub open spec fn at(self, phase: PhaseModel) -> LoopModel {
        LoopModel { phase, ..self }
    }

    /// More tests may be generated.
    pub open spec fn may_generate(self) -> bool {
        self.valid_examples < self.max_examples && self.invalid_examples < 10 * self.max_examples
    }

    /// Another test is generated, if there may be one. The limits have to be numbers that
    /// can be counted to.
    pub open spec fn generate(self) -> LoopModel {
        if self.valid_examples < self.max_examples && 10 * self.max_examples > u64::MAX {
            self.at(PhaseModel::Failed(Fault::Overflow))
        } else if self.may_generate() {
            LoopModel {
                random: random::words_from(self.random, 8),
                phase: PhaseModel::Generating(random::split_words(self.random)),
                ..self
            }
        } else {
            self.at(PhaseModel::Finished(LoopExitReason::MaxExamples))
        }
    }

    /// The loop at its start.
    pub open spec fn start(max_examples: u64, random: Map<nat, u32>) -> LoopModel {
        LoopModel {
            max_examples,
            random,
            best_example: None,
            valid_examples: 0,
            invalid_examples: 0,
            interesting_examples: 0,
            phase: PhaseModel::Finished(LoopExitReason::MaxExamples),
        }.generate()
    }

    /// How many results with this status have been counted; overflows are not counted.
    pub open spec fn count_of(self, status: Status) -> u64 {
        match status {
            Status::Overflow => 0,
            Status::Invalid => self.invalid_examples,
            Status::Valid => self.valid_examples,
            Status::Interesting => self.interesting_examples,
        }
    }

    /// A result is counted, and kept if it is interesting.
    pub open spec fn counted(self, result: ResultModel) -> LoopModel {
        match result.status {
            Status::Overflow => self,
            Status::Invalid => LoopModel {
                invalid_examples: (self.invalid_examples + 1) as u64,
                ..self
            },
            Status::Valid => LoopModel {
                valid_examples: (self.valid_examples + 1) as u64,
                ..self
            },
            Status::Interesting => LoopModel {
                best_example: Some(result),
                interesting_examples: (self.interesting_examples + 1) as u64,
                ..self
            },
        }
    }

    /// The loop goes by where its shrinker stands.
    pub open spec fn shrinking(self, shrinker: ShrinkerModel) -> LoopModel {
        match shrinker.cursor {
            CursorModel::Complete => self.at(PhaseModel::Finished(LoopExitReason::Complete)),
            CursorModel::Failed(fault) => self.at(PhaseModel::Failed(fault)),
            _ => self.at(PhaseModel::Shrinking(shrinker)),
        }
    }

    /// The run that was asked for is over.
    pub open spec fn completed(self, result: ResultModel) -> LoopModel {
        if self.count_of(result.status) == u64::MAX {
            self.at(PhaseModel::Failed(Fault::Overflow))
        } else {
            match self.phase {
                PhaseModel::Generating(_) => if result.status is Interesting {
                    self.counted(result).shrinking(ShrinkerModel::start(result))
                } else {
                    self.counted(result).generate()
                },
                PhaseModel::Shrinking(shrinker) => self.counted(result).shrinking(
                    shrinker.completed(result),
                ),
                _ => self,
            }
        }
    }

    /// The search for the lowest value proposes `value`.
    pub open spec fn candidate(self, value: u64) -> LoopModel {
        match self.phase {
            PhaseModel::Shrinking(shrinker) => self.shrinking(shrinker.candidate(value)),
            _ => self,
        }
    }

    /// The search for the lowest value ends with `value`.
    pub open spec fn minimized(self, value: u64) -> LoopModel {
        match self.phase {
            PhaseModel::Shrinking(shrinker) => self.shrinking(shrinker.minimized(value)),
            _ => self,
        }
    }

    /// What the loop asks for.
    pub open spec fn command(self) -> CommandModel {
        match self.phase {
            PhaseModel::Generating(words) => CommandModel::RunThis(
                SourceModel::fresh(GeneratorModel::Random(words)),
            ),
            PhaseModel::Shrinking(shrinker) => match shrinker.request()->0 {
                RequestModel::Run(attempt) => CommandModel::RunThis(
                    SourceModel::fresh(GeneratorModel::Recorded(attempt)),
                ),
                RequestModel::Minimize(start) => CommandModel::Minimize(start),
                RequestModel::Answer(answer) => CommandModel::Answer(answer),
            },
            PhaseModel::Finished(reason) => CommandModel::Finished(reason),
            PhaseModel::Failed(fault) => CommandModel::Failed(fault),
        }
    }

    /// The loop waits for a test to be run.
    pub open spec fn awaits_run(self) -> bool {
        self.command() is RunThis
    }

    /// The loop waits for the search for the lowest value of some block.
    pub open spec fn awaits_search(self) -> bool {
        self.command() is Minimize || self.command() is Answer
    }

    /// What holds of every loop: an interesting result is kept once there is one; until
    /// then tests are generated, as long as there may be more; and after that the loop
    /// shrinks, and stands where its shrinker has something to ask for.
    pub open spec fn wf(self) -> bool {
        &&& self.best_example is Some <==> self.interesting_examples > 0
        &&& self.best_example matches Some(result) ==> result.status is Interesting
        &&& match self.phase {
            PhaseModel::Generating(_) => self.best_example is None && self.may_generate(),
            PhaseModel::Shrinking(shrinker) => {
                &&& self.best_example is Some
                &&& shrinker.wf()
                &&& shrinker.request() is Some
            },
            PhaseModel::Finished(LoopExitReason::Complete) => self.best_example is Some,
            PhaseModel::Finished(LoopExitReason::MaxExamples) => self.best_example is None
                && !self.may_generate(),
            PhaseModel::Failed(_) => true,
        }
    }
}

/// A finished run keeps the loop well-formed.
pub proof fn lemma_loop_completed_wf(main_loop: LoopModel, result: ResultModel)
    requires
        main_loop.wf(),
        main_loop.awaits_run(),
        result.wf(),
    ensures
        main_loop.completed(result).wf(),
{
    match main_loop.phase {
        PhaseModel::Generating(_) => {
            if result.status is Interesting {
                passes::lemma_start_wf(result);
            }
        },
        PhaseModel::Shrinking(shrinker) => {
            passes::lemma_completed_wf(shrinker, result);
        },
        _ => {},
    }
}

/// A search keeps the loop well-formed.
pub proof fn lemma_loop_search_wf(main_loop: LoopModel, value: u64)
    requires
        main_loop.wf(),
        main_loop.awaits_search(),
    ensures
        main_loop.candidate(value).wf(),
        main_loop.minimized(value).wf(),
{
    match main_loop.phase {
        PhaseModel::Shrinking(shrinker) => {
            passes::lemma_candidate_wf(shrinker, value);
            passes::lemma_minimized_wf(shrinker, value);
        },
        _ => {},
    }
}

impl MainGenerationLoop {
    /// The loop at its start, with a generator seeded by `seed`.
    pub fn new(max_examples: u64, seed: &[u32]) -> (main_loop: MainGenerationLoop)
        ensures
            main_loop@ == LoopModel::start(
                max_examples,
                random::seeded_words(random::seed_key(seed@)),
            ),
            main_loop@.wf(),
    {
        let mut main_loop = MainGenerationLoop {
            max_examples,
            random: random::from_seed(seed),
            best_example: None,
            valid_examples: 0,
            invalid_examples: 0,
            interesting_examples: 0,
            phase: Phase::Finished(LoopExitReason::MaxExamples),
        };
        main_loop.generate_examples();
        main_loop
    }

    /// Generates another test, if there may be one.
    fn generate_examples(&mut self)
        ensures
            final(self)@ == old(self)@.generate(),
    {
        if self.valid_examples < self.max_examples && self.max_examples > u64::MAX / 10 {
            self.phase = Phase::Failed(Fault::Overflow);
        } else if self.valid_examples < self.max_examples && self.invalid_examples < 10
            * self.max_examples {
            let random: ChaChaRng = random::split(&mut self.random);
            self.phase = Phase::Generating(random);
        } else {
            self.phase = Phase::Finished(LoopExitReason::MaxExamples);
        }
    }

    /// Goes by where the shrinker stands.
    fn loop_body(&mut self, shrinker: Shrinker)
        ensures
            final(self)@ == old(self)@.shrinking(shrinker@),
    {
        self.phase = match shrinker.exit() {
            Some(Ok(())) => Phase::Finished(LoopExitReason::Complete),
            Some(Err(fault)) => Phase::Failed(fault),
            None => Phase::Shrinking(shrinker),
        };
    }

    /// Counts a result, and keeps it if it is interesting.
    fn execute(&mut self, result: &TestResult)
        requires
            old(self)@.count_of(result@.status) < u64::MAX,
        ensures
            final(self)@ == old(self)@.counted(result@),
    {
        match result.status {
            Status::Overflow => {},
            Status::Invalid => {
                self.invalid_examples = self.invalid_examples + 1;
            },
            Status::Valid => {
                self.valid_examples = self.valid_examples + 1;
            },
            Status::Interesting => {
                self.best_example = Some(result.clone());
                self.interesting_examples = self.interesting_examples + 1;
            },
        }
    }

    /// Takes the phase out, in order to put another in its place.
    fn take_phase(&mut self) -> (phase: Phase)
        ensures
            phase == old(self).phase,
            final(self)@ == old(self)@.at(PhaseModel::Failed(Fault::Overflow)),
    {
        let mut phase: Phase = Phase::Failed(Fault::Overflow);
        std::mem::swap(&mut phase, &mut self.phase);
        phase
    }

    /// How many results with this status have been counted.
    pub fn count_of(&self, status: Status) -> (count: u64)
        ensures
            count == self@.count_of(status),
    {
        match status {
            Status::Overflow => 0,
            Status::Invalid => self.invalid_examples,
            Status::Valid => self.valid_examples,
            Status::Interesting => self.interesting_examples,
        }
    }

    /// Takes in the result of the run that was asked for.
    pub fn completed(&mut self, result: TestResult)
        requires
            old(self)@.wf(),
            old(self)@.awaits_run(),
            result@.wf(),
        ensures
            final(self)@ == old(self)@.completed(result@),
            final(self)@.wf(),
    {
        proof {
            lemma_loop_completed_wf(self@, result@);
        }
        if self.count_of(result.status) == u64::MAX {
            self.phase = Phase::Failed(Fault::Overflow);
            return ;
        }
        let phase: Phase = self.take_phase();
        self.execute(&result);
        match phase {
            Phase::Generating(_) => {
                if result.status == Status::Interesting {
                    let shrinker: Shrinker = Shrinker::new(result);
                    self.loop_body(shrinker);
                } else {
                    self.generate_examples();
                }
            },
            Phase::Shrinking(shrinker) => {
                let mut shrinker: Shrinker = shrinker;
                shrinker.completed(&result);
                self.loop_body(shrinker);
            },
            other => {
                self.phase = other;
            },
        }
    }

    /// Takes in a value that the search for the lowest one proposes.
    pub fn candidate(&mut self, value: u64)
        requires
            old(self)@.wf(),
            old(self)@.awaits_search(),
        ensures
            final(self)@ == old(self)@.candidate(value),
            final(self)@.wf(),
    {
        proof {
            lemma_loop_search_wf(self@, value);
        }
        match self.take_phase() {
            Phase::Shrinking(shrinker) => {
                let mut shrinker: Shrinker = shrinker;
                shrinker.candidate(value);
                self.loop_body(shrinker);
            },
            other => {
                self.phase = other;
            },
        }
    }

    /// Takes in the value with which the search for the lowest one ends.
    pub fn minimized(&mut self, value: u64)
        requires
            old(self)@.wf(),
            old(self)@.awaits_search(),
        ensures
            final(self)@ == old(self)@.minimized(value),
            final(self)@.wf(),
    {
        proof {
            lemma_loop_search_wf(self@, value);
        }
        match self.take_phase() {
            Phase::Shrinking(shrinker) => {
                let mut shrinker: Shrinker = shrinker;
                shrinker.minimized(value);
                self.loop_body(shrinker);
            },
            other => {
                self.phase = other;
            },
        }
    }

    /// The record of the latest interesting result.
    pub fn best_record(&self) -> (record: Option<&DataStream>)
        ensures
            match record {
                Some(record) => self@.best_example matches Some(result) && record@ == result.record,
                None => self@.best_example is None,
            },
    {
        match &self.best_example {
            Some(result) => Some(&result.record),
            None => None,
        }
    }

    /// What the loop asks for.
    pub fn command(&self) -> (command: LoopCommand)
        requires
            self@.wf(),
        ensures
            command@ == self@.command(),
            command matches LoopCommand::RunThis(source) ==> source.wf(),
    {
        match &self.phase {
            Phase::Generating(random) => LoopCommand::RunThis(DataSource::from_random(*random)),
            Phase::Shrinking(shrinker) => match shrinker.request().unwrap() {
                Request::Run(attempt) => LoopCommand::RunThis(DataSource::from_vec(attempt)),
                Request::Minimize(start) => LoopCommand::Minimize(start),
                Request::Answer(answer) => LoopCommand::Answer(answer),
            },
            Phase::Finished(reason) => LoopCommand::Finished(*reason),
            Phase::Failed(fault) => LoopCommand::Failed(*fault),
        }
    }
}

} // verus!
