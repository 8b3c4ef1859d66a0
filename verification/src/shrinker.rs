//! The shrinker, which makes the data of an interesting test simpler.
//!
//! A shrinker does not run tests itself, nor does it search for integers. At every point
//! it asks for one thing, and is then told what came of it.

use vstd::prelude::*;

use crate::data::{DataStream, Draw, Status, TestResult};
use crate::deletion;
use crate::duplicates;
use crate::passes;
use crate::passes::{CursorModel, Fault, Probe, RequestModel, ShrinkerModel, Stage};
use crate::streams;

verus! {

/// What a shrinker asks for.
#[derive(Debug)]
pub enum Request {
    /// A run of the test on these blocks.
    Run(DataStream),
    /// A search for the lowest value that will do, from this one downwards.
    Minimize(u64),
    /// The search is to go on; the value that was tried will do, or it will not.
    Answer(bool),
}

/// The point in a pass at which a shrinker stands.
#[derive(Debug)]
enum Cursor {
    AdaptiveDelete { target: TestResult, i: usize, probe: Probe },
    IndividualBlocks { i: usize, stage: Stage },
    DuplicateGroups { targets: Vec<Vec<usize>>, next: usize },
    DuplicatedBlocks {
        targets: Vec<Vec<usize>>,
        next: usize,
        group: Vec<usize>,
        start: u64,
        base: DataStream,
        stage: Stage,
    },
    ReorderBlocks { i: usize, j: usize },
    LowerAndDelete { i: usize, draw: Option<usize> },
    DeleteAllRanges { i: usize, j: usize, start_length: usize },
    Complete,
    Failed(Fault),
}

/// Makes the data of an interesting test simpler, as long as the test stays interesting.
#[derive(Debug)]
pub struct Shrinker {
    shrink_target: TestResult,
    changes: u64,
    prev: u64,
    expensive_passes_enabled: bool,
    cursor: Cursor,
}

impl View for Request {
    type V = RequestModel;

    open spec fn view(&self) -> RequestModel {
        match *self {
            Request::Run(attempt) => RequestModel::Run(attempt@),
            Request::Minimize(start) => RequestModel::Minimize(start),
            Request::Answer(answer) => RequestModel::Answer(answer),
        }
    }
}

/// The model of a request that may be missing.
pub open spec fn request_view(request: Option<Request>) -> Option<RequestModel> {
    match request {
        Some(request) => Some(request@),
        None => None,
    }
}

impl View for Cursor {
    type V = CursorModel;

    closed spec fn view(&self) -> CursorModel {
        match *self {
            Cursor::AdaptiveDelete { target, i, probe } => CursorModel::AdaptiveDelete {
                target: target@,
                i: i as nat,
                probe,
            },
            Cursor::IndividualBlocks { i, stage } => CursorModel::IndividualBlocks {
                i: i as nat,
                stage,
            },
            Cursor::DuplicateGroups { targets, next } => CursorModel::DuplicateGroups {
                targets: duplicates::groups_view(targets@),
                next: next as nat,
            },
            Cursor::DuplicatedBlocks { targets, next, group, start, base, stage } =>
                CursorModel::DuplicatedBlocks {
                targets: duplicates::groups_view(targets@),
                next: next as nat,
                group: group@,
                start,
                base: base@,
                stage,
            },
            Cursor::ReorderBlocks { i, j } => CursorModel::ReorderBlocks {
                i: i as nat,
                j: j as nat,
            },
            Cursor::LowerAndDelete { i, draw } => CursorModel::LowerAndDelete {
                i: i as nat,
                draw: match draw {
                    Some(d) => Some(d as nat),
                    None => None,
                },
            },
            Cursor::DeleteAllRanges { i, j, start_length } => CursorModel::DeleteAllRanges {
                i: i as nat,
                j: j as nat,
                start_length: start_length as nat,
            },
            Cursor::Complete => CursorModel::Complete,
            Cursor::Failed(fault) => CursorModel::Failed(fault),
        }
    }
}

impl View for Shrinker {
    type V = ShrinkerModel;

    closed spec fn view(&self) -> ShrinkerModel {
        ShrinkerModel {
            target: self.shrink_target@,
            changes: self.changes,
            prev: self.prev,
            expensive: self.expensive_passes_enabled,
            cursor: self.cursor@,
        }
    }
}

/// The probe between two numbers of draws, unless one follows the other.
fn between(low: usize, high: usize) -> (probe: Option<Probe>)
    ensures
        probe == passes::probe_between(low, high),
{
    if high > low && high - low > 1 {
        Some(Probe::Between(low, high))
    } else {
        None
    }
}

impl Probe {
    /// How many draws are to be deleted.
    fn count(self) -> (count: usize)
        requires
            self.wf(),
        ensures
            count == self.spec_count(),
    {
        match self {
            Probe::One => 1,
            Probe::Two => 2,
            Probe::Three => 3,
            Probe::Four => 4,
            Probe::Ahead(high) => high,
            Probe::Between(low, high) => low + (high - low) / 2,
        }
    }

    /// The next probe at the same place, if any.
    fn after(self, deleted: bool) -> (next: Option<Probe>)
        requires
            self.wf(),
            deleted ==> (self matches Probe::Ahead(high) ==> 2 * high <= usize::MAX),
        ensures
            next == self.spec_after(deleted),
    {
        match self {
            Probe::One => None,
            Probe::Two => if deleted {
                Some(Probe::Three)
            } else {
                Some(Probe::One)
            },
            Probe::Three => if deleted {
                Some(Probe::Four)
            } else {
                None
            },
            Probe::Four => if deleted {
                Some(Probe::Ahead(5))
            } else {
                None
            },
            Probe::Ahead(high) => if deleted {
                Some(Probe::Ahead(2 * high))
            } else {
                between(4, high)
            },
            Probe::Between(low, high) => {
                let middle: usize = self.count();
                if deleted {
                    between(middle, high)
                } else {
                    between(low, middle)
                }
            },
        }
    }
}

impl Shrinker {
    /// A run on `attempt`, unless the target merely goes on behind it.
    fn incorporate(&self, attempt: DataStream) -> (request: Option<Request>)
        ensures
            request_view(request) == self@.incorporate(attempt@),
    {
        if streams::starts_with(&self.shrink_target.record, &attempt) {
            None
        } else {
            Some(Request::Run(attempt))
        }
    }

    /// A run without up to `k` draws that do not overlap, from the draw at `i` on.
    fn try_delete_range(&self, target: &TestResult, i: usize, k: usize) -> (request: Option<
        Request,
    >)
        requires
            target@.wf(),
            i <= target@.draws.len(),
        ensures
            request_view(request) == self@.try_delete_range(target@, i as nat, k),
    {
        let attempt: DataStream = deletion::delete_draws_from(target, i, k);
        if attempt.len() >= self.shrink_target.record.len() {
            None
        } else {
            self.incorporate(attempt)
        }
    }

    /// What is to be tried to delete draws.
    fn adaptive_delete(&self, target: &TestResult, i: usize, probe: Probe) -> (request: Option<
        Request,
    >)
        requires
            target@.wf(),
            probe.wf(),
        ensures
            request_view(request) == self@.adaptive_delete(target@, i as nat, probe),
    {
        if i < target.draws.len() {
            self.try_delete_range(target, i, probe.count())
        } else {
            None
        }
    }

    /// What is to be tried to lower a single block.
    fn minimize_individual_blocks(&self, i: usize, stage: Stage) -> (request: Option<Request>)
        requires
            self@.target.wf(),
            stage matches Stage::Testing(_) ==> i < self@.target.record.len(),
            stage matches Stage::Cutting(_, lost) ==> i + 1 + lost <= self@.target.record.len(),
        ensures
            request_view(request) == self@.minimize_individual_blocks(i as nat, stage),
    {
        let record = &self.shrink_target.record;
        match stage {
            Stage::Search => if i < record.len() && duplicates::is_drawn(&self.shrink_target, i) {
                Some(Request::Minimize(record[i]))
            } else {
                None
            },
            Stage::Testing(value) => Some(Request::Run(streams::replace_block(record, i, value))),
            Stage::Cutting(value, lost) => {
                let attempt: DataStream = streams::replace_block(record, i, value);
                Some(Request::Run(streams::remove_range(&attempt, i + 1, i + 1 + lost)))
            },
            Stage::Answered(answer) => Some(Request::Answer(answer)),
        }
    }

    /// What is to be tried to lower the blocks of a group together.
    fn minimize_duplicated_blocks(
        &self,
        group: &Vec<usize>,
        start: u64,
        base: &DataStream,
        stage: Stage,
    ) -> (request: Option<Request>)
        requires
            stage matches Stage::Testing(_) ==> streams::places_within(group@, base@.len()),
        ensures
            request_view(request) == self@.minimize_duplicated_blocks(group@, start, base@, stage),
    {
        match stage {
            Stage::Testing(value) => Some(
                Request::Run(streams::replace_all(base, group, value)),
            ),
            Stage::Answered(answer) => Some(Request::Answer(answer)),
            _ => Some(Request::Minimize(start)),
        }
    }

    /// What is to be tried to move a lower block forward.
    fn reorder_blocks(&self, i: usize, j: usize) -> (request: Option<Request>)
        ensures
            request_view(request) == self@.reorder_blocks(i as nat, j as nat),
    {
        let record = &self.shrink_target.record;
        if i < record.len() && j < record.len() && record[j] < record[i] {
            Some(Request::Run(streams::swap_blocks(record, i, j)))
        } else {
            None
        }
    }

    /// What is to be tried to lower a block by one, perhaps without a later draw.
    fn lower_and_delete(&self, i: usize, draw: Option<usize>) -> (request: Option<Request>)
        requires
            self@.target.wf(),
        ensures
            request_view(request) == self@.lower_and_delete(
                i as nat,
                match draw {
                    Some(d) => Some(d as nat),
                    None => None,
                },
            ),
    {
        let record = &self.shrink_target.record;
        if i < record.len() && record[i] > 0 {
            match draw {
                None => Some(Request::Run(streams::replace_block(record, i, record[i] - 1))),
                Some(d) => if d < self.shrink_target.draws.len()
                    && self.shrink_target.draws[d].start > i {
                    let draw: Draw = self.shrink_target.draws[d];
                    let attempt: DataStream = streams::replace_block(record, i, record[i] - 1);
                    self.incorporate(streams::remove_range(&attempt, draw.start, draw.end))
                } else {
                    None
                },
            }
        } else {
            None
        }
    }

    /// What is to be tried to delete a range of blocks.
    fn delete_all_ranges(&self, i: usize, j: usize) -> (request: Option<Request>)
        requires
            i < j,
        ensures
            request_view(request) == self@.delete_all_ranges(i as nat, j as nat),
    {
        let record = &self.shrink_target.record;
        if i < record.len() && j < record.len() {
            self.incorporate(streams::remove_range(record, i, j))
        } else {
            None
        }
    }

    /// What the shrinker asks for at the point where it stands, if anything.
    pub fn request(&self) -> (request: Option<Request>)
        requires
            self@.wf(),
        ensures
            request_view(request) == self@.request(),
    {
        match &self.cursor {
            Cursor::AdaptiveDelete { target, i, probe } => self.adaptive_delete(target, *i, *probe),
            Cursor::IndividualBlocks { i, stage } => self.minimize_individual_blocks(*i, *stage),
            Cursor::DuplicatedBlocks { targets, next, group, start, base, stage } =>
                self.minimize_duplicated_blocks(group, *start, base, *stage),
            Cursor::ReorderBlocks { i, j } => self.reorder_blocks(*i, *j),
            Cursor::LowerAndDelete { i, draw } => self.lower_and_delete(*i, *draw),
            Cursor::DeleteAllRanges { i, j, start_length } => self.delete_all_ranges(*i, *j),
            _ => None,
        }
    }

    /// Takes the cursor out, in order to put another in its place.
    fn take_cursor(&mut self) -> (cursor: Cursor)
        ensures
            cursor == old(self).cursor,
            final(self)@ == old(self)@.at(CursorModel::Complete),
    {
        let mut cursor: Cursor = Cursor::Complete;
        std::mem::swap(&mut cursor, &mut self.cursor);
        cursor
    }

    /// Starts another round of passes if the last one has changed the target.
    fn next_round(&mut self)
        ensures
            final(self)@ == old(self)@.next_round(),
    {
        if self.prev == self.changes {
            self.cursor = Cursor::Complete;
        } else {
            self.prev = self.changes;
            self.cursor = Cursor::AdaptiveDelete {
                target: self.shrink_target.clone(),
                i: 0,
                probe: Probe::Two,
            };
        }
    }

    /// Turns to the next number of draws to delete, or the next draw to start from.
    fn next_probe(&mut self, target: TestResult, i: usize, probe: Probe, deleted: bool)
        requires
            i < usize::MAX,
            probe.wf(),
            deleted ==> (probe matches Probe::Ahead(high) ==> 2 * high <= usize::MAX),
        ensures
            final(self)@ == old(self)@.next_probe(target@, i as nat, probe, deleted),
    {
        self.cursor = match probe.after(deleted) {
            Some(probe) => Cursor::AdaptiveDelete { target, i, probe },
            None => Cursor::AdaptiveDelete { target, i: i + 1, probe: Probe::Two },
        };
    }

    /// Lists the groups of the target.
    fn list_groups(&mut self, next: usize)
        ensures
            final(self)@ == old(self)@.list_groups(next as nat),
    {
        self.cursor = if self.shrink_target.record.len() != self.shrink_target.sizes.len() {
            Cursor::Failed(Fault::SizesMismatch)
        } else {
            Cursor::DuplicateGroups {
                targets: duplicates::calc_duplicates(&self.shrink_target),
                next,
            }
        };
    }

    /// Turns to the group at `next`.
    fn next_group(&mut self, targets: Vec<Vec<usize>>, next: usize)
        requires
            next < targets@.len(),
            targets@[next as int]@.len() > 0,
            old(self)@.cursor is Complete,
        ensures
            final(self)@ == old(self)@.at(
                CursorModel::DuplicateGroups {
                    targets: duplicates::groups_view(targets@),
                    next: next as nat,
                },
            ).skip(),
    {
        assert(next < targets.len());
        let group: Vec<usize> = targets[next].clone();
        assert(group@ =~= targets@[next as int]@);
        assert(duplicates::groups_view(targets@)[next as int] == group@);
        let first: usize = group[0];
        self.cursor = if first >= self.shrink_target.record.len() {
            Cursor::Failed(Fault::OutOfRange)
        } else {
            Cursor::DuplicatedBlocks {
                targets,
                next: next + 1,
                group,
                start: self.shrink_target.record[first],
                base: streams::copy_of(&self.shrink_target.record),
                stage: Stage::Search,
            }
        };
    }

    /// Turns to the expensive passes, or to another round.
    fn after_cheap_passes(&mut self)
        ensures
            final(self)@ == old(self)@.after_cheap_passes(),
    {
        if self.prev == self.changes {
            self.expensive_passes_enabled = true;
        }
        if self.expensive_passes_enabled {
            self.cursor = Cursor::ReorderBlocks { i: 0, j: 1 };
        } else {
            self.next_round();
        }
    }

    /// Goes on from a point where there is nothing to ask for.
    fn skip(&mut self)
        requires
            old(self)@.wf(),
            old(self)@.request() is None,
        ensures
            final(self)@ == old(self)@.skip(),
    {
        let length: usize = self.shrink_target.record.len();
        let cursor: Cursor = self.take_cursor();
        match cursor {
            Cursor::AdaptiveDelete { target, i, probe } => {
                if i < target.draws.len() {
                    self.next_probe(target, i, probe, false);
                } else {
                    self.cursor = Cursor::IndividualBlocks { i: 0, stage: Stage::Search };
                }
            },
            Cursor::IndividualBlocks { i, stage } => {
                if i < length {
                    self.cursor = Cursor::IndividualBlocks { i: i + 1, stage: Stage::Search };
                } else {
                    self.list_groups(0);
                }
            },
            Cursor::DuplicateGroups { targets, next } => {
                if next < targets.len() {
                    assert(duplicates::groups_view(targets@)[next as int]
                        == targets@[next as int]@);
                    self.next_group(targets, next);
                } else {
                    self.after_cheap_passes();
                }
            },
            Cursor::ReorderBlocks { i, j } => {
                self.cursor = if i < length && j < length && self.shrink_target.record[i] > 0 {
                    Cursor::ReorderBlocks { i, j: j + 1 }
                } else if i < length && i + 1 < length {
                    Cursor::ReorderBlocks { i: i + 1, j: i + 2 }
                } else {
                    Cursor::LowerAndDelete { i: 0, draw: None }
                };
            },
            Cursor::LowerAndDelete { i, draw } => {
                self.cursor = if i < length {
                    match draw {
                        Some(d) if d < self.shrink_target.draws.len() => {
                            Cursor::LowerAndDelete { i, draw: Some(d + 1) }
                        },
                        _ => Cursor::LowerAndDelete { i: i + 1, draw: None },
                    }
                } else {
                    Cursor::DeleteAllRanges { i: 0, j: 1, start_length: length }
                };
            },
            Cursor::DeleteAllRanges { i, j, start_length } => {
                if i < length && j < length {
                    self.cursor = Cursor::DeleteAllRanges { i, j: j + 1, start_length };
                } else if i < length && start_length != length {
                    self.cursor = Cursor::DeleteAllRanges { i, j: i + 1, start_length: length };
                } else if i < length && i + 1 < length {
                    self.cursor = Cursor::DeleteAllRanges {
                        i: i + 1,
                        j: i + 2,
                        start_length: length,
                    };
                } else {
                    self.next_round();
                }
            },
            other => {
                self.cursor = other;
            },
        }
    }

    /// Goes on to the next point where there is something to ask for.
    fn run(&mut self)
        requires
            old(self)@.wf(),
        ensures
            final(self)@ == old(self)@.seek(),
    {
        let ghost from = self@;
        loop
            invariant
                self@.wf(),
                self@.seek() == from.seek(),
            ensures
                self@ == from.seek(),
            decreases
                self@.rounds_ahead(),
                self@.passes_ahead(),
                self@.steps_ahead().0,
                self@.steps_ahead().1,
                self@.steps_ahead().2,
        {
            if self.is_over() {
                break;
            }
            if self.request().is_some() {
                break;
            }
            proof {
                passes::lemma_skip_wf(self@);
            }
            self.skip();
        }
    }

    /// A shrinker that sets out from an interesting result.
    pub fn new(shrink_target: TestResult) -> (shrinker: Shrinker)
        requires
            shrink_target@.wf(),
            shrink_target@.status is Interesting,
        ensures
            shrinker@ == ShrinkerModel::start(shrink_target@),
            shrinker@.wf(),
            shrinker@.settled(),
    {
        proof {
            passes::lemma_start_wf(shrink_target@);
        }
        let mut shrinker = Shrinker {
            shrink_target,
            changes: 0,
            prev: 1,
            expensive_passes_enabled: false,
            cursor: Cursor::Complete,
        };
        shrinker.next_round();
        shrinker.run();
        shrinker
    }

    /// Whether a result is interesting. One that is simpler too becomes the target.
    fn predicate(&mut self, result: &TestResult) -> (ok: bool)
        ensures
            ok == (result@.status is Interesting),
            final(self)@ == old(self)@.consider(result@),
    {
        let ok: bool = result.status == Status::Interesting;
        if ok && streams::is_simpler(&result.record, &self.shrink_target.record) {
            if self.changes == u64::MAX {
                self.cursor = Cursor::Failed(Fault::Overflow);
            } else {
                self.changes = self.changes + 1;
                self.shrink_target = result.clone();
            }
        }
        ok
    }

    /// Goes on after a block was lowered: a value that made a test valid which then read
    /// fewer blocks gets a second chance without as many of the blocks behind it.
    fn try_lowering_value(&mut self, i: usize, value: u64, ok: bool, result: &TestResult)
        requires
            old(self)@.target.wf(),
            i < old(self)@.target.record.len(),
        ensures
            final(self)@ == old(self)@.after_lowering(i as nat, value, ok, result@),
    {
        let length: usize = self.shrink_target.record.len();
        let left: usize = result.record.len();
        if left > length {
            self.cursor = Cursor::Failed(Fault::ResultTooLong);
        } else if !ok && result.status == Status::Valid && left < length {
            let lost: usize = length - left;
            if i >= left {
                self.cursor = Cursor::Failed(Fault::OutOfRange);
                return ;
            }
            let attempt: DataStream = streams::remove_range(
                &streams::replace_block(&self.shrink_target.record, i, value),
                i + 1,
                i + 1 + lost,
            );
            self.cursor = Cursor::IndividualBlocks {
                i,
                stage: if streams::starts_with(&self.shrink_target.record, &attempt) {
                    Stage::Answered(false)
                } else {
                    Stage::Cutting(value, lost)
                },
            };
        } else {
            self.cursor = Cursor::IndividualBlocks { i, stage: Stage::Answered(ok) };
        }
    }

    /// Goes on after a run that was asked for.
    fn after_run(&mut self, ok: bool, result: &TestResult)
        requires
            old(self)@.wf(),
            old(self)@.awaits_run(),
        ensures
            final(self)@ == old(self)@.after_run(ok, result@),
    {
        let length: usize = self.shrink_target.record.len();
        let cursor: Cursor = self.take_cursor();
        match cursor {
            Cursor::AdaptiveDelete { target, i, probe } => {
                match probe {
                    Probe::Ahead(high) if ok && high > target.draws.len() => {
                        self.cursor = Cursor::AdaptiveDelete {
                            target,
                            i: i + 1,
                            probe: Probe::Two,
                        };
                    },
                    Probe::Ahead(high) if ok && high > usize::MAX / 2 => {
                        self.cursor = Cursor::Failed(Fault::Overflow);
                    },
                    _ => {
                        assert(i < target.draws.len());
                        self.next_probe(target, i, probe, ok);
                    },
                }
            },
            Cursor::IndividualBlocks { i, stage } => {
                match stage {
                    Stage::Testing(value) => self.try_lowering_value(i, value, ok, result),
                    _ => {
                        self.cursor = Cursor::IndividualBlocks { i, stage: Stage::Answered(ok) };
                    },
                }
            },
            Cursor::DuplicatedBlocks { targets, next, group, start, base, stage } => {
                self.cursor = Cursor::DuplicatedBlocks {
                    targets,
                    next,
                    group,
                    start,
                    base,
                    stage: Stage::Answered(ok),
                };
            },
            Cursor::ReorderBlocks { i, j } => {
                self.cursor = Cursor::ReorderBlocks { i, j: j + 1 };
            },
            Cursor::LowerAndDelete { i, draw } => {
                self.cursor = match draw {
                    None => if !ok && result.record.len() < length {
                        Cursor::LowerAndDelete { i, draw: Some(0) }
                    } else {
                        Cursor::LowerAndDelete { i: i + 1, draw: None }
                    },
                    Some(d) => if ok {
                        Cursor::LowerAndDelete { i: i + 1, draw: None }
                    } else {
                        assert(d < self.shrink_target.draws.len());
                        Cursor::LowerAndDelete { i, draw: Some(d + 1) }
                    },
                };
            },
            Cursor::DeleteAllRanges { i, j, start_length } => {
                self.cursor = if ok {
                    Cursor::DeleteAllRanges { i, j, start_length }
                } else {
                    Cursor::DeleteAllRanges { i, j: j + 1, start_length }
                };
            },
            other => {
                self.cursor = other;
            },
        }
    }

    /// Takes in the result of the run that was asked for.
    pub fn completed(&mut self, result: &TestResult)
        requires
            old(self)@.wf(),
            old(self)@.awaits_run(),
            result@.wf(),
        ensures
            final(self)@ == old(self)@.completed(result@),
            final(self)@.wf(),
            final(self)@.settled(),
    {
        proof {
            passes::lemma_completed_wf(self@, result@);
        }
        self.after_run(result.status == Status::Interesting, result);
        self.predicate(result);
        self.run();
    }

    /// Takes in a value that the search for the lowest one proposes.
    pub fn candidate(&mut self, value: u64)
        requires
            old(self)@.wf(),
            old(self)@.awaits_search(),
        ensures
            final(self)@ == old(self)@.candidate(value),
            final(self)@.wf(),
            final(self)@.settled(),
    {
        proof {
            passes::lemma_candidate_wf(self@, value);
        }
        let length: usize = self.shrink_target.record.len();
        let cursor: Cursor = self.take_cursor();
        match cursor {
            Cursor::IndividualBlocks { i, stage } => {
                self.cursor = if i >= length {
                    Cursor::Failed(Fault::OutOfRange)
                } else if value >= self.shrink_target.record[i] {
                    Cursor::IndividualBlocks { i, stage: Stage::Answered(false) }
                } else {
                    Cursor::IndividualBlocks { i, stage: Stage::Testing(value) }
                };
            },
            Cursor::DuplicatedBlocks { targets, next, group, start, base, stage } => {
                if !streams::are_places_within(&group, base.len()) {
                    self.cursor = Cursor::Failed(Fault::OutOfRange);
                    return ;
                }
                let attempt: DataStream = streams::replace_all(&base, &group, value);
                let record = &self.shrink_target.record;
                self.cursor = if attempt.len() > record.len() {
                    Cursor::Failed(Fault::AttemptTooLong)
                } else if attempt.len() == record.len() && !streams::is_lex_less(
                    &attempt,
                    record,
                ) {
                    Cursor::Failed(Fault::AttemptNotLower)
                } else if streams::starts_with(record, &attempt) {
                    Cursor::DuplicatedBlocks {
                        targets,
                        next,
                        group,
                        start,
                        base,
                        stage: Stage::Answered(false),
                    }
                } else {
                    Cursor::DuplicatedBlocks {
                        targets,
                        next,
                        group,
                        start,
                        base,
                        stage: Stage::Testing(value),
                    }
                };
            },
            other => {
                self.cursor = other;
            },
        }
    }

    /// Takes in the value with which the search for the lowest one ends.
    pub fn minimized(&mut self, value: u64)
        requires
            old(self)@.wf(),
            old(self)@.awaits_search(),
        ensures
            final(self)@ == old(self)@.minimized(value),
            final(self)@.wf(),
            final(self)@.settled(),
    {
        proof {
            passes::lemma_minimized_wf(self@, value);
        }
        let cursor: Cursor = self.take_cursor();
        match cursor {
            Cursor::IndividualBlocks { i, stage } => {
                self.cursor = Cursor::IndividualBlocks { i: i + 1, stage: Stage::Search };
                self.run();
            },
            Cursor::DuplicatedBlocks { targets, next, group, start, base, stage } => {
                if value != start {
                    self.list_groups(next);
                } else {
                    self.cursor = Cursor::DuplicateGroups { targets, next };
                }
                self.run();
            },
            other => {
                self.cursor = other;
            },
        }
    }

    /// Whether the shrinker asks for nothing any more.
    fn is_over(&self) -> (over: bool)
        ensures
            over == self@.is_over(),
    {
        self.exit().is_some()
    }

    /// How the shrinker has ended, if it has.
    pub fn exit(&self) -> (exit: Option<Result<(), Fault>>)
        ensures
            exit == (match self@.cursor {
                CursorModel::Complete => Some(Ok(())),
                CursorModel::Failed(fault) => Some(Err(fault)),
                _ => None,
            }),
    {
        match &self.cursor {
            Cursor::Complete => Some(Ok(())),
            Cursor::Failed(fault) => Some(Err(*fault)),
            _ => None,
        }
    }
}

} // verus!
