//! The rules of shrinking.
//!
//! A shrinker goes through passes, each of which proposes attempts at a simpler stream
//! than that of its target. The model here says what is asked for at every point of
//! every pass, and where the shrinker goes on from there.

use vstd::prelude::*;

use crate::data::ResultModel;
use crate::deletion;
use crate::duplicates;
use crate::streams;

verus! {

/// Why a loop cannot go on.
#[derive(Debug, Clone, Copy, PartialEq, Eq, Structural)]
pub enum Fault {
    /// A count has reached its limit.
    Overflow,
    /// The target does not have one size for each block.
    SizesMismatch,
    /// An attempt is longer than the target.
    AttemptTooLong,
    /// An attempt is as long as the target, and not lower.
    AttemptNotLower,
    /// A result is longer than the target.
    ResultTooLong,
    /// A block that is asked for lies past the end of the target.
    OutOfRange,
}

/// How many draws are to be deleted at one place, as far as it is known how many can be.
#[derive(Debug, Clone, Copy, PartialEq, Eq, Structural)]
pub enum Probe {
    One,
    Two,
    Three,
    Four,
    /// This many, all smaller numbers tried so far having been deleted.
    Ahead(usize),
    /// Half way between a number that could be deleted and one that could not.
    Between(usize, usize),
}

/// Where the search for the lowest value of some block stands.
#[derive(Debug, Clone, Copy, PartialEq, Eq, Structural)]
pub enum Stage {
    /// The search is to be started.
    Search,
    /// This value is being tried.
    Testing(u64),
    /// This value is being tried with as many of the blocks behind it cut out.
    Cutting(u64, usize),
    /// A value was tried, with this outcome.
    Answered(bool),
}

/// The model of what a shrinker asks for.
pub enum RequestModel {
    /// A run of the test on these blocks.
    Run(Seq<u64>),
    /// A search for the lowest value that will do, from this one downwards.
    Minimize(u64),
    /// The search is to go on; the value that was tried will do, or it will not.
    Answer(bool),
}

/// The model of the point in a pass at which a shrinker stands.
pub enum CursorModel {
    /// Deleting draws of `target`, from the draw at `i` on.
    AdaptiveDelete { target: ResultModel, i: nat, probe: Probe },
    /// Lowering the block at `i`.
    IndividualBlocks { i: nat, stage: Stage },
    /// Turning to the group at `next`.
    DuplicateGroups { targets: Seq<Seq<usize>>, next: nat },
    /// Lowering the blocks of `group` in `base` together; all of them were `start`.
    DuplicatedBlocks {
        targets: Seq<Seq<usize>>,
        next: nat,
        group: Seq<usize>,
        start: u64,
        base: Seq<u64>,
        stage: Stage,
    },
    /// Exchanging the blocks at `i` and `j`.
    ReorderBlocks { i: nat, j: nat },
    /// Lowering the block at `i` by one, and deleting the blocks of a draw too where one is given.
    LowerAndDelete { i: nat, draw: Option<nat> },
    /// Deleting the blocks from `i` up to `j`; the record had `start_length` blocks when
    /// ranges from `i` on were turned to.
    DeleteAllRanges { i: nat, j: nat, start_length: nat },
    /// There is nothing left to try.
    Complete,
    Failed(Fault),
}

/// The model of a shrinker.
pub struct ShrinkerModel {
    /// The simplest interesting result so far.
    pub target: ResultModel,
    /// How often the target was replaced.
    pub changes: u64,
    /// The count of changes at the start of the current round of passes.
    pub prev: u64,
    /// Whether the second half of the passes is worth its cost.
    pub expensive: bool,
    pub cursor: CursorModel,
}

/// The probe between two numbers of draws, unless one follows the other.
pub open spec fn probe_between(low: usize, high: usize) -> Option<Probe> {
    if low + 1 < high {
        Some(Probe::Between(low, high))
    } else {
        None
    }
}

impl Probe {
    /// How many draws are to be deleted.
    pub open spec fn spec_count(self) -> usize {
        match self {
            Probe::One => 1,
            Probe::Two => 2,
            Probe::Three => 3,
            Probe::Four => 4,
            Probe::Ahead(high) => high,
            Probe::Between(low, high) => (low + (high - low) / 2) as usize,
        }
    }

    /// The next probe at the same place, if any. Small numbers come first; once four
    /// draws can be deleted the number is doubled until it is too large, and then the
    /// limit is searched for by halving.
    pub open spec fn spec_after(self, deleted: bool) -> Option<Probe> {
        match self {
            Probe::One => None,
            Probe::Two => Some(
                if deleted {
                    Probe::Three
                } else {
                    Probe::One
                },
            ),
            Probe::Three => if deleted {
                Some(Probe::Four)
            } else {
                None
            },
            Probe::Four => if deleted {
                Some(Probe::Ahead(5))
            } else {
                None
            },
            Probe::Ahead(high) => if deleted {
                Some(Probe::Ahead((2 * high) as usize))
            } else {
                probe_between(4, high)
            },
            Probe::Between(low, high) => if deleted {
                probe_between(self.spec_count(), high)
            } else {
                probe_between(low, self.spec_count())
            },
        }
    }

    /// What holds of the numbers: those up to four were deleted before any larger one,
    /// and there are numbers between the two that are halved.
    pub open spec fn wf(self) -> bool {
        match self {
            Probe::Ahead(high) => high >= 5,
            Probe::Between(low, high) => 4 <= low && low + 1 < high,
            _ => true,
        }
    }

    /// How many more probes there can be at the same place if nothing can be deleted.
    pub open spec fn weight(self) -> nat {
        match self {
            Probe::Two => 1,
            Probe::Ahead(high) => high as nat,
            Probe::Between(low, high) => (high - low) as nat,
            _ => 0,
        }
    }
}

impl ShrinkerModel {
    pub open spec fn at(self, cursor: CursorModel) -> ShrinkerModel {
        ShrinkerModel { cursor, ..self }
    }

    pub open spec fn failed(self, fault: Fault) -> ShrinkerModel {
        self.at(CursorModel::Failed(fault))
    }

    /// The shrinker asks for nothing any more.
    pub open spec fn is_over(self) -> bool {
        self.cursor is Complete || self.cursor is Failed
    }

    /// A run on `attempt`, unless the target merely goes on behind it.
    pub open spec fn incorporate(self, attempt: Seq<u64>) -> Option<RequestModel> {
        if attempt.is_prefix_of(self.target.record) {
            None
        } else {
            Some(RequestModel::Run(attempt))
        }
    }

    /// A run without up to `k` draws of `target` from the draw at `i` on, unless that
    /// leaves as many blocks as there are anyway.
    pub open spec fn try_delete_range(self, target: ResultModel, i: nat, k: usize) -> Option<
        RequestModel,
    > {
        let attempt = deletion::without_draws(target, i as int, k as int);
        if attempt.len() >= self.target.record.len() {
            None
        } else {
            self.incorporate(attempt)
        }
    }

    pub open spec fn adaptive_delete(self, target: ResultModel, i: nat, probe: Probe) -> Option<
        RequestModel,
    > {
        if i < target.draws.len() {
            self.try_delete_range(target, i, probe.spec_count())
        } else {
            None
        }
    }

    /// The record with `value` at `i`, and `lost` of the blocks behind it cut out.
    pub open spec fn cut(self, i: nat, value: u64, lost: int) -> Seq<u64> {
        streams::without_range(
            self.target.record.update(i as int, value),
            i as int + 1,
            i + 1 + lost,
        )
    }

    /// Blocks that the test itself wrote are left alone.
    pub open spec fn minimize_individual_blocks(self, i: nat, stage: Stage) -> Option<
        RequestModel,
    > {
        match stage {
            Stage::Search => if duplicates::drawn(self.target, i as int) {
                Some(RequestModel::Minimize(self.target.record[i as int]))
            } else {
                None
            },
            Stage::Testing(value) => Some(
                RequestModel::Run(self.target.record.update(i as int, value)),
            ),
            Stage::Cutting(value, lost) => Some(
                RequestModel::Run(self.cut(i, value, lost as int)),
            ),
            Stage::Answered(answer) => Some(RequestModel::Answer(answer)),
        }
    }

    pub open spec fn minimize_duplicated_blocks(
        self,
        group: Seq<usize>,
        start: u64,
        base: Seq<u64>,
        stage: Stage,
    ) -> Option<RequestModel> {
        match stage {
            Stage::Testing(value) => Some(
                RequestModel::Run(streams::with_all(base, group, value)),
            ),
            Stage::Answered(answer) => Some(RequestModel::Answer(answer)),
            _ => Some(RequestModel::Minimize(start)),
        }
    }

    /// A lower block is moved forward in exchange for a higher one.
    pub open spec fn reorder_blocks(self, i: nat, j: nat) -> Option<RequestModel> {
        let record = self.target.record;
        if i < record.len() && j < record.len() && record[j as int] < record[i as int] {
            Some(RequestModel::Run(streams::swapped(record, i as int, j as int)))
        } else {
            None
        }
    }

    /// The record with the block at `i` lowered by one.
    pub open spec fn lowered(self, i: nat) -> Seq<u64> {
        self.target.record.update(i as int, (self.target.record[i as int] - 1) as u64)
    }

    /// The block at `i` is lowered by one, and on request the blocks of a later draw
    /// are deleted too.
    pub open spec fn lower_and_delete(self, i: nat, draw: Option<nat>) -> Option<RequestModel> {
        let record = self.target.record;
        let draws = self.target.draws;
        if i < record.len() && record[i as int] > 0 {
            match draw {
                None => Some(RequestModel::Run(self.lowered(i))),
                Some(d) => if d < draws.len() && draws[d as int].start > i {
                    self.incorporate(
                        streams::without_range(
                            self.lowered(i),
                            draws[d as int].start as int,
                            draws[d as int].end as int,
                        ),
                    )
                } else {
                    None
                },
            }
        } else {
            None
        }
    }

    pub open spec fn delete_all_ranges(self, i: nat, j: nat) -> Option<RequestModel> {
        let record = self.target.record;
        if i < record.len() && j < record.len() {
            self.incorporate(streams::without_range(record, i as int, j as int))
        } else {
            None
        }
    }

    /// What the shrinker asks for at the point where it stands, if anything.
    pub open spec fn request(self) -> Option<RequestModel> {
        match self.cursor {
            CursorModel::AdaptiveDelete { target, i, probe } => self.adaptive_delete(
                target,
                i,
                probe,
            ),
            CursorModel::IndividualBlocks { i, stage } => self.minimize_individual_blocks(i, stage),
            CursorModel::DuplicatedBlocks { targets, next, group, start, base, stage } =>
                self.minimize_duplicated_blocks(group, start, base, stage),
            CursorModel::ReorderBlocks { i, j } => self.reorder_blocks(i, j),
            CursorModel::LowerAndDelete { i, draw } => self.lower_and_delete(i, draw),
            CursorModel::DeleteAllRanges { i, j, start_length } => self.delete_all_ranges(i, j),
            _ => None,
        }
    }

    /// A round of passes starts if the last one has changed the target.
    pub open spec fn next_round(self) -> ShrinkerModel {
        if self.prev == self.changes {
            self.at(CursorModel::Complete)
        } else {
            ShrinkerModel {
                prev: self.changes,
                cursor: CursorModel::AdaptiveDelete {
                    target: self.target,
                    i: 0,
                    probe: Probe::Two,
                },
                ..self
            }
        }
    }

    /// A shrinker that sets out from an interesting result.
    pub open spec fn start(target: ResultModel) -> ShrinkerModel {
        ShrinkerModel {
            target,
            changes: 0,
            prev: 1,
            expensive: false,
            cursor: CursorModel::Complete,
        }.next_round().seek()
    }

    /// The next number of draws to delete, or the next draw to start from.
    pub open spec fn next_probe(
        self,
        target: ResultModel,
        i: nat,
        probe: Probe,
        deleted: bool,
    ) -> ShrinkerModel {
        match probe.spec_after(deleted) {
            Some(probe) => self.at(CursorModel::AdaptiveDelete { target, i, probe }),
            None => self.at(
                CursorModel::AdaptiveDelete { target, i: i + 1, probe: Probe::Two },
            ),
        }
    }

    /// The groups of the target are listed, which takes one size for each block.
    pub open spec fn list_groups(self, next: nat) -> ShrinkerModel {
        if self.target.record.len() != self.target.sizes.len() {
            self.failed(Fault::SizesMismatch)
        } else {
            self.at(
                CursorModel::DuplicateGroups { targets: duplicates::groups_of(self.target), next },
            )
        }
    }

    /// The expensive passes follow the others from the first round on in which the
    /// others achieve nothing.
    pub open spec fn after_cheap_passes(self) -> ShrinkerModel {
        if self.expensive || self.prev == self.changes {
            ShrinkerModel {
                expensive: true,
                cursor: CursorModel::ReorderBlocks { i: 0, j: 1 },
                ..self
            }
        } else {
            self.next_round()
        }
    }

    /// Where the shrinker goes on if there is nothing to ask for where it stands.
    pub open spec fn skip(self) -> ShrinkerModel {
        let record = self.target.record;
        match self.cursor {
            CursorModel::AdaptiveDelete { target, i, probe } => if i < target.draws.len() {
                self.next_probe(target, i, probe, false)
            } else {
                self.at(CursorModel::IndividualBlocks { i: 0, stage: Stage::Search })
            },
            CursorModel::IndividualBlocks { i, stage } => if i < record.len() {
                self.at(CursorModel::IndividualBlocks { i: i + 1, stage: Stage::Search })
            } else {
                self.list_groups(0)
            },
            CursorModel::DuplicateGroups { targets, next } => if next < targets.len() {
                let group = targets[next as int];
                if group[0] >= record.len() {
                    self.failed(Fault::OutOfRange)
                } else {
                    self.at(
                        CursorModel::DuplicatedBlocks {
                            targets,
                            next: next + 1,
                            group,
                            start: record[group[0] as int],
                            base: record,
                            stage: Stage::Search,
                        },
                    )
                }
            } else {
                self.after_cheap_passes()
            },
            CursorModel::ReorderBlocks { i, j } => if i < record.len() && j < record.len()
                && record[i as int] > 0 {
                self.at(CursorModel::ReorderBlocks { i, j: j + 1 })
            } else if i + 1 < record.len() {
                self.at(CursorModel::ReorderBlocks { i: i + 1, j: i + 2 })
            } else {
                self.at(CursorModel::LowerAndDelete { i: 0, draw: None })
            },
            CursorModel::LowerAndDelete { i, draw } => if i < record.len() {
                match draw {
                    Some(d) if d < self.target.draws.len() => self.at(
                        CursorModel::LowerAndDelete { i, draw: Some(d + 1) },
                    ),
                    _ => self.at(CursorModel::LowerAndDelete { i: i + 1, draw: None }),
                }
            } else {
                self.at(
                    CursorModel::DeleteAllRanges { i: 0, j: 1, start_length: record.len() },
                )
            },
            CursorModel::DeleteAllRanges { i, j, start_length } => if i < record.len() && j
                < record.len() {
                self.at(CursorModel::DeleteAllRanges { i, j: j + 1, start_length })
            } else if i < record.len() && start_length != record.len() {
                self.at(
                    CursorModel::DeleteAllRanges { i, j: i + 1, start_length: record.len() },
                )
            } else if i + 1 < record.len() {
                self.at(
                    CursorModel::DeleteAllRanges {
                        i: i + 1,
                        j: i + 2,
                        start_length: record.len(),
                    },
                )
            } else {
                self.next_round()
            },
            _ => self,
        }
    }

    /// How many more rounds there can be if the target stays as it is.
    pub open spec fn rounds_ahead(self) -> nat {
        if self.prev == self.changes {
            0
        } else {
            1
        }
    }

    /// How many passes of the round there are from here on.
    pub open spec fn passes_ahead(self) -> nat {
        match self.cursor {
            CursorModel::AdaptiveDelete { .. } => 6,
            CursorModel::IndividualBlocks { .. } => 5,
            CursorModel::DuplicateGroups { .. } => 4,
            CursorModel::DuplicatedBlocks { .. } => 4,
            CursorModel::ReorderBlocks { .. } => 3,
            CursorModel::LowerAndDelete { .. } => 2,
            CursorModel::DeleteAllRanges { .. } => 1,
            _ => 0,
        }
    }

    /// How much of the pass lies ahead, as three numbers of falling weight.
    pub open spec fn steps_ahead(self) -> (nat, nat, nat) {
        let length = self.target.record.len();
        match self.cursor {
            CursorModel::AdaptiveDelete { target, i, probe } => (
                ahead(i, target.draws.len()),
                probe.weight(),
                0,
            ),
            CursorModel::IndividualBlocks { i, stage } => (ahead(i, length), 0, 0),
            CursorModel::DuplicateGroups { targets, next } => (
                ahead(next, larger(targets.len(), length)),
                0,
                0,
            ),
            CursorModel::DuplicatedBlocks { targets, next, .. } => (
                ahead(next, larger(targets.len(), length)),
                1,
                0,
            ),
            CursorModel::ReorderBlocks { i, j } => (ahead(i, length), ahead(j, length), 0),
            CursorModel::LowerAndDelete { i, draw } => (
                ahead(i, length),
                match draw {
                    None => self.target.draws.len() + 1,
                    Some(d) => ahead(d, self.target.draws.len()),
                },
                0,
            ),
            CursorModel::DeleteAllRanges { i, j, start_length } => (
                ahead(i, length),
                if start_length == length {
                    0
                } else {
                    1
                },
                ahead(j, length),
            ),
            _ => (0, 0, 0),
        }
    }

    /// The point at which the shrinker next has something to ask for.
    pub open spec fn seek(self) -> ShrinkerModel
        decreases
            self.rounds_ahead(),
            self.passes_ahead(),
            self.steps_ahead().0,
            self.steps_ahead().1,
            self.steps_ahead().2,
    {
        if self.is_over() || self.request() is Some {
            self
        } else {
            self.skip().seek()
        }
    }
}

impl ShrinkerModel {
    /// Where the shrinker goes on after a run that it asked for: `ok` tells whether the
    /// result was interesting. Once as many draws as there are were to be deleted, no
    /// larger number deletes more, and the next draw is turned to.
    pub open spec fn after_run(self, ok: bool, result: ResultModel) -> ShrinkerModel {
        let record = self.target.record;
        match self.cursor {
            CursorModel::AdaptiveDelete { target, i, probe } => match probe {
                Probe::Ahead(high) if ok && high > target.draws.len() => self.at(
                    CursorModel::AdaptiveDelete { target, i: i + 1, probe: Probe::Two },
                ),
                Probe::Ahead(high) if ok && 2 * high > usize::MAX => self.failed(Fault::Overflow),
                _ => self.next_probe(target, i, probe, ok),
            },
            CursorModel::IndividualBlocks { i, stage } => match stage {
                Stage::Testing(value) => self.after_lowering(i, value, ok, result),
                _ => self.at(CursorModel::IndividualBlocks { i, stage: Stage::Answered(ok) }),
            },
            CursorModel::DuplicatedBlocks { targets, next, group, start, base, stage } => self.at(
                CursorModel::DuplicatedBlocks {
                    targets,
                    next,
                    group,
                    start,
                    base,
                    stage: Stage::Answered(ok),
                },
            ),
            CursorModel::ReorderBlocks { i, j } => self.at(
                CursorModel::ReorderBlocks { i, j: j + 1 },
            ),
            CursorModel::LowerAndDelete { i, draw } => match draw {
                None => if !ok && result.record.len() < record.len() {
                    self.at(CursorModel::LowerAndDelete { i, draw: Some(0) })
                } else {
                    self.at(CursorModel::LowerAndDelete { i: i + 1, draw: None })
                },
                Some(d) => if ok {
                    self.at(CursorModel::LowerAndDelete { i: i + 1, draw: None })
                } else {
                    self.at(CursorModel::LowerAndDelete { i, draw: Some(d + 1) })
                },
            },
            CursorModel::DeleteAllRanges { i, j, start_length } => if ok {
                self
            } else {
                self.at(CursorModel::DeleteAllRanges { i, j: j + 1, start_length })
            },
            _ => self,
        }
    }

    /// If lowering the block at `i` made a test valid that then read fewer blocks, as many
    /// blocks are cut out behind the block, and the value is given a second chance.
    pub open spec fn after_lowering(
        self,
        i: nat,
        value: u64,
        ok: bool,
        result: ResultModel,
    ) -> ShrinkerModel {
        let record = self.target.record;
        let lost = record.len() - result.record.len();
        if lost < 0 {
            self.failed(Fault::ResultTooLong)
        } else if !ok && result.status is Valid && lost > 0 {
            if i >= result.record.len() {
                self.failed(Fault::OutOfRange)
            } else if self.cut(i, value, lost).is_prefix_of(record) {
                self.at(CursorModel::IndividualBlocks { i, stage: Stage::Answered(false) })
            } else {
                self.at(
                    CursorModel::IndividualBlocks { i, stage: Stage::Cutting(value, lost as usize) },
                )
            }
        } else {
            self.at(CursorModel::IndividualBlocks { i, stage: Stage::Answered(ok) })
        }
    }

    /// An interesting result that is simpler becomes the target.
    pub open spec fn consider(self, result: ResultModel) -> ShrinkerModel {
        if result.status is Interesting && streams::simpler(result.record, self.target.record) {
            if self.changes == u64::MAX {
                self.failed(Fault::Overflow)
            } else {
                ShrinkerModel { target: result, changes: (self.changes + 1) as u64, ..self }
            }
        } else {
            self
        }
    }

    /// The run that was asked for is over.
    pub open spec fn completed(self, result: ResultModel) -> ShrinkerModel {
        self.after_run(result.status is Interesting, result).consider(result).seek()
    }

    /// The search for the lowest value proposes `value`.
    pub open spec fn candidate(self, value: u64) -> ShrinkerModel {
        let record = self.target.record;
        match self.cursor {
            CursorModel::IndividualBlocks { i, stage } => if i >= record.len() {
                self.failed(Fault::OutOfRange)
            } else if value >= record[i as int] {
                self.at(CursorModel::IndividualBlocks { i, stage: Stage::Answered(false) })
            } else {
                self.at(CursorModel::IndividualBlocks { i, stage: Stage::Testing(value) })
            },
            CursorModel::DuplicatedBlocks { targets, next, group, start, base, stage } => {
                let attempt = streams::with_all(base, group, value);
                if !streams::places_within(group, base.len()) {
                    self.failed(Fault::OutOfRange)
                } else if attempt.len() > record.len() {
                    self.failed(Fault::AttemptTooLong)
                } else if attempt.len() == record.len() && !streams::lex_less(attempt, record) {
                    self.failed(Fault::AttemptNotLower)
                } else {
                    self.at(
                        CursorModel::DuplicatedBlocks {
                            targets,
                            next,
                            group,
                            start,
                            base,
                            stage: if attempt.is_prefix_of(record) {
                                Stage::Answered(false)
                            } else {
                                Stage::Testing(value)
                            },
                        },
                    )
                }
            },
            _ => self,
        }
    }

    /// The search for the lowest value ends with `value`. Once it has lowered a group of
    /// blocks, the groups are listed anew.
    pub open spec fn minimized(self, value: u64) -> ShrinkerModel {
        match self.cursor {
            CursorModel::IndividualBlocks { i, stage } => self.at(
                CursorModel::IndividualBlocks { i: i + 1, stage: Stage::Search },
            ).seek(),
            CursorModel::DuplicatedBlocks { targets, next, group, start, base, stage } => if value
                != start {
                self.list_groups(next).seek()
            } else {
                self.at(CursorModel::DuplicateGroups { targets, next }).seek()
            },
            _ => self,
        }
    }

    /// What holds of the point at which a shrinker stands.
    pub open spec fn cursor_wf(self) -> bool {
        let record = self.target.record;
        match self.cursor {
            CursorModel::AdaptiveDelete { target, i, probe } => target.wf() && probe.wf(),
            CursorModel::IndividualBlocks { i, stage } => match stage {
                Stage::Testing(value) => i < record.len() && value < record[i as int],
                Stage::Cutting(value, lost) => 0 < lost && i + 1 + lost <= record.len(),
                Stage::Answered(_) => i < usize::MAX,
                Stage::Search => true,
            },
            CursorModel::DuplicateGroups { targets, next } => duplicates::all_nonempty(targets),
            CursorModel::DuplicatedBlocks { targets, next, group, start, base, stage } => {
                &&& duplicates::all_nonempty(targets)
                &&& match stage {
                    Stage::Testing(value) => {
                        &&& streams::places_within(group, base.len())
                        &&& streams::simpler(streams::with_all(base, group, value), record)
                    },
                    Stage::Cutting(..) => false,
                    _ => true,
                }
            },
            CursorModel::ReorderBlocks { i, j } => i < j && self.expensive,
            CursorModel::LowerAndDelete { i, draw } => self.expensive,
            CursorModel::DeleteAllRanges { i, j, start_length } => i < j && self.expensive,
            CursorModel::Complete => self.expensive && self.prev == self.changes,
            CursorModel::Failed(_) => true,
        }
    }

    /// What holds of every shrinker: its target is an interesting result, and changes
    /// are only ever added.
    pub open spec fn wf(self) -> bool {
        &&& self.target.wf()
        &&& self.target.status is Interesting
        &&& self.prev <= self.changes
        &&& self.cursor_wf()
    }

    /// The shrinker stands where it has something to ask for, unless it is over.
    pub open spec fn settled(self) -> bool {
        self.is_over() || self.request() is Some
    }

    /// The shrinker waits for a test to be run.
    pub open spec fn awaits_run(self) -> bool {
        self.request() matches Some(RequestModel::Run(_))
    }

    /// The shrinker waits for the search for the lowest value of some block.
    pub open spec fn awaits_search(self) -> bool {
        self.request() matches Some(RequestModel::Minimize(_)) || self.request() matches Some(
            RequestModel::Answer(_),
        )
    }
}

/// Every group that is listed has blocks.
proof fn lemma_groups_nonempty(result: ResultModel, n: int)
    ensures
        duplicates::all_nonempty(duplicates::groups_below(result, n)),
    decreases n,
{
    if n > 0 {
        lemma_groups_nonempty(result, n - 1);
        lemma_with_group_nonempty(
            duplicates::groups_below(result, n - 1),
            duplicates::group_of(result, n - 1),
        );
    }
}

proof fn lemma_with_group_nonempty(groups: Seq<Seq<usize>>, group: Seq<usize>)
    requires
        duplicates::all_nonempty(groups),
    ensures
        group.len() > 0 ==> duplicates::all_nonempty(duplicates::with_group(groups, group)),
    decreases groups.len(),
{
    if groups.len() > 0 {
        lemma_with_group_nonempty(groups.drop_last(), group);
    }
}

/// Passing over a point keeps the shrinker well-formed, and its target.
pub proof fn lemma_skip_wf(shrinker: ShrinkerModel)
    requires
        shrinker.wf(),
        !shrinker.is_over(),
        shrinker.request() is None,
    ensures
        shrinker.skip().wf(),
        shrinker.skip().target == shrinker.target,
        shrinker.skip().changes == shrinker.changes,
{
    lemma_groups_nonempty(shrinker.target, shrinker.target.record.len() as int);
}

/// Seeking keeps the shrinker well-formed, and its target, and ends where there is
/// something to ask for.
pub proof fn lemma_seek_wf(shrinker: ShrinkerModel)
    requires
        shrinker.wf(),
    ensures
        shrinker.seek().wf(),
        shrinker.seek().settled(),
        shrinker.seek().target == shrinker.target,
        shrinker.seek().changes == shrinker.changes,
    decreases
        shrinker.rounds_ahead(),
        shrinker.passes_ahead(),
        shrinker.steps_ahead().0,
        shrinker.steps_ahead().1,
        shrinker.steps_ahead().2,
{
    if !shrinker.settled() {
        lemma_skip_wf(shrinker);
        lemma_seek_wf(shrinker.skip());
    }
}

/// A shrinker that sets out is well-formed.
pub proof fn lemma_start_wf(target: ResultModel)
    requires
        target.wf(),
        target.status is Interesting,
    ensures
        ShrinkerModel::start(target).wf(),
        ShrinkerModel::start(target).settled(),
        ShrinkerModel::start(target).target == target,
{
    let fresh = ShrinkerModel {
        target,
        changes: 0,
        prev: 1,
        expensive: false,
        cursor: CursorModel::Complete,
    };
    lemma_seek_wf(fresh.next_round());
}

/// A finished run keeps the shrinker well-formed.
pub proof fn lemma_completed_wf(shrinker: ShrinkerModel, result: ResultModel)
    requires
        shrinker.wf(),
        shrinker.awaits_run(),
        result.wf(),
    ensures
        shrinker.after_run(result.status is Interesting, result).consider(result).wf(),
        shrinker.completed(result).wf(),
        shrinker.completed(result).settled(),
{
    lemma_seek_wf(shrinker.after_run(result.status is Interesting, result).consider(result));
}

/// A proposed value keeps the shrinker well-formed.
pub proof fn lemma_candidate_wf(shrinker: ShrinkerModel, value: u64)
    requires
        shrinker.wf(),
        shrinker.awaits_search(),
    ensures
        shrinker.candidate(value).wf(),
        shrinker.candidate(value).settled(),
        shrinker.candidate(value).target == shrinker.target,
{
}

/// The end of a search keeps the shrinker well-formed.
pub proof fn lemma_minimized_wf(shrinker: ShrinkerModel, value: u64)
    requires
        shrinker.wf(),
        shrinker.awaits_search(),
    ensures
        shrinker.cursor matches CursorModel::DuplicatedBlocks { next, .. }
            ==> shrinker.list_groups(next).wf(),
        shrinker.minimized(value).wf(),
        shrinker.minimized(value).settled(),
        shrinker.minimized(value).target == shrinker.target,
{
    lemma_groups_nonempty(shrinker.target, shrinker.target.record.len() as int);
    match shrinker.cursor {
        CursorModel::IndividualBlocks { i, stage } => {
            lemma_seek_wf(
                shrinker.at(CursorModel::IndividualBlocks { i: i + 1, stage: Stage::Search }),
            );
        },
        CursorModel::DuplicatedBlocks { targets, next, group, start, base, stage } => {
            lemma_seek_wf(shrinker.list_groups(next));
            lemma_seek_wf(shrinker.at(CursorModel::DuplicateGroups { targets, next }));
        },
        _ => {},
    }
}

/// The larger of two numbers.
pub open spec fn larger(a: nat, b: nat) -> nat {
    if a < b {
        b
    } else {
        a
    }
}

/// How far `place` is from `end`.
pub open spec fn ahead(place: nat, end: nat) -> nat {
    if place < end {
        (end - place) as nat
    } else {
        0
    }
}

} // verus!
