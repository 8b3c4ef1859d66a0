//! The data types of a test run: the source that a test draws from, and the result
//! that is left of the source once the test is over.

use rand::ChaChaRng;
use std::collections::HashSet;
use vstd::arithmetic::power2::pow2;
use vstd::prelude::*;

use crate::random;
use crate::streams;

verus! {

broadcast use vstd::std_specs::hash::group_hash_axioms;

/// The data that a test has drawn, block by block.
pub type DataStream = Vec<u64>;

/// The source has no more data to draw.
#[derive(Debug, Clone, Copy)]
pub struct FailedDraw;

/// Where the blocks of a source come from.
#[derive(Debug)]
enum BitGenerator {
    Random(ChaChaRng),
    Recorded(DataStream),
}

/// A single draw call of a test, which may still be going on.
#[derive(Debug, Clone, Copy)]
pub struct DrawInProgress {
    depth: usize,
    start: usize,
    end: Option<usize>,
}

/// A single draw call of a test: the blocks from `start` up to `end`, and how many
/// other draws it was made in.
#[derive(Debug, Clone, Copy)]
pub struct Draw {
    pub depth: usize,
    pub start: usize,
    pub end: usize,
}

/// What came of a test run.
#[derive(Debug, Clone, Copy, PartialEq, Eq, Structural)]
pub enum Status {
    /// The test tried to read more data than there was for it.
    Overflow,
    /// Some important precondition of the test was not satisfied.
    Invalid,
    /// The test ran to completion without anything of note happening.
    Valid,
    /// The test run was interesting. Usually this means that it failed.
    Interesting,
}

/// What a test draws its data from. The source records what was drawn.
#[derive(Debug)]
pub struct DataSource {
    bitgenerator: BitGenerator,
    record: DataStream,
    sizes: Vec<u64>,
    draws: Vec<DrawInProgress>,
    draw_stack: Vec<usize>,
    written_indices: HashSet<usize>,
}

/// What is kept of a data source once its test is over.
#[derive(Debug)]
pub struct TestResult {
    pub record: DataStream,
    pub status: Status,
    pub draws: Vec<Draw>,
    pub sizes: Vec<u64>,
    pub written_indices: HashSet<usize>,
}

/// The model of where blocks come from: the words of a generator, or given blocks.
pub enum GeneratorModel {
    Random(Map<nat, u32>),
    Recorded(Seq<u64>),
}

/// The model of a draw that may still be going on.
pub struct DrawModel {
    pub depth: nat,
    pub start: nat,
    pub end: Option<nat>,
}

/// The model of a data source.
pub struct SourceModel {
    /// Where the next blocks come from.
    pub generator: GeneratorModel,
    /// The blocks drawn and written so far.
    pub record: Seq<u64>,
    /// The bits asked for, one entry for each request, 0 for a write.
    pub sizes: Seq<u64>,
    /// The draws in the order in which they were started.
    pub draws: Seq<DrawModel>,
    /// The draws that are going on, by their place in `draws`, the outermost first.
    pub draw_stack: Seq<nat>,
    pub written_indices: Set<usize>,
}

/// The model of a test result.
pub struct ResultModel {
    pub record: Seq<u64>,
    pub status: Status,
    pub draws: Seq<Draw>,
    pub sizes: Seq<u64>,
    pub written_indices: Set<usize>,
}

/// The lowest `n_bits` bits of `value`; all of it from 64 bits on.
pub open spec fn low_bits(value: u64, n_bits: u64) -> u64 {
    if n_bits < 64 {
        (value as nat % pow2(n_bits as nat)) as u64
    } else {
        value
    }
}

/// The draws that are over and cover at least one block, in the order of `draws`.
pub open spec fn finished_draws(draws: Seq<DrawModel>) -> Seq<Draw>
    decreases draws.len(),
{
    if draws.len() == 0 {
        Seq::empty()
    } else {
        let earlier = finished_draws(draws.drop_last());
        let last = draws.last();
        match last.end {
            Some(end) if last.start < end => earlier.push(
                Draw {
                    depth: last.depth as usize,
                    start: last.start as usize,
                    end: end as usize,
                },
            ),
            _ => earlier,
        }
    }
}

impl GeneratorModel {
    /// The next block, for a source that has `drawn` blocks on record: a recorded
    /// stream has none left once as many blocks are on record as it holds.
    pub open spec fn block(self, drawn: nat) -> Option<u64> {
        match self {
            GeneratorModel::Random(words) => Some(random::leading_u64(words)),
            GeneratorModel::Recorded(blocks) => if drawn < blocks.len() {
                Some(blocks[drawn as int])
            } else {
                None
            },
        }
    }

    /// Whether one more block fits on the record of a source with `drawn` blocks.
    pub open spec fn has_room(self, drawn: nat) -> bool {
        match self {
            GeneratorModel::Random(_) => true,
            GeneratorModel::Recorded(blocks) => drawn < blocks.len(),
        }
    }

    /// The generator after one block has been taken from it.
    pub open spec fn advanced(self) -> GeneratorModel {
        match self {
            GeneratorModel::Random(words) => GeneratorModel::Random(random::words_from(words, 2)),
            GeneratorModel::Recorded(blocks) => GeneratorModel::Recorded(blocks),
        }
    }
}

impl DrawModel {
    /// The `later` draw is deeper as long as this one is going on. If this one is over,
    /// the later one either started behind it, or is deeper and ended inside it.
    pub open spec fn nests(self, later: DrawModel) -> bool {
        match self.end {
            Some(end) => later.start >= end || (later.end matches Some(later_end)
                && later_end <= end && later.depth > self.depth),
            None => later.depth > self.depth,
        }
    }
}

/// The `later` draw lies behind the earlier one, or inside it and then deeper.
pub open spec fn draws_nest(earlier: Draw, later: Draw) -> bool {
    later.start >= earlier.end || (later.end <= earlier.end && later.depth > earlier.depth)
}

impl SourceModel {
    /// A source from which nothing has been drawn.
    pub open spec fn fresh(generator: GeneratorModel) -> SourceModel {
        SourceModel {
            generator,
            record: Seq::empty(),
            sizes: Seq::empty(),
            draws: Seq::empty(),
            draw_stack: Seq::empty(),
            written_indices: Set::empty(),
        }
    }

    /// What holds of every source: the stack lists, in order, the draws that are going
    /// on, each at its depth; draws start in the order of the record, lie within it, and
    /// lie either inside one another, the inner one deeper, or apart; no draw is deeper
    /// than there are draws before it; and every block on record was asked for.
    pub open spec fn wf(self) -> bool {
        &&& forall|k: int|
            0 <= k < self.draw_stack.len() ==> {
                &&& #[trigger] self.draw_stack[k] < self.draws.len()
                &&& self.draws[self.draw_stack[k] as int].end is None
                &&& self.draws[self.draw_stack[k] as int].depth == k
            }
        &&& forall|k: int, m: int|
            0 <= k < m < self.draw_stack.len() ==> #[trigger] self.draw_stack[k]
                < #[trigger] self.draw_stack[m]
        &&& forall|d: int|
            0 <= d < self.draws.len() && (#[trigger] self.draws[d]).end is None
                ==> self.draw_stack.contains(d as nat)
        &&& forall|d: int|
            0 <= d < self.draws.len() ==> {
                &&& (#[trigger] self.draws[d]).start <= self.record.len()
                &&& self.draws[d].end matches Some(end) ==> self.draws[d].start <= end
                    <= self.record.len()
            }
        &&& forall|c: int, d: int|
            0 <= c < d < self.draws.len() ==> (#[trigger] self.draws[c]).start <= (
            #[trigger] self.draws[d]).start
        &&& forall|c: int, d: int|
            0 <= c < d < self.draws.len() ==> #[trigger] self.draws[c].nests(
                #[trigger] self.draws[d],
            )
        &&& forall|d: int|
            0 <= d < self.draws.len() ==> (#[trigger] self.draws[d]).depth <= d
        &&& self.draw_stack.len() <= self.draws.len()
        &&& self.record.len() <= self.sizes.len()
    }

    /// Its blocks and draws can be counted.
    pub open spec fn fits(self) -> bool {
        self.record.len() <= usize::MAX && self.draws.len() <= usize::MAX
    }

    /// A draw starts at the end of the record, inside those that are going on.
    pub open spec fn start_draw(self) -> SourceModel {
        SourceModel {
            draws: self.draws.push(
                DrawModel { depth: self.draw_stack.len(), start: self.record.len(), end: None },
            ),
            draw_stack: self.draw_stack.push(self.draws.len()),
            ..self
        }
    }

    /// The innermost draw ends at the end of the record.
    pub open spec fn stop_draw(self) -> SourceModel {
        let place = self.draw_stack.last() as int;
        SourceModel {
            draws: self.draws.update(
                place,
                DrawModel { end: Some(self.record.len()), ..self.draws[place] },
            ),
            draw_stack: self.draw_stack.drop_last(),
            ..self
        }
    }

    /// `value` is put on record, unless the source is out of data.
    pub open spec fn write(self, value: u64) -> (SourceModel, Result<(), FailedDraw>) {
        if self.generator.has_room(self.record.len()) {
            (
                SourceModel { record: self.record.push(value), sizes: self.sizes.push(0), ..self },
                Ok(()),
            )
        } else {
            (self, Err(FailedDraw))
        }
    }

    /// The low bits of the next block are put on record and handed out, unless the
    /// source is out of data. The request itself is counted in either case.
    pub open spec fn bits(self, n_bits: u64) -> (SourceModel, Result<u64, FailedDraw>) {
        let asked = SourceModel { sizes: self.sizes.push(n_bits), ..self };
        match self.generator.block(self.record.len()) {
            Some(block) => {
                let value = low_bits(block, n_bits);
                (
                    SourceModel {
                        generator: self.generator.advanced(),
                        record: self.record.push(value),
                        ..asked
                    },
                    Ok(value),
                )
            },
            None => (asked, Err(FailedDraw)),
        }
    }

    /// Only a test that was cut short may leave a draw going on.
    pub open spec fn may_finish(self, status: Status) -> bool {
        self.draw_stack.len() > 0 ==> status is Invalid || status is Overflow
    }

    /// What is left of the source once its test is over.
    pub open spec fn result(self, status: Status) -> ResultModel {
        ResultModel {
            record: self.record,
            status,
            draws: finished_draws(self.draws),
            sizes: self.sizes,
            written_indices: self.written_indices,
        }
    }
}

impl ResultModel {
    /// What holds of the result of every source: its draws cover blocks of the record,
    /// start in the order of the record, and lie either inside one another, the inner one
    /// deeper, or apart; every block on record was asked for; and places can be counted.
    pub open spec fn wf(self) -> bool {
        &&& self.record.len() <= usize::MAX
        &&& forall|d: int|
            0 <= d < self.draws.len() ==> (#[trigger] self.draws[d]).start < self.draws[d].end
                <= self.record.len()
        &&& forall|c: int, d: int|
            0 <= c < d < self.draws.len() ==> (#[trigger] self.draws[c]).start <= (
            #[trigger] self.draws[d]).start
        &&& forall|c: int, d: int|
            0 <= c < d < self.draws.len() ==> draws_nest(
                #[trigger] self.draws[c],
                #[trigger] self.draws[d],
            )
        &&& self.record.len() <= self.sizes.len()
    }
}

impl View for BitGenerator {
    type V = GeneratorModel;

    closed spec fn view(&self) -> GeneratorModel {
        match *self {
            BitGenerator::Random(random) => GeneratorModel::Random(random::words_ahead(random)),
            BitGenerator::Recorded(blocks) => GeneratorModel::Recorded(blocks@),
        }
    }
}

impl View for DrawInProgress {
    type V = DrawModel;

    closed spec fn view(&self) -> DrawModel {
        DrawModel {
            depth: self.depth as nat,
            start: self.start as nat,
            end: match self.end {
                Some(end) => Some(end as nat),
                None => None,
            },
        }
    }
}

impl View for DataSource {
    type V = SourceModel;

    closed spec fn view(&self) -> SourceModel {
        SourceModel {
            generator: self.bitgenerator@,
            record: self.record@,
            sizes: self.sizes@,
            draws: self.draws@.map_values(|draw: DrawInProgress| draw@),
            draw_stack: self.draw_stack@.map_values(|place: usize| place as nat),
            written_indices: self.written_indices@,
        }
    }
}

impl View for TestResult {
    type V = ResultModel;

    open spec fn view(&self) -> ResultModel {
        ResultModel {
            record: self.record@,
            status: self.status,
            draws: self.draws@,
            sizes: self.sizes@,
            written_indices: self.written_indices@,
        }
    }
}

/// A copy of a set of places.
fn copy_of_places(places: &HashSet<usize>) -> (copy: HashSet<usize>)
    ensures
        copy@ == places@,
{
    let mut copy: HashSet<usize> = HashSet::new();
    for place in iter: places.iter()
        invariant
            iter.seq().unref().to_set() == places@,
            forall|k: int| 0 <= k < iter.index() ==> copy@.contains(*#[trigger] iter.seq()[k]),
            forall|p: usize| #[trigger] copy@.contains(p) ==> places@.contains(p),
    {
        assert(iter.seq().unref()[iter.index()] == *place);
        copy.insert(*place);
    }
    assert(copy@ =~= places@);
    copy
}

impl Clone for BitGenerator {
    fn clone(&self) -> (copy: BitGenerator)
        ensures
            copy@ == self@,
    {
        match self {
            BitGenerator::Random(random) => BitGenerator::Random(*random),
            BitGenerator::Recorded(blocks) => BitGenerator::Recorded(streams::copy_of(blocks)),
        }
    }
}

impl Clone for DataSource {
    fn clone(&self) -> (copy: DataSource)
        ensures
            copy@ == self@,
    {
        let copy = DataSource {
            bitgenerator: self.bitgenerator.clone(),
            record: streams::copy_of(&self.record),
            sizes: streams::copy_of(&self.sizes),
            draws: self.draws.clone(),
            draw_stack: self.draw_stack.clone(),
            written_indices: copy_of_places(&self.written_indices),
        };
        assert(copy@.draws =~= self@.draws);
        assert(copy@.draw_stack =~= self@.draw_stack);
        copy
    }
}

impl Clone for TestResult {
    fn clone(&self) -> (copy: TestResult)
        ensures
            copy@ == self@,
    {
        let copy = TestResult {
            record: streams::copy_of(&self.record),
            status: self.status,
            draws: self.draws.clone(),
            sizes: streams::copy_of(&self.sizes),
            written_indices: copy_of_places(&self.written_indices),
        };
        assert(copy@.draws =~= self@.draws);
        copy
    }
}

/// Masking all but the lowest `n_bits` bits keeps these.
proof fn lemma_mask(value: u64, n_bits: u64)
    requires
        n_bits < 64,
    ensures
        1u64 << n_bits >= 1,
        value & (((1u64 << n_bits) - 1) as u64) == low_bits(value, n_bits),
{
    vstd::bits::lemma_u64_pow2_no_overflow(n_bits as nat);
    vstd::arithmetic::power2::lemma_pow2_pos(n_bits as nat);
    vstd::bits::lemma_u64_shl_is_mul(1, n_bits);
    vstd::bits::lemma_u64_low_bits_mask_is_mod(value, n_bits as nat);
}

/// Starting a draw keeps a source well-formed.
pub proof fn lemma_start_draw_wf(source: SourceModel)
    requires
        source.wf(),
    ensures
        source.start_draw().wf(),
{
    let after = source.start_draw();
    assert forall|d: int|
        0 <= d < after.draws.len() && (
        #[trigger] after.draws[d]).end is None implies after.draw_stack.contains(d as nat) by {
        if d < source.draws.len() {
            assert(source.draws[d].end is None);
            let k = choose|k: int|
                0 <= k < source.draw_stack.len() && source.draw_stack[k] == d as nat;
            assert(after.draw_stack[k] == d as nat);
        } else {
            assert(after.draw_stack[source.draw_stack.len() as int] == d as nat);
        }
    }
}

/// Ending the innermost draw keeps a source well-formed.
pub proof fn lemma_stop_draw_wf(source: SourceModel)
    requires
        source.wf(),
        source.draw_stack.len() > 0,
    ensures
        source.stop_draw().wf(),
{
    let after = source.stop_draw();
    let top = source.draw_stack.len() - 1;
    let place = source.draw_stack[top] as int;
    assert forall|c: int, d: int| 0 <= c < d < after.draws.len() implies (
    #[trigger] after.draws[c]).nests(#[trigger] after.draws[d]) by {
        assert(source.draws[c].nests(source.draws[d]));
        if c == place && source.draws[d].end is None {
            let k = choose|k: int|
                0 <= k < source.draw_stack.len() && source.draw_stack[k] == d as nat;
            assert(k < top ==> source.draw_stack[k] < source.draw_stack[top]);
        }
    }
    assert forall|k: int| 0 <= k < after.draw_stack.len() implies {
        &&& #[trigger] after.draw_stack[k] < after.draws.len()
        &&& after.draws[after.draw_stack[k] as int].end is None
        &&& after.draws[after.draw_stack[k] as int].depth == k
    } by {
        assert(source.draw_stack[k] < source.draw_stack[top]);
    }
    assert forall|d: int|
        0 <= d < after.draws.len() && (
        #[trigger] after.draws[d]).end is None implies after.draw_stack.contains(d as nat) by {
        assert(source.draws[d].end is None);
        let k = choose|k: int|
            0 <= k < source.draw_stack.len() && source.draw_stack[k] == d as nat;
        assert(after.draw_stack[k] == d as nat);
    }
}

/// The draws of a source lie within its record, in order, inside one another or apart,
/// and none is deeper than there are draws before it.
spec fn draws_in_order(draws: Seq<DrawModel>, length: nat) -> bool {
    &&& forall|d: int|
        0 <= d < draws.len() ==> {
            &&& (#[trigger] draws[d]).start <= length
            &&& draws[d].end matches Some(end) ==> draws[d].start <= end <= length
        }
    &&& forall|c: int, d: int|
        0 <= c < d < draws.len() ==> (#[trigger] draws[c]).start <= (#[trigger] draws[d]).start
    &&& forall|c: int, d: int|
        0 <= c < d < draws.len() ==> #[trigger] draws[c].nests(#[trigger] draws[d])
    &&& forall|d: int| 0 <= d < draws.len() ==> (#[trigger] draws[d]).depth <= d
}

/// Every finished draw is one of the draws.
proof fn lemma_finished_draw(draws: Seq<DrawModel>, length: nat, f: int) -> (d: int)
    requires
        length <= usize::MAX,
        draws.len() <= usize::MAX,
        draws_in_order(draws, length),
        0 <= f < finished_draws(draws).len(),
    ensures
        0 <= d < draws.len(),
        finished_draws(draws)[f].depth == draws[d].depth,
        finished_draws(draws)[f].start == draws[d].start,
        draws[d].end == Some(finished_draws(draws)[f].end as nat),
        draws[d].start < draws[d].end->0,
    decreases draws.len(),
{
    let earlier = draws.drop_last();
    if f < finished_draws(earlier).len() {
        let d = lemma_finished_draw(earlier, length, f);
        assert(earlier[d] == draws[d]);
        d
    } else {
        draws.len() - 1
    }
}

/// The finished draws of a source lie where its draws lie.
proof fn lemma_finished_draws(draws: Seq<DrawModel>, length: nat)
    requires
        length <= usize::MAX,
        draws.len() <= usize::MAX,
        draws_in_order(draws, length),
    ensures
        forall|d: int|
            0 <= d < finished_draws(draws).len() ==> (#[trigger] finished_draws(draws)[d]).start
                < finished_draws(draws)[d].end <= length,
        forall|c: int, d: int|
            0 <= c < d < finished_draws(draws).len() ==> (#[trigger] finished_draws(
                draws,
            )[c]).start <= (#[trigger] finished_draws(draws)[d]).start,
        forall|c: int, d: int|
            0 <= c < d < finished_draws(draws).len() ==> draws_nest(
                #[trigger] finished_draws(draws)[c],
                #[trigger] finished_draws(draws)[d],
            ),
    decreases draws.len(),
{
    if draws.len() > 0 {
        let earlier = draws.drop_last();
        let finished = finished_draws(earlier);
        lemma_finished_draws(earlier, length);
        assert forall|c: int| 0 <= c < finished.len() implies {
            &&& (#[trigger] finished[c]).start <= draws.last().start
            &&& draws.last().start >= finished[c].end || (draws.last().end matches Some(end)
                && end <= finished[c].end && draws.last().depth > finished[c].depth)
        } by {
            let d = lemma_finished_draw(earlier, length, c);
            assert(draws[d].nests(draws[draws.len() - 1]));
            assert(draws[d].start <= draws[draws.len() - 1].start);
        }
    }
}

/// The result of every source is well-formed.
pub proof fn lemma_result_wf(source: SourceModel, status: Status)
    requires
        source.wf(),
        source.fits(),
    ensures
        source.result(status).wf(),
{
    lemma_finished_draws(source.draws, source.record.len());
}

impl DataSource {
    pub open spec fn wf(&self) -> bool {
        self@.wf()
    }

    fn new(generator: BitGenerator) -> (source: DataSource)
        ensures
            source.wf(),
            source@ == SourceModel::fresh(generator@),
    {
        let source = DataSource {
            bitgenerator: generator,
            record: DataStream::new(),
            sizes: Vec::new(),
            draws: Vec::new(),
            draw_stack: Vec::new(),
            written_indices: HashSet::new(),
        };
        assert(source@.draws =~= Seq::empty());
        assert(source@.draw_stack =~= Seq::empty());
        source
    }

    /// A source whose blocks are random.
    pub fn from_random(random: ChaChaRng) -> (source: DataSource)
        ensures
            source.wf(),
            source@ == SourceModel::fresh(GeneratorModel::Random(random::words_ahead(random))),
    {
        DataSource::new(BitGenerator::Random(random))
    }

    /// A source whose blocks are those of `record`.
    pub fn from_vec(record: DataStream) -> (source: DataSource)
        ensures
            source.wf(),
            source@ == SourceModel::fresh(GeneratorModel::Recorded(record@)),
    {
        DataSource::new(BitGenerator::Recorded(record))
    }

    /// Starts a draw inside those that are going on.
    pub fn start_draw(&mut self)
        requires
            old(self).wf(),
        ensures
            final(self).wf(),
            final(self)@ == old(self)@.start_draw(),
    {
        let i: usize = self.draws.len();
        let depth: usize = self.draw_stack.len();
        let start: usize = self.record.len();

        self.draw_stack.push(i);
        self.draws.push(DrawInProgress { depth, start, end: None });
        proof {
            let before = old(self)@;
            assert(self@.draws =~= before.start_draw().draws);
            assert(self@.draw_stack =~= before.start_draw().draw_stack);
            lemma_start_draw_wf(before);
        }
    }

    /// Ends the innermost of the draws that are going on.
    pub fn stop_draw(&mut self)
        requires
            old(self).wf(),
            old(self)@.draw_stack.len() > 0,
        ensures
            final(self).wf(),
            final(self)@ == old(self)@.stop_draw(),
    {
        let ghost before = self@;
        let ghost top = before.draw_stack.len() - 1;
        assert(before.draw_stack[top] < before.draws.len());
        assert(self.draw_stack@.len() > 0);
        let i: usize = self.draw_stack.pop().unwrap();
        assert(i == before.draw_stack[top]);
        let end: usize = self.record.len();
        let draw: DrawInProgress = self.draws[i];
        self.draws.set(i, DrawInProgress { end: Some(end), ..draw });
        proof {
            assert(self@.draws =~= before.stop_draw().draws);
            assert(self@.draw_stack =~= before.stop_draw().draw_stack);
            lemma_stop_draw_wf(before);
        }
    }

    /// How many draws are going on.
    pub fn open_draws(&self) -> (count: usize)
        ensures
            count == self@.draw_stack.len(),
    {
        self.draw_stack.len()
    }

    /// Puts `value` on record as a block of its own.
    pub fn write(&mut self, value: u64) -> (outcome: Result<(), FailedDraw>)
        requires
            old(self).wf(),
        ensures
            final(self).wf(),
            final(self)@ == old(self)@.write(value).0,
            outcome == old(self)@.write(value).1,
    {
        match &self.bitgenerator {
            BitGenerator::Recorded(blocks) if self.record.len() >= blocks.len() => Err(FailedDraw),
            _ => {
                self.sizes.push(0);
                self.record.push(value);
                Ok(())
            },
        }
    }

    /// Draws a block of `n_bits` bits.
    pub fn bits(&mut self, n_bits: u64) -> (outcome: Result<u64, FailedDraw>)
        requires
            old(self).wf(),
        ensures
            final(self).wf(),
            final(self)@ == old(self)@.bits(n_bits).0,
            outcome == old(self)@.bits(n_bits).1,
    {
        self.sizes.push(n_bits);
        let drawn: usize = self.record.len();
        let mut result: u64 = match &mut self.bitgenerator {
            BitGenerator::Random(random) => random::next_u64(random),
            BitGenerator::Recorded(blocks) => {
                if drawn >= blocks.len() {
                    return Err(FailedDraw);
                }
                blocks[drawn]
            },
        };

        if n_bits < 64 {
            proof {
                lemma_mask(result, n_bits);
            }
            let mask: u64 = (1u64 << n_bits) - 1;
            result = result & mask;
        }
        self.record.push(result);
        Ok(result)
    }

    /// Ends the test that drew from this source.
    pub fn to_result(self, status: Status) -> (result: TestResult)
        requires
            self.wf(),
            self@.may_finish(status),
        ensures
            result@ == self@.result(status),
            result@.wf(),
    {
        let ghost model = self@;
        assert(model.fits()) by {
            assert(self.record@.len() == self.record.len());
            assert(self.draws@.len() == self.draws.len());
        }
        let mut draws: Vec<Draw> = Vec::new();
        let mut k: usize = 0;
        while k < self.draws.len()
            invariant
                k <= self.draws@.len(),
                model.draws == self.draws@.map_values(|draw: DrawInProgress| draw@),
                draws@ == finished_draws(model.draws.take(k as int)),
            decreases self.draws@.len() - k,
        {
            let draw: DrawInProgress = self.draws[k];
            proof {
                assert(model.draws.take(k + 1).drop_last() =~= model.draws.take(k as int));
                assert(model.draws.take(k + 1).last() == draw@);
            }
            match draw.end {
                Some(end) if draw.start < end => {
                    draws.push(Draw { depth: draw.depth, start: draw.start, end });
                },
                _ => {},
            }
            k += 1;
        }
        proof {
            assert(model.draws.take(k as int) =~= model.draws);
            lemma_result_wf(model, status);
        }
        TestResult {
            record: self.record,
            status,
            draws,
            sizes: self.sizes,
            written_indices: self.written_indices,
        }
    }
}

} // verus!
