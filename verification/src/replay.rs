//! Running a test again on the record that it left.

use vstd::arithmetic::power2::pow2;
use vstd::prelude::*;

use crate::data;
use crate::data::{FailedDraw, GeneratorModel, SourceModel, Status};
use crate::streams;

verus! {

/// What a test does with its source.
pub enum Op {
    StartDraw,
    StopDraw,
    Write(u64),
    Bits(u64),
}

/// The source after `op`.
pub open spec fn step(source: SourceModel, op: Op) -> SourceModel {
    match op {
        Op::StartDraw => source.start_draw(),
        Op::StopDraw => source.stop_draw(),
        Op::Write(value) => source.write(value).0,
        Op::Bits(n_bits) => source.bits(n_bits).0,
    }
}

/// What the test is told of `op`: the bits that it asked for, 0 where there is nothing
/// to tell.
pub open spec fn outcome(source: SourceModel, op: Op) -> Result<u64, FailedDraw> {
    match op {
        Op::StartDraw => Ok(0),
        Op::StopDraw => Ok(0),
        Op::Write(value) => match source.write(value).1 {
            Ok(()) => Ok(0),
            Err(failed) => Err(failed),
        },
        Op::Bits(n_bits) => source.bits(n_bits).1,
    }
}

/// The source after all of `ops`.
pub open spec fn played(source: SourceModel, ops: Seq<Op>) -> SourceModel
    decreases ops.len(),
{
    if ops.len() == 0 {
        source
    } else {
        step(played(source, ops.drop_last()), ops.last())
    }
}

/// A draw is only ended where one is going on.
pub open spec fn balanced(source: SourceModel, ops: Seq<Op>) -> bool
    decreases ops.len(),
{
    ops.len() == 0 || (balanced(source, ops.drop_last()) && (ops.last() is StopDraw ==> played(
        source,
        ops.drop_last(),
    ).draw_stack.len() > 0))
}

/// What the test is told of each of `ops`.
pub open spec fn outcomes(source: SourceModel, ops: Seq<Op>) -> Seq<Result<u64, FailedDraw>>
    decreases ops.len(),
{
    if ops.len() == 0 {
        Seq::empty()
    } else {
        outcomes(source, ops.drop_last()).push(
            outcome(played(source, ops.drop_last()), ops.last()),
        )
    }
}

/// Two sources hold the same but for where their blocks come from.
pub open spec fn same_record(a: SourceModel, b: SourceModel) -> bool {
    a == (SourceModel { generator: a.generator, ..b })
}

/// The low bits of low bits are these bits.
proof fn lemma_low_bits_again(value: u64, n_bits: u64)
    ensures
        data::low_bits(data::low_bits(value, n_bits), n_bits) == data::low_bits(value, n_bits),
{
    if n_bits < 64 {
        vstd::arithmetic::power2::lemma_pow2_pos(n_bits as nat);
        let m = pow2(n_bits as nat) as int;
        vstd::arithmetic::div_mod::lemma_mod_bound(value as int, m);
        vstd::arithmetic::div_mod::lemma_mod_decreases(value as nat, m as nat);
        vstd::arithmetic::div_mod::lemma_small_mod((value as nat % m as nat), m as nat);
    }
}

proof fn lemma_low_bits_no_higher(value: u64, n_bits: u64)
    ensures
        data::low_bits(value, n_bits) <= value,
{
    if n_bits < 64 {
        vstd::arithmetic::power2::lemma_pow2_pos(n_bits as nat);
        vstd::arithmetic::div_mod::lemma_mod_decreases(value as nat, pow2(n_bits as nat));
    }
}

/// Blocks that are on record stay there, and a source that is out of data stays so.
proof fn lemma_record_grows(source: SourceModel, ops: Seq<Op>, n: int)
    requires
        0 <= n <= ops.len(),
    ensures
        played(source, ops.take(n)).record.is_prefix_of(played(source, ops).record),
        ({
            let earlier = played(source, ops.take(n));
            !earlier.generator.has_room(earlier.record.len()) ==> played(source, ops).record
                == earlier.record && !played(source, ops).generator.has_room(
                played(source, ops).record.len(),
            )
        }),
    decreases ops.len(),
{
    if n == ops.len() {
        assert(ops.take(n) =~= ops);
    } else {
        lemma_record_grows(source, ops.drop_last(), n);
        assert(ops.drop_last().take(n) =~= ops.take(n));
    }
}

/// Replaying is in step with the first run after every op.
proof fn lemma_replay(generator: GeneratorModel, ops: Seq<Op>, n: int)
    requires
        0 <= n <= ops.len(),
    ensures
        ({
            let source = SourceModel::fresh(generator);
            let record = played(source, ops).record;
            let again = SourceModel::fresh(GeneratorModel::Recorded(record));
            &&& played(again, ops.take(n)).generator == GeneratorModel::Recorded(record)
            &&& same_record(played(source, ops.take(n)), played(again, ops.take(n)))
            &&& outcomes(source, ops.take(n)) == outcomes(again, ops.take(n))
        }),
    decreases n,
{
    let source = SourceModel::fresh(generator);
    let record = played(source, ops).record;
    let again = SourceModel::fresh(GeneratorModel::Recorded(record));
    if n == 0 {
        assert(ops.take(n) =~= Seq::empty());
    } else {
        lemma_replay(generator, ops, n - 1);
        assert(ops.take(n).drop_last() =~= ops.take(n - 1));
        let op = ops[n - 1];
        assert(ops.take(n).last() == op);
        let a = played(source, ops.take(n - 1));
        let b = played(again, ops.take(n - 1));
        let after = played(source, ops.take(n));
        assert(after == step(a, op));
        lemma_record_grows(source, ops, n - 1);
        lemma_record_grows(source, ops, n);
        match op {
            Op::Bits(n_bits) => {
                match a.generator.block(a.record.len()) {
                    Some(block) => {
                        let value = data::low_bits(block, n_bits);
                        lemma_low_bits_again(block, n_bits);
                        assert(after.record[a.record.len() as int] == value);
                        assert(record[a.record.len() as int] == value);
                    },
                    None => {},
                }
            },
            Op::Write(value) => {
                if a.generator.has_room(a.record.len()) {
                    assert(after.record.len() == a.record.len() + 1);
                }
            },
            _ => {},
        }
    }
}

/// Running a test again on the record that it left repeats the run: whatever the test
/// does with its source, it is told the same, and the source ends up the same. It makes
/// no difference whether the first run was on random data or on recorded data, nor
/// whether it ran out of data.
pub proof fn law_replay(generator: GeneratorModel, ops: Seq<Op>)
    ensures
        ({
            let source = SourceModel::fresh(generator);
            let record = played(source, ops).record;
            let again = SourceModel::fresh(GeneratorModel::Recorded(record));
            &&& outcomes(again, ops) == outcomes(source, ops)
            &&& same_record(played(source, ops), played(again, ops))
            &&& forall|status: Status|
                played(again, ops).result(status) == #[trigger] played(source, ops).result(status)
        }),
{
    lemma_replay(generator, ops, ops.len() as int);
    assert(ops.take(ops.len() as int) =~= ops);
}

/// The test that chooses each op by what it was told before does `ops`, and no more, when
/// it is run on `source`.
pub open spec fn follows(
    test: spec_fn(Seq<Result<u64, FailedDraw>>) -> Option<Op>,
    source: SourceModel,
    ops: Seq<Op>,
) -> bool {
    &&& forall|n: int|
        0 <= n < ops.len() ==> test(#[trigger] outcomes(source, ops.take(n))) == Some(ops[n])
    &&& test(outcomes(source, ops)) is None
}

/// A test that chooses each op by what it was told before does the same again when it is
/// run on the record that it left, and leaves the same.
pub proof fn law_replay_of_test(
    test: spec_fn(Seq<Result<u64, FailedDraw>>) -> Option<Op>,
    generator: GeneratorModel,
    ops: Seq<Op>,
)
    requires
        follows(test, SourceModel::fresh(generator), ops),
    ensures
        ({
            let source = SourceModel::fresh(generator);
            let record = played(source, ops).record;
            let again = SourceModel::fresh(GeneratorModel::Recorded(record));
            &&& follows(test, again, ops)
            &&& forall|status: Status|
                played(again, ops).result(status) == #[trigger] played(source, ops).result(status)
        }),
{
    law_replay(generator, ops);
    let source = SourceModel::fresh(generator);
    let again = SourceModel::fresh(GeneratorModel::Recorded(played(source, ops).record));
    assert forall|n: int| 0 <= n < ops.len() implies test(
        #[trigger] outcomes(again, ops.take(n)),
    ) == Some(ops[n]) by {
        lemma_replay(generator, ops, n);
        assert(outcomes(source, ops.take(n)) == outcomes(again, ops.take(n)));
    }
}

/// Some bits that the test asked for were not to be had.
pub open spec fn ran_out(source: SourceModel, ops: Seq<Op>) -> bool
    decreases ops.len(),
{
    ops.len() > 0 && (ran_out(source, ops.drop_last()) || (ops.last() is Bits && outcome(
        played(source, ops.drop_last()),
        ops.last(),
    ) is Err))
}

/// A source has one size for each block on record, unless bits were asked for that were
/// not to be had: then it has more sizes than blocks.
pub proof fn law_sizes(generator: GeneratorModel, ops: Seq<Op>)
    ensures
        ({
            let source = SourceModel::fresh(generator);
            let after = played(source, ops);
            &&& after.record.len() <= after.sizes.len()
            &&& ran_out(source, ops) <==> after.record.len() < after.sizes.len()
        }),
    decreases ops.len(),
{
    if ops.len() > 0 {
        law_sizes(generator, ops.drop_last());
    }
}

/// A source never holds more blocks than the recorded stream that it draws from.
pub proof fn law_recorded_limit(blocks: Seq<u64>, ops: Seq<Op>)
    ensures
        played(SourceModel::fresh(GeneratorModel::Recorded(blocks)), ops).generator
            == GeneratorModel::Recorded(blocks),
        played(SourceModel::fresh(GeneratorModel::Recorded(blocks)), ops).record.len()
            <= blocks.len(),
    decreases ops.len(),
{
    if ops.len() > 0 {
        law_recorded_limit(blocks, ops.drop_last());
    }
}

/// Whatever a test does keeps its source well-formed.
pub proof fn law_sources_stay_wf(generator: GeneratorModel, ops: Seq<Op>)
    requires
        balanced(SourceModel::fresh(generator), ops),
    ensures
        played(SourceModel::fresh(generator), ops).wf(),
    decreases ops.len(),
{
    if ops.len() > 0 {
        law_sources_stay_wf(generator, ops.drop_last());
        let before = played(SourceModel::fresh(generator), ops.drop_last());
        match ops.last() {
            Op::StartDraw => {
                data::lemma_start_draw_wf(before);
            },
            Op::StopDraw => {
                data::lemma_stop_draw_wf(before);
            },
            _ => {},
        }
    }
}

/// Whatever a test did with its source, the draws that are kept of it cover blocks on
/// record and come in the order in which they start. Of two of them, the later one lies
/// behind the earlier one, or else inside it and deeper.
pub proof fn law_kept_draws(generator: GeneratorModel, ops: Seq<Op>, status: Status)
    requires
        balanced(SourceModel::fresh(generator), ops),
        played(SourceModel::fresh(generator), ops).fits(),
    ensures
        ({
            let result = played(SourceModel::fresh(generator), ops).result(status);
            let draws = result.draws;
            &&& forall|a: int|
                0 <= a < draws.len() ==> (#[trigger] draws[a]).start < draws[a].end
                    <= result.record.len()
            &&& forall|a: int, b: int|
                0 <= a < b < draws.len() ==> {
                    &&& (#[trigger] draws[a]).start <= (#[trigger] draws[b]).start
                    &&& draws[b].start >= draws[a].end || (draws[b].end <= draws[a].end
                        && draws[b].depth > draws[a].depth)
                }
        }),
{
    law_sources_stay_wf(generator, ops);
    data::lemma_result_wf(played(SourceModel::fresh(generator), ops), status);
    let draws = played(SourceModel::fresh(generator), ops).result(status).draws;
    assert(forall|a: int, b: int|
        0 <= a < b < draws.len() ==> data::draws_nest(#[trigger] draws[a], #[trigger] draws[b]));
}

/// The test writes nothing.
pub open spec fn writes_nothing(ops: Seq<Op>) -> bool {
    forall|n: int| 0 <= n < ops.len() ==> !(#[trigger] ops[n] is Write)
}

proof fn lemma_record_is_no_higher(blocks: Seq<u64>, ops: Seq<Op>)
    requires
        writes_nothing(ops),
    ensures
        ({
            let record = played(SourceModel::fresh(GeneratorModel::Recorded(blocks)), ops).record;
            &&& record.len() <= blocks.len()
            &&& forall|k: int| 0 <= k < record.len() ==> #[trigger] record[k] <= blocks[k]
        }),
    decreases ops.len(),
{
    law_recorded_limit(blocks, ops);
    if ops.len() > 0 {
        let earlier = ops.drop_last();
        assert forall|n: int| 0 <= n < earlier.len() implies !(#[trigger] earlier[n] is Write) by {
            assert(earlier[n] == ops[n]);
        }
        lemma_record_is_no_higher(blocks, earlier);
        law_recorded_limit(blocks, earlier);
        match ops.last() {
            Op::Bits(n_bits) => {
                let drawn = played(
                    SourceModel::fresh(GeneratorModel::Recorded(blocks)),
                    earlier,
                ).record.len();
                if drawn < blocks.len() {
                    lemma_low_bits_no_higher(blocks[drawn as int], n_bits);
                }
            },
            Op::Write(_) => {
                assert(ops[ops.len() - 1] is Write);
            },
            _ => {},
        }
    }
}

/// A test that writes nothing leaves the blocks that it was run on, or a simpler record.
pub proof fn law_unwritten_record(blocks: Seq<u64>, ops: Seq<Op>)
    requires
        writes_nothing(ops),
    ensures
        ({
            let record = played(SourceModel::fresh(GeneratorModel::Recorded(blocks)), ops).record;
            record == blocks || streams::simpler(record, blocks)
        }),
{
    lemma_record_is_no_higher(blocks, ops);
    let record = played(SourceModel::fresh(GeneratorModel::Recorded(blocks)), ops).record;
    streams::law_simpler_is_an_order(record, blocks, blocks);
    if record.len() == blocks.len() && streams::lex_less(blocks, record) {
        let k = choose|k: int| streams::lower_at(blocks, record, k);
        assert(record[k] <= blocks[k]);
    }
}

} // verus!
