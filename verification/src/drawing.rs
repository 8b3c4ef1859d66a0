//! What becomes of what a test draws from its source and writes to it.

use vstd::arithmetic::power2::pow2;
use vstd::prelude::*;

use crate::data;
use crate::data::{DrawModel, GeneratorModel, SourceModel, Status, TestResult};
use crate::random;
use crate::replay;
use crate::replay::Op;

verus! {

/// A value is written if and only if the source has room for it. It then stands on record
/// as it is, behind everything that was there before, with a size of 0; a write that fails
/// leaves no trace. No write uses up data that was to be drawn.
pub proof fn law_write(source: SourceModel, value: u64)
    ensures
        ({
            let (after, outcome) = source.write(value);
            let room = match source.generator {
                GeneratorModel::Random(_) => true,
                GeneratorModel::Recorded(blocks) => source.record.len() < blocks.len(),
            };
            &&& outcome is Ok <==> room
            &&& room ==> after.record.len() == source.record.len() + 1
            &&& room ==> after.record.last() == value
            &&& room ==> after.record.drop_last() == source.record
            &&& room ==> after.sizes == source.sizes + seq![0u64]
            &&& !room ==> after == source
            &&& after.generator == source.generator
            &&& after.draws == source.draws
            &&& after.draw_stack == source.draw_stack
            &&& after.written_indices == source.written_indices
        }),
{
    let (after, outcome) = source.write(value);
    assert(source.record.push(value).drop_last() =~= source.record);
    assert(source.sizes.push(0) =~= source.sizes + seq![0u64]);
}

/// What is drawn is the next block of the source but for the bits that were not asked for:
/// of the block, as a number, what is left over by the power of two that they start at. It
/// is put on record as it is handed out. On recorded data, the block is the one at the place
/// that it takes on record; on random data, the next two words of the generator.
pub proof fn law_bits(source: SourceModel, n_bits: u64)
    ensures
        ({
            let (after, outcome) = source.bits(n_bits);
            let next: Option<int> = match source.generator {
                GeneratorModel::Random(words) => Some(words[0] * 0x1_0000_0000 + words[1]),
                GeneratorModel::Recorded(blocks) => if source.record.len() < blocks.len() {
                    Some(blocks[source.record.len() as int] as int)
                } else {
                    None
                },
            };
            &&& after.sizes == source.sizes + seq![n_bits]
            &&& after.draws == source.draws
            &&& after.draw_stack == source.draw_stack
            &&& after.written_indices == source.written_indices
            &&& match next {
                Some(block) => outcome matches Ok(value) && {
                    &&& after.record == source.record + seq![value]
                    &&& n_bits >= 64 ==> value == block
                    &&& n_bits < 64 ==> value < pow2(n_bits as nat)
                    &&& n_bits < 64 ==> exists|rest: int|
                        0 <= rest && block == #[trigger] (rest * pow2(n_bits as nat)) + value
                },
                None => outcome is Err && after.record == source.record,
            }
            &&& match source.generator {
                GeneratorModel::Random(words) => after.generator matches GeneratorModel::Random(
                    left,
                ) && forall|k: nat|
                    words.dom().contains(k + 2) ==> #[trigger] left[k] == words[k + 2],
                GeneratorModel::Recorded(_) => after.generator == source.generator,
            }
        }),
{
    let (after, outcome) = source.bits(n_bits);
    assert(source.sizes.push(n_bits) =~= source.sizes + seq![n_bits]);
    match source.generator.block(source.record.len()) {
        Some(block) => {
            let value = outcome->Ok_0;
            assert(source.record.push(value) =~= source.record + seq![value]);
            if n_bits < 64 {
                vstd::arithmetic::power2::lemma_pow2_pos(n_bits as nat);
                let m = pow2(n_bits as nat) as int;
                vstd::arithmetic::div_mod::lemma_fundamental_div_mod(block as int, m);
                vstd::arithmetic::div_mod::lemma_mod_bound(block as int, m);
                vstd::arithmetic::div_mod::lemma_mod_decreases(block as nat, m as nat);
                vstd::arithmetic::div_mod::lemma_div_pos_is_pos(block as int, m);
                vstd::arithmetic::mul::lemma_mul_is_commutative(block as int / m, m);
                let rest = block as int / m;
                assert(block == rest * pow2(n_bits as nat) + value);
            }
        },
        None => {},
    }
}

/// A source from which nothing was drawn holds nothing but where its data comes from.
pub proof fn law_fresh(generator: GeneratorModel)
    ensures
        SourceModel::fresh(generator).generator == generator,
        SourceModel::fresh(generator).record.len() == 0,
        SourceModel::fresh(generator).sizes.len() == 0,
        SourceModel::fresh(generator).draws.len() == 0,
        SourceModel::fresh(generator).draw_stack.len() == 0,
        forall|p: usize| !SourceModel::fresh(generator).written_indices.contains(p),
{
}

/// How often bits were asked for.
pub open spec fn times_asked(ops: Seq<Op>) -> nat
    decreases ops.len(),
{
    if ops.len() == 0 {
        0
    } else if ops.last() is Bits {
        times_asked(ops.drop_last()) + 1
    } else {
        times_asked(ops.drop_last())
    }
}

proof fn lemma_words_used(words: Map<nat, u32>, ops: Seq<Op>)
    ensures
        replay::played(SourceModel::fresh(GeneratorModel::Random(words)), ops).generator
            == GeneratorModel::Random(random::words_from(words, 2 * times_asked(ops))),
    decreases ops.len(),
{
    if ops.len() > 0 {
        lemma_words_used(words, ops.drop_last());
        let n = 2 * times_asked(ops.drop_last());
        assert(random::words_from(random::words_from(words, n), 2) =~= random::words_from(
            words,
            n + 2,
        ));
    } else {
        assert(random::words_from(words, 0) =~= words);
    }
}

/// On random data, each request for bits is met from two words of its own: the request
/// after `ops`, if it is for a whole block, gets the two words behind those that the
/// requests in `ops` took, whatever else the test did.
pub proof fn law_random_blocks(words: Map<nat, u32>, ops: Seq<Op>, n_bits: u64)
    requires
        n_bits >= 64,
    ensures
        ({
            let source = replay::played(SourceModel::fresh(GeneratorModel::Random(words)), ops);
            let m = 2 * times_asked(ops);
            (forall|k: nat| #[trigger] words.dom().contains(k)) ==> source.bits(n_bits).1 == Ok::<
                u64,
                data::FailedDraw,
            >((words[m] * 0x1_0000_0000 + words[m + 1]) as u64)
        }),
{
    lemma_words_used(words, ops);
    if forall|k: nat| #[trigger] words.dom().contains(k) {
        let m = 2 * times_asked(ops);
        let left = random::words_from(words, m);
        assert(words.dom().contains(0 + m));
        assert(words.dom().contains(1 + m));
        assert(left[0] == words[m]);
        assert(left[1] == words[1 + m]);
    }
}

/// `places` lists, in order, the draws that have ended and cover a block.
pub open spec fn lists_ended(draws: Seq<DrawModel>, places: Seq<int>) -> bool {
    &&& forall|n: int|
        0 <= n < places.len() ==> 0 <= #[trigger] places[n] < draws.len()
    &&& forall|m: int, n: int|
        0 <= m < n < places.len() ==> #[trigger] places[m] < #[trigger] places[n]
    &&& forall|d: int|
        0 <= d < draws.len() ==> (places.contains(d) <==> ((#[trigger] draws[d]).end is Some
            && draws[d].start < draws[d].end->0))
}

proof fn lemma_lists_ended(draws: Seq<DrawModel>) -> (places: Seq<int>)
    requires
        forall|d: int| 0 <= d < draws.len() ==> (#[trigger] draws[d]).depth <= usize::MAX,
        forall|d: int| 0 <= d < draws.len() ==> (#[trigger] draws[d]).start <= usize::MAX,
        forall|d: int|
            0 <= d < draws.len() ==> ((#[trigger] draws[d]).end matches Some(end) ==> end
                <= usize::MAX),
    ensures
        lists_ended(draws, places),
        data::finished_draws(draws).len() == places.len(),
        forall|n: int|
            0 <= n < places.len() ==> {
                let kept = #[trigger] data::finished_draws(draws)[n];
                &&& kept.depth == draws[places[n]].depth
                &&& kept.start == draws[places[n]].start
                &&& Some(kept.end as nat) == draws[places[n]].end
            },
    decreases draws.len(),
{
    if draws.len() == 0 {
        Seq::empty()
    } else {
        let earlier = draws.drop_last();
        assert forall|d: int| 0 <= d < earlier.len() implies #[trigger] earlier[d] == draws[d] by {}
        let before = lemma_lists_ended(earlier);
        let last = draws.len() - 1;
        let places = if draws[last].end is Some && draws[last].start < draws[last].end->0 {
            before.push(last)
        } else {
            before
        };
        assert forall|d: int| 0 <= d < draws.len() implies (places.contains(d) <==> ((
        #[trigger] draws[d]).end is Some && draws[d].start < draws[d].end->0)) by {
            if d < last {
                assert(earlier[d] == draws[d]);
                if before.contains(d) {
                    let n = choose|n: int| 0 <= n < before.len() && before[n] == d;
                    assert(places[n] == d);
                }
                if places.contains(d) {
                    let n = choose|n: int| 0 <= n < places.len() && places[n] == d;
                    assert(before[n] == d);
                }
            } else if draws[d].end is Some && draws[d].start < draws[d].end->0 {
                assert(places[before.len() as int] == d);
            } else if places.contains(d) {
                let n = choose|n: int| 0 <= n < places.len() && places[n] == d;
                assert(before[n] < last);
            }
        }
        places
    }
}

/// A result holds what its source holds, with the given status; of the draws it keeps, in
/// order, exactly those that have ended and cover a block, each as it is.
pub proof fn law_result(source: SourceModel, status: Status)
    requires
        source.wf(),
        source.fits(),
    ensures
        source.result(status).record == source.record,
        source.result(status).sizes == source.sizes,
        source.result(status).status == status,
        source.result(status).written_indices == source.written_indices,
        exists|places: Seq<int>| #[trigger]
            lists_ended(source.draws, places) && source.result(status).draws.len() == places.len()
                && forall|n: int|
                0 <= n < places.len() ==> {
                    let kept = #[trigger] source.result(status).draws[n];
                    &&& kept.depth == source.draws[places[n]].depth
                    &&& kept.start == source.draws[places[n]].start
                    &&& Some(kept.end as nat) == source.draws[places[n]].end
                },
{
    let places = lemma_lists_ended(source.draws);
    assert(lists_ended(source.draws, places));
    assert(source.result(status).draws == data::finished_draws(source.draws));
}

/// A result is what its model says.
pub proof fn law_result_view(result: TestResult)
    ensures
        result@.record == result.record@,
        result@.status == result.status,
        result@.draws == result.draws@,
        result@.sizes == result.sizes@,
        result@.written_indices == result.written_indices@,
{
}

/// How many more draws were started than ended.
pub open spec fn level(ops: Seq<Op>) -> int
    decreases ops.len(),
{
    if ops.len() == 0 {
        0
    } else {
        level(ops.drop_last()) + match ops.last() {
            Op::StartDraw => 1int,
            Op::StopDraw => -1int,
            _ => 0int,
        }
    }
}

/// Every draw that is ended was started before, and every one that was started is ended.
pub open spec fn complete(ops: Seq<Op>) -> bool {
    level(ops) == 0 && forall|n: int| 0 <= n <= ops.len() ==> level(#[trigger] ops.take(n)) >= 0
}

proof fn lemma_inside_draw(source: SourceModel, inside: Seq<Op>, n: int)
    requires
        source.wf(),
        0 <= n <= inside.len(),
        forall|m: int| 0 <= m <= inside.len() ==> level(#[trigger] inside.take(m)) >= 0,
    ensures
        ({
            let after = replay::played(source.start_draw(), inside.take(n));
            let top = source.draw_stack.len() as int;
            let place = source.draws.len() as int;
            &&& after.wf()
            &&& after.draw_stack.len() == top + 1 + level(inside.take(n))
            &&& after.draw_stack.take(top + 1) == source.draw_stack + seq![place as nat]
            &&& forall|k: int| top < k < after.draw_stack.len() ==> place
                < #[trigger] after.draw_stack[k]
            &&& after.draws.len() > place
            &&& after.draws.take(place) == source.draws
            &&& after.draws[place] == DrawModel {
                depth: top as nat,
                start: source.record.len(),
                end: None,
            }
        }),
    decreases n,
{
    let top = source.draw_stack.len() as int;
    let place = source.draws.len() as int;
    let begun = source.start_draw();
    if n == 0 {
        data::lemma_start_draw_wf(source);
        assert(inside.take(0) =~= Seq::empty());
        assert(begun.draw_stack.take(top + 1) =~= source.draw_stack + seq![place as nat]);
        assert(begun.draws.take(place) =~= source.draws);
    } else {
        lemma_inside_draw(source, inside, n - 1);
        let before = replay::played(begun, inside.take(n - 1));
        let after = replay::played(begun, inside.take(n));
        assert(inside.take(n).drop_last() =~= inside.take(n - 1));
        assert(inside.take(n).last() == inside[n - 1]);
        assert(level(inside.take(n)) >= 0);
        assert(after == replay::step(before, inside[n - 1]));
        match inside[n - 1] {
            Op::StartDraw => {
                data::lemma_start_draw_wf(before);
                assert(after.draw_stack.take(top + 1) =~= before.draw_stack.take(top + 1));
                assert(after.draws.take(place) =~= before.draws.take(place));
            },
            Op::StopDraw => {
                data::lemma_stop_draw_wf(before);
                assert(before.draw_stack[before.draw_stack.len() - 1] > place);
                assert(after.draw_stack.take(top + 1) =~= before.draw_stack.take(top + 1));
                assert(after.draws.take(place) =~= before.draws.take(place));
            },
            _ => {},
        }
    }
}

/// A draw that is started, gone through and ended spans exactly the blocks that went on
/// record meanwhile, at the depth given by the draws that were going on around it. These go
/// on as before, and the draws before it stay as they are.
pub proof fn law_draw_spans(source: SourceModel, inside: Seq<Op>)
    requires
        source.wf(),
        complete(inside),
    ensures
        ({
            let read = replay::played(source.start_draw(), inside);
            let after = read.stop_draw();
            let place = source.draws.len() as int;
            &&& after.record == read.record
            &&& after.draw_stack == source.draw_stack
            &&& after.draws.len() == read.draws.len()
            &&& after.draws.take(place) == source.draws
            &&& after.draws[place].depth == source.draw_stack.len()
            &&& after.draws[place].start == source.record.len()
            &&& after.draws[place].end == Some(read.record.len())
            &&& forall|d: int|
                place < d < read.draws.len() ==> #[trigger] after.draws[d] == read.draws[d]
        }),
{
    let read = replay::played(source.start_draw(), inside);
    let place = source.draws.len() as int;
    assert(inside.take(inside.len() as int) =~= inside);
    lemma_inside_draw(source, inside, inside.len() as int);
    let top = source.draw_stack.len() as int;
    assert(read.draw_stack.len() == top + 1);
    assert(read.draw_stack.take(top + 1) =~= read.draw_stack);
    assert(read.draw_stack[top] == (source.draw_stack + seq![place as nat])[top]);
    let after = read.stop_draw();
    assert(after.draw_stack =~= source.draw_stack);
    assert(after.draws.take(place) =~= read.draws.take(place));
}

/// Starting a draw and ending one leave the record and what is to be drawn alone.
pub proof fn law_draws_take_no_data(source: SourceModel)
    requires
        source.wf(),
    ensures
        source.start_draw().record == source.record,
        source.start_draw().sizes == source.sizes,
        source.start_draw().generator == source.generator,
        source.start_draw().written_indices == source.written_indices,
        source.start_draw().draws.len() == source.draws.len() + 1,
        source.stop_draw().record == source.record,
        source.stop_draw().sizes == source.sizes,
        source.stop_draw().generator == source.generator,
        source.stop_draw().written_indices == source.written_indices,
        source.draw_stack.len() > 0 ==> source.stop_draw().draws.len() == source.draws.len(),
{
    if source.draw_stack.len() > 0 {
        assert(source.draw_stack[source.draw_stack.len() - 1] < source.draws.len());
    }
}

/// Only a test that was cut short may be over while a draw is going on; any other status
/// takes that all draws have ended.
pub proof fn law_may_finish(source: SourceModel, status: Status)
    requires
        source.wf(),
    ensures
        source.may_finish(status) <==> (status == Status::Invalid || status == Status::Overflow || (
        forall|d: int| 0 <= d < source.draws.len() ==> (#[trigger] source.draws[d]).end is Some)),
{
    if source.draw_stack.len() > 0 {
        let d = source.draw_stack[0] as int;
        assert(source.draws[d].end is None);
    }
}

} // verus!
