use conjecture::data::{DataSource, FailedDraw, Status, TestResult};
use conjecture::streams::is_simpler;
use rand::{ChaChaRng, Rng, SeedableRng};

fn draws_of(result: &TestResult) -> Vec<(usize, usize, usize)> {
    result.draws.iter().map(|d| (d.depth, d.start, d.end)).collect()
}

fn is_failed(outcome: Result<u64, FailedDraw>) -> bool {
    outcome.is_err()
}

#[test]
fn bits_keeps_the_low_bits() {
    let mut source = DataSource::from_vec(vec![0x1ff, 0xffff_ffff_ffff_ffff, 7, 5, 9]);
    assert_eq!(source.bits(8).unwrap(), 0xff);
    assert_eq!(source.bits(64).unwrap(), u64::MAX);
    assert_eq!(source.bits(0).unwrap(), 0);
    assert_eq!(source.bits(2).unwrap(), 1);
    assert_eq!(source.bits(100).unwrap(), 9);
    assert!(is_failed(source.bits(1)));
    let result = source.to_result(Status::Overflow);
    assert_eq!(result.record, vec![0xff, u64::MAX, 0, 1, 9]);
    assert_eq!(result.sizes, vec![8, 64, 0, 2, 100, 1]);
    assert!(result.status == Status::Overflow);
    assert!(result.written_indices.is_empty());
}

#[test]
fn bits_of_sixty_three() {
    let mut source = DataSource::from_vec(vec![u64::MAX]);
    assert_eq!(source.bits(63).unwrap(), u64::MAX >> 1);
}

#[test]
fn write_goes_on_record_until_data_runs_out() {
    let mut source = DataSource::from_vec(vec![1, 2]);
    assert!(source.write(10).is_ok());
    assert_eq!(source.bits(8).unwrap(), 2);
    assert!(source.write(11).is_err());
    let result = source.to_result(Status::Overflow);
    assert_eq!(result.record, vec![10, 2]);
    assert_eq!(result.sizes, vec![0, 8]);
    assert!(result.written_indices.is_empty());
}

#[test]
fn random_source_never_runs_out() {
    let mut source = DataSource::from_random(ChaChaRng::new_unseeded());
    for _ in 0..1000 {
        assert!(source.bits(64).is_ok());
        assert!(source.write(3).is_ok());
    }
    assert_eq!(source.to_result(Status::Valid).record.len(), 2000);
}

#[test]
fn random_bits_join_two_words() {
    let mut source = DataSource::from_random(ChaChaRng::new_unseeded());
    assert_eq!(source.bits(64).unwrap(), (2917185654u64 << 32) | 2419978656u64);
    let mut random = ChaChaRng::new_unseeded();
    random.next_u32();
    random.next_u32();
    let upper = random.next_u32() as u64;
    let lower = random.next_u32() as u64;
    assert_eq!(source.bits(64).unwrap(), (upper << 32) | lower);
}

#[test]
fn random_bits_are_masked() {
    let mut source = DataSource::from_random(ChaChaRng::new_unseeded());
    assert_eq!(source.bits(16).unwrap(), 2419978656u64 & 0xffff);
}

#[test]
fn draws_nest_and_keep_their_order() {
    let mut source = DataSource::from_vec(vec![1, 2, 3, 4]);
    source.start_draw();
    source.bits(8).unwrap();
    source.start_draw();
    assert_eq!(source.open_draws(), 2);
    source.bits(8).unwrap();
    source.bits(8).unwrap();
    source.stop_draw();
    source.stop_draw();
    source.start_draw();
    source.bits(8).unwrap();
    source.stop_draw();
    assert_eq!(source.open_draws(), 0);
    let result = source.to_result(Status::Interesting);
    assert_eq!(draws_of(&result), vec![(0, 0, 3), (1, 1, 3), (0, 3, 4)]);
}

#[test]
fn empty_and_open_draws_are_left_out() {
    let mut source = DataSource::from_vec(vec![1, 2]);
    source.start_draw();
    source.stop_draw();
    source.start_draw();
    source.bits(8).unwrap();
    source.start_draw();
    source.bits(8).unwrap();
    source.stop_draw();
    let result = source.to_result(Status::Invalid);
    assert_eq!(draws_of(&result), vec![(1, 1, 2)]);
}

#[test]
fn replaying_a_record_repeats_the_run() {
    let mut first = DataSource::from_random(ChaChaRng::from_seed(&[4, 5, 6]));
    let mut told = Vec::new();
    first.start_draw();
    for n in 0..70 {
        told.push(first.bits(n).unwrap());
    }
    first.write(17).unwrap();
    first.stop_draw();
    let first = first.to_result(Status::Interesting);

    let mut second = DataSource::from_vec(first.record.clone());
    let mut told_again = Vec::new();
    second.start_draw();
    for n in 0..70 {
        told_again.push(second.bits(n).unwrap());
    }
    second.write(17).unwrap();
    second.stop_draw();
    let second = second.to_result(Status::Interesting);

    assert_eq!(told, told_again);
    assert_eq!(first.record, second.record);
    assert_eq!(first.sizes, second.sizes);
    assert_eq!(draws_of(&first), draws_of(&second));
}

#[test]
fn replaying_repeats_a_failure() {
    let mut first = DataSource::from_vec(vec![9, 9]);
    assert_eq!(first.bits(3).unwrap(), 1);
    first.write(4).unwrap();
    assert!(is_failed(first.bits(3)));
    let record = first.to_result(Status::Overflow).record;
    assert_eq!(record, vec![1, 4]);
    let mut second = DataSource::from_vec(record);
    assert_eq!(second.bits(3).unwrap(), 1);
    second.write(4).unwrap();
    assert!(is_failed(second.bits(3)));
}

#[test]
fn clone_of_a_source_goes_on_alike() {
    let mut source = DataSource::from_random(ChaChaRng::from_seed(&[1]));
    source.bits(5).unwrap();
    source.start_draw();
    let mut other = source.clone();
    assert_eq!(other.open_draws(), 1);
    assert_eq!(source.bits(64).unwrap(), other.bits(64).unwrap());
    let mut recorded = DataSource::from_vec(vec![3, 4]);
    recorded.bits(8).unwrap();
    let mut copy = recorded.clone();
    assert_eq!(copy.bits(8).unwrap(), 4);
    assert_eq!(copy.to_result(Status::Valid).record, vec![3, 4]);
}

#[test]
fn clone_of_a_result_is_the_same() {
    let mut source = DataSource::from_vec(vec![3, 4]);
    source.start_draw();
    source.bits(8).unwrap();
    source.stop_draw();
    let mut result = source.to_result(Status::Valid);
    result.written_indices.insert(7);
    result.written_indices.insert(1);
    let copy = result.clone();
    assert_eq!(copy.record, result.record);
    assert_eq!(copy.sizes, result.sizes);
    assert_eq!(draws_of(&copy), draws_of(&result));
    assert_eq!(copy.written_indices, result.written_indices);
    assert!(copy.status == Status::Valid);
}

// Reads as many blocks as the first one says, and adds them up.
fn sum_of_list(source: &mut DataSource) -> Result<u64, FailedDraw> {
    let length = source.bits(3)?;
    let mut sum = 0;
    for _ in 0..length {
        source.start_draw();
        sum += source.bits(8)?;
        source.stop_draw();
    }
    source.write(sum)?;
    Ok(sum)
}

#[test]
fn a_test_does_the_same_on_its_own_record() {
    for seed in 0..20 {
        let mut first = DataSource::from_random(ChaChaRng::from_seed(&[seed]));
        let sum = sum_of_list(&mut first).unwrap();
        let first = first.to_result(Status::Valid);
        let mut second = DataSource::from_vec(first.record.clone());
        assert_eq!(sum_of_list(&mut second).unwrap(), sum);
        let second = second.to_result(Status::Valid);
        assert_eq!(first.record, second.record);
        assert_eq!(first.sizes, second.sizes);
        assert_eq!(draws_of(&first), draws_of(&second));
    }
}

#[test]
fn one_size_for_each_block_unless_data_runs_out() {
    let mut source = DataSource::from_vec(vec![2, 7, 8, 0]);
    assert_eq!(sum_of_list(&mut source).unwrap(), 15);
    let result = source.to_result(Status::Valid);
    assert_eq!(result.record, vec![2, 7, 8, 15]);
    assert_eq!(result.sizes.len(), 4);

    let mut source = DataSource::from_vec(vec![2, 7]);
    assert!(is_failed(sum_of_list(&mut source)));
    let result = source.to_result(Status::Overflow);
    assert_eq!(result.record, vec![2, 7]);
    assert_eq!(result.sizes.len(), 3);
}

#[test]
fn kept_draws_are_apart_or_nested_by_depth() {
    // Each bit pattern is a test of its own: start a draw, end one, or read a block.
    for seed in 0..50u64 {
        let mut source = DataSource::from_vec((0..20).collect());
        let mut choices = seed * 0x9e37_79b9 + 1;
        for _ in 0..30 {
            match choices % 3 {
                0 => source.start_draw(),
                1 if source.open_draws() > 0 => source.stop_draw(),
                _ => {
                    let _ = source.bits(8);
                }
            }
            choices = choices / 3 + choices % 7 * 0x1000_0000;
        }
        let result = source.to_result(Status::Invalid);
        for b in 0..result.draws.len() {
            let later = &result.draws[b];
            assert!(later.start < later.end && later.end <= result.record.len());
            for earlier in &result.draws[..b] {
                assert!(earlier.start <= later.start);
                assert!(
                    later.start >= earlier.end
                        || (later.end <= earlier.end && later.depth > earlier.depth)
                );
            }
        }
    }
}

#[test]
fn records_without_writes_are_no_higher() {
    let blocks = vec![3, 300, 7, 9, 1000];
    let mut source = DataSource::from_vec(blocks.clone());
    for _ in 0..5 {
        source.bits(64).unwrap();
    }
    assert_eq!(source.to_result(Status::Valid).record, blocks);

    let mut source = DataSource::from_vec(blocks.clone());
    for _ in 0..5 {
        source.bits(8).unwrap();
    }
    let record = source.to_result(Status::Valid).record;
    assert_eq!(record, vec![3, 44, 7, 9, 232]);
    assert!(is_simpler(&record, &blocks));

    let mut source = DataSource::from_vec(blocks.clone());
    source.bits(64).unwrap();
    assert!(is_simpler(&source.to_result(Status::Valid).record, &blocks));

    // A write can put a higher block on record.
    let mut source = DataSource::from_vec(vec![3]);
    source.write(4).unwrap();
    assert!(is_simpler(&vec![3], &source.to_result(Status::Valid).record));
}
