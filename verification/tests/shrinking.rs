use conjecture::data::{Draw, Status, TestResult};
use conjecture::passes::Fault;
use conjecture::shrinker::{Request, Shrinker};

fn with_draws(record: Vec<u64>, status: Status, ranges: Vec<(usize, usize)>) -> TestResult {
    let sizes = vec![8; record.len()];
    TestResult {
        record,
        status,
        draws: ranges
            .into_iter()
            .map(|(start, end)| Draw { depth: 0, start, end })
            .collect(),
        sizes,
        written_indices: Vec::new().into_iter().collect(),
    }
}

fn plain(record: Vec<u64>, status: Status) -> TestResult {
    with_draws(record, status, Vec::new())
}

fn run_of(shrinker: &Shrinker) -> Vec<u64> {
    match shrinker.request() {
        Some(Request::Run(attempt)) => attempt,
        other => panic!("expected a run, found {:?}", other),
    }
}

fn start_of(shrinker: &Shrinker) -> u64 {
    match shrinker.request() {
        Some(Request::Minimize(start)) => start,
        other => panic!("expected a search, found {:?}", other),
    }
}

fn answer_of(shrinker: &Shrinker) -> bool {
    match shrinker.request() {
        Some(Request::Answer(answer)) => answer,
        other => panic!("expected an answer, found {:?}", other),
    }
}

fn fault_of(shrinker: &Shrinker) -> Fault {
    match shrinker.exit() {
        Some(Err(fault)) => fault,
        other => panic!("expected a fault, found {:?}", other),
    }
}

fn reject(shrinker: &mut Shrinker) {
    let attempt = run_of(shrinker);
    shrinker.completed(&plain(attempt, Status::Invalid));
}

fn accept(shrinker: &mut Shrinker) {
    let attempt = run_of(shrinker);
    shrinker.completed(&plain(attempt, Status::Interesting));
}

#[test]
fn an_empty_record_is_complete_at_once() {
    let shrinker = Shrinker::new(plain(Vec::new(), Status::Interesting));
    assert!(shrinker.request().is_none());
    assert_eq!(shrinker.exit(), Some(Ok(())));
}

#[test]
fn all_passes_in_turn() {
    let mut shrinker = Shrinker::new(plain(vec![5, 3, 0], Status::Interesting));
    // Each block is lowered by itself.
    assert_eq!(start_of(&shrinker), 5);
    shrinker.candidate(5);
    assert!(!answer_of(&shrinker));
    shrinker.candidate(2);
    assert_eq!(run_of(&shrinker), vec![2, 3, 0]);
    reject(&mut shrinker);
    assert!(!answer_of(&shrinker));
    shrinker.minimized(5);
    assert_eq!(start_of(&shrinker), 3);
    shrinker.minimized(3);
    assert_eq!(start_of(&shrinker), 0);
    shrinker.minimized(0);
    // Lower blocks are moved forward.
    assert_eq!(run_of(&shrinker), vec![3, 5, 0]);
    reject(&mut shrinker);
    assert_eq!(run_of(&shrinker), vec![0, 3, 5]);
    reject(&mut shrinker);
    assert_eq!(run_of(&shrinker), vec![5, 0, 3]);
    reject(&mut shrinker);
    // Blocks are lowered by one.
    assert_eq!(run_of(&shrinker), vec![4, 3, 0]);
    reject(&mut shrinker);
    assert_eq!(run_of(&shrinker), vec![5, 2, 0]);
    reject(&mut shrinker);
    // Ranges are deleted.
    assert_eq!(run_of(&shrinker), vec![3, 0]);
    reject(&mut shrinker);
    assert_eq!(run_of(&shrinker), vec![0]);
    reject(&mut shrinker);
    assert_eq!(run_of(&shrinker), vec![5, 0]);
    reject(&mut shrinker);
    assert_eq!(shrinker.exit(), Some(Ok(())));
}

#[test]
fn a_change_brings_another_round() {
    let mut shrinker = Shrinker::new(plain(vec![2, 1], Status::Interesting));
    shrinker.minimized(2);
    shrinker.minimized(1);
    assert_eq!(run_of(&shrinker), vec![1, 2]);
    accept(&mut shrinker);
    assert_eq!(run_of(&shrinker), vec![0, 2]);
    reject(&mut shrinker);
    assert_eq!(run_of(&shrinker), vec![1, 1]);
    reject(&mut shrinker);
    assert_eq!(run_of(&shrinker), vec![2]);
    reject(&mut shrinker);
    // The next round starts over, and has the expensive passes from the start.
    assert_eq!(start_of(&shrinker), 1);
    shrinker.minimized(1);
    assert_eq!(start_of(&shrinker), 2);
    shrinker.minimized(2);
    assert_eq!(run_of(&shrinker), vec![0, 2]);
    reject(&mut shrinker);
    reject(&mut shrinker);
    reject(&mut shrinker);
    assert_eq!(shrinker.exit(), Some(Ok(())));
}

#[test]
fn results_that_are_not_simpler_do_not_become_the_target() {
    let mut shrinker = Shrinker::new(plain(vec![2, 1], Status::Interesting));
    shrinker.candidate(0);
    assert_eq!(run_of(&shrinker), vec![0, 1]);
    shrinker.completed(&plain(vec![2, 1], Status::Interesting));
    assert!(answer_of(&shrinker));
    shrinker.candidate(1);
    assert_eq!(run_of(&shrinker), vec![1, 1]);
}

#[test]
fn lowering_cuts_blocks_that_are_no_longer_read() {
    let mut shrinker = Shrinker::new(plain(vec![3, 7, 8, 9], Status::Interesting));
    shrinker.candidate(1);
    assert_eq!(run_of(&shrinker), vec![1, 7, 8, 9]);
    shrinker.completed(&plain(vec![1, 7], Status::Valid));
    assert_eq!(run_of(&shrinker), vec![1, 9]);
    accept(&mut shrinker);
    assert!(answer_of(&shrinker));
    shrinker.minimized(1);
    assert_eq!(start_of(&shrinker), 9);
}

#[test]
fn written_blocks_are_left_alone() {
    let mut target = plain(vec![3, 3, 3], Status::Interesting);
    target.written_indices.insert(0);
    let mut shrinker = Shrinker::new(target);
    assert_eq!(start_of(&shrinker), 3);
    shrinker.candidate(1);
    assert_eq!(run_of(&shrinker), vec![3, 1, 3]);
    reject(&mut shrinker);
    shrinker.minimized(3);
    shrinker.minimized(3);
    assert_eq!(start_of(&shrinker), 3);
    shrinker.candidate(1);
    assert_eq!(run_of(&shrinker), vec![3, 1, 1]);
}

#[test]
fn duplicated_blocks_are_lowered_together() {
    let mut shrinker = Shrinker::new(plain(vec![4, 9, 4], Status::Interesting));
    shrinker.minimized(4);
    shrinker.minimized(9);
    shrinker.minimized(4);
    assert_eq!(start_of(&shrinker), 4);
    shrinker.candidate(1);
    assert_eq!(run_of(&shrinker), vec![1, 9, 1]);
    accept(&mut shrinker);
    assert!(answer_of(&shrinker));
    shrinker.candidate(0);
    assert_eq!(run_of(&shrinker), vec![0, 9, 0]);
    reject(&mut shrinker);
    assert!(!answer_of(&shrinker));
    shrinker.minimized(1);
    // The target has changed, so that the cheap passes are gone through again.
    assert_eq!(start_of(&shrinker), 1);
}

#[test]
fn one_draw_is_tried_where_two_cannot_go() {
    let target = with_draws(vec![1, 2, 3], Status::Interesting, vec![(0, 1), (1, 2)]);
    let mut shrinker = Shrinker::new(target);
    assert_eq!(run_of(&shrinker), vec![3]);
    reject(&mut shrinker);
    assert_eq!(run_of(&shrinker), vec![2, 3]);
    reject(&mut shrinker);
    assert_eq!(run_of(&shrinker), vec![1, 3]);
    reject(&mut shrinker);
    assert_eq!(run_of(&shrinker), vec![1, 3]);
    reject(&mut shrinker);
    assert_eq!(start_of(&shrinker), 1);
}

#[test]
fn probes_double_and_halve() {
    // Twenty draws of one block each, and one block behind them.
    let record: Vec<u64> = (1..22).collect();
    let ranges = (0..20).map(|n| (n, n + 1)).collect();
    let mut shrinker = Shrinker::new(with_draws(record, Status::Interesting, ranges));
    let mut deleted = Vec::new();
    loop {
        let attempt = match shrinker.request() {
            Some(Request::Run(attempt)) => attempt,
            _ => break,
        };
        if attempt[0] == 1 {
            break;
        }
        // Seven draws can be deleted from the start on.
        deleted.push(21 - attempt.len());
        if attempt.len() >= 14 {
            accept(&mut shrinker);
        } else {
            reject(&mut shrinker);
        }
        if deleted.len() == 7 {
            break;
        }
    }
    assert_eq!(deleted, vec![2, 3, 4, 5, 10, 7, 8]);
}

#[test]
fn a_draw_is_deleted_along_with_a_lowered_block() {
    let target = with_draws(vec![1, 8, 9], Status::Interesting, vec![(1, 2)]);
    let mut shrinker = Shrinker::new(target);
    reject(&mut shrinker);
    reject(&mut shrinker);
    shrinker.minimized(1);
    shrinker.minimized(8);
    shrinker.minimized(9);
    assert_eq!(run_of(&shrinker), vec![0, 8, 9]);
    shrinker.completed(&plain(vec![0, 8], Status::Invalid));
    assert_eq!(run_of(&shrinker), vec![0, 9]);
    accept(&mut shrinker);
    assert_eq!(run_of(&shrinker), vec![0, 8]);
}

#[test]
fn sizes_have_to_match() {
    let mut target = plain(vec![5], Status::Interesting);
    target.sizes.push(8);
    let mut shrinker = Shrinker::new(target);
    assert_eq!(start_of(&shrinker), 5);
    shrinker.minimized(5);
    assert_eq!(fault_of(&shrinker), Fault::SizesMismatch);
    assert!(shrinker.request().is_none());
}

#[test]
fn an_attempt_must_not_be_longer() {
    let mut shrinker = Shrinker::new(plain(vec![5, 5], Status::Interesting));
    shrinker.minimized(5);
    shrinker.minimized(5);
    shrinker.candidate(3);
    shrinker.completed(&plain(vec![3], Status::Interesting));
    assert!(answer_of(&shrinker));
    shrinker.candidate(2);
    assert_eq!(fault_of(&shrinker), Fault::AttemptTooLong);
}

#[test]
fn an_attempt_must_be_lower() {
    let mut shrinker = Shrinker::new(plain(vec![5, 5], Status::Interesting));
    shrinker.minimized(5);
    shrinker.minimized(5);
    shrinker.candidate(5);
    assert_eq!(fault_of(&shrinker), Fault::AttemptNotLower);
}

#[test]
fn a_whole_run_of_draws_is_deleted() {
    // Between five and ten draws in front of a block that has to stay.
    for count in 5..10usize {
        let mut record: Vec<u64> = (1..count as u64 + 1).collect();
        record.push(50);
        let ranges = (0..count).map(|n| (n, n + 1)).collect();
        let mut shrinker = Shrinker::new(with_draws(record, Status::Interesting, ranges));
        let mut lengths = Vec::new();
        while let Some(Request::Run(attempt)) = shrinker.request() {
            assert_eq!(attempt[attempt.len() - 1], 50);
            lengths.push(attempt.len());
            accept(&mut shrinker);
        }
        assert_eq!(lengths[..4], [count - 1, count - 2, count - 3, count - 4]);
        assert_eq!(lengths[lengths.len() - 1], 1);
        // The target is now the one block.
        assert!(shrinker.exit().is_none());
        assert_eq!(start_of(&shrinker), 50);
        shrinker.candidate(0);
        assert_eq!(run_of(&shrinker), vec![0]);
        reject(&mut shrinker);
        shrinker.minimized(50);
        assert_eq!(start_of(&shrinker), 50);
        shrinker.minimized(50);
        assert_eq!(run_of(&shrinker), vec![49]);
        reject(&mut shrinker);
        assert_eq!(shrinker.exit(), Some(Ok(())));
    }
}

#[test]
fn seven_draws_are_deleted_in_five_runs() {
    let record = vec![1, 2, 3, 4, 5, 6, 7, 50];
    let ranges = (0..7).map(|n| (n, n + 1)).collect();
    let mut shrinker = Shrinker::new(with_draws(record, Status::Interesting, ranges));
    for expected in vec![
        vec![3, 4, 5, 6, 7, 50],
        vec![4, 5, 6, 7, 50],
        vec![5, 6, 7, 50],
        vec![6, 7, 50],
        vec![50],
    ] {
        assert_eq!(run_of(&shrinker), expected);
        accept(&mut shrinker);
    }
    assert!(shrinker.exit().is_none());
    assert_eq!(start_of(&shrinker), 50);
}

#[test]
fn deletion_ends_where_results_do_not_shrink() {
    // The test writes its first block, so that every run is interesting and none is simpler.
    let record: Vec<u64> = (1..8).collect();
    let ranges = (0..6).map(|n| (n, n + 1)).collect();
    let target = with_draws(record, Status::Interesting, ranges);
    let mut shrinker = Shrinker::new(target.clone());
    let mut runs = 0;
    while let Some(Request::Run(_)) = shrinker.request() {
        runs += 1;
        shrinker.completed(&target);
    }
    assert!(runs < 50);
    assert!(shrinker.exit().is_none());
    assert_eq!(start_of(&shrinker), 1);
}

#[test]
fn a_result_must_not_be_longer() {
    let mut shrinker = Shrinker::new(plain(vec![5], Status::Interesting));
    shrinker.candidate(1);
    shrinker.completed(&plain(vec![1, 1], Status::Valid));
    assert_eq!(fault_of(&shrinker), Fault::ResultTooLong);
}

#[test]
fn a_lowered_block_has_to_be_read() {
    let mut shrinker = Shrinker::new(plain(vec![5, 6], Status::Interesting));
    shrinker.candidate(1);
    shrinker.completed(&plain(Vec::new(), Status::Valid));
    assert_eq!(fault_of(&shrinker), Fault::OutOfRange);
}

#[test]
fn a_search_fails_once_its_block_is_gone() {
    let mut shrinker = Shrinker::new(plain(vec![5, 6], Status::Interesting));
    shrinker.minimized(5);
    shrinker.candidate(1);
    shrinker.completed(&plain(vec![4], Status::Interesting));
    assert!(answer_of(&shrinker));
    shrinker.candidate(0);
    assert_eq!(fault_of(&shrinker), Fault::OutOfRange);
}

#[test]
fn a_completed_shrinker_has_tried_every_step() {
    // Interesting as long as the blocks add up to at least ten.
    let interesting = |blocks: &Vec<u64>| blocks.iter().sum::<u64>() >= 10;
    let mut best = vec![9, 0, 7, 3];
    let mut shrinker = Shrinker::new(plain(best.clone(), Status::Interesting));
    let mut value = 0;
    let mut lowest = 0;
    let mut runs = 0;
    while let Some(request) = shrinker.request() {
        match request {
            Request::Run(attempt) => {
                runs += 1;
                let simpler = attempt.len() < best.len()
                    || (attempt.len() == best.len() && attempt < best);
                assert!(simpler);
                if interesting(&attempt) {
                    best = attempt;
                    accept(&mut shrinker);
                } else {
                    reject(&mut shrinker);
                }
            }
            Request::Minimize(start) => {
                lowest = start;
                value = 0;
                if start == 0 {
                    shrinker.minimized(0);
                } else {
                    shrinker.candidate(0);
                }
            }
            Request::Answer(answer) => {
                if answer {
                    lowest = value;
                }
                value += 1;
                if value >= lowest {
                    shrinker.minimized(lowest);
                } else {
                    shrinker.candidate(value);
                }
            }
        }
    }
    assert_eq!(shrinker.exit(), Some(Ok(())));
    assert!(runs > 0);
    assert!(interesting(&best));
    for p in 0..best.len() {
        if best[p] > 0 {
            let mut other = best.clone();
            other[p] -= 1;
            assert!(!interesting(&other));
        }
        for q in p + 1..best.len() {
            if best[q] < best[p] {
                let mut other = best.clone();
                other.swap(p, q);
                assert!(!interesting(&other));
            }
            let mut other = best.clone();
            other.drain(p..q);
            assert!(best.starts_with(&other) || !interesting(&other));
        }
    }
}
