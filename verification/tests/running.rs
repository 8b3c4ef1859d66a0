use conjecture::data::{DataSource, Status};
use conjecture::engine::{Engine, EngineState, SearchStep};
use conjecture::generation::{LoopCommand, LoopExitReason, MainGenerationLoop};
use conjecture::passes::Fault;
use conjecture::streams::is_simpler;
use rand::{ChaChaRng, Rng, SeedableRng};

struct Search {
    best: u64,
    tried: u64,
}

impl Search {
    fn propose(&mut self, engine: &mut Engine, value: u64) {
        self.tried = value;
        engine.candidate(value);
    }

    fn serve(&mut self, engine: &mut Engine) {
        while let Some(step) = engine.search_step() {
            match step {
                SearchStep::Start(start) => {
                    self.best = start;
                    if start == 0 {
                        engine.minimized(0);
                    } else {
                        self.propose(engine, 0);
                    }
                }
                SearchStep::Answer(answer) => {
                    if answer {
                        self.best = self.tried;
                    }
                    if self.best == 0 || (!answer && self.tried + 1 == self.best) {
                        engine.minimized(self.best);
                    } else if answer || self.tried == 0 {
                        self.propose(engine, self.best / 2);
                    } else {
                        self.propose(engine, self.best - 1);
                    }
                }
            }
        }
    }
}

fn drive(engine: &mut Engine, test: fn(&mut DataSource) -> Status) -> usize {
    let mut search = Search {
        best: 0,
        tried: 0,
    };
    let mut runs = 0;
    while let Some(mut source) = engine.next_source() {
        runs += 1;
        assert!(engine.state() == EngineState::AwaitingCompletion);
        assert!(engine.best_source().is_none());
        let status = test(&mut source);
        engine.mark_finished(source, status);
        assert!(engine.state() == EngineState::ReadyToProvide);
        search.serve(engine);
        assert!(engine.failure().is_none());
    }
    runs
}

fn large_number(source: &mut DataSource) -> Status {
    match source.bits(16) {
        Ok(n) => {
            if n >= 1000 {
                Status::Interesting
            } else {
                Status::Valid
            }
        }
        Err(_) => Status::Overflow,
    }
}

fn list_with_large_element(source: &mut DataSource) -> Status {
    let mut found = false;
    loop {
        source.start_draw();
        let more = match source.bits(1) {
            Ok(more) => more,
            Err(_) => return Status::Overflow,
        };
        if more == 0 {
            source.stop_draw();
            break;
        }
        match source.bits(8) {
            Ok(n) => found = found || n >= 10,
            Err(_) => return Status::Overflow,
        }
        source.stop_draw();
    }
    if found {
        Status::Interesting
    } else {
        Status::Valid
    }
}

fn always_valid(source: &mut DataSource) -> Status {
    source.bits(8).unwrap();
    Status::Valid
}

fn always_invalid(_source: &mut DataSource) -> Status {
    Status::Invalid
}

#[test]
fn a_large_number_shrinks_to_the_limit() {
    let mut engine = Engine::new(1000, &[1, 2, 3]);
    drive(&mut engine, large_number);
    let mut best = engine.best_source().unwrap();
    assert_eq!(best.bits(16).unwrap(), 1000);
    assert!(!engine.was_unsatisfiable());
}

#[test]
fn a_list_shrinks_to_its_one_large_element() {
    let mut engine = Engine::new(1000, &[7]);
    drive(&mut engine, list_with_large_element);
    let mut best = engine.best_source().unwrap();
    assert_eq!(best.bits(1).unwrap(), 1);
    assert_eq!(best.bits(8).unwrap(), 10);
    assert_eq!(best.bits(1).unwrap(), 0);
    assert!(best.bits(1).is_err());
}

#[test]
fn the_best_source_is_interesting_again() {
    for seed in 0..20 {
        let mut engine = Engine::new(1000, &[seed]);
        drive(&mut engine, list_with_large_element);
        let mut best = engine.best_source().unwrap();
        assert!(list_with_large_element(&mut best) == Status::Interesting);
    }
}

#[test]
fn valid_tests_are_bounded() {
    let mut engine = Engine::new(25, &[1]);
    assert_eq!(drive(&mut engine, always_valid), 25);
    assert!(engine.best_source().is_none());
    assert!(!engine.was_unsatisfiable());
}

#[test]
fn invalid_tests_are_bounded() {
    let mut engine = Engine::new(3, &[1]);
    assert_eq!(drive(&mut engine, always_invalid), 30);
    assert!(engine.was_unsatisfiable());
    assert!(engine.best_source().is_none());
}

#[test]
fn no_examples_no_sources() {
    let mut engine = Engine::new(0, &[]);
    assert!(!engine.was_unsatisfiable());
    assert!(engine.next_source().is_none());
    assert!(engine.was_unsatisfiable());
}

#[test]
fn a_finished_engine_stays_finished() {
    let mut engine = Engine::new(1, &[]);
    drive(&mut engine, large_number);
    for _ in 0..3 {
        let before = engine.best_source().map(|mut s| s.bits(64).unwrap());
        engine.mark_finished(DataSource::from_vec(vec![1]), Status::Interesting);
        assert!(engine.next_source().is_none());
        let after = engine.best_source().map(|mut s| s.bits(64).unwrap());
        assert_eq!(before, after);
    }
}

#[test]
fn sources_are_split_off_the_seeded_generator() {
    let seed = [3, 1, 4, 1, 5];
    let mut engine = Engine::new(10, &seed);
    let mut random = ChaChaRng::from_seed(&seed[..]);
    for _ in 0..5 {
        let mut expected: ChaChaRng = random.gen();
        let mut source = engine.next_source().unwrap();
        for _ in 0..20 {
            assert_eq!(source.bits(64).unwrap(), expected.next_u64());
        }
        engine.mark_finished(source, Status::Valid);
    }
}

#[test]
fn a_split_generator_is_seeded_with_eight_words() {
    let mut random = ChaChaRng::new_unseeded();
    let mut key = Vec::new();
    for _ in 0..8 {
        key.push(random.next_u32());
    }
    let mut expected = ChaChaRng::from_seed(&key[..]);
    let mut engine = Engine::new(10, &[]);
    let mut source = engine.next_source().unwrap();
    assert_eq!(source.bits(64).unwrap(), expected.next_u64());
    engine.mark_finished(source, Status::Valid);
    let mut next = Vec::new();
    for _ in 0..8 {
        next.push(random.next_u32());
    }
    let mut expected = ChaChaRng::from_seed(&next[..]);
    let mut source = engine.next_source().unwrap();
    assert_eq!(source.bits(64).unwrap(), expected.next_u64());
}

#[test]
fn only_eight_words_of_the_seed_count() {
    let first = |seed: &[u32]| {
        let mut engine = Engine::new(10, seed);
        engine.next_source().unwrap().bits(64).unwrap()
    };
    assert_eq!(first(&[1, 2, 3, 4, 5, 6, 7, 8]), first(&[1, 2, 3, 4, 5, 6, 7, 8, 9]));
    assert_eq!(first(&[1, 2]), first(&[1, 2, 0, 0]));
    assert_ne!(first(&[1, 2]), first(&[2, 1]));
}

#[test]
fn overflows_are_not_counted() {
    let mut main_loop = MainGenerationLoop::new(2, &[]);
    for status in vec![Status::Overflow, Status::Invalid, Status::Valid, Status::Overflow] {
        let source = match main_loop.command() {
            LoopCommand::RunThis(source) => source,
            other => panic!("expected a run, found {:?}", other),
        };
        main_loop.completed(source.to_result(status));
    }
    assert_eq!(main_loop.count_of(Status::Overflow), 0);
    assert_eq!(main_loop.count_of(Status::Invalid), 1);
    assert_eq!(main_loop.count_of(Status::Valid), 1);
    assert_eq!(main_loop.count_of(Status::Interesting), 0);
    assert!(main_loop.best_record().is_none());
}

#[test]
fn shrinking_starts_with_the_first_interesting_test() {
    let mut main_loop = MainGenerationLoop::new(2, &[]);
    let mut source = match main_loop.command() {
        LoopCommand::RunThis(source) => source,
        other => panic!("expected a run, found {:?}", other),
    };
    let value = source.bits(8).unwrap();
    main_loop.completed(source.to_result(Status::Interesting));
    assert_eq!(main_loop.best_record(), Some(&vec![value]));
    match main_loop.command() {
        LoopCommand::Minimize(start) => assert_eq!(start, value),
        other => panic!("expected a search, found {:?}", other),
    }
    main_loop.candidate(value);
    assert!(matches!(main_loop.command(), LoopCommand::Answer(false)));
    main_loop.minimized(value);
    // Lowering by one is the only other step there is for one block.
    match main_loop.command() {
        LoopCommand::RunThis(source) => main_loop.completed(source.to_result(Status::Invalid)),
        other => panic!("expected a run, found {:?}", other),
    }
    assert!(matches!(
        main_loop.command(),
        LoopCommand::Finished(LoopExitReason::Complete)
    ));
}

#[test]
fn limits_that_cannot_be_counted_to() {
    let engine = Engine::new(u64::MAX, &[]);
    assert_eq!(engine.failure(), Some(Fault::Overflow));
    assert!(Engine::new(u64::MAX / 10, &[]).failure().is_none());
    assert_eq!(Engine::new(u64::MAX / 10 + 1, &[]).failure(), Some(Fault::Overflow));
}

#[test]
fn an_engine_fails_if_sizes_do_not_match() {
    let mut engine = Engine::new(10, &[]);
    let _ = engine.next_source().unwrap();
    let mut source = DataSource::from_vec(vec![1]);
    source.bits(8).unwrap();
    assert!(source.bits(8).is_err());
    engine.mark_finished(source, Status::Interesting);
    assert_eq!(engine.search_step(), Some(SearchStep::Start(1)));
    engine.minimized(1);
    assert_eq!(engine.failure(), Some(Fault::SizesMismatch));
}

#[test]
fn the_best_source_is_the_simplest_that_was_reported() {
    for seed in 0..20 {
        let mut engine = Engine::new(1000, &[seed, 5]);
        let mut search = Search { best: 0, tried: 0 };
        let mut interesting = Vec::new();
        while let Some(mut source) = engine.next_source() {
            let status = list_with_large_element(&mut source);
            if status == Status::Interesting {
                interesting.push(source.clone().to_result(status).record);
            }
            engine.mark_finished(source, status);
            search.serve(&mut engine);
        }
        let mut best = engine.best_source().unwrap();
        assert!(list_with_large_element(&mut best) == Status::Interesting);
        let best = best.to_result(Status::Interesting).record;
        assert!(interesting.contains(&best));
        for record in &interesting {
            assert!(!is_simpler(record, &best));
        }
    }
}

// Ten draws that can go, in front of a number that has to stay.
fn ballast(source: &mut DataSource) -> Status {
    let mut last = 0;
    for _ in 0..11 {
        source.start_draw();
        match source.bits(16) {
            Ok(n) => last = n,
            Err(_) => return Status::Overflow,
        }
        source.stop_draw();
        if last >= 50000 {
            return Status::Interesting;
        }
    }
    Status::Valid
}

#[test]
fn draws_in_front_are_deleted() {
    for seed in 0..20 {
        let mut engine = Engine::new(1000, &[seed, 9]);
        drive(&mut engine, ballast);
        let best = engine.best_source().map(|mut source| {
            ballast(&mut source);
            source.to_result(Status::Interesting).record
        });
        assert_eq!(best, Some(vec![50000]));
    }
}
