use conjecture::data::{Draw, Status, TestResult};
use conjecture::deletion::{delete_draws, delete_draws_from, pick_draws};
use conjecture::duplicates::calc_duplicates;
use conjecture::streams;

fn draw(start: usize, end: usize) -> Draw {
    Draw { depth: 0, start, end }
}

fn inner(start: usize, end: usize) -> Draw {
    Draw { depth: 1, start, end }
}

fn result(record: Vec<u64>, sizes: Vec<u64>, written: Vec<usize>) -> TestResult {
    TestResult {
        record,
        status: Status::Interesting,
        draws: Vec::new(),
        sizes,
        written_indices: written.into_iter().collect(),
    }
}

#[test]
fn shorter_streams_are_simpler() {
    assert!(streams::is_simpler(&vec![9, 9], &vec![0, 0, 0]));
    assert!(!streams::is_simpler(&vec![0, 0, 0], &vec![9, 9]));
    assert!(streams::is_simpler(&vec![1, 9], &vec![2, 0]));
    assert!(!streams::is_simpler(&vec![2, 0], &vec![1, 9]));
    assert!(!streams::is_simpler(&vec![2, 0], &vec![2, 0]));
    assert!(!streams::is_simpler(&Vec::new(), &Vec::new()));
}

#[test]
fn simpler_is_transitive() {
    let a = vec![1, 2];
    let b = vec![1, 3];
    let c = vec![0, 0, 0];
    assert!(streams::is_simpler(&a, &b));
    assert!(streams::is_simpler(&b, &c));
    assert!(streams::is_simpler(&a, &c));
}

#[test]
fn lexicographic_order_goes_by_the_first_difference() {
    assert!(streams::is_lex_less(&vec![1, 2, 3], &vec![1, 3, 0]));
    assert!(!streams::is_lex_less(&vec![1, 3, 0], &vec![1, 2, 3]));
    assert!(!streams::is_lex_less(&vec![1, 3], &vec![1, 3]));
}

#[test]
fn starts_with_looks_at_all_blocks() {
    assert!(streams::starts_with(&vec![1, 2, 3], &vec![1, 2]));
    assert!(streams::starts_with(&vec![1, 2, 3], &Vec::new()));
    assert!(streams::starts_with(&vec![1, 2, 3], &vec![1, 2, 3]));
    assert!(!streams::starts_with(&vec![1, 2, 3], &vec![1, 3]));
    assert!(!streams::starts_with(&vec![1, 2], &vec![1, 2, 3]));
}

#[test]
fn blocks_are_removed_swapped_and_replaced() {
    let s = vec![10, 20, 30, 40];
    assert_eq!(streams::remove_range(&s, 1, 3), vec![10, 40]);
    assert_eq!(streams::remove_range(&s, 0, 4), Vec::<u64>::new());
    assert_eq!(streams::remove_range(&s, 2, 2), s);
    assert_eq!(streams::swap_blocks(&s, 0, 3), vec![40, 20, 30, 10]);
    assert_eq!(streams::swap_blocks(&s, 1, 1), s);
    assert_eq!(streams::replace_block(&s, 2, 5), vec![10, 20, 5, 40]);
    assert_eq!(streams::replace_all(&s, &vec![0, 3], 7), vec![7, 20, 30, 7]);
    assert!(streams::are_places_within(&vec![0, 3], 4));
    assert!(!streams::are_places_within(&vec![0, 4], 4));
}

#[test]
fn picked_draws_do_not_overlap() {
    let draws = vec![draw(0, 3), inner(1, 2), draw(3, 4), draw(4, 6), draw(6, 7)];
    let ranges = |i, k| -> Vec<(usize, usize)> {
        pick_draws(&draws, i, k).iter().map(|d| (d.start, d.end)).collect()
    };
    assert_eq!(ranges(0, 2), vec![(0, 3), (3, 4)]);
    assert_eq!(ranges(1, 3), vec![(1, 2), (3, 4), (4, 6)]);
    assert_eq!(ranges(3, 9), vec![(4, 6), (6, 7)]);
    assert_eq!(ranges(0, 0), Vec::new());
    assert_eq!(ranges(5, 2), Vec::new());
}

#[test]
fn deleting_draws_keeps_the_other_blocks() {
    let record = vec![0, 1, 2, 3, 4, 5, 6];
    assert_eq!(delete_draws(&record, &vec![draw(1, 2), draw(4, 6)]), vec![0, 2, 3, 6]);
    assert_eq!(delete_draws(&record, &Vec::new()), record);
    let mut target = result(record, vec![8; 7], Vec::new());
    target.draws = vec![draw(0, 3), inner(1, 2), draw(3, 4)];
    assert_eq!(delete_draws_from(&target, 0, 1), vec![3, 4, 5, 6]);
    assert_eq!(delete_draws_from(&target, 0, 2), vec![4, 5, 6]);
    assert_eq!(delete_draws_from(&target, 1, 2), vec![0, 2, 4, 5, 6]);
    assert_eq!(delete_draws_from(&target, 0, 0), target.record);
    // There are no more draws to delete.
    assert_eq!(delete_draws_from(&target, 0, 3), vec![4, 5, 6]);
    assert_eq!(delete_draws_from(&target, 0, 100), vec![4, 5, 6]);
}

#[test]
fn duplicates_are_listed_longest_first() {
    let target = result(vec![5, 7, 5, 7, 7, 1], vec![8; 6], Vec::new());
    assert_eq!(calc_duplicates(&target), vec![vec![1, 3, 4], vec![0, 2]]);
}

#[test]
fn duplicates_of_equal_length_keep_their_order() {
    let target = result(vec![5, 7, 7, 5], vec![8; 4], Vec::new());
    assert_eq!(calc_duplicates(&target), vec![vec![0, 3], vec![1, 2]]);
}

#[test]
fn duplicates_have_the_same_size() {
    let target = result(vec![5, 5, 5], vec![8, 16, 8], Vec::new());
    assert_eq!(calc_duplicates(&target), vec![vec![0, 2]]);
}

#[test]
fn duplicates_leave_written_blocks_out() {
    let target = result(vec![5, 5, 5, 6, 6], vec![8; 5], vec![0, 4]);
    assert_eq!(calc_duplicates(&target), vec![vec![1, 2]]);
}

#[test]
fn no_duplicates_in_an_empty_record() {
    assert!(calc_duplicates(&result(Vec::new(), Vec::new(), Vec::new())).is_empty());
}

#[test]
fn simpler_streams_have_lower_ranks() {
    let rank = |s: &Vec<u64>| -> u128 {
        s.iter().fold(1u128, |rank, block| (rank << 64) + *block as u128)
    };
    let streams = vec![vec![], vec![0], vec![5], vec![u64::MAX]];
    for a in &streams {
        for b in &streams {
            assert_eq!(streams::is_simpler(a, b), rank(a) < rank(b));
        }
    }
}
