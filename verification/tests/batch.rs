use rayon::iter::{IntoParallelRefIterator, ParallelIterator};
use sudoku_validator::{
    count_valid_sudokus, eval_sudoku, is_valid_sudoku_line, parse_raw_line_to_sudoku,
};

const SOLVED_LINE: &str = "8,3,5,4,1,6,9,2,7,2,9,6,8,5,7,4,3,1,4,1,7,2,9,3,6,5,8,5,6,9,1,3,4,7,8,2,1,2,3,6,7,8,5,4,9,7,4,8,5,2,9,1,6,3,6,5,2,7,8,1,3,9,4,9,8,1,3,4,5,2,7,6,3,7,4,9,6,2,8,1,5";

const SWAPPED_LINE: &str = "3,8,5,4,1,6,9,2,7,2,9,6,8,5,7,4,3,1,4,1,7,2,9,3,6,5,8,5,6,9,1,3,4,7,8,2,1,2,3,6,7,8,5,4,9,7,4,8,5,2,9,1,6,3,6,5,2,7,8,1,3,9,4,9,8,1,3,4,5,2,7,6,3,7,4,9,6,2,8,1,5";

const DUPLICATE_LINE: &str = "8,8,5,4,1,6,9,2,7,2,9,6,8,5,7,4,3,1,4,1,7,2,9,3,6,5,8,5,6,9,1,3,4,7,8,2,1,2,3,6,7,8,5,4,9,7,4,8,5,2,9,1,6,3,6,5,2,7,8,1,3,9,4,9,8,1,3,4,5,2,7,6,3,7,4,9,6,2,8,1,5";

const SHORT_LINE: &str = "8,3,5,4,1,6,9,2,7,2,9,6,8,5,7,4,3,1,4,1,7,2,9,3,6,5,8,5,6,9,1,3,4,7,8,2,1,2,3,6,7,8,5,4,9,7,4,8,5,2,9,1,6,3,6,5,2,7,8,1,3,9,4,9,8,1,3,4,5,2,7,6,3,7,4,9,6,2,8,1";

fn owned(lines: &[&str]) -> Vec<String> {
    lines.iter().map(|line| line.to_string()).collect()
}

/// A mixed batch: every third line a solution, the others broken in turn.
fn mixed(n: usize) -> Vec<String> {
    let others = [SWAPPED_LINE, SHORT_LINE, DUPLICATE_LINE, "", "1,2,3", "no board at all"];
    let mut lines = Vec::new();
    for k in 0..n {
        if k % 3 == 0 {
            lines.push(SOLVED_LINE.to_string());
        } else {
            lines.push(others[k % others.len()].to_string());
        }
    }
    lines
}

#[test]
fn canonical_solved_line_validates() {
    assert_eq!(SOLVED_LINE.split(',').count(), 81);
    assert!(is_valid_sudoku_line(SOLVED_LINE));
    let board = parse_raw_line_to_sudoku(SOLVED_LINE).unwrap();
    assert!(eval_sudoku(board));
}

#[test]
fn line_with_first_two_values_swapped_does_not_validate() {
    assert!(SWAPPED_LINE.starts_with("3,8,5,"));
    assert_eq!(&SWAPPED_LINE[3..], &SOLVED_LINE[3..]);
    assert!(!is_valid_sudoku_line(SWAPPED_LINE));
    let board = parse_raw_line_to_sudoku(SWAPPED_LINE).unwrap();
    assert!(!eval_sudoku(board));
}

#[test]
fn three_lines_one_valid_one_short_one_with_a_duplicate() {
    assert_eq!(SHORT_LINE.split(',').count(), 80);
    let lines = owned(&[SOLVED_LINE, SHORT_LINE, DUPLICATE_LINE]);
    assert_eq!(count_valid_sudokus(&lines), 1);
}

#[test]
fn empty_input_counts_zero() {
    let lines: Vec<String> = Vec::new();
    assert_eq!(count_valid_sudokus(&lines), 0);
}

#[test]
fn lines_that_are_no_board_count_for_nothing() {
    let lines = owned(&["", "   ", "1,2,3", "x", SHORT_LINE, ",,,,"]);
    assert_eq!(count_valid_sudokus(&lines), 0);
    for line in &lines {
        assert!(!is_valid_sudoku_line(line));
    }
}

#[test]
fn every_valid_line_counts_once() {
    let lines = owned(&[SOLVED_LINE, SOLVED_LINE, SWAPPED_LINE, SOLVED_LINE]);
    assert_eq!(count_valid_sudokus(&lines), 3);
    assert_eq!(count_valid_sudokus(&lines[..1]), 1);
    assert_eq!(count_valid_sudokus(&lines[2..3]), 0);
}

#[test]
fn a_valid_line_with_noise_still_counts() {
    let noisy = format!(" x, 0 ,{}, 10, trailing", SOLVED_LINE.replace(',', " , "));
    assert!(is_valid_sudoku_line(&noisy));
    assert_eq!(count_valid_sudokus(&[noisy]), 1);
}

#[test]
fn values_after_the_board_are_not_looked_at() {
    let longer = format!("{},8,8,8", SOLVED_LINE);
    assert!(is_valid_sudoku_line(&longer));
    let longer = format!("{},1", SWAPPED_LINE);
    assert!(!is_valid_sudoku_line(&longer));
}

#[test]
fn the_count_is_the_sum_over_the_lines() {
    let lines = mixed(50);
    let one_by_one = lines.iter().filter(|line| is_valid_sudoku_line(line)).count();
    assert_eq!(count_valid_sudokus(&lines), one_by_one);
    assert_eq!(one_by_one, 17);
}

#[test]
fn the_count_of_a_batch_is_the_sum_of_its_parts() {
    let lines = mixed(40);
    let whole = count_valid_sudokus(&lines);
    for cut in 0..=lines.len() {
        let (a, b) = lines.split_at(cut);
        assert_eq!(count_valid_sudokus(a) + count_valid_sudokus(b), whole);
    }
}

#[test]
fn the_count_does_not_depend_on_the_order() {
    let lines = mixed(31);
    let expected = count_valid_sudokus(&lines);
    let mut reversed = lines.clone();
    reversed.reverse();
    assert_eq!(count_valid_sudokus(&reversed), expected);
    let mut turned = lines.clone();
    for _ in 0..lines.len() {
        turned.rotate_left(1);
        assert_eq!(count_valid_sudokus(&turned), expected);
    }
    let mut sorted = lines.clone();
    sorted.sort();
    assert_eq!(count_valid_sudokus(&sorted), expected);
}

#[test]
fn counting_in_parallel_gives_the_same_count() {
    for n in [0usize, 1, 2, 3, 10, 257, 2000] {
        let lines = mixed(n);
        let sequential = count_valid_sudokus(&lines);
        let parallel = lines.par_iter().filter(|line| is_valid_sudoku_line(line)).count();
        assert_eq!(parallel, sequential);
        assert_eq!(sequential, (n + 2) / 3);
    }
}
