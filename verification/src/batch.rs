//! Counting the correct solutions among many lines.
//!
//! Each line is judged on its own, so the count of a batch is a plain sum
//! over its lines. The two lemmas at the end say what that gives to a
//! caller who spreads the lines over several workers: the batch may be cut
//! anywhere and the lines taken in any order, and the sum stays the same.

use crate::parse::{line_values, parse_raw_line_to_sudoku};
use crate::validate::{eval_sudoku, is_valid_board};
use vstd::prelude::*;
use vstd::seq_lib::group_to_multiset_ensures;

verus! {

/// Whether a line gives a board and that board is a correct solution.
pub open spec fn line_is_valid(line: Seq<char>) -> bool {
    line_values(line).len() >= 81 && is_valid_board(line_values(line).take(81))
}

/// The number of lines of a batch that give a correct solution.
pub open spec fn valid_count(lines: Seq<Seq<char>>) -> nat
    decreases lines.len(),
{
    if lines.len() == 0 {
        0
    } else {
        valid_count(lines.drop_last()) + if line_is_valid(lines.last()) {
            1nat
        } else {
            0nat
        }
    }
}

/// Whether a line gives a board and that board is a correct solution.
///
/// A line that is no board is not an error: the answer is `false`.
pub fn is_valid_sudoku_line(line: &str) -> (ok: bool)
    ensures
        ok == line_is_valid(line@),
{
    match parse_raw_line_to_sudoku(line) {
        Some(sudoku) => eval_sudoku(sudoku),
        None => false,
    }
}

/// Counts the lines that give a correct solution.
pub fn count_valid_sudokus(lines: &[String]) -> (n: usize)
    ensures
        n == valid_count(lines.deep_view()),
{
    let ghost all = lines.deep_view();
    let mut n: usize = 0;
    let mut i: usize = 0;
    while i < lines.len()
        invariant
            i <= lines.len(),
            all == lines.deep_view(),
            n == valid_count(all.take(i as int)),
            n <= i,
        decreases lines.len() - i,
    {
        proof {
            assert(all.take(i as int + 1).drop_last() =~= all.take(i as int));
            assert(all.take(i as int + 1).last() == lines@[i as int]@);
        }
        if is_valid_sudoku_line(lines[i].as_str()) {
            n += 1;
        }
        i += 1;
    }
    proof {
        assert(all.take(lines.len() as int) =~= all);
    }
    n
}

/// The count of two batches put together is the sum of their counts.
pub proof fn lemma_valid_count_concat(a: Seq<Seq<char>>, b: Seq<Seq<char>>)
    ensures
        valid_count(a + b) == valid_count(a) + valid_count(b),
    decreases b.len(),
{
    if b.len() == 0 {
        assert(a + b =~= a);
    } else {
        lemma_valid_count_concat(a, b.drop_last());
        assert((a + b).drop_last() =~= a + b.drop_last());
    }
}

/// Taking one line out of a batch lowers the count by what that line
/// counted for.
proof fn lemma_valid_count_remove(lines: Seq<Seq<char>>, i: int)
    requires
        0 <= i < lines.len(),
    ensures
        valid_count(lines) == valid_count(lines.remove(i)) + valid_count(seq![lines[i]]),
{
    let before = lines.take(i);
    let after = lines.skip(i + 1);
    assert(lines =~= (before + seq![lines[i]]) + after);
    assert(lines.remove(i) =~= before + after);
    lemma_valid_count_concat(before + seq![lines[i]], after);
    lemma_valid_count_concat(before, seq![lines[i]]);
    lemma_valid_count_concat(before, after);
}

/// The count does not depend on the order of the lines: two batches that
/// hold the same lines, each as often as the other, have the same count.
pub proof fn lemma_valid_count_rearranged(a: Seq<Seq<char>>, b: Seq<Seq<char>>)
    requires
        a.to_multiset() == b.to_multiset(),
    ensures
        valid_count(a) == valid_count(b),
    decreases a.len(),
{
    broadcast use group_to_multiset_ensures;

    if a.len() == 0 {
        assert(b.len() == b.to_multiset().len());
    } else {
        // The last line of `a` stands somewhere in `b`. Without it, the two
        // batches are still rearrangements of each other.
        let last = a.len() - 1;
        assert(a.contains(a[last]));
        assert(b.to_multiset().count(a[last]) > 0);
        let i = choose|i: int| 0 <= i < b.len() && b[i] == a[last];
        assert(a.remove(last).to_multiset() == b.remove(i).to_multiset());
        lemma_valid_count_rearranged(a.remove(last), b.remove(i));
        lemma_valid_count_remove(a, last);
        lemma_valid_count_remove(b, i);
    }
}

} // verus!
