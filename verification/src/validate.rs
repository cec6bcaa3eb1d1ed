//! Deciding whether a board is a correct solution.

use crate::board::{group_cells, is_view_of, lemma_group_and_slot_of_cell, Sudoku, ViewKind};
use crate::digits::{
    all_in_range, is_permutation_of_digits, lemma_covering_digits_distinct,
    lemma_distinct_digits_cover, lemma_permutation_iff_distinct_digits,
};
use vstd::prelude::*;

verus! {

/// Whether bit `b` of the presence mask is set.
spec fn has_bit(mask: u16, b: u16) -> bool {
    (mask >> b) & 1 == 1
}

/// Setting bit `b` of a nine-bit mask adds that bit and moves no other.
proof fn lemma_set_bit(mask: u16, b: u16, c: u16)
    by (bit_vector)
    requires
        mask < 512,
        b < 9,
        c < 9,
    ensures
        (mask | (1u16 << b)) < 512,
        has_bit(mask | (1u16 << b), c) <==> (c == b || has_bit(mask, c)),
{
}

/// A nine-bit mask is full exactly when each of its nine bits is set, and
/// the empty mask has none of them set.
proof fn lemma_full_mask(mask: u16)
    by (bit_vector)
    requires
        mask < 512,
    ensures
        mask == 511 <==> (has_bit(mask, 0) && has_bit(mask, 1) && has_bit(mask, 2) && has_bit(
            mask,
            3,
        ) && has_bit(mask, 4) && has_bit(mask, 5) && has_bit(mask, 6) && has_bit(mask, 7)
            && has_bit(mask, 8)),
        mask == 0 ==> !has_bit(mask, 0) && !has_bit(mask, 1) && !has_bit(mask, 2) && !has_bit(
            mask,
            3,
        ) && !has_bit(mask, 4) && !has_bit(mask, 5) && !has_bit(mask, 6) && !has_bit(mask, 7)
            && !has_bit(mask, 8),
{
}

/// Whether the nine values of a group are pairwise distinct.
///
/// The values have to be digits from 1 to 9: each one sets its own bit of a
/// nine-bit mask, and the group is free of duplicates exactly when all nine
/// bits end up set.
pub fn is_slice_unique(sl: &[u8; 9]) -> (unique: bool)
    requires
        all_in_range(sl@),
    ensures
        unique == sl@.no_duplicates(),
{
    let mut mask: u16 = 0;
    let mut i: usize = 0;
    proof {
        lemma_full_mask(0);
    }
    while i < 9
        invariant
            i <= 9,
            all_in_range(sl@),
            mask < 512,
            forall|d: u8|
                1 <= d <= 9 ==> (has_bit(mask, (d - 1) as u16) <==> #[trigger] sl@.take(
                    i as int,
                ).contains(d)),
        decreases 9 - i,
    {
        let v: u8 = sl[i];
        let bit: u16 = (v - 1) as u16;
        let ghost before = mask;
        mask = mask | (1u16 << bit);
        proof {
            let seen = sl@.take(i as int);
            let now = sl@.take(i as int + 1);
            assert(now =~= seen.push(v));
            lemma_set_bit(before, bit, bit);
            assert forall|d: u8| 1 <= d <= 9 implies (has_bit(mask, (d - 1) as u16)
                <==> #[trigger] now.contains(d)) by {
                lemma_set_bit(before, bit, (d - 1) as u16);
                if d == v {
                    assert(now[i as int] == d);
                } else if seen.contains(d) {
                    let k = choose|k: int| 0 <= k < seen.len() && seen[k] == d;
                    assert(now[k] == d);
                } else if now.contains(d) {
                    let k = choose|k: int| 0 <= k < now.len() && now[k] == d;
                    assert(seen[k] == d);
                }
            }
        }
        i += 1;
    }
    proof {
        assert(sl@.take(9) =~= sl@);
        lemma_full_mask(mask);
        if mask == 511 {
            assert forall|d: u8| 1 <= d <= 9 implies sl@.contains(d) by {
                assert(has_bit(mask, (d - 1) as u16));
            }
            lemma_covering_digits_distinct(sl@);
        }
        if sl@.no_duplicates() {
            lemma_distinct_digits_cover(sl@);
            assert(sl@.contains(1u8) && sl@.contains(2u8) && sl@.contains(3u8));
            assert(sl@.contains(4u8) && sl@.contains(5u8) && sl@.contains(6u8));
            assert(sl@.contains(7u8) && sl@.contains(8u8) && sl@.contains(9u8));
        }
        assert((1u16 << 9u16) == 512) by (bit_vector);
    }
    mask == (1u16 << 9u16) - 1
}

/// Whether every value of every group of a view is a digit from 1 to 9.
pub open spec fn view_in_range(groups: [[u8; 9]; 9]) -> bool {
    forall|g: int| 0 <= g < 9 ==> all_in_range(#[trigger] groups[g]@)
}

/// Whether no group of a view holds a value twice.
pub open spec fn view_unique(groups: [[u8; 9]; 9]) -> bool {
    forall|g: int| 0 <= g < 9 ==> (#[trigger] groups[g]@).no_duplicates()
}

/// Whether each of the nine groups of a view is free of duplicates.
pub fn is_valid_view(sl: [[u8; 9]; 9]) -> (ok: bool)
    requires
        view_in_range(sl),
    ensures
        ok == view_unique(sl),
{
    let mut g: usize = 0;
    while g < 9
        invariant
            g <= 9,
            view_in_range(sl),
            forall|k: int| 0 <= k < g ==> (#[trigger] sl[k]@).no_duplicates(),
        decreases 9 - g,
    {
        if !is_slice_unique(&sl[g]) {
            return false;
        }
        g += 1;
    }
    true
}

/// Whether no group of the `kind` view of a board holds a value twice.
pub open spec fn groups_unique(cells: Seq<u8>, kind: ViewKind) -> bool {
    forall|g: int| 0 <= g < 9 ==> (#[trigger] group_cells(cells, kind, g)).no_duplicates()
}

/// Whether a board is a correct solution: every cell is a digit from 1 to
/// 9, and no row, no column and no box holds a digit twice.
pub open spec fn is_valid_board(cells: Seq<u8>) -> bool {
    &&& cells.len() == 81
    &&& all_in_range(cells)
    &&& groups_unique(cells, ViewKind::Rows)
    &&& groups_unique(cells, ViewKind::Columns)
    &&& groups_unique(cells, ViewKind::Boxes)
}

/// Whether every row, every column and every box of a board is a
/// rearrangement of the digits 1 to 9.
pub open spec fn all_groups_are_permutations(cells: Seq<u8>) -> bool {
    forall|kind: ViewKind, g: int|
        0 <= g < 9 ==> is_permutation_of_digits(#[trigger] group_cells(cells, kind, g))
}

/// Whether some row, column or box of a board holds the same value in two
/// of its slots.
pub open spec fn has_duplicate_in_group(cells: Seq<u8>) -> bool {
    exists|kind: ViewKind, g: int, i: int, j: int|
        #![trigger kind.cell(g, i), kind.cell(g, j)]
        0 <= g < 9 && 0 <= i < j < 9 && cells[kind.cell(g, i)] == cells[kind.cell(g, j)]
}

/// Whether some cell of a board holds 0 or a value above 9.
pub open spec fn has_out_of_range_cell(cells: Seq<u8>) -> bool {
    exists|e: int| 0 <= e < cells.len() && !(1 <= #[trigger] cells[e] <= 9)
}

/// A board is a correct solution exactly when each of its rows, columns
/// and boxes is a rearrangement of the digits 1 to 9.
pub proof fn lemma_valid_iff_permutations(cells: Seq<u8>)
    requires
        cells.len() == 81,
    ensures
        is_valid_board(cells) <==> all_groups_are_permutations(cells),
{
    if is_valid_board(cells) {
        assert forall|kind: ViewKind, g: int| 0 <= g < 9 implies is_permutation_of_digits(
            #[trigger] group_cells(cells, kind, g),
        ) by {
            let group = group_cells(cells, kind, g);
            assert forall|s: int| 0 <= s < group.len() implies 1 <= #[trigger] group[s] <= 9 by {
                lemma_group_and_slot_of_cell(kind, g, s);
            }
            match kind {
                ViewKind::Rows => assert(groups_unique(cells, ViewKind::Rows)),
                ViewKind::Columns => assert(groups_unique(cells, ViewKind::Columns)),
                ViewKind::Boxes => assert(groups_unique(cells, ViewKind::Boxes)),
            }
            lemma_permutation_iff_distinct_digits(group);
        }
    }
    if all_groups_are_permutations(cells) {
        assert forall|kind: ViewKind, g: int| 0 <= g < 9 implies (#[trigger] group_cells(
            cells,
            kind,
            g,
        )).no_duplicates() && all_in_range(group_cells(cells, kind, g)) by {
            lemma_permutation_iff_distinct_digits(group_cells(cells, kind, g));
        }
        assert forall|e: int| 0 <= e < cells.len() implies 1 <= #[trigger] cells[e] <= 9 by {
            let row = group_cells(cells, ViewKind::Rows, e / 9);
            assert(row[e % 9] == cells[e]);
        }
    }
}

/// A board with the same value in two slots of one row, column or box is
/// no correct solution.
pub proof fn lemma_duplicate_is_invalid(cells: Seq<u8>)
    requires
        has_duplicate_in_group(cells),
    ensures
        !is_valid_board(cells),
{
    let (kind, g, i, j) = choose|kind: ViewKind, g: int, i: int, j: int|
        #![trigger kind.cell(g, i), kind.cell(g, j)]
        0 <= g < 9 && 0 <= i < j < 9 && cells[kind.cell(g, i)] == cells[kind.cell(g, j)];
    let group = group_cells(cells, kind, g);
    assert(group[i] == group[j]);
    match kind {
        ViewKind::Rows => assert(!groups_unique(cells, ViewKind::Rows)),
        ViewKind::Columns => assert(!groups_unique(cells, ViewKind::Columns)),
        ViewKind::Boxes => assert(!groups_unique(cells, ViewKind::Boxes)),
    }
}

/// A board with a cell that holds 0 or a value above 9 is no correct
/// solution.
pub proof fn lemma_out_of_range_is_invalid(cells: Seq<u8>)
    requires
        has_out_of_range_cell(cells),
    ensures
        !is_valid_board(cells),
{
}

/// Whether the board is a correct solution.
///
/// A board with a cell outside 1 to 9 is rejected before any group is
/// looked at, so every board gets an answer.
pub fn eval_sudoku(sudoku: Sudoku) -> (ok: bool)
    ensures
        ok == is_valid_board(sudoku@),
        all_groups_are_permutations(sudoku@) ==> ok,
        has_duplicate_in_group(sudoku@) ==> !ok,
        has_out_of_range_cell(sudoku@) ==> !ok,
{
    proof {
        lemma_valid_iff_permutations(sudoku@);
        if has_duplicate_in_group(sudoku@) {
            lemma_duplicate_is_invalid(sudoku@);
        }
        if has_out_of_range_cell(sudoku@) {
            lemma_out_of_range_is_invalid(sudoku@);
        }
    }
    if !sudoku.cells_in_range() {
        return false;
    }
    let columns = sudoku.as_columns();
    proof {
        lemma_view_matches_board(columns, sudoku@, ViewKind::Columns);
    }
    if !is_valid_view(columns) {
        return false;
    }
    let rows = sudoku.as_rows();
    proof {
        lemma_view_matches_board(rows, sudoku@, ViewKind::Rows);
    }
    if !is_valid_view(rows) {
        return false;
    }
    let boxes = sudoku.as_boxes();
    proof {
        lemma_view_matches_board(boxes, sudoku@, ViewKind::Boxes);
    }
    is_valid_view(boxes)
}

/// What holds of a view carries over from the board it was taken from.
proof fn lemma_view_matches_board(groups: [[u8; 9]; 9], cells: Seq<u8>, kind: ViewKind)
    requires
        cells.len() == 81,
        is_view_of(groups, cells, kind),
    ensures
        all_in_range(cells) ==> view_in_range(groups),
        view_unique(groups) == groups_unique(cells, kind),
{
    // What `is_view_of` says, put so that naming a group of the view calls
    // it up.
    assert forall|g: int| 0 <= g < 9 implies #[trigger] groups[g]@ == group_cells(
        cells,
        kind,
        g,
    ) by {}
    if all_in_range(cells) {
        assert forall|g: int| 0 <= g < 9 implies all_in_range(#[trigger] groups[g]@) by {
            let group = group_cells(cells, kind, g);
            assert forall|s: int| 0 <= s < group.len() implies 1 <= #[trigger] group[s] <= 9 by {
                lemma_group_and_slot_of_cell(kind, g, s);
            }
        }
    }
}

} // verus!
