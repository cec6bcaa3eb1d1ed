//! The board and its three views.

use crate::digits::all_in_range;
use vstd::arithmetic::div_mod::lemma_fundamental_div_mod_converse;
use vstd::prelude::*;

verus! {

/// A filled 9x9 board: 81 cells in row-major order, so that the cell in
/// row `r` and column `c` is `fields[9 * r + c]`.
///
/// Any 81 bytes make a `Sudoku`. Whether they are a correct solution is
/// what `eval_sudoku` decides.
#[derive(Clone, Copy, Debug, PartialEq, Eq)]
pub struct Sudoku {
    pub fields: [u8; 81],
}

impl View for Sudoku {
    type V = Seq<u8>;

    /// The 81 cells, in row-major order.
    open spec fn view(&self) -> Seq<u8> {
        self.fields@
    }
}

/// The three ways of cutting a board into nine groups of nine cells.
#[derive(Clone, Copy, Debug, PartialEq, Eq)]
pub enum ViewKind {
    /// Group `r` is row `r`, read from left to right.
    Rows,
    /// Group `c` is column `c`, read from top to bottom.
    Columns,
    /// Group `b` is the 3x3 box `b`, boxes and the cells inside a box both
    /// counted row by row.
    Boxes,
}

impl ViewKind {
    /// The flat index of the cell that stands in slot `s` of group `g`.
    pub open spec fn cell(self, g: int, s: int) -> int {
        match self {
            ViewKind::Rows => 9 * g + s,
            ViewKind::Columns => 9 * s + g,
            ViewKind::Boxes => 9 * (3 * (g / 3) + s / 3) + (3 * (g % 3) + s % 3),
        }
    }

    /// The group that the cell with flat index `e` belongs to.
    pub open spec fn group(self, e: int) -> int {
        match self {
            ViewKind::Rows => e / 9,
            ViewKind::Columns => e % 9,
            ViewKind::Boxes => (e / 3) % 3 + (e / 27) * 3,
        }
    }

    /// The slot that the cell with flat index `e` takes in its group.
    pub open spec fn slot(self, e: int) -> int {
        match self {
            ViewKind::Rows => e % 9,
            ViewKind::Columns => e / 9,
            ViewKind::Boxes => e % 3 + (e / 9) % 3 * 3,
        }
    }

    /// Computes [`ViewKind::group`].
    pub fn group_of(self, e: usize) -> (g: usize)
        requires
            e < 81,
        ensures
            g == self.group(e as int),
            g < 9,
    {
        match self {
            ViewKind::Rows => e / 9,
            ViewKind::Columns => e % 9,
            ViewKind::Boxes => (e / 3) % 3 + (e / 27) * 3,
        }
    }

    /// Computes [`ViewKind::slot`].
    pub fn slot_of(self, e: usize) -> (s: usize)
        requires
            e < 81,
        ensures
            s == self.slot(e as int),
            s < 9,
    {
        match self {
            ViewKind::Rows => e % 9,
            ViewKind::Columns => e / 9,
            ViewKind::Boxes => e % 3 + (e / 9) % 3 * 3,
        }
    }
}

/// The arithmetic of the boxes. The cell in row `br` and column `bc` of the
/// 3x3 grid of boxes, and there in row `cr` and column `cc` of its box, is
/// slot `3 * cr + cc` of box `3 * br + bc`, and both ways of finding it
/// agree.
proof fn lemma_box_arithmetic(br: int, bc: int, cr: int, cc: int)
    requires
        0 <= br < 3,
        0 <= bc < 3,
        0 <= cr < 3,
        0 <= cc < 3,
    ensures
        ({
            let g = 3 * br + bc;
            let s = 3 * cr + cc;
            let e = 9 * (3 * br + cr) + (3 * bc + cc);
            &&& 0 <= e < 81
            &&& ViewKind::Boxes.cell(g, s) == e
            &&& ViewKind::Boxes.group(e) == g
            &&& ViewKind::Boxes.slot(e) == s
        }),
{
    let g = 3 * br + bc;
    let s = 3 * cr + cc;
    let e = 9 * (3 * br + cr) + (3 * bc + cc);
    lemma_fundamental_div_mod_converse(g, 3, br, bc);
    lemma_fundamental_div_mod_converse(s, 3, cr, cc);
    lemma_fundamental_div_mod_converse(e, 27, br, 9 * cr + 3 * bc + cc);
    lemma_fundamental_div_mod_converse(e, 3, 9 * br + 3 * cr + bc, cc);
    lemma_fundamental_div_mod_converse(9 * br + 3 * cr + bc, 3, 3 * br + cr, bc);
    lemma_fundamental_div_mod_converse(e, 9, 3 * br + cr, 3 * bc + cc);
    lemma_fundamental_div_mod_converse(3 * br + cr, 3, br, cr);
}

/// Every cell has exactly one place in a view: group and slot of a flat
/// index are in range and lead back to that index.
pub proof fn lemma_cell_of_group_and_slot(kind: ViewKind, e: int)
    requires
        0 <= e < 81,
    ensures
        0 <= kind.group(e) < 9,
        0 <= kind.slot(e) < 9,
        kind.cell(kind.group(e), kind.slot(e)) == e,
{
    match kind {
        ViewKind::Rows => {},
        ViewKind::Columns => {},
        ViewKind::Boxes => {
            let row = e / 9;
            let column = e % 9;
            lemma_box_arithmetic(row / 3, column / 3, row % 3, column % 3);
        },
    }
}

/// Every place of a view holds exactly one cell: the flat index of a group
/// and slot is in range and leads back to that group and slot.
pub proof fn lemma_group_and_slot_of_cell(kind: ViewKind, g: int, s: int)
    requires
        0 <= g < 9,
        0 <= s < 9,
    ensures
        0 <= kind.cell(g, s) < 81,
        kind.group(kind.cell(g, s)) == g,
        kind.slot(kind.cell(g, s)) == s,
{
    match kind {
        ViewKind::Rows => {},
        ViewKind::Columns => {},
        ViewKind::Boxes => {
            lemma_box_arithmetic(g / 3, g % 3, s / 3, s % 3);
        },
    }
}

/// The nine values of group `g` of a board, in slot order.
pub open spec fn group_cells(cells: Seq<u8>, kind: ViewKind, g: int) -> Seq<u8> {
    Seq::new(9, |s: int| cells[kind.cell(g, s)])
}

/// Whether `groups` is the `kind` view of the board `cells`.
pub open spec fn is_view_of(groups: [[u8; 9]; 9], cells: Seq<u8>, kind: ViewKind) -> bool {
    forall|g: int| 0 <= g < 9 ==> groups[g]@ == #[trigger] group_cells(cells, kind, g)
}

/// A view holds, in slot `s` of group `g`, the cell that
/// [`ViewKind::cell`] names.
pub proof fn lemma_view_cells(groups: [[u8; 9]; 9], cells: Seq<u8>, kind: ViewKind)
    requires
        is_view_of(groups, cells, kind),
    ensures
        forall|g: int, s: int|
            0 <= g < 9 && 0 <= s < 9 ==> #[trigger] groups[g][s] == cells[kind.cell(g, s)],
{
    assert forall|g: int, s: int| 0 <= g < 9 && 0 <= s < 9 implies #[trigger] groups[g][s]
        == cells[kind.cell(g, s)] by {
        assert(groups[g]@ == group_cells(cells, kind, g));
    }
}

impl Sudoku {
    /// A fresh copy of the board's values, arranged as the nine groups of
    /// the `kind` view.
    pub fn extract(&self, kind: ViewKind) -> (res: [[u8; 9]; 9])
        ensures
            is_view_of(res, self@, kind),
    {
        let mut res = [[0u8; 9]; 9];
        let mut e: usize = 0;
        while e < 81
            invariant
                e <= 81,
                forall|k: int|
                    0 <= k < e ==> res[#[trigger] kind.group(k)][kind.slot(k)] == self.fields[k],
            decreases 81 - e,
        {
            proof {
                assert forall|k: int| 0 <= k <= e implies kind.cell(kind.group(k), kind.slot(k))
                    == k by {
                    lemma_cell_of_group_and_slot(kind, k);
                }
            }
            res[kind.group_of(e)][kind.slot_of(e)] = self.fields[e];
            e += 1;
        }
        proof {
            assert forall|g: int| 0 <= g < 9 implies res[g]@ == #[trigger] group_cells(
                self@,
                kind,
                g,
            ) by {
                assert forall|s: int| 0 <= s < 9 implies res[g]@[s] == self@[kind.cell(g, s)] by {
                    lemma_group_and_slot_of_cell(kind, g, s);
                }
                assert(res[g]@ =~= group_cells(self@, kind, g));
            }
        }
        res
    }

    /// Whether every cell holds a digit from 1 to 9.
    pub fn cells_in_range(&self) -> (ok: bool)
        ensures
            ok == all_in_range(self@),
    {
        let mut e: usize = 0;
        while e < 81
            invariant
                e <= 81,
                forall|k: int| 0 <= k < e ==> 1 <= #[trigger] self@[k] <= 9,
            decreases 81 - e,
        {
            if self.fields[e] < 1 || self.fields[e] > 9 {
                return false;
            }
            e += 1;
        }
        true
    }

    /// The nine rows: `res[r][s]` is the cell with flat index `9 * r + s`.
    pub fn as_rows(&self) -> (res: [[u8; 9]; 9])
        ensures
            is_view_of(res, self@, ViewKind::Rows),
            forall|r: int, s: int| 0 <= r < 9 && 0 <= s < 9 ==> res[r][s] == self@[9 * r + s],
    {
        let res = self.extract(ViewKind::Rows);
        proof {
            lemma_view_cells(res, self@, ViewKind::Rows);
        }
        res
    }

    /// The nine columns: `res[c][s]` is the cell with flat index `9 * s + c`.
    pub fn as_columns(&self) -> (res: [[u8; 9]; 9])
        ensures
            is_view_of(res, self@, ViewKind::Columns),
            forall|c: int, s: int| 0 <= c < 9 && 0 <= s < 9 ==> res[c][s] == self@[9 * s + c],
    {
        let res = self.extract(ViewKind::Columns);
        proof {
            lemma_view_cells(res, self@, ViewKind::Columns);
        }
        res
    }

    /// The nine boxes: `res[b][s]` is the cell in row `3 * (b / 3) + s / 3`
    /// and column `3 * (b % 3) + s % 3`.
    pub fn as_boxes(&self) -> (res: [[u8; 9]; 9])
        ensures
            is_view_of(res, self@, ViewKind::Boxes),
            forall|b: int, s: int|
                0 <= b < 9 && 0 <= s < 9 ==> res[b][s] == self@[9 * (3 * (b / 3) + s / 3) + (3 * (b
                    % 3) + s % 3)],
    {
        let res = self.extract(ViewKind::Boxes);
        proof {
            lemma_view_cells(res, self@, ViewKind::Boxes);
        }
        res
    }
}

} // verus!
