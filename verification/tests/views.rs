use sudoku_validator::{Sudoku, ViewKind};

/// A board whose cell `e` holds `e`, so that a view shows where each of its
/// values came from.
fn numbered() -> Sudoku {
    let mut fields = [0u8; 81];
    for e in 0..81 {
        fields[e] = e as u8;
    }
    Sudoku { fields }
}

#[test]
fn rows_are_runs_of_nine() {
    let rows = numbered().as_rows();
    assert_eq!(rows[0], [0, 1, 2, 3, 4, 5, 6, 7, 8]);
    assert_eq!(rows[1], [9, 10, 11, 12, 13, 14, 15, 16, 17]);
    assert_eq!(rows[8], [72, 73, 74, 75, 76, 77, 78, 79, 80]);
    for r in 0..9 {
        for s in 0..9 {
            assert_eq!(rows[r][s] as usize, 9 * r + s);
        }
    }
}

#[test]
fn columns_step_by_nine() {
    let columns = numbered().as_columns();
    assert_eq!(columns[0], [0, 9, 18, 27, 36, 45, 54, 63, 72]);
    assert_eq!(columns[4], [4, 13, 22, 31, 40, 49, 58, 67, 76]);
    assert_eq!(columns[8], [8, 17, 26, 35, 44, 53, 62, 71, 80]);
    for c in 0..9 {
        for s in 0..9 {
            assert_eq!(columns[c][s] as usize, c + 9 * s);
        }
    }
}

#[test]
fn boxes_are_read_row_by_row() {
    let boxes = numbered().as_boxes();
    assert_eq!(boxes[0], [0, 1, 2, 9, 10, 11, 18, 19, 20]);
    assert_eq!(boxes[1], [3, 4, 5, 12, 13, 14, 21, 22, 23]);
    assert_eq!(boxes[2], [6, 7, 8, 15, 16, 17, 24, 25, 26]);
    assert_eq!(boxes[3], [27, 28, 29, 36, 37, 38, 45, 46, 47]);
    assert_eq!(boxes[4], [30, 31, 32, 39, 40, 41, 48, 49, 50]);
    assert_eq!(boxes[8], [60, 61, 62, 69, 70, 71, 78, 79, 80]);
}

#[test]
fn extract_agrees_with_the_named_views() {
    let board = numbered();
    assert_eq!(board.extract(ViewKind::Rows), board.as_rows());
    assert_eq!(board.extract(ViewKind::Columns), board.as_columns());
    assert_eq!(board.extract(ViewKind::Boxes), board.as_boxes());
}

#[test]
fn every_view_holds_every_cell_once() {
    let board = numbered();
    for kind in [ViewKind::Rows, ViewKind::Columns, ViewKind::Boxes] {
        let groups = board.extract(kind);
        let mut seen = [false; 81];
        for g in 0..9 {
            for s in 0..9 {
                let e = groups[g][s] as usize;
                assert!(!seen[e]);
                seen[e] = true;
                assert_eq!(kind.group_of(e), g);
                assert_eq!(kind.slot_of(e), s);
            }
        }
        assert!(seen.iter().all(|b| *b));
    }
}

#[test]
fn group_and_slot_of_some_cells() {
    assert_eq!(ViewKind::Rows.group_of(40), 4);
    assert_eq!(ViewKind::Rows.slot_of(40), 4);
    assert_eq!(ViewKind::Columns.group_of(17), 8);
    assert_eq!(ViewKind::Columns.slot_of(17), 1);
    assert_eq!(ViewKind::Boxes.group_of(0), 0);
    assert_eq!(ViewKind::Boxes.group_of(30), 4);
    assert_eq!(ViewKind::Boxes.slot_of(30), 0);
    assert_eq!(ViewKind::Boxes.group_of(50), 4);
    assert_eq!(ViewKind::Boxes.slot_of(50), 8);
    assert_eq!(ViewKind::Boxes.group_of(80), 8);
    assert_eq!(ViewKind::Boxes.slot_of(80), 8);
    assert_eq!(ViewKind::Boxes.group_of(6), 2);
    assert_eq!(ViewKind::Boxes.slot_of(15), 3);
}

#[test]
fn a_view_is_a_copy() {
    let mut board = numbered();
    let rows = board.as_rows();
    board.fields[0] = 99;
    assert_eq!(rows[0][0], 0);
    assert_eq!(board.as_rows()[0][0], 99);
}

#[test]
fn views_do_not_look_at_the_values() {
    let board = Sudoku { fields: [0u8; 81] };
    assert_eq!(board.as_rows(), [[0u8; 9]; 9]);
    let board = Sudoku { fields: [255u8; 81] };
    assert_eq!(board.as_boxes(), [[255u8; 9]; 9]);
    assert_eq!(board.as_columns(), [[255u8; 9]; 9]);
}

#[test]
fn cells_in_range_checks_every_cell() {
    assert!(Sudoku { fields: [1u8; 81] }.cells_in_range());
    assert!(Sudoku { fields: [9u8; 81] }.cells_in_range());
    assert!(!Sudoku { fields: [0u8; 81] }.cells_in_range());
    for e in 0..81 {
        let mut fields = [5u8; 81];
        fields[e] = 0;
        assert!(!Sudoku { fields }.cells_in_range());
        fields[e] = 10;
        assert!(!Sudoku { fields }.cells_in_range());
        fields[e] = 9;
        assert!(Sudoku { fields }.cells_in_range());
    }
}
