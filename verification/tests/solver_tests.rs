use nonogram::board::{Board, Cell};
use nonogram::solver::{BoardMeta, LineInfo, LineType, PrioritySet, SolveResult};

fn puzzle_5x5() -> Board {
    // Columns [5], [], [5], [], [5]; rows [1,1,1] five times.  Its unique
    // solution fills columns 0, 2 and 4 and leaves columns 1 and 3 empty.
    let lines: Vec<String> = vec![
        "=COLUMNS".to_string(),
        "5".to_string(),
        "".to_string(),
        "5".to_string(),
        "".to_string(),
        "5".to_string(),
        "=ROWS".to_string(),
        "1,1,1".to_string(),
        "1,1,1".to_string(),
        "1,1,1".to_string(),
        "1,1,1".to_string(),
        "1,1,1".to_string(),
    ];
    Board::read_csv_puzzle(&lines).expect("well-formed puzzle")
}

#[test]
fn full_5x5_puzzle() {
    let mut b = puzzle_5x5();
    assert_eq!(b.get_width(), 5);
    assert_eq!(b.get_height(), 5);
    let (result, _branches) = nonogram::solver::stupid_branched_solver_set(&mut b);
    assert_eq!(result, SolveResult::Success);
    for row in 0..5u16 {
        for col in 0..5u16 {
            let expected = if col % 2 == 0 { Cell::Filled } else { Cell::Empty };
            assert_eq!(b.get_cell(col, row), expected);
        }
    }
}

#[test]
fn full_5x5_puzzle_by_lines_alone() {
    // The same puzzle solves by propagation without any branching.
    let mut b = puzzle_5x5();
    let result = nonogram::solver::stupid_solver(&mut b);
    assert_eq!(result, Some(SolveResult::Success));
    assert_eq!(b.get_cell(0, 0), Cell::Filled);
    assert_eq!(b.get_cell(1, 0), Cell::Empty);
}

#[test]
fn unsatisfiable_2x2() {
    // Columns want both cells filled; rows allow one each.
    let lines: Vec<String> = vec![
        "=COLUMNS".to_string(),
        "2".to_string(),
        "2".to_string(),
        "=ROWS".to_string(),
        "1".to_string(),
        "1".to_string(),
    ];
    let mut b = Board::read_csv_puzzle(&lines).expect("well-formed puzzle");
    let (result, _branches) = nonogram::solver::stupid_branched_solver(&mut b);
    assert_eq!(result, SolveResult::Contradiction);
}

#[test]
fn branching_needed_puzzle() {
    // A 2x2 checkerboard-free puzzle with two solutions by lines alone:
    // columns [1], [1]; rows [1], [1].  Propagation stalls; the search must
    // still find a satisfying assignment.
    let lines: Vec<String> = vec![
        "=COLUMNS".to_string(),
        "1".to_string(),
        "1".to_string(),
        "=ROWS".to_string(),
        "1".to_string(),
        "1".to_string(),
    ];
    let mut b = Board::read_csv_puzzle(&lines).expect("well-formed puzzle");
    let stalled = nonogram::solver::stupid_solver(&mut b);
    assert_eq!(stalled, None);
    let (result, branches) = nonogram::solver::stupid_branched_solver_set(&mut b);
    assert_eq!(result, SolveResult::Success);
    assert!(branches >= 1);
    // Each row and column holds exactly one filled cell.
    for row in 0..2u16 {
        let filled = (0..2u16).filter(|&c| b.get_cell(c, row) == Cell::Filled).count();
        assert_eq!(filled, 1);
    }
    for col in 0..2u16 {
        let filled = (0..2u16).filter(|&r| b.get_cell(col, r) == Cell::Filled).count();
        assert_eq!(filled, 1);
    }
}

#[test]
fn board_meta_counts() {
    let mut meta = BoardMeta::new(3, 2);
    assert_eq!(meta.num_unsolved, 6);
    assert!(!meta.is_row_solved(0));
    assert!(!meta.is_column_solved(2));
    meta.solve(2, 1);
    assert_eq!(meta.num_unsolved, 5);
    assert_eq!(meta.unsolved_per_row[1], 2);
    assert_eq!(meta.unsolved_per_column[2], 1);
    meta.unsolve(2, 1);
    assert_eq!(meta.num_unsolved, 6);
    assert_eq!(meta.unsolved_per_row[1], 3);
    assert_eq!(meta.unsolved_per_column[2], 2);
}

#[test]
fn priority_set_pops_highest_priority() {
    let mut q = PrioritySet::new();
    let a = LineInfo { index: 0, linetype: LineType::Row };
    let b = LineInfo { index: 1, linetype: LineType::Column };
    let c = LineInfo { index: 2, linetype: LineType::Row };
    q.insert_with_priority(a, 1);
    q.insert_with_priority(b, 7);
    q.insert_with_priority(c, 3);
    assert_eq!(q.len(), 3);
    assert_eq!(q.pop(), Some(b));
    assert_eq!(q.pop(), Some(c));
    assert_eq!(q.pop(), Some(a));
    assert_eq!(q.pop(), None);
}

#[test]
fn priority_set_insert_is_idempotent_on_keys() {
    let mut q = PrioritySet::new();
    let a = LineInfo { index: 4, linetype: LineType::Column };
    q.insert(a);
    q.insert(a);
    q.insert(a);
    assert_eq!(q.len(), 1);
    assert_eq!(q.pop(), Some(a));
    assert_eq!(q.pop(), None);
}

#[test]
fn priority_set_tie_breaks_by_line_order() {
    // Equal priorities: the later line in the order (higher index; columns
    // after rows at the same index) pops first.
    let mut q = PrioritySet::new();
    let row3 = LineInfo { index: 3, linetype: LineType::Row };
    let col3 = LineInfo { index: 3, linetype: LineType::Column };
    let row5 = LineInfo { index: 5, linetype: LineType::Row };
    q.insert_with_priority(row3, 2);
    q.insert_with_priority(col3, 2);
    q.insert_with_priority(row5, 2);
    assert_eq!(q.pop(), Some(row5));
    assert_eq!(q.pop(), Some(col3));
    assert_eq!(q.pop(), Some(row3));
}

#[test]
fn solver_detects_broken_complete_line() {
    // A board arriving with a complete row that breaks its constraints.
    let mut b = Board::new_filled(2, 2, Cell::Filled);
    // All cells filled, but every constraint list is empty.
    let (result, _branches) = nonogram::solver::stupid_branched_solver_set(&mut b);
    assert_eq!(result, SolveResult::Contradiction);
}

#[test]
fn already_solved_board_succeeds() {
    // A complete, consistent board: columns [1], [], rows [1], [].
    let lines: Vec<String> = vec![
        "=COLUMNS".to_string(),
        "1".to_string(),
        "".to_string(),
        "=ROWS".to_string(),
        "1".to_string(),
        "".to_string(),
    ];
    let mut b = Board::read_csv_puzzle(&lines).expect("well-formed puzzle");
    let (result, _branches) = nonogram::solver::stupid_branched_solver(&mut b);
    assert_eq!(result, SolveResult::Success);
    assert_eq!(b.get_cell(0, 0), Cell::Filled);
    assert_eq!(b.get_cell(1, 0), Cell::Empty);
    assert_eq!(b.get_cell(0, 1), Cell::Empty);
    assert_eq!(b.get_cell(1, 1), Cell::Empty);
}

#[test]
fn constraint_round_trip_unique_puzzle() {
    // Solve the 5x5 puzzle, read its constraints back off the solved board,
    // and solve the regenerated puzzle from scratch: the same board comes
    // back, because the puzzle has a unique solution.
    let mut b = puzzle_5x5();
    let (result, _branches) = nonogram::solver::stupid_branched_solver_set(&mut b);
    assert_eq!(result, SolveResult::Success);
    // Render the solved board as solution CSV and re-ingest it: the loader
    // regenerates the constraints from the runs.
    let mut csv_text = String::new();
    for row in 0..5u16 {
        for col in 0..5u16 {
            if col > 0 {
                csv_text.push(',');
            }
            csv_text.push_str(&b.get_cell(col, row).to_i64().to_string());
        }
        csv_text.push('\n');
    }
    let mut regenerated =
        Board::read_csv_solution(csv_text.as_bytes()).expect("well-formed solution");
    // Clear the cells but keep the regenerated constraints.
    for row in 0..5u16 {
        for col in 0..5u16 {
            regenerated.set_cell(col, row, Cell::Unknown);
        }
    }
    let (result2, _branches2) = nonogram::solver::stupid_branched_solver_set(&mut regenerated);
    assert_eq!(result2, SolveResult::Success);
    for row in 0..5u16 {
        for col in 0..5u16 {
            assert_eq!(regenerated.get_cell(col, row), b.get_cell(col, row));
        }
    }
}
