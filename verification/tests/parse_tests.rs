use nonogram::board::{Board, Cell};
use nonogram::parse::parse_constraint_line;

#[test]
fn parse_constraint_line_values() {
    let cl = parse_constraint_line(&"3,1,12".to_string()).expect("well-formed line");
    let lengths: Vec<u16> = cl.iter().map(|c| c.get_length()).collect();
    assert_eq!(lengths, vec![3u16, 1, 12]);
}

#[test]
fn parse_constraint_line_empty_means_no_runs() {
    let cl = parse_constraint_line(&"".to_string()).expect("empty line");
    assert_eq!(cl.len(), 0);
}

#[test]
fn parse_constraint_line_rejects_garbage() {
    assert!(parse_constraint_line(&"a".to_string()).is_none());
    assert!(parse_constraint_line(&"1,".to_string()).is_none());
    assert!(parse_constraint_line(&",1".to_string()).is_none());
    assert!(parse_constraint_line(&"1,,2".to_string()).is_none());
    assert!(parse_constraint_line(&"0".to_string()).is_none());
    assert!(parse_constraint_line(&"1 2".to_string()).is_none());
    assert!(parse_constraint_line(&"99999".to_string()).is_none());
}

#[test]
fn read_puzzle_sections() {
    let lines: Vec<String> = vec![
        "=COLUMNS".to_string(),
        "1,1".to_string(),
        "3".to_string(),
        "".to_string(),
        "=ROWS".to_string(),
        "2".to_string(),
        "1".to_string(),
        "1".to_string(),
        "1".to_string(),
    ];
    let b = Board::read_csv_puzzle(&lines).expect("well-formed puzzle");
    assert_eq!(b.get_width(), 3);
    assert_eq!(b.get_height(), 4);
    assert_eq!(b.get_col_constraints(0).len(), 2);
    assert_eq!(b.get_col_constraints(0)[1].get_length(), 1);
    assert_eq!(b.get_col_constraints(2).len(), 0);
    assert_eq!(b.get_row_constraints(0)[0].get_length(), 2);
    for i in 0..b.get_num_cells() {
        assert_eq!(b.get_cell_index(i), Cell::Unknown);
    }
}

#[test]
fn read_puzzle_rejects_malformed_input() {
    // Missing the opening sentinel.
    let no_cols: Vec<String> = vec!["1".to_string(), "=ROWS".to_string(), "1".to_string()];
    assert!(Board::read_csv_puzzle(&no_cols).is_none());
    // Missing the row sentinel.
    let no_rows: Vec<String> = vec!["=COLUMNS".to_string(), "1".to_string()];
    assert!(Board::read_csv_puzzle(&no_rows).is_none());
    // A malformed constraint line.
    let bad_line: Vec<String> = vec![
        "=COLUMNS".to_string(),
        "x".to_string(),
        "=ROWS".to_string(),
        "1".to_string(),
    ];
    assert!(Board::read_csv_puzzle(&bad_line).is_none());
    // No lines at all.
    let empty: Vec<String> = Vec::new();
    assert!(Board::read_csv_puzzle(&empty).is_none());
}

#[test]
fn read_solution_csv() {
    let data = b"1,0,1\n0,1,0\n";
    let b = Board::read_csv_solution(data).expect("well-formed solution");
    assert_eq!(b.get_width(), 3);
    assert_eq!(b.get_height(), 2);
    assert_eq!(b.get_cell(0, 0), Cell::Filled);
    assert_eq!(b.get_cell(1, 0), Cell::Empty);
    assert_eq!(b.get_cell(2, 0), Cell::Filled);
    assert_eq!(b.get_cell(1, 1), Cell::Filled);
    // The loader regenerates constraints from the runs.
    assert_eq!(b.get_row_constraints(0).len(), 2);
    assert_eq!(b.get_row_constraints(0)[0].get_length(), 1);
    assert_eq!(b.get_row_constraints(1).len(), 1);
    assert_eq!(b.get_col_constraints(0)[0].get_length(), 1);
    assert_eq!(b.get_col_constraints(1)[0].get_length(), 1);
}

#[test]
fn read_solution_rejects_bad_fields() {
    // A field that is not 0, 1 or -1.
    assert!(Board::read_csv_solution(b"1,2\n0,0\n").is_none());
    // An undetermined cell cannot seed a solution board.
    assert!(Board::read_csv_solution(b"1,-1\n0,0\n").is_none());
}

#[test]
fn read_solution_rejects_ragged_records() {
    assert!(Board::read_csv_solution(b"1,0,1\n0,1\n").is_none());
}

#[test]
fn read_solution_empty_input() {
    let b = Board::read_csv_solution(b"").expect("empty input loads an empty board");
    assert_eq!(b.get_width(), 0);
    assert_eq!(b.get_height(), 0);
}
