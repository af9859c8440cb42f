use nonogram::board::{Board, Cell, Constraint};
use nonogram::util::{EdgeList, NodeList};

#[test]
fn cell_integer_round_trip() {
    assert_eq!(Cell::Empty.to_i64(), 0);
    assert_eq!(Cell::Filled.to_i64(), 1);
    assert_eq!(Cell::Unknown.to_i64(), -1);
    assert_eq!(Cell::from_i64(0), Some(Cell::Empty));
    assert_eq!(Cell::from_i64(1), Some(Cell::Filled));
    assert_eq!(Cell::from_i64(-1), Some(Cell::Unknown));
    assert_eq!(Cell::from_i64(2), None);
    assert_eq!(Cell::from_i64(-7), None);
}

#[test]
fn cell_format_highlights_unknown() {
    let (start, end) = Cell::Unknown.get_format();
    assert!(!start.is_empty());
    assert!(!end.is_empty());
    let (start, end) = Cell::Filled.get_format();
    assert!(start.is_empty());
    assert!(end.is_empty());
}

#[test]
fn constraint_length() {
    let c = Constraint::new(7);
    assert_eq!(c.get_length(), 7);
}

#[test]
fn board_cells_and_coordinates() {
    let mut b = Board::new_filled(3, 2, Cell::Unknown);
    assert_eq!(b.get_width(), 3);
    assert_eq!(b.get_height(), 2);
    assert_eq!(b.get_size(), (3, 2));
    assert_eq!(b.get_num_cells(), 6);
    assert_eq!(b.get_index(2, 1), 5);
    assert_eq!(b.get_coordinate(5), (2, 1));
    b.set_cell(2, 1, Cell::Filled);
    assert_eq!(b.get_cell(2, 1), Cell::Filled);
    assert_eq!(b.get_cell_index(5), Cell::Filled);
    b.set_cell_index(0, Cell::Empty);
    assert_eq!(b.get_cell(0, 0), Cell::Empty);
    assert_eq!(b.get_cell(1, 0), Cell::Unknown);
}

#[test]
fn empty_board() {
    let b = Board::new_empty();
    assert_eq!(b.get_width(), 0);
    assert_eq!(b.get_height(), 0);
    assert_eq!(b.get_num_cells(), 0);
}

#[test]
fn board_clone_and_strip_constraints() {
    let lines: Vec<String> = vec![
        "=COLUMNS".to_string(),
        "1".to_string(),
        "2".to_string(),
        "=ROWS".to_string(),
        "1".to_string(),
        "1,1".to_string(),
    ];
    let mut b = nonogram::board::Board::read_csv_puzzle(&lines).expect("well-formed puzzle");
    b.set_cell(0, 0, Cell::Filled);
    let copy = b.clone();
    assert_eq!(copy.get_cell(0, 0), Cell::Filled);
    assert_eq!(copy.get_row_constraints(1).len(), 2);
    assert_eq!(copy.get_col_constraints(1)[0].get_length(), 2);
    let stripped = b.clone_without_constraints();
    assert_eq!(stripped.get_cell(0, 0), Cell::Filled);
    assert_eq!(stripped.get_row_constraints(1).len(), 0);
    assert_eq!(stripped.get_col_constraints(0).len(), 0);
}

#[test]
fn row_and_col_views() {
    let lines: Vec<String> = vec![
        "=COLUMNS".to_string(),
        "1".to_string(),
        "".to_string(),
        "=ROWS".to_string(),
        "1".to_string(),
        "".to_string(),
    ];
    let mut b = nonogram::board::Board::read_csv_puzzle(&lines).expect("well-formed puzzle");
    b.set_cell(0, 0, Cell::Filled);
    let row = b.get_row_ref(0);
    assert_eq!(row.size(), 2);
    assert_eq!(row.get_cell(0), Cell::Filled);
    assert_eq!(row.get_constraints().len(), 1);
    let row_line = row.create_standalone_line();
    assert_eq!(row_line.size(), 2);
    assert_eq!(row_line.get_cell(0), Cell::Filled);
    let col = b.get_col_ref(0);
    assert_eq!(col.size(), 2);
    assert_eq!(col.get_cell(0), Cell::Filled);
    assert_eq!(col.get_cell(1), Cell::Unknown);
    let col_line = col.create_standalone_line();
    assert_eq!(col_line.get_constraints()[0].get_length(), 1);
}

#[test]
fn node_list_get_set() {
    let mut t: NodeList<bool> = NodeList::new(3, 2, false);
    assert_eq!(t.width(), 3);
    assert_eq!(t.height(), 2);
    assert_eq!(*t.get(2, 1), false);
    t.set(2, 1, true);
    assert_eq!(*t.get(2, 1), true);
    assert_eq!(*t.get(1, 1), false);
    assert_eq!(*t.get(2, 0), false);
}

#[test]
fn edge_list_get_set() {
    let mut t: EdgeList<u32> = EdgeList::new(3, 0);
    t.set(0, 2, 9);
    assert_eq!(*t.get(0, 2), 9);
    assert_eq!(*t.get(2, 0), 0);
}
