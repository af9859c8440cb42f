use nonogram::board::{Cell, Constraint, StandaloneLine};

fn unknowns(n: usize) -> Vec<Cell> {
    vec![Cell::Unknown; n]
}

#[test]
fn single_run_overlap() {
    // A run of 3 in a line of 5: only the middle cell is forced.
    let cs = vec![Constraint::new(3)];
    let mut line = StandaloneLine::new(unknowns(5), &cs);
    let changed = line.try_solve_line_complete().expect("feasible line");
    assert_eq!(changed, vec![2u16]);
    assert_eq!(line.get_cell(0), Cell::Unknown);
    assert_eq!(line.get_cell(1), Cell::Unknown);
    assert_eq!(line.get_cell(2), Cell::Filled);
    assert_eq!(line.get_cell(3), Cell::Unknown);
    assert_eq!(line.get_cell(4), Cell::Unknown);
}

#[test]
fn forced_empty_from_existing_filled() {
    // A run of 2 in a line of 5 whose last cell is filled must end there.
    let cs = vec![Constraint::new(2)];
    let mut data = unknowns(5);
    data[4] = Cell::Filled;
    let mut line = StandaloneLine::new(data, &cs);
    let changed = line.try_solve_line_complete().expect("feasible line");
    assert_eq!(changed, vec![0u16, 1, 2, 3]);
    assert_eq!(line.get_cell(0), Cell::Empty);
    assert_eq!(line.get_cell(1), Cell::Empty);
    assert_eq!(line.get_cell(2), Cell::Empty);
    assert_eq!(line.get_cell(3), Cell::Filled);
    assert_eq!(line.get_cell(4), Cell::Filled);
}

#[test]
fn contradiction_by_over_constraint() {
    // Two runs of 2 fit a line of 5, but not around cells filled at 0 and 2.
    let cs = vec![Constraint::new(2), Constraint::new(2)];
    let mut data = unknowns(5);
    data[0] = Cell::Filled;
    data[2] = Cell::Filled;
    let mut line = StandaloneLine::new(data, &cs);
    assert!(line.try_solve_line_complete().is_none());
}

#[test]
fn empty_constraints_contradiction() {
    // No constraints, but a filled cell: contradiction.
    let cs: Vec<Constraint> = Vec::new();
    let mut data = unknowns(4);
    data[1] = Cell::Filled;
    let mut line = StandaloneLine::new(data, &cs);
    assert!(line.try_solve_line_complete().is_none());
}

#[test]
fn empty_constraints_all_empty() {
    // No constraints and no information: every cell becomes empty.
    let cs: Vec<Constraint> = Vec::new();
    let mut line = StandaloneLine::new(unknowns(4), &cs);
    let changed = line.try_solve_line_complete().expect("feasible line");
    assert_eq!(changed, vec![0u16, 1, 2, 3]);
    for i in 0..4u16 {
        assert_eq!(line.get_cell(i), Cell::Empty);
    }
}

#[test]
fn second_solver_run_changes_nothing() {
    // Idempotence on concrete values: the second run reports no change.
    let cs = vec![Constraint::new(2)];
    let mut data = unknowns(5);
    data[4] = Cell::Filled;
    let mut line = StandaloneLine::new(data, &cs);
    let first = line.try_solve_line_complete().expect("feasible line");
    assert_eq!(first.len(), 4);
    let second = line.try_solve_line_complete().expect("still feasible");
    assert_eq!(second.len(), 0);
}

#[test]
fn runs_too_long_for_line() {
    // The runs and separators cannot fit at all.
    let cs = vec![Constraint::new(3), Constraint::new(2)];
    let mut line = StandaloneLine::new(unknowns(5), &cs);
    assert!(line.try_solve_line_complete().is_none());
    let line2 = StandaloneLine::new(unknowns(5), &cs);
    assert!(!line2.is_solvable());
}

#[test]
fn is_solvable_checks() {
    let cs = vec![Constraint::new(2), Constraint::new(2)];
    let feasible_line = StandaloneLine::new(unknowns(5), &cs);
    assert!(feasible_line.is_solvable());
    let mut data = unknowns(5);
    data[0] = Cell::Filled;
    data[2] = Cell::Filled;
    let infeasible_line = StandaloneLine::new(data, &cs);
    assert!(!infeasible_line.is_solvable());
}

#[test]
fn can_fit_constraint_checks() {
    let cs = vec![Constraint::new(2)];
    let mut data = unknowns(5);
    data[2] = Cell::Empty;
    data[4] = Cell::Filled;
    let line = StandaloneLine::new(data, &cs);
    assert!(line.can_fit_constraint(0, 2));
    // The run would cover the empty cell at 2.
    assert!(!line.can_fit_constraint(1, 2));
    // The cell after the run at 2..4 is filled.
    assert!(!line.can_fit_constraint(2, 2));
    assert!(line.can_fit_constraint(3, 2));
}

#[test]
fn generate_constraints_from_line() {
    let cs: Vec<Constraint> = Vec::new();
    let data = vec![
        Cell::Filled,
        Cell::Filled,
        Cell::Empty,
        Cell::Filled,
        Cell::Empty,
        Cell::Filled,
        Cell::Filled,
        Cell::Filled,
    ];
    let line = StandaloneLine::new(data, &cs);
    let generated = line.generate_new_constraints().expect("complete line");
    let lengths: Vec<u16> = generated.iter().map(|c| c.get_length()).collect();
    assert_eq!(lengths, vec![2u16, 1, 3]);
}

#[test]
fn generate_constraints_needs_complete_line() {
    let cs: Vec<Constraint> = Vec::new();
    let mut data = unknowns(3);
    data[0] = Cell::Filled;
    let line = StandaloneLine::new(data, &cs);
    assert!(line.generate_new_constraints().is_none());
    assert!(!line.is_completed());
}

#[test]
fn maximality_leaves_two_way_cells_open() {
    // A run of 1 in a line of 3: every placement is possible, nothing forced.
    let cs = vec![Constraint::new(1)];
    let mut line = StandaloneLine::new(unknowns(3), &cs);
    let changed = line.try_solve_line_complete().expect("feasible line");
    assert_eq!(changed.len(), 0);
    for i in 0..3u16 {
        assert_eq!(line.get_cell(i), Cell::Unknown);
    }
}

#[test]
fn gap_between_runs_forced_empty() {
    // Runs 2 and 2 in a line of 5 have a single placement: X X . X X.
    let cs = vec![Constraint::new(2), Constraint::new(2)];
    let mut line = StandaloneLine::new(unknowns(5), &cs);
    let changed = line.try_solve_line_complete().expect("feasible line");
    assert_eq!(changed, vec![0u16, 1, 2, 3, 4]);
    assert_eq!(line.get_cell(0), Cell::Filled);
    assert_eq!(line.get_cell(1), Cell::Filled);
    assert_eq!(line.get_cell(2), Cell::Empty);
    assert_eq!(line.get_cell(3), Cell::Filled);
    assert_eq!(line.get_cell(4), Cell::Filled);
}
