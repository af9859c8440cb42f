//! Laws of the line solver that relate several of its runs: solving is
//! idempotent, and a solved output line admits exactly the placements of its
//! input line.

use vstd::prelude::*;
use crate::board::{Board, Cell, Constraint};
use crate::model::{
    complete, consistent, covers, feasible, forced_empty, forced_filled, lemma_refine_consistent,
    lemma_runs_feasible, lemma_solved_line_consistent, lemma_solved_line_refines, lengths_of,
    refines, runs_of, solved_line,
};
use crate::solver::{board_solved, same_puzzle, solution_of};

verus! {

broadcast use crate::board::Board::lemma_board_width, crate::board::Board::lemma_board_height;

/// The constraint round trip: a fully determined board satisfies the puzzle
/// whose constraint lists are read off its own rows and columns, so it is a
/// solution of the all-undetermined board that carries those lists.  When
/// that puzzle has a unique solution, any solved board the search returns
/// for it therefore equals the original.
pub proof fn lemma_constraint_round_trip(blank: Board, b: Board)
    requires
        b.wf(),
        complete(b.spec_cells()),
        forall|r: int|
            0 <= r < b.spec_height() ==> lengths_of(#[trigger] b.spec_row_constraints(r))
                == runs_of(b.spec_row(r)),
        forall|c: int|
            0 <= c < b.spec_width() ==> lengths_of(#[trigger] b.spec_col_constraints(c))
                == runs_of(b.spec_col(c)),
        blank.wf(),
        same_puzzle(blank, b),
        forall|q: int|
            0 <= q < blank.spec_cells().len() ==> #[trigger] blank.spec_cells()[q]
                == Cell::Unknown,
    ensures
        solution_of(blank, b),
{
    b.lemma_wf_lines();
    // Every line of the board is complete and satisfies its own runs.
    assert forall|r: int| 0 <= r < b.spec_height() implies complete(#[trigger] b.spec_row(r))
        && feasible(b.spec_row(r), b.spec_row_constraints(r)) by {
        assert forall|c: int| 0 <= c < b.spec_row(r).len() implies #[trigger] b.spec_row(r)[c]
            != Cell::Unknown by {
            b.lemma_cell_index(c, r);
        }
        lemma_runs_feasible(b.spec_row(r), b.spec_row_constraints(r));
    }
    assert forall|c: int| 0 <= c < b.spec_width() implies complete(#[trigger] b.spec_col(c))
        && feasible(b.spec_col(c), b.spec_col_constraints(c)) by {
        assert forall|r: int| 0 <= r < b.spec_col(c).len() implies #[trigger] b.spec_col(c)[r]
            != Cell::Unknown by {
            b.lemma_cell_index(c, r);
        }
        lemma_runs_feasible(b.spec_col(c), b.spec_col_constraints(c));
    }
    assert(board_solved(b));
    // The all-undetermined board constrains no cell.
    assert(refines(blank.spec_cells(), b.spec_cells())) by {
        blank.lemma_cells_len();
        b.lemma_cells_len();
    }
}

/// The solver's output line admits exactly the placements its input line
/// admits: forcing a cell to the value all placements agree on rules out no
/// placement and allows no new one.
pub proof fn lemma_solved_line_same_placements(
    l0: Seq<Cell>,
    l1: Seq<Cell>,
    cs: Seq<Constraint>,
)
    requires
        solved_line(l0, l1, cs),
    ensures
        forall|starts: Seq<int>|
            #[trigger] consistent(l0, cs, starts) <==> consistent(l1, cs, starts),
{
    lemma_solved_line_refines(l0, l1, cs);
    assert forall|starts: Seq<int>|
        #[trigger] consistent(l0, cs, starts) <==> consistent(l1, cs, starts) by {
        if consistent(l0, cs, starts) {
            lemma_solved_line_consistent(l0, l1, cs, starts);
        }
        if consistent(l1, cs, starts) {
            lemma_refine_consistent(l0, l1, cs, starts);
        }
    }
}

/// Running the line solver twice changes nothing on the second run: the
/// output of a successful solve is a fixed point of solving.
pub proof fn lemma_line_solver_idempotent(
    l0: Seq<Cell>,
    l1: Seq<Cell>,
    l2: Seq<Cell>,
    cs: Seq<Constraint>,
)
    requires
        solved_line(l0, l1, cs),
        solved_line(l1, l2, cs),
    ensures
        l2 == l1,
{
    lemma_solved_line_same_placements(l0, l1, cs);
    assert forall|p: int| 0 <= p < l1.len() implies #[trigger] l2[p] == l1[p] by {
        assert(forced_filled(l1, cs, p) == forced_filled(l0, cs, p)) by {
            if forced_filled(l0, cs, p) {
                assert forall|starts: Seq<int>|
                    consistent(l1, cs, starts) implies covers(starts, cs, p) by {
                    assert(consistent(l0, cs, starts));
                }
            }
            if forced_filled(l1, cs, p) {
                assert forall|starts: Seq<int>|
                    consistent(l0, cs, starts) implies covers(starts, cs, p) by {
                    assert(consistent(l1, cs, starts));
                }
            }
        }
        assert(forced_empty(l1, cs, p) == forced_empty(l0, cs, p)) by {
            if forced_empty(l0, cs, p) {
                assert forall|starts: Seq<int>|
                    consistent(l1, cs, starts) implies !covers(starts, cs, p) by {
                    assert(consistent(l0, cs, starts));
                }
            }
            if forced_empty(l1, cs, p) {
                assert forall|starts: Seq<int>|
                    consistent(l0, cs, starts) implies !covers(starts, cs, p) by {
                    assert(consistent(l1, cs, starts));
                }
            }
        }
    }
    assert(l2 =~= l1);
}

} // verus!
