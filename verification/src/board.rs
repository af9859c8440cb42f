use vstd::prelude::*;

verus! {

/// A single cell of a nonogram board: empty, filled, or not yet determined.
#[derive(Copy, Clone, PartialEq, Eq, Hash, Debug, Structural)]
pub enum Cell {
    /// An undetermined cell.
    Unknown,
    /// An empty cell.
    Empty,
    /// A filled cell.
    Filled,
}

impl Cell {
    /// Convert an integer to a cell: 0 is empty, 1 is filled, -1 is undetermined.
    pub fn from_i64(value: i64) -> (r: Option<Cell>)
        ensures
            r == Cell::spec_from_i64(value),
    {
        match value {
            0 => Some(Cell::Empty),
            1 => Some(Cell::Filled),
            -1 => Some(Cell::Unknown),
            _ => None,
        }
    }

    /// Convert this cell to an integer: empty is 0, filled is 1, undetermined is -1.
    pub fn to_i64(&self) -> (r: i64)
        ensures
            r == self.spec_to_i64(),
            Cell::spec_from_i64(r) == Some(*self),
    {
        match *self {
            Cell::Empty => 0,
            Cell::Filled => 1,
            Cell::Unknown => -1,
        }
    }

    /// The terminal escape codes that bracket this cell when it is highlighted.
    pub fn get_format(&self) -> (r: (&'static str, &'static str))
        ensures
            *self == Cell::Unknown ==> r.0@ == "\x1B[41m"@ && r.1@ == "\x1B[0m"@,
            *self != Cell::Unknown ==> r.0@ == ""@ && r.1@ == ""@,
    {
        match *self {
            Cell::Unknown => ("\x1B[41m", "\x1B[0m"),
            Cell::Empty => ("", ""),
            Cell::Filled => ("", ""),
        }
    }

    pub open spec fn spec_from_i64(value: i64) -> Option<Cell> {
        if value == 0 {
            Some(Cell::Empty)
        } else if value == 1 {
            Some(Cell::Filled)
        } else if value == -1 {
            Some(Cell::Unknown)
        } else {
            None
        }
    }

    pub open spec fn spec_to_i64(self) -> i64 {
        match self {
            Cell::Empty => 0,
            Cell::Filled => 1,
            Cell::Unknown => -1 as i64,
        }
    }
}

/// A type used to represent lengths on a board: the board's size and constraint lengths.
pub type Unit = u16;

/// A single constraint (clue) of the board: the length of one run of filled cells.
/// A run length is always at least 1.
#[derive(Copy, Clone, PartialEq, Eq, Debug, Structural)]
pub struct Constraint {
    length: Unit,
}

impl Constraint {
    /// Create a new constraint with the given run length.
    pub fn new(value: Unit) -> (r: Constraint)
        requires
            value >= 1,
        ensures
            r.len() == value,
    {
        Constraint { length: value }
    }

    /// Get this constraint's run length.
    pub fn get_length(&self) -> (r: Unit)
        ensures
            r == self.len(),
    {
        self.length
    }

    pub closed spec fn len(self) -> int {
        self.length as int
    }

}

/// A constraint's run length always fits in the board's length type.
pub broadcast proof fn lemma_constraint_len_bounds(c: Constraint)
    ensures
        0 <= #[trigger] c.len() <= Unit::MAX,
{
}

/// A list of constraints describing one row or column.
pub type ConstraintList = Vec<Constraint>;

/// All run lengths of a constraint list are at least one; the list as a whole
/// fits the board's length type.
pub open spec fn wf_constraint_list(cs: Seq<Constraint>) -> bool {
    crate::model::wf_constraints(cs)
}

fn create_constraint_list(num: usize) -> (r: Vec<ConstraintList>)
    ensures
        r@.len() == num,
        forall|i: int| 0 <= i < num ==> #[trigger] r@[i]@.len() == 0,
{
    let mut v: Vec<ConstraintList> = Vec::new();
    let mut k: usize = 0;
    while k < num
        invariant
            k <= num,
            v@.len() == k,
            forall|i: int| 0 <= i < k ==> #[trigger] v@[i]@.len() == 0,
        decreases num - k,
    {
        v.push(Vec::new());
        k = k + 1;
    }
    v
}

/// A line that is not part of a board: its own cells beside a borrowed
/// constraint list.  The line solver works on this carrier; board rows and
/// columns are copied into one and written back.
pub struct StandaloneLine<'a> {
    constraints: &'a ConstraintList,
    data: Vec<Cell>,
}

impl<'a> StandaloneLine<'a> {
    /// The cells of the line.
    pub closed spec fn view(&self) -> Seq<Cell> {
        self.data@
    }

    /// The constraint list of the line.
    pub closed spec fn cs(&self) -> Seq<Constraint> {
        self.constraints@
    }

    /// The line's length fits the board's length type and every constraint
    /// names a positive run.
    pub open spec fn wf(&self) -> bool {
        self.view().len() <= Unit::MAX && wf_constraint_list(self.cs())
    }

    pub fn new(data: Vec<Cell>, constraints: &'a ConstraintList) -> (r: StandaloneLine<'a>)
        requires
            data@.len() <= Unit::MAX,
        ensures
            r@ == data@,
            r.cs() == constraints@,
    {
        StandaloneLine { constraints, data }
    }

    /// Get the length of this line.
    pub fn size(&self) -> (r: Unit)
        requires
            self@.len() <= Unit::MAX,
        ensures
            r == self@.len(),
    {
        self.data.len() as Unit
    }

    /// Get a cell value from this line.
    pub fn get_cell(&self, index: Unit) -> (r: Cell)
        requires
            index < self@.len(),
        ensures
            r == self@[index as int],
    {
        self.data[index as usize]
    }

    /// Set a cell's value on this line.
    pub fn set_cell(&mut self, index: Unit, value: Cell)
        requires
            index < old(self)@.len(),
        ensures
            final(self)@ == old(self)@.update(index as int, value),
            final(self).cs() == old(self).cs(),
    {
        self.data[index as usize] = value;
    }

    /// Get this line's list of constraints.
    pub fn get_constraints(&self) -> (r: &'a ConstraintList)
        ensures
            r@ == self.cs(),
    {
        self.constraints
    }

    /// Returns true if every cell of the line is determined (no cell Unknown).
    pub fn is_completed(&self) -> (r: bool)
        ensures
            r == crate::model::complete(self@),
    {
        let n = self.data.len();
        let mut i: usize = 0;
        while i < n
            invariant
                i <= n,
                n == self@.len(),
                forall|p: int| 0 <= p < i ==> #[trigger] self@[p] != Cell::Unknown,
            decreases n - i,
        {
            if self.data[i] == Cell::Unknown {
                return false;
            }
            i = i + 1;
        }
        true
    }
}

/// A full nonogram board state: the cell grid in row-major order beside the
/// row and column constraint lists.
pub struct Board {
    width: Unit,
    height: Unit,
    cells: Vec<Cell>,
    row_constraints: Vec<ConstraintList>,
    col_constraints: Vec<ConstraintList>,
}

impl Board {
    pub closed spec fn spec_width(&self) -> int {
        self.width as int
    }

    pub closed spec fn spec_height(&self) -> int {
        self.height as int
    }

    pub closed spec fn spec_cells(&self) -> Seq<Cell> {
        self.cells@
    }

    /// The cells of row `row`, left to right.
    pub open spec fn spec_row(&self, row: int) -> Seq<Cell> {
        Seq::new(self.spec_width() as nat, |col: int| self.spec_cell(col, row))
    }

    /// The cells of column `col`, top to bottom.
    pub open spec fn spec_col(&self, col: int) -> Seq<Cell> {
        Seq::new(self.spec_height() as nat, |row: int| self.spec_cell(col, row))
    }

    pub closed spec fn spec_cell(&self, col: int, row: int) -> Cell {
        self.cells@[col + row * self.spec_width()]
    }

    pub closed spec fn spec_row_constraints(&self, row: int) -> Seq<Constraint> {
        self.row_constraints@[row]@
    }

    pub closed spec fn spec_col_constraints(&self, col: int) -> Seq<Constraint> {
        self.col_constraints@[col]@
    }

    /// The grid holds exactly `width * height` cells, one constraint list
    /// stands per row and per column, and every run length is positive.
    pub closed spec fn wf(&self) -> bool {
        &&& self.cells@.len() == self.spec_width() * self.spec_height()
        &&& self.row_constraints@.len() == self.spec_height()
        &&& self.col_constraints@.len() == self.spec_width()
        &&& forall|r: int|
            0 <= r < self.spec_height() ==> wf_constraint_list(
                #[trigger] self.spec_row_constraints(r),
            )
        &&& forall|c: int|
            0 <= c < self.spec_width() ==> wf_constraint_list(
                #[trigger] self.spec_col_constraints(c),
            )
    }

    proof fn lemma_index(&self, col: int, row: int)
        requires
            self.wf(),
            0 <= col < self.spec_width(),
            0 <= row < self.spec_height(),
        ensures
            0 <= col + row * self.spec_width() < self.cells@.len(),
            col + row * self.spec_width() <= usize::MAX,
    {
        assert(self.cells.len() == self.cells@.len());
        let w = self.spec_width();
        let h = self.spec_height();
        assert(0 <= col + row * w && col + row * w < w * h) by (nonlinear_arith)
            requires
                0 <= col < w,
                0 <= row < h,
        ;
    }

    proof fn lemma_index_inj(&self, c1: int, r1: int, c2: int, r2: int)
        requires
            0 <= c1 < self.spec_width(),
            0 <= r1 < self.spec_height(),
            0 <= c2 < self.spec_width(),
            0 <= r2 < self.spec_height(),
            c1 + r1 * self.spec_width() == c2 + r2 * self.spec_width(),
        ensures
            c1 == c2 && r1 == r2,
    {
        let w = self.spec_width();
        assert(r1 == r2) by (nonlinear_arith)
            requires
                0 <= c1 < w,
                0 <= c2 < w,
                c1 + r1 * w == c2 + r2 * w,
        ;
    }

    /// A board's width fits the board's length type.
    pub broadcast proof fn lemma_board_width(b: Board)
        ensures
            0 <= #[trigger] b.spec_width() <= Unit::MAX,
    {
    }

    /// A board's height fits the board's length type.
    pub broadcast proof fn lemma_board_height(b: Board)
        ensures
            0 <= #[trigger] b.spec_height() <= Unit::MAX,
    {
    }

    /// A well-formed board's constraint lists all name positive runs.
    pub proof fn lemma_wf_lines(&self)
        requires
            self.wf(),
        ensures
            forall|r: int|
                0 <= r < self.spec_height() ==> wf_constraint_list(
                    #[trigger] self.spec_row_constraints(r),
                ),
            forall|c: int|
                0 <= c < self.spec_width() ==> wf_constraint_list(
                    #[trigger] self.spec_col_constraints(c),
                ),
    {
    }

    /// The grid holds exactly one cell per coordinate pair.
    pub proof fn lemma_cells_len(&self)
        requires
            self.wf(),
        ensures
            self.spec_cells().len() == self.spec_width() * self.spec_height(),
    {
    }

    /// A cell's flat index names the same cell as its coordinates.
    pub proof fn lemma_cell_index(&self, col: int, row: int)
        requires
            self.wf(),
            0 <= col < self.spec_width(),
            0 <= row < self.spec_height(),
        ensures
            0 <= col + row * self.spec_width() < self.spec_cells().len(),
            self.spec_cells()[col + row * self.spec_width()] == self.spec_cell(col, row),
    {
        self.lemma_index(col, row);
    }

    /// Construct an empty board.
    pub fn new_empty() -> (r: Board)
        ensures
            r.wf(),
            r.spec_width() == 0,
            r.spec_height() == 0,
    {
        Board {
            width: 0,
            height: 0,
            cells: Vec::new(),
            row_constraints: Vec::new(),
            col_constraints: Vec::new(),
        }
    }

    /// Construct a board of the given width and height with every cell set to
    /// the given value and empty constraint lists.
    pub fn new_filled(width: Unit, height: Unit, value: Cell) -> (r: Board)
        ensures
            r.wf(),
            r.spec_width() == width,
            r.spec_height() == height,
            forall|c: int, rr: int|
                0 <= c < width && 0 <= rr < height ==> #[trigger] r.spec_cell(c, rr) == value,
            forall|rr: int| 0 <= rr < height ==> #[trigger] r.spec_row_constraints(rr).len() == 0,
            forall|c: int| 0 <= c < width ==> #[trigger] r.spec_col_constraints(c).len() == 0,
    {
        proof {
            assert((width as int) * (height as int) <= Unit::MAX * Unit::MAX < usize::MAX)
                by (nonlinear_arith)
                requires
                    width <= Unit::MAX,
                    height <= Unit::MAX,
            ;
        }
        let n: usize = (width as usize) * (height as usize);
        let mut cells: Vec<Cell> = Vec::new();
        let mut k: usize = 0;
        while k < n
            invariant
                k <= n,
                cells@.len() == k,
                forall|q: int| 0 <= q < k ==> cells@[q] == value,
            decreases n - k,
        {
            cells.push(value);
            k = k + 1;
        }
        let r = Board {
            width,
            height,
            cells,
            row_constraints: create_constraint_list(height as usize),
            col_constraints: create_constraint_list(width as usize),
        };
        proof {
            assert forall|c: int, rr: int|
                0 <= c < width && 0 <= rr < height implies #[trigger] r.spec_cell(c, rr)
                == value by {
                r.lemma_index(c, rr);
            }
        }
        r
    }

    /// Get this board's width.
    pub fn get_width(&self) -> (r: Unit)
        ensures
            r == self.spec_width(),
    {
        self.width
    }

    /// Get this board's height.
    pub fn get_height(&self) -> (r: Unit)
        ensures
            r == self.spec_height(),
    {
        self.height
    }

    /// Get this board's size as (width, height).
    pub fn get_size(&self) -> (r: (Unit, Unit))
        ensures
            r.0 == self.spec_width(),
            r.1 == self.spec_height(),
    {
        (self.width, self.height)
    }

    /// Get the number of cells.
    pub fn get_num_cells(&self) -> (r: usize)
        requires
            self.wf(),
        ensures
            r == self.spec_cells().len(),
    {
        proof {
            assert(self.cells.len() == self.cells@.len());
        }
        (self.width as usize) * (self.height as usize)
    }

    /// Convert a column/row pair to a cell index.
    pub fn get_index(&self, col: Unit, row: Unit) -> (r: usize)
        requires
            self.wf(),
            col < self.spec_width(),
            row < self.spec_height(),
        ensures
            r == col + row * self.spec_width(),
            r < self.spec_cells().len(),
    {
        proof {
            self.lemma_index(col as int, row as int);
        }
        (col as usize) + (row as usize) * (self.width as usize)
    }

    /// Convert a cell index to a column/row pair.
    pub fn get_coordinate(&self, index: usize) -> (r: (Unit, Unit))
        requires
            self.wf(),
            self.spec_width() > 0,
            index < self.spec_cells().len(),
        ensures
            r.0 < self.spec_width(),
            r.1 < self.spec_height(),
            index == r.0 + r.1 * self.spec_width(),
    {
        proof {
            let w = self.spec_width();
            let h = self.spec_height();
            assert(index as int == (index as int) % w + ((index as int) / w) * w && 0 <= (
            index as int) % w < w && 0 <= (index as int) / w < h) by (nonlinear_arith)
                requires
                    0 < w,
                    0 <= index < w * h,
            ;
        }
        (((index % (self.width as usize)) as Unit), ((index / (self.width as usize)) as Unit))
    }

    /// Get the cell at the given column/row.
    pub fn get_cell(&self, col: Unit, row: Unit) -> (r: Cell)
        requires
            self.wf(),
            col < self.spec_width(),
            row < self.spec_height(),
        ensures
            r == self.spec_cell(col as int, row as int),
    {
        let index = self.get_index(col, row);
        self.cells[index]
    }

    /// Set the cell at the given column/row.
    pub fn set_cell(&mut self, col: Unit, row: Unit, value: Cell)
        requires
            old(self).wf(),
            col < old(self).spec_width(),
            row < old(self).spec_height(),
        ensures
            final(self).wf(),
            final(self).spec_width() == old(self).spec_width(),
            final(self).spec_height() == old(self).spec_height(),
            final(self).spec_cell(col as int, row as int) == value,
            forall|c: int, rr: int|
                0 <= c < old(self).spec_width() && 0 <= rr < old(self).spec_height() && !(c == col
                    && rr == row) ==> #[trigger] final(self).spec_cell(c, rr) == old(
                    self,
                ).spec_cell(c, rr),
            final(self).spec_cells() == old(self).spec_cells().update(
                col + row * old(self).spec_width(),
                value,
            ),
            forall|rr: int|
                0 <= rr < old(self).spec_height() ==> #[trigger] final(self).spec_row_constraints(
                    rr,
                ) == old(self).spec_row_constraints(rr),
            forall|c: int|
                0 <= c < old(self).spec_width() ==> #[trigger] final(self).spec_col_constraints(c)
                    == old(self).spec_col_constraints(c),
    {
        let index = self.get_index(col, row);
        self.cells[index] = value;
        proof {
            assert forall|rr: int|
                0 <= rr < self.spec_height() implies wf_constraint_list(
                #[trigger] self.spec_row_constraints(rr),
            ) by {
                assert(self.spec_row_constraints(rr) == old(self).spec_row_constraints(rr));
            }
            assert forall|c: int|
                0 <= c < self.spec_width() implies wf_constraint_list(
                #[trigger] self.spec_col_constraints(c),
            ) by {
                assert(self.spec_col_constraints(c) == old(self).spec_col_constraints(c));
            }
            assert forall|c: int, rr: int|
                0 <= c < old(self).spec_width() && 0 <= rr < old(self).spec_height() && !(c == col
                    && rr == row) implies #[trigger] self.spec_cell(c, rr) == old(self).spec_cell(
                c,
                rr,
            ) by {
                self.lemma_index(c, rr);
                if c + rr * self.spec_width() == col + row * self.spec_width() {
                    self.lemma_index_inj(c, rr, col as int, row as int);
                }
            }
        }
    }

    /// Get the cell at the given index.
    pub fn get_cell_index(&self, index: usize) -> (r: Cell)
        requires
            self.wf(),
            index < self.spec_cells().len(),
        ensures
            r == self.spec_cells()[index as int],
    {
        self.cells[index]
    }

    /// Set the cell at the given index.
    pub fn set_cell_index(&mut self, index: usize, value: Cell)
        requires
            old(self).wf(),
            index < old(self).spec_cells().len(),
        ensures
            final(self).wf(),
            final(self).spec_width() == old(self).spec_width(),
            final(self).spec_height() == old(self).spec_height(),
            final(self).spec_cells() == old(self).spec_cells().update(index as int, value),
            forall|rr: int|
                0 <= rr < old(self).spec_height() ==> #[trigger] final(self).spec_row_constraints(
                    rr,
                ) == old(self).spec_row_constraints(rr),
            forall|c: int|
                0 <= c < old(self).spec_width() ==> #[trigger] final(self).spec_col_constraints(c)
                    == old(self).spec_col_constraints(c),
    {
        self.cells[index] = value;
        proof {
            assert forall|rr: int|
                0 <= rr < self.spec_height() implies wf_constraint_list(
                #[trigger] self.spec_row_constraints(rr),
            ) by {
                assert(self.spec_row_constraints(rr) == old(self).spec_row_constraints(rr));
            }
            assert forall|c: int|
                0 <= c < self.spec_width() implies wf_constraint_list(
                #[trigger] self.spec_col_constraints(c),
            ) by {
                assert(self.spec_col_constraints(c) == old(self).spec_col_constraints(c));
            }
        }
    }

    /// Get the constraints of the given row.
    pub fn get_row_constraints(&self, row: Unit) -> (r: &ConstraintList)
        requires
            self.wf(),
            row < self.spec_height(),
        ensures
            r@ == self.spec_row_constraints(row as int),
    {
        &self.row_constraints[row as usize]
    }

    /// Get the constraints of the given column.
    pub fn get_col_constraints(&self, col: Unit) -> (r: &ConstraintList)
        requires
            self.wf(),
            col < self.spec_width(),
        ensures
            r@ == self.spec_col_constraints(col as int),
    {
        &self.col_constraints[col as usize]
    }

    /// Get a read-only view of a row of this board.
    pub fn get_row_ref(&self, row: Unit) -> (r: BoardRowRef)
        requires
            self.wf(),
            row < self.spec_height(),
        ensures
            r.board == self,
            r.row == row,
    {
        BoardRowRef { board: self, row }
    }

    /// Get a read-only view of a column of this board.
    pub fn get_col_ref(&self, col: Unit) -> (r: BoardColRef)
        requires
            self.wf(),
            col < self.spec_width(),
        ensures
            r.board == self,
            r.col == col,
    {
        BoardColRef { board: self, col }
    }

    /// Assemble a board from a prepared cell grid, with empty constraint
    /// lists.
    pub(crate) fn from_parts(width: Unit, height: Unit, cells: Vec<Cell>) -> (r: Board)
        requires
            cells@.len() == width * height,
        ensures
            r.wf(),
            r.spec_width() == width,
            r.spec_height() == height,
            r.spec_cells() == cells@,
            forall|rr: int| 0 <= rr < height ==> #[trigger] r.spec_row_constraints(rr).len() == 0,
            forall|c: int| 0 <= c < width ==> #[trigger] r.spec_col_constraints(c).len() == 0,
    {
        Board {
            width,
            height,
            cells,
            row_constraints: create_constraint_list(height as usize),
            col_constraints: create_constraint_list(width as usize),
        }
    }

    /// Assemble an all-undetermined board from parsed column and row
    /// constraint lists.
    pub(crate) fn from_puzzle_parts(cols: Vec<ConstraintList>, rows: Vec<ConstraintList>) -> (r:
        Board)
        requires
            cols@.len() <= Unit::MAX,
            rows@.len() <= Unit::MAX,
            forall|i: int| 0 <= i < cols@.len() ==> wf_constraint_list(#[trigger] cols@[i]@),
            forall|i: int| 0 <= i < rows@.len() ==> wf_constraint_list(#[trigger] rows@[i]@),
        ensures
            r.wf(),
            r.spec_width() == cols@.len(),
            r.spec_height() == rows@.len(),
            forall|q: int|
                0 <= q < r.spec_cells().len() ==> #[trigger] r.spec_cells()[q] == Cell::Unknown,
            forall|c: int| 0 <= c < cols@.len() ==> #[trigger] r.spec_col_constraints(c) == cols@[c]@,
            forall|rr: int|
                0 <= rr < rows@.len() ==> #[trigger] r.spec_row_constraints(rr) == rows@[rr]@,
    {
        let width = cols.len() as Unit;
        let height = rows.len() as Unit;
        proof {
            assert((width as int) * (height as int) <= Unit::MAX * Unit::MAX < usize::MAX)
                by (nonlinear_arith)
                requires
                    width <= Unit::MAX,
                    height <= Unit::MAX,
            ;
        }
        let n: usize = (width as usize) * (height as usize);
        let mut cells: Vec<Cell> = Vec::new();
        let mut k: usize = 0;
        while k < n
            invariant
                k <= n,
                cells@.len() == k,
                forall|q: int| 0 <= q < k ==> #[trigger] cells@[q] == Cell::Unknown,
            decreases n - k,
        {
            cells.push(Cell::Unknown);
            k = k + 1;
        }
        Board { width, height, cells, row_constraints: rows, col_constraints: cols }
    }

    /// Recompute every constraint list from the board's cells: the ordered
    /// run lengths of each row and column.  Succeeds only when every cell is
    /// determined; an incomplete board is left unchanged.
    pub(crate) fn generate_new_constraints(&mut self) -> (r: bool)
        requires
            old(self).wf(),
        ensures
            final(self).wf(),
            final(self).spec_width() == old(self).spec_width(),
            final(self).spec_height() == old(self).spec_height(),
            final(self).spec_cells() == old(self).spec_cells(),
            r == crate::model::complete(old(self).spec_cells()),
            r ==> forall|rr: int|
                0 <= rr < old(self).spec_height() ==> crate::model::lengths_of(
                    #[trigger] final(self).spec_row_constraints(rr),
                ) == crate::model::runs_of(final(self).spec_row(rr)),
            r ==> forall|c: int|
                0 <= c < old(self).spec_width() ==> crate::model::lengths_of(
                    #[trigger] final(self).spec_col_constraints(c),
                ) == crate::model::runs_of(final(self).spec_col(c)),
            !r ==> *final(self) == *old(self),
    {
        // Every cell must be determined before runs can be read off.
        let n = self.cells.len();
        let mut q: usize = 0;
        while q < n
            invariant
                q <= n,
                *self == *old(self),
                self.wf(),
                n == self.spec_cells().len(),
                forall|p: int| 0 <= p < q ==> #[trigger] self.spec_cells()[p] != Cell::Unknown,
            decreases n - q,
        {
            if self.cells[q] == Cell::Unknown {
                return false;
            }
            q = q + 1;
        }
        proof {
            assert forall|c2: int, r2: int|
                0 <= c2 < self.spec_width() && 0 <= r2 < self.spec_height() implies #[trigger] self.spec_cell(
                c2,
                r2,
            ) != Cell::Unknown by {
                self.lemma_cell_index(c2, r2);
            }
        }
        let width = self.width;
        let height = self.height;
        let ghost b0 = *self;
        let mut col: Unit = 0;
        while col < width
            invariant
                col <= width,
                self.wf(),
                width == self.spec_width(),
                height == self.spec_height(),
                self.spec_width() == b0.spec_width(),
                self.spec_height() == b0.spec_height(),
                self.spec_cells() == b0.spec_cells(),
                b0.wf(),
                forall|c2: int, r2: int|
                    0 <= c2 < b0.spec_width() && 0 <= r2 < b0.spec_height()
                        ==> #[trigger] b0.spec_cell(c2, r2) != Cell::Unknown,
                forall|rr: int|
                    0 <= rr < height ==> #[trigger] self.spec_row_constraints(rr)
                        == b0.spec_row_constraints(rr),
                forall|c2: int|
                    0 <= c2 < col ==> crate::model::lengths_of(
                        #[trigger] self.spec_col_constraints(c2),
                    ) == crate::model::runs_of(self.spec_col(c2)),
                forall|c2: int|
                    col <= c2 < width ==> #[trigger] self.spec_col_constraints(c2)
                        == b0.spec_col_constraints(c2),
            decreases width - col,
        {
            proof {
                assert forall|r2: int|
                    0 <= r2 < self.spec_col(col as int).len() implies #[trigger] self.spec_col(
                    col as int,
                )[r2] != Cell::Unknown by {
                    assert(self.spec_col(col as int)[r2] == self.spec_cell(col as int, r2));
                    assert(b0.spec_cell(col as int, r2) != Cell::Unknown);
                }
            }
            let list = match self.get_col_ref(col).create_standalone_line(
            ).generate_new_constraints() {
                Some(list) => list,
                None => {
                    proof {
                        assert(false);
                    }
                    return false;
                },
            };
            let ghost bprev = *self;
            self.col_constraints[col as usize] = list;
            proof {
                assert(self.spec_cells() == bprev.spec_cells());
                assert forall|rr: int|
                    0 <= rr < height implies #[trigger] self.spec_row_constraints(rr)
                    == bprev.spec_row_constraints(rr) by {}
                assert forall|c2: int|
                    0 <= c2 < width && c2 != col implies #[trigger] self.spec_col_constraints(c2)
                    == bprev.spec_col_constraints(c2) by {}
                assert(self.spec_col_constraints(col as int) == list@);
                assert forall|c2: int|
                    0 <= c2 < width implies #[trigger] self.spec_col(c2) == bprev.spec_col(c2) by {
                    assert(self.spec_col(c2) =~= bprev.spec_col(c2));
                }
                assert forall|rr: int|
                    0 <= rr < height implies #[trigger] self.spec_row(rr) == bprev.spec_row(rr) by {
                    assert(self.spec_row(rr) =~= bprev.spec_row(rr));
                }
            }
            col = col + 1;
        }
        let mut row: Unit = 0;
        while row < height
            invariant
                row <= height,
                self.wf(),
                width == self.spec_width(),
                height == self.spec_height(),
                self.spec_width() == b0.spec_width(),
                self.spec_height() == b0.spec_height(),
                self.spec_cells() == b0.spec_cells(),
                b0.wf(),
                forall|c2: int, r2: int|
                    0 <= c2 < b0.spec_width() && 0 <= r2 < b0.spec_height()
                        ==> #[trigger] b0.spec_cell(c2, r2) != Cell::Unknown,
                forall|c2: int|
                    0 <= c2 < width ==> crate::model::lengths_of(
                        #[trigger] self.spec_col_constraints(c2),
                    ) == crate::model::runs_of(self.spec_col(c2)),
                forall|r2: int|
                    0 <= r2 < row ==> crate::model::lengths_of(
                        #[trigger] self.spec_row_constraints(r2),
                    ) == crate::model::runs_of(self.spec_row(r2)),
                forall|r2: int|
                    row <= r2 < height ==> #[trigger] self.spec_row_constraints(r2)
                        == b0.spec_row_constraints(r2),
            decreases height - row,
        {
            proof {
                assert forall|c2: int|
                    0 <= c2 < self.spec_row(row as int).len() implies #[trigger] self.spec_row(
                    row as int,
                )[c2] != Cell::Unknown by {
                    assert(self.spec_row(row as int)[c2] == self.spec_cell(c2, row as int));
                    assert(b0.spec_cell(c2, row as int) != Cell::Unknown);
                }
            }
            let list = match self.get_row_ref(row).create_standalone_line(
            ).generate_new_constraints() {
                Some(list) => list,
                None => {
                    proof {
                        assert(false);
                    }
                    return false;
                },
            };
            let ghost bprev = *self;
            self.row_constraints[row as usize] = list;
            proof {
                assert(self.spec_cells() == bprev.spec_cells());
                assert forall|c2: int|
                    0 <= c2 < width implies #[trigger] self.spec_col_constraints(c2)
                    == bprev.spec_col_constraints(c2) by {}
                assert forall|r2: int|
                    0 <= r2 < height && r2 != row implies #[trigger] self.spec_row_constraints(r2)
                    == bprev.spec_row_constraints(r2) by {}
                assert(self.spec_row_constraints(row as int) == list@);
                assert forall|c2: int|
                    0 <= c2 < width implies #[trigger] self.spec_col(c2) == bprev.spec_col(c2) by {
                    assert(self.spec_col(c2) =~= bprev.spec_col(c2));
                }
                assert forall|r2: int|
                    0 <= r2 < height implies #[trigger] self.spec_row(r2) == bprev.spec_row(r2) by {
                    assert(self.spec_row(r2) =~= bprev.spec_row(r2));
                }
            }
            row = row + 1;
        }
        proof {
            assert(crate::model::complete(self.spec_cells()));
        }
        true
    }

    /// Create a copy of this board with empty constraint lists.
    pub fn clone_without_constraints(&self) -> (r: Board)
        requires
            self.wf(),
        ensures
            r.wf(),
            r.spec_width() == self.spec_width(),
            r.spec_height() == self.spec_height(),
            r.spec_cells() == self.spec_cells(),
            forall|rr: int| 0 <= rr < self.spec_height() ==> #[trigger] r.spec_row_constraints(rr).len() == 0,
            forall|c: int| 0 <= c < self.spec_width() ==> #[trigger] r.spec_col_constraints(c).len() == 0,
    {
        Board {
            cells: copy_cells(&self.cells),
            width: self.width,
            height: self.height,
            row_constraints: create_constraint_list(self.height as usize),
            col_constraints: create_constraint_list(self.width as usize),
        }
    }
}

impl Clone for Board {
    /// A value copy of the whole board state.
    fn clone(&self) -> (r: Board)
        ensures
            r.spec_width() == self.spec_width(),
            r.spec_height() == self.spec_height(),
            r.spec_cells() == self.spec_cells(),
            self.wf() ==> forall|rr: int|
                0 <= rr < self.spec_height() ==> #[trigger] r.spec_row_constraints(rr)
                    == self.spec_row_constraints(rr),
            self.wf() ==> forall|c: int|
                0 <= c < self.spec_width() ==> #[trigger] r.spec_col_constraints(c)
                    == self.spec_col_constraints(c),
            self.wf() ==> r.wf(),
            forall|c: int, rr: int|
                0 <= c < self.spec_width() && 0 <= rr < self.spec_height()
                    ==> #[trigger] r.spec_cell(c, rr) == self.spec_cell(c, rr),
    {
        let r = Board {
            width: self.width,
            height: self.height,
            cells: copy_cells(&self.cells),
            row_constraints: copy_constraint_lists(&self.row_constraints),
            col_constraints: copy_constraint_lists(&self.col_constraints),
        };
        proof {
            if self.wf() {
                assert forall|rr: int|
                    0 <= rr < r.spec_height() implies wf_constraint_list(
                    #[trigger] r.spec_row_constraints(rr),
                ) by {
                    assert(r.spec_row_constraints(rr) == self.spec_row_constraints(rr));
                }
                assert forall|c: int|
                    0 <= c < r.spec_width() implies wf_constraint_list(
                    #[trigger] r.spec_col_constraints(c),
                ) by {
                    assert(r.spec_col_constraints(c) == self.spec_col_constraints(c));
                }
            }
        }
        r
    }
}

fn copy_constraint_lists(lists: &Vec<ConstraintList>) -> (r: Vec<ConstraintList>)
    ensures
        r@.len() == lists@.len(),
        forall|i: int| 0 <= i < lists@.len() ==> #[trigger] r@[i]@ == lists@[i]@,
{
    let mut out: Vec<ConstraintList> = Vec::new();
    let n = lists.len();
    let mut k: usize = 0;
    while k < n
        invariant
            k <= n,
            n == lists@.len(),
            out@.len() == k,
            forall|i: int| 0 <= i < k ==> #[trigger] out@[i]@ == lists@[i]@,
        decreases n - k,
    {
        out.push(copy_constraints(&lists[k]));
        k = k + 1;
    }
    out
}

fn copy_constraints(cs: &ConstraintList) -> (r: ConstraintList)
    ensures
        r@ == cs@,
{
    let mut out: ConstraintList = Vec::new();
    let n = cs.len();
    let mut k: usize = 0;
    while k < n
        invariant
            k <= n,
            n == cs@.len(),
            out@ == cs@.take(k as int),
        decreases n - k,
    {
        out.push(cs[k]);
        proof {
            assert(out@ == cs@.take(k + 1 as int));
        }
        k = k + 1;
    }
    proof {
        assert(cs@.take(n as int) == cs@);
    }
    out
}

fn copy_cells(cells: &Vec<Cell>) -> (r: Vec<Cell>)
    ensures
        r@ == cells@,
{
    let mut out: Vec<Cell> = Vec::new();
    let n = cells.len();
    let mut k: usize = 0;
    while k < n
        invariant
            k <= n,
            n == cells@.len(),
            out@ == cells@.take(k as int),
        decreases n - k,
    {
        out.push(cells[k]);
        proof {
            assert(out@ == cells@.take(k + 1 as int));
        }
        k = k + 1;
    }
    proof {
        assert(cells@.take(n as int) == cells@);
    }
    out
}

/// A read-only view of one row of a board.
pub struct BoardRowRef<'a> {
    pub board: &'a Board,
    pub row: Unit,
}

impl<'a> BoardRowRef<'a> {
    /// Get the length of this line.
    pub fn size(&self) -> (r: Unit)
        requires
            self.board.wf(),
        ensures
            r == self.board.spec_width(),
    {
        self.board.get_width()
    }

    /// Get a cell value from this line.
    pub fn get_cell(&self, col: Unit) -> (r: Cell)
        requires
            self.board.wf(),
            self.row < self.board.spec_height(),
            col < self.board.spec_width(),
        ensures
            r == self.board.spec_row(self.row as int)[col as int],
    {
        self.board.get_cell(col, self.row)
    }

    /// Get this line's list of constraints.
    pub fn get_constraints(&self) -> (r: &'a ConstraintList)
        requires
            self.board.wf(),
            self.row < self.board.spec_height(),
        ensures
            r@ == self.board.spec_row_constraints(self.row as int),
    {
        self.board.get_row_constraints(self.row)
    }

    /// Copy this row into a standalone line carrier.
    pub fn create_standalone_line(&self) -> (r: StandaloneLine<'a>)
        requires
            self.board.wf(),
            self.row < self.board.spec_height(),
        ensures
            r@ == self.board.spec_row(self.row as int),
            r.cs() == self.board.spec_row_constraints(self.row as int),
            r.wf(),
    {
        let n = self.board.get_width();
        let mut data: Vec<Cell> = Vec::new();
        let mut k: Unit = 0;
        while k < n
            invariant
                k <= n,
                n == self.board.spec_width(),
                self.board.wf(),
                self.row < self.board.spec_height(),
                data@.len() == k,
                forall|c: int| 0 <= c < k ==> data@[c] == self.board.spec_cell(c, self.row as int),
            decreases n - k,
        {
            data.push(self.board.get_cell(k, self.row));
            k = k + 1;
        }
        let r = StandaloneLine::new(data, self.board.get_row_constraints(self.row));
        proof {
            assert(r@ =~= self.board.spec_row(self.row as int));
        }
        r
    }
}

/// A read-only view of one column of a board.
pub struct BoardColRef<'a> {
    pub board: &'a Board,
    pub col: Unit,
}

impl<'a> BoardColRef<'a> {
    /// Get the length of this line.
    pub fn size(&self) -> (r: Unit)
        requires
            self.board.wf(),
        ensures
            r == self.board.spec_height(),
    {
        self.board.get_height()
    }

    /// Get a cell value from this line.
    pub fn get_cell(&self, row: Unit) -> (r: Cell)
        requires
            self.board.wf(),
            self.col < self.board.spec_width(),
            row < self.board.spec_height(),
        ensures
            r == self.board.spec_col(self.col as int)[row as int],
    {
        self.board.get_cell(self.col, row)
    }

    /// Get this line's list of constraints.
    pub fn get_constraints(&self) -> (r: &'a ConstraintList)
        requires
            self.board.wf(),
            self.col < self.board.spec_width(),
        ensures
            r@ == self.board.spec_col_constraints(self.col as int),
    {
        self.board.get_col_constraints(self.col)
    }

    /// Copy this column into a standalone line carrier.
    pub fn create_standalone_line(&self) -> (r: StandaloneLine<'a>)
        requires
            self.board.wf(),
            self.col < self.board.spec_width(),
        ensures
            r@ == self.board.spec_col(self.col as int),
            r.cs() == self.board.spec_col_constraints(self.col as int),
            r.wf(),
    {
        let n = self.board.get_height();
        let mut data: Vec<Cell> = Vec::new();
        let mut k: Unit = 0;
        while k < n
            invariant
                k <= n,
                n == self.board.spec_height(),
                self.board.wf(),
                self.col < self.board.spec_width(),
                data@.len() == k,
                forall|rr: int| 0 <= rr < k ==> data@[rr] == self.board.spec_cell(self.col as int, rr),
            decreases n - k,
        {
            data.push(self.board.get_cell(self.col, k));
            k = k + 1;
        }
        let r = StandaloneLine::new(data, self.board.get_col_constraints(self.col));
        proof {
            assert(r@ =~= self.board.spec_col(self.col as int));
        }
        r
    }
}

} // verus!
