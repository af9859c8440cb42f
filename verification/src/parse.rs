//! Reading puzzles and solutions: a puzzle file is line-oriented with a
//! `=COLUMNS` sentinel opening the column-constraint section and a `=ROWS`
//! sentinel opening the row-constraint section; a solution file is headerless
//! CSV whose fields are `0` (empty), `1` (filled) or `-1` (undetermined).

use vstd::prelude::*;
use crate::board::{Board, Cell, Constraint, ConstraintList, Unit};
use crate::model::{lengths_of, runs_of, wf_constraints};

verus! {

broadcast use crate::board::Board::lemma_board_width, crate::board::Board::lemma_board_height;

/// A decimal digit.
pub open spec fn spec_digit(c: char) -> bool {
    ('0' as int) <= c as int <= ('9' as int)
}

/// The value of a decimal digit.
pub open spec fn spec_digit_val(c: char) -> int {
    c as int - ('0' as int)
}

/// Parse the rest of a constraint line: a comma-separated list of decimal
/// run lengths, each between 1 and the board's length type's maximum, with
/// `cur` holding the digits of the current number read so far.
pub open spec fn parse_clist_from(s: Seq<char>, i: int, cur: Option<int>) -> Option<Seq<int>>
    decreases s.len() - i,
{
    if i < 0 || i >= s.len() {
        match cur {
            None => None,
            Some(val) => if 1 <= val <= Unit::MAX {
                Some(seq![val])
            } else {
                None
            },
        }
    } else if s[i] == ',' {
        match cur {
            None => None,
            Some(val) => if 1 <= val <= Unit::MAX {
                match parse_clist_from(s, i + 1, None) {
                    None => None,
                    Some(rest) => Some(seq![val] + rest),
                }
            } else {
                None
            },
        }
    } else if spec_digit(s[i]) {
        let val2 = match cur {
            None => spec_digit_val(s[i]),
            Some(val) => val * 10 + spec_digit_val(s[i]),
        };
        if val2 <= Unit::MAX {
            parse_clist_from(s, i + 1, Some(val2))
        } else {
            None
        }
    } else {
        None
    }
}

/// The run lengths a constraint line names: the empty line names none,
/// any other line must be a comma-separated list of positive run lengths.
pub open spec fn spec_parse_constraints(s: Seq<char>) -> Option<Seq<int>> {
    if s.len() == 0 {
        Some(Seq::empty())
    } else {
        parse_clist_from(s, 0, None)
    }
}

/// Parse one constraint line.
#[verifier::loop_isolation(false)]
pub fn parse_constraint_line(s: &String) -> (r: Option<ConstraintList>)
    ensures
        match r {
            None => spec_parse_constraints(s@) is None,
            Some(cl) => {
                &&& spec_parse_constraints(s@) == Some(lengths_of(cl@))
                &&& wf_constraints(cl@)
            },
        },
{
    let n = s.as_str().unicode_len();
    if n == 0 {
        let cl: ConstraintList = Vec::new();
        proof {
            assert(lengths_of(cl@) =~= Seq::<int>::empty());
        }
        return Some(cl);
    }
    let mut ret: ConstraintList = Vec::new();
    let mut cur: u32 = 0;
    let mut have: bool = false;
    let mut i: usize = 0;
    while i < n
        invariant
            i <= n,
            n == s@.len(),
            wf_constraints(ret@),
            have ==> cur <= Unit::MAX,
            !have ==> cur == 0,
            parse_clist_from(s@, 0, None) == (match parse_clist_from(
                s@,
                i as int,
                if have {
                    Some(cur as int)
                } else {
                    None
                },
            ) {
                None => None::<Seq<int>>,
                Some(rest) => Some(lengths_of(ret@) + rest),
            }),
        decreases n - i,
    {
        let c = s.as_str().get_char(i);
        let u = c as u32;
        let ghost prev = ret@;
        let ghost state = if have {
            Some(cur as int)
        } else {
            None::<int>
        };
        if u == 44 {
            // A separating comma closes the current number.
            if !have || cur == 0 {
                proof {
                    assert(parse_clist_from(s@, i as int, state) is None);
                }
                return None;
            }
            ret.push(Constraint::new(cur as Unit));
            proof {
                assert(lengths_of(ret@) =~= lengths_of(prev).push(cur as int));
                if parse_clist_from(s@, i + 1, None) is Some {
                    let rest = choose|rest: Seq<int>|
                        parse_clist_from(s@, i + 1, None) == Some(rest);
                    assert(lengths_of(prev) + (seq![cur as int] + rest) =~= lengths_of(ret@)
                        + rest);
                }
            }
            cur = 0;
            have = false;
        } else if 48 <= u && u <= 57 {
            let d = u - 48;
            let next = cur * 10 + d;
            if next > Unit::MAX as u32 {
                proof {
                    assert(spec_digit(s@[i as int]));
                    assert(parse_clist_from(s@, i as int, state) is None);
                }
                return None;
            }
            proof {
                assert(spec_digit(s@[i as int]));
                assert(d == spec_digit_val(s@[i as int]));
            }
            cur = next;
            have = true;
        } else {
            proof {
                assert(s@[i as int] != ',' && !spec_digit(s@[i as int]));
                assert(parse_clist_from(s@, i as int, state) is None);
            }
            return None;
        }
        i = i + 1;
    }
    if !have || cur == 0 {
        proof {
            assert(parse_clist_from(s@, 0, None) is None);
        }
        return None;
    }
    let ghost prev = ret@;
    ret.push(Constraint::new(cur as Unit));
    proof {
        assert(lengths_of(ret@) =~= lengths_of(prev).push(cur as int));
        assert(lengths_of(prev) + seq![cur as int] =~= lengths_of(ret@));
    }
    Some(ret)
}

/// The run-length lists a sequence of constraint lists names.
pub open spec fn clists_view(v: Seq<ConstraintList>) -> Seq<Seq<int>> {
    Seq::new(v.len(), |i: int| lengths_of(v[i]@))
}

/// Parse the remaining lines of a puzzle file: constraint lines of the
/// column section until the `=ROWS` sentinel, then constraint lines of the
/// row section until the end.
pub open spec fn parse_lines(lines: Seq<Seq<char>>, i: int, in_cols: bool) -> Option<
    (Seq<Seq<int>>, Seq<Seq<int>>),
>
    decreases lines.len() - i,
{
    if i < 0 || i >= lines.len() {
        if in_cols {
            None
        } else {
            Some((Seq::empty(), Seq::empty()))
        }
    } else if in_cols && lines[i] == "=ROWS"@ {
        parse_lines(lines, i + 1, false)
    } else {
        match spec_parse_constraints(lines[i]) {
            None => None,
            Some(cl) => match parse_lines(lines, i + 1, in_cols) {
                None => None,
                Some(cr) => if in_cols {
                    Some((seq![cl] + cr.0, cr.1))
                } else {
                    Some((cr.0, seq![cl] + cr.1))
                },
            },
        }
    }
}

/// A puzzle file: the `=COLUMNS` sentinel, the column constraint lists, the
/// `=ROWS` sentinel, and the row constraint lists.
pub open spec fn spec_parse_puzzle(lines: Seq<Seq<char>>) -> Option<
    (Seq<Seq<int>>, Seq<Seq<int>>),
> {
    if lines.len() >= 1 && lines[0] == "=COLUMNS"@ {
        parse_lines(lines, 1, true)
    } else {
        None
    }
}

impl Board {
    /// Read a puzzle from its file's lines: an all-undetermined board whose
    /// width is the number of column lines and height the number of row
    /// lines.  Malformed input, or more lines than a board side can hold,
    /// gives `None`.
    #[verifier::loop_isolation(false)]
    pub fn read_csv_puzzle(lines: &Vec<String>) -> (r: Option<Board>)
        ensures
            match r {
                None => spec_parse_puzzle(lines.deep_view()) is None || (spec_parse_puzzle(
                    lines.deep_view(),
                ) matches Some(p) && (p.0.len() > Unit::MAX || p.1.len() > Unit::MAX)),
                Some(b) => {
                    &&& spec_parse_puzzle(lines.deep_view()) is Some
                    &&& b.wf()
                    &&& b.spec_width() == spec_parse_puzzle(lines.deep_view()).unwrap().0.len()
                    &&& b.spec_height() == spec_parse_puzzle(lines.deep_view()).unwrap().1.len()
                    &&& forall|c: int|
                        0 <= c < b.spec_width() ==> lengths_of(#[trigger] b.spec_col_constraints(c))
                            == spec_parse_puzzle(lines.deep_view()).unwrap().0[c]
                    &&& forall|rr: int|
                        0 <= rr < b.spec_height() ==> lengths_of(
                            #[trigger] b.spec_row_constraints(rr),
                        ) == spec_parse_puzzle(lines.deep_view()).unwrap().1[rr]
                    &&& forall|q: int|
                        0 <= q < b.spec_cells().len() ==> #[trigger] b.spec_cells()[q]
                            == Cell::Unknown
                },
            },
    {
        let ghost lv = lines.deep_view();
        let n = lines.len();
        proof {
            assert(lv.len() == n);
            assert forall|t: int| 0 <= t < n implies #[trigger] lv[t] == lines@[t]@ by {}
        }
        if n == 0 {
            return None;
        }
        if !(lines[0] == "=COLUMNS".to_owned()) {
            return None;
        }
        let mut cols: Vec<ConstraintList> = Vec::new();
        let mut rows: Vec<ConstraintList> = Vec::new();
        let mut in_cols = true;
        let mut i: usize = 1;
        while i < n
            invariant
                1 <= i <= n,
                in_cols ==> rows@.len() == 0,
                forall|t: int| 0 <= t < cols@.len() ==> wf_constraints(#[trigger] cols@[t]@),
                forall|t: int| 0 <= t < rows@.len() ==> wf_constraints(#[trigger] rows@[t]@),
                spec_parse_puzzle(lv) == (match parse_lines(lv, i as int, in_cols) {
                    None => None::<(Seq<Seq<int>>, Seq<Seq<int>>)>,
                    Some(p) => Some(
                        (clists_view(cols@) + p.0, clists_view(rows@) + p.1),
                    ),
                }),
            decreases n - i,
        {
            let line = &lines[i];
            let ghost cols_prev = cols@;
            let ghost rows_prev = rows@;
            if in_cols && *line == "=ROWS".to_owned() {
                in_cols = false;
            } else {
                proof {
                    assert(!(in_cols && lv[i as int] == "=ROWS"@));
                }
                let cl = match parse_constraint_line(line) {
                    Some(cl) => cl,
                    None => {
                        return None;
                    },
                };
                if in_cols {
                    cols.push(cl);
                    proof {
                        assert(clists_view(cols@) =~= clists_view(cols_prev).push(
                            lengths_of(cl@),
                        ));
                        if parse_lines(lv, i + 1, in_cols) is Some {
                            let p = choose|p: (Seq<Seq<int>>, Seq<Seq<int>>)|
                                parse_lines(lv, i + 1, in_cols) == Some(p);
                            assert(clists_view(cols_prev) + (seq![lengths_of(cl@)] + p.0)
                                =~= clists_view(cols@) + p.0);
                        }
                    }
                } else {
                    rows.push(cl);
                    proof {
                        assert(clists_view(rows@) =~= clists_view(rows_prev).push(
                            lengths_of(cl@),
                        ));
                        if parse_lines(lv, i + 1, in_cols) is Some {
                            let p = choose|p: (Seq<Seq<int>>, Seq<Seq<int>>)|
                                parse_lines(lv, i + 1, in_cols) == Some(p);
                            assert(clists_view(rows_prev) + (seq![lengths_of(cl@)] + p.1)
                                =~= clists_view(rows@) + p.1);
                        }
                    }
                }
            }
            i = i + 1;
        }
        if in_cols {
            // The row sentinel never came.
            return None;
        }
        proof {
            assert(clists_view(cols@) + Seq::<Seq<int>>::empty() =~= clists_view(cols@));
            assert(clists_view(rows@) + Seq::<Seq<int>>::empty() =~= clists_view(rows@));
        }
        if cols.len() > Unit::MAX as usize || rows.len() > Unit::MAX as usize {
            return None;
        }
        let b = Board::from_puzzle_parts(cols, rows);
        proof {
            assert forall|c: int| 0 <= c < b.spec_width() implies lengths_of(
                #[trigger] b.spec_col_constraints(c),
            ) == spec_parse_puzzle(lv).unwrap().0[c] by {}
            assert forall|rr: int| 0 <= rr < b.spec_height() implies lengths_of(
                #[trigger] b.spec_row_constraints(rr),
            ) == spec_parse_puzzle(lv).unwrap().1[rr] by {}
        }
        Some(b)
    }
}

/// The records a CSV document holds, one sequence of byte fields per record,
/// or nothing when the document is malformed.  What exactly the `csv` crate
/// accepts (quoting, escaping) is left unspecified: it is a function of the
/// bytes alone.
pub uninterp spec fn csv_records_of(data: Seq<u8>) -> Option<Seq<Seq<Seq<u8>>>>;

/// Relies on csv::Reader (headerless): parses CSV bytes into its records'
/// fields; the result depends on the bytes alone.
#[verifier::external_body]
fn parse_csv_records(data: &[u8]) -> (r: Option<Vec<Vec<Vec<u8>>>>)
    ensures
        r.deep_view() == csv_records_of(data@),
{
    let mut reader = csv::ReaderBuilder::new().has_headers(false).from_reader(data);
    let mut out: Vec<Vec<Vec<u8>>> = Vec::new();
    for result in reader.records() {
        match result {
            Ok(record) => out.push(record.iter().map(|f| f.as_bytes().to_vec()).collect()),
            Err(_) => {
                return None;
            },
        }
    }
    Some(out)
}

/// The cell a solution-file field names: the bytes of `0` for an empty cell,
/// `1` for a filled one, `-1` for an undetermined one.
pub open spec fn cell_of_field(f: Seq<u8>) -> Option<Cell> {
    if f == seq![48u8] {
        Some(Cell::Empty)
    } else if f == seq![49u8] {
        Some(Cell::Filled)
    } else if f == seq![45u8, 49u8] {
        Some(Cell::Unknown)
    } else {
        None
    }
}

/// Parse one solution-file field.
fn cell_from_field(f: &Vec<u8>) -> (r: Option<Cell>)
    ensures
        r == cell_of_field(f@),
{
    if f.len() == 1 && f[0] == 48 {
        proof {
            assert(f@ =~= seq![48u8]);
        }
        Some(Cell::Empty)
    } else if f.len() == 1 && f[0] == 49 {
        proof {
            assert(f@ =~= seq![49u8]);
        }
        Some(Cell::Filled)
    } else if f.len() == 2 && f[0] == 45 && f[1] == 49 {
        proof {
            assert(f@ =~= seq![45u8, 49u8]);
        }
        Some(Cell::Unknown)
    } else {
        proof {
            if f@ == seq![48u8] {
                assert(f@.len() == 1 && f@[0] == 48);
            }
            if f@ == seq![49u8] {
                assert(f@.len() == 1 && f@[0] == 49);
            }
            if f@ == seq![45u8, 49u8] {
                assert(f@.len() == 2 && f@[0] == 45 && f@[1] == 49);
            }
        }
        None
    }
}

/// The records name a complete board: every record as long as the first,
/// every field a determined cell, and both dimensions within the board's
/// length type.  Empty input stands for an empty board.
pub open spec fn spec_solution_ok(recs: Option<Seq<Seq<Seq<u8>>>>) -> bool {
    match recs {
        None => false,
        Some(rs) => rs.len() == 0 || {
            &&& rs.len() <= Unit::MAX
            &&& rs[0].len() <= Unit::MAX
            &&& forall|i: int| 0 <= i < rs.len() ==> (#[trigger] rs[i]).len() == rs[0].len()
            &&& forall|i: int, j: int|
                0 <= i < rs.len() && 0 <= j < rs[0].len() ==> (#[trigger] cell_of_field(
                    rs[i][j],
                )) is Some && cell_of_field(rs[i][j]) != Some(Cell::Unknown)
        },
    }
}

impl Board {
    /// Read a completely determined board from the bytes of a headerless CSV
    /// solution file, one record per row, and recompute its constraint lists
    /// from its runs.  Malformed input, mismatched record lengths, an
    /// undetermined cell, or a side beyond the board's length type give
    /// `None`; empty input gives the empty board.
    #[verifier::loop_isolation(false)]
    #[verifier::rlimit(50)]
    pub fn read_csv_solution(data: &[u8]) -> (r: Option<Board>)
        ensures
            r is Some <==> spec_solution_ok(csv_records_of(data@)),
            r is Some ==> ({
                let rs = csv_records_of(data@).unwrap();
                let b = r.unwrap();
                &&& b.wf()
                &&& b.spec_height() == rs.len()
                &&& b.spec_width() == (if rs.len() == 0 {
                    0int
                } else {
                    rs[0].len() as int
                })
                &&& forall|c: int, rr: int|
                    0 <= c < b.spec_width() && 0 <= rr < b.spec_height() ==> cell_of_field(
                        rs[rr][c],
                    ) == Some(#[trigger] b.spec_cell(c, rr))
                &&& forall|rr: int|
                    0 <= rr < b.spec_height() ==> lengths_of(#[trigger] b.spec_row_constraints(rr))
                        == runs_of(b.spec_row(rr))
                &&& forall|c: int|
                    0 <= c < b.spec_width() ==> lengths_of(#[trigger] b.spec_col_constraints(c))
                        == runs_of(b.spec_col(c))
            }),
    {
        let recs = match parse_csv_records(data) {
            Some(recs) => recs,
            None => {
                return None;
            },
        };
        let ghost rs = csv_records_of(data@).unwrap();
        proof {
            assert(rs == recs.deep_view());
            assert(rs.len() == recs@.len());
            assert forall|i: int, j: int|
                0 <= i < recs@.len() && 0 <= j < recs@[i]@.len() implies #[trigger] rs[i][j]
                == recs@[i]@[j]@ by {
                assert(rs[i] == recs@[i].deep_view());
                assert(rs[i][j] == recs@[i]@[j].deep_view());
                assert(recs@[i]@[j].deep_view() =~= recs@[i]@[j]@);
            }
            assert forall|i: int| 0 <= i < recs@.len() implies (#[trigger] rs[i]).len()
                == recs@[i]@.len() by {
                assert(rs[i] == recs@[i].deep_view());
            }
        }
        let height = recs.len();
        if height == 0 {
            return Some(Board::new_empty());
        }
        let width = recs[0].len();
        proof {
            assert(rs[0].len() == width);
        }
        if width > Unit::MAX as usize || height > Unit::MAX as usize {
            proof {
                assert(!spec_solution_ok(csv_records_of(data@)));
            }
            return None;
        }
        let mut cells: Vec<Cell> = Vec::new();
        let mut rr: usize = 0;
        while rr < height
            invariant
                rr <= height,
                height == recs@.len(),
                width == recs@[0]@.len(),
                cells@.len() == rr * width,
                forall|i: int| 0 <= i < rr ==> recs@[i]@.len() == width,
                forall|i: int, j: int|
                    0 <= i < rr && 0 <= j < width ==> cell_of_field(rs[i][j]) == Some(
                        #[trigger] cells@[i * width + j],
                    ),
                forall|q: int| 0 <= q < cells@.len() ==> #[trigger] cells@[q] != Cell::Unknown,
            decreases height - rr,
        {
            let rec = &recs[rr];
            if rec.len() != width {
                proof {
                    assert(rs[rr as int].len() != rs[0].len());
                    assert(!spec_solution_ok(csv_records_of(data@)));
                }
                return None;
            }

            let mut c: usize = 0;
            while c < width
                invariant
                    c <= width,
                    rr < height,
                    height == recs@.len(),
                    width == recs@[0]@.len(),
                    recs@[rr as int]@.len() == width,
                    rec == &recs@[rr as int],
                    cells@.len() == rr * width + c,
                    forall|i: int| 0 <= i < rr ==> recs@[i]@.len() == width,
                    forall|i: int, j: int|
                        0 <= i < rr && 0 <= j < width ==> cell_of_field(rs[i][j]) == Some(
                            #[trigger] cells@[i * width + j],
                        ),
                    forall|j: int|
                        0 <= j < c ==> cell_of_field(rs[rr as int][j]) == Some(
                            #[trigger] cells@[rr as int * width + j],
                        ),
                    forall|q: int| 0 <= q < cells@.len() ==> #[trigger] cells@[q] != Cell::Unknown,
                decreases width - c,
            {
                proof {
                    assert(rr * width + width <= height * width) by (nonlinear_arith)
                        requires
                            0 <= rr < height,
                            0 <= width,
                    ;
                    assert(height * width <= Unit::MAX * Unit::MAX < usize::MAX)
                        by (nonlinear_arith)
                        requires
                            0 <= height <= Unit::MAX,
                            0 <= width <= Unit::MAX,
                    ;
                }
                proof {
                    assert(rs[rr as int][c as int] == recs@[rr as int]@[c as int]@);
                }
                let value = match cell_from_field(&rec[c]) {
                    Some(Cell::Unknown) => {
                        proof {
                            assert(cell_of_field(rs[rr as int][c as int]) == Some(Cell::Unknown));
                            assert(!spec_solution_ok(csv_records_of(data@)));
                        }
                        return None;
                    },
                    Some(value) => value,
                    None => {
                        proof {
                            assert(cell_of_field(rs[rr as int][c as int]) is None);
                            assert(!spec_solution_ok(csv_records_of(data@)));
                        }
                        return None;
                    },
                };
                cells.push(value);
                proof {
                    assert forall|i: int, j: int|
                        0 <= i < rr && 0 <= j < width implies #[trigger] (i * width + j) < rr
                        * width + c by {
                        assert(i * width + width <= rr * width) by (nonlinear_arith)
                            requires
                                0 <= i < rr,
                                0 <= width,
                        ;
                    }
                }
                c = c + 1;
            }
            proof {
                assert(rr * width + width == (rr + 1) * width) by (nonlinear_arith);
            }
            rr = rr + 1;
        }
        proof {
            assert(height * width == (width as Unit) * (height as Unit)) by (nonlinear_arith)
                requires
                    0 <= height <= Unit::MAX,
                    0 <= width <= Unit::MAX,
            ;
        }
        let mut b = Board::from_parts(width as Unit, height as Unit, cells);
        proof {
            assert forall|c2: int, rr2: int|
                0 <= c2 < b.spec_width() && 0 <= rr2 < b.spec_height() implies cell_of_field(
                rs[rr2][c2],
            ) == Some(#[trigger] b.spec_cell(c2, rr2)) by {
                b.lemma_cell_index(c2, rr2);
                assert(b.spec_cells()[c2 + rr2 * width] == b.spec_cell(c2, rr2));
                assert(cell_of_field(rs[rr2][c2]) == Some(cells@[rr2 * width + c2]));
                assert(rr2 * width + c2 == c2 + rr2 * width);
            }
            assert(crate::model::complete(b.spec_cells()));
        }
        proof {
            assert forall|i: int| 0 <= i < rs.len() implies (#[trigger] rs[i]).len()
                == rs[0].len() by {}
            assert forall|i: int, j: int|
                0 <= i < rs.len() && 0 <= j < rs[0].len() implies (#[trigger] cell_of_field(
                rs[i][j],
            )) is Some && cell_of_field(rs[i][j]) != Some(Cell::Unknown) by {
                assert(cell_of_field(rs[i][j]) == Some(cells@[i * width + j]));
                assert(cells@[i * width + j] != Cell::Unknown) by {
                    assert(i * width + j < cells@.len() && 0 <= i * width + j) by (nonlinear_arith)
                        requires
                            0 <= i < rs.len(),
                            0 <= j < width,
                            cells@.len() == rs.len() * width,
                    ;
                }
            }
            assert(spec_solution_ok(csv_records_of(data@)));
        }
        let ghost bpre = b;
        let ok = b.generate_new_constraints();
        if !ok {
            proof {
                assert(false);
            }
            return None;
        }
        proof {
            assert forall|c2: int, rr2: int|
                0 <= c2 < b.spec_width() && 0 <= rr2 < b.spec_height() implies cell_of_field(
                rs[rr2][c2],
            ) == Some(#[trigger] b.spec_cell(c2, rr2)) by {
                b.lemma_cell_index(c2, rr2);
                bpre.lemma_cell_index(c2, rr2);
                assert(b.spec_cell(c2, rr2) == bpre.spec_cell(c2, rr2));
            }
        }
        Some(b)
    }
}

} // verus!
