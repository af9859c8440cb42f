//! The propagation driver and the branching search: pop lines from a
//! priority set, run the line solver, feed every changed cell back as an
//! enqueue of the crossing line, and split on an undetermined cell when
//! propagation stalls.

use vstd::prelude::*;
use crate::board::{Board, Cell, Constraint, StandaloneLine, Unit};
use crate::model::{
    complete, consistent, count_unknown, feasible, lemma_count_unknown_bounds,
    lemma_count_unknown_pos, lemma_count_unknown_update, lemma_count_unknown_zero,
    lemma_infeasible_no_solution, lemma_solution_refines_solved, lemma_solved_line_consistent,
    lemma_solved_line_fixpoint, lemma_solved_line_refines, lemma_complete_feasible_fixpoint,
    line_fixpoint, refines, reported_changes, solved_line,
};

verus! {

broadcast use crate::board::Board::lemma_board_width, crate::board::Board::lemma_board_height;

/// Whether a line runs across or down the board.
#[derive(Copy, Clone, PartialEq, Eq, Hash, Debug, Structural)]
pub enum LineType {
    Row,
    Column,
}

/// Identifies one line of the board.
#[derive(Copy, Clone, PartialEq, Eq, Hash, Debug, Structural)]
pub struct LineInfo {
    pub index: Unit,
    pub linetype: LineType,
}

/// A position of `LineType` in the deterministic total order on lines.
pub open spec fn linetype_rank(t: LineType) -> int {
    match t {
        LineType::Row => 0,
        LineType::Column => 1,
    }
}

/// The deterministic total order on lines: by index, then rows before
/// columns.
pub open spec fn line_le(a: LineInfo, b: LineInfo) -> bool {
    a.index < b.index || (a.index == b.index && linetype_rank(a.linetype) <= linetype_rank(
        b.linetype,
    ))
}

/// Completely solving has only two outcomes: a successful solve, or the
/// discovery of a contradiction.
#[derive(Copy, Clone, Debug, PartialEq, Eq, Structural)]
pub enum SolveResult {
    Success,
    Contradiction,
}

/// One recorded cell change.
#[derive(Copy, Clone, PartialEq, Eq, Hash, Debug, Structural)]
pub struct Change {
    pub previous_value: Cell,
    pub col: Unit,
    pub row: Unit,
}

/// A set of changes that have been made.
pub struct ChangeSet {
    pub changes: Vec<Change>,
}

/// Running counts of undetermined cells: per row, per column, and overall.
pub struct BoardMeta {
    pub num_unsolved: usize,
    pub unsolved_per_row: Vec<usize>,
    pub unsolved_per_column: Vec<usize>,
}

/// The meta counters agree with the board: each per-line counter counts the
/// undetermined cells of its line, and the total counts the whole grid.
pub open spec fn meta_matches(b: Board, m: BoardMeta) -> bool {
    &&& m.unsolved_per_row@.len() == b.spec_height()
    &&& m.unsolved_per_column@.len() == b.spec_width()
    &&& forall|r: int|
        0 <= r < b.spec_height() ==> #[trigger] m.unsolved_per_row@[r] == count_unknown(
            b.spec_row(r),
        )
    &&& forall|c: int|
        0 <= c < b.spec_width() ==> #[trigger] m.unsolved_per_column@[c] == count_unknown(
            b.spec_col(c),
        )
    &&& m.num_unsolved == count_unknown(b.spec_cells())
}

impl BoardMeta {
    /// Count one cell of the given column and row as determined.
    pub fn solve(&mut self, col: Unit, row: Unit)
        requires
            old(self).num_unsolved >= 1,
            row < old(self).unsolved_per_row@.len(),
            col < old(self).unsolved_per_column@.len(),
            old(self).unsolved_per_row@[row as int] >= 1,
            old(self).unsolved_per_column@[col as int] >= 1,
        ensures
            final(self).num_unsolved == old(self).num_unsolved - 1,
            final(self).unsolved_per_row@ == old(self).unsolved_per_row@.update(
                row as int,
                (old(self).unsolved_per_row@[row as int] - 1) as usize,
            ),
            final(self).unsolved_per_column@ == old(self).unsolved_per_column@.update(
                col as int,
                (old(self).unsolved_per_column@[col as int] - 1) as usize,
            ),
    {
        self.num_unsolved = self.num_unsolved - 1;
        let r = self.unsolved_per_row[row as usize];
        self.unsolved_per_row[row as usize] = r - 1;
        let c = self.unsolved_per_column[col as usize];
        self.unsolved_per_column[col as usize] = c - 1;
    }

    /// Count one cell of the given column and row as undetermined again.
    pub fn unsolve(&mut self, col: Unit, row: Unit)
        requires
            old(self).num_unsolved < usize::MAX,
            row < old(self).unsolved_per_row@.len(),
            col < old(self).unsolved_per_column@.len(),
            old(self).unsolved_per_row@[row as int] < usize::MAX,
            old(self).unsolved_per_column@[col as int] < usize::MAX,
        ensures
            final(self).num_unsolved == old(self).num_unsolved + 1,
            final(self).unsolved_per_row@ == old(self).unsolved_per_row@.update(
                row as int,
                (old(self).unsolved_per_row@[row as int] + 1) as usize,
            ),
            final(self).unsolved_per_column@ == old(self).unsolved_per_column@.update(
                col as int,
                (old(self).unsolved_per_column@[col as int] + 1) as usize,
            ),
    {
        self.num_unsolved = self.num_unsolved + 1;
        let r = self.unsolved_per_row[row as usize];
        self.unsolved_per_row[row as usize] = r + 1;
        let c = self.unsolved_per_column[col as usize];
        self.unsolved_per_column[col as usize] = c + 1;
    }

    /// Counters for a board of the given size with every cell undetermined.
    pub fn new(width: usize, height: usize) -> (r: BoardMeta)
        requires
            width * height <= usize::MAX,
        ensures
            r.num_unsolved == width * height,
            r.unsolved_per_row@.len() == height,
            r.unsolved_per_column@.len() == width,
            forall|i: int| 0 <= i < height ==> #[trigger] r.unsolved_per_row@[i] == width,
            forall|i: int| 0 <= i < width ==> #[trigger] r.unsolved_per_column@[i] == height,
    {
        BoardMeta {
            num_unsolved: width * height,
            unsolved_per_row: fill_counts(height, width),
            unsolved_per_column: fill_counts(width, height),
        }
    }

    /// Whether every cell of the given column is determined.
    pub fn is_column_solved(&self, index: usize) -> (r: bool)
        requires
            index < self.unsolved_per_column@.len(),
        ensures
            r == (self.unsolved_per_column@[index as int] == 0),
    {
        self.unsolved_per_column[index] == 0
    }

    /// Whether every cell of the given row is determined.
    pub fn is_row_solved(&self, index: usize) -> (r: bool)
        requires
            index < self.unsolved_per_row@.len(),
        ensures
            r == (self.unsolved_per_row@[index as int] == 0),
    {
        self.unsolved_per_row[index] == 0
    }
}

impl Clone for BoardMeta {
    /// A value copy of all three counters.
    fn clone(&self) -> (r: BoardMeta)
        ensures
            r.num_unsolved == self.num_unsolved,
            r.unsolved_per_row@ == self.unsolved_per_row@,
            r.unsolved_per_column@ == self.unsolved_per_column@,
    {
        BoardMeta {
            num_unsolved: self.num_unsolved,
            unsolved_per_row: copy_usizes(&self.unsolved_per_row),
            unsolved_per_column: copy_usizes(&self.unsolved_per_column),
        }
    }
}

fn copy_usizes(v: &Vec<usize>) -> (r: Vec<usize>)
    ensures
        r@ == v@,
{
    let mut out: Vec<usize> = Vec::new();
    let n = v.len();
    let mut k: usize = 0;
    while k < n
        invariant
            k <= n,
            n == v@.len(),
            out@ == v@.take(k as int),
        decreases n - k,
    {
        out.push(v[k]);
        proof {
            assert(out@ == v@.take(k + 1 as int));
        }
        k = k + 1;
    }
    proof {
        assert(v@.take(n as int) == v@);
    }
    out
}

fn fill_counts(n: usize, value: usize) -> (r: Vec<usize>)
    ensures
        r@.len() == n,
        forall|i: int| 0 <= i < n ==> #[trigger] r@[i] == value,
{
    let mut v: Vec<usize> = Vec::new();
    let mut k: usize = 0;
    while k < n
        invariant
            k <= n,
            v@.len() == k,
            forall|i: int| 0 <= i < k ==> #[trigger] v@[i] == value,
        decreases n - k,
    {
        v.push(value);
        k = k + 1;
    }
    v
}

/// A priority-ordered set of lines pending re-solving.  Keys are unique;
/// re-inserting an existing key bumps its priority instead of duplicating it.
pub struct PrioritySet {
    pub elements: Vec<(LineInfo, u32)>,
}

/// With unique keys, the priority a set records for a key is the one stored
/// beside it.
proof fn lemma_priority_at(q: PrioritySet, t: int)
    requires
        q.wf(),
        0 <= t < q@.len(),
    ensures
        q.spec_contains(q@[t].0),
        q.spec_priority(q@[t].0) == q@[t].1,
{
    let k = q@[t].0;
    assert(q.spec_contains(k));
    let t2 = choose|t2: int| 0 <= t2 < q@.len() && (#[trigger] q@[t2]).0 == k;
    if t2 != t {
        if t2 < t {
            assert(q@[t2].0 != q@[t].0);
        } else {
            assert(q@[t].0 != q@[t2].0);
        }
    }
}

/// The line order compares every two lines.
proof fn lemma_line_le_total(a: LineInfo, b: LineInfo)
    ensures
        line_le(a, b) || line_le(b, a),
{
}

impl PrioritySet {
    /// The recorded entries.
    pub open spec fn view(&self) -> Seq<(LineInfo, u32)> {
        self.elements@
    }

    /// Whether a line stands in the set.
    pub open spec fn spec_contains(&self, key: LineInfo) -> bool {
        exists|t: int| 0 <= t < self@.len() && (#[trigger] self@[t]).0 == key
    }

    /// Every line stands in the set at most once.
    pub open spec fn wf(&self) -> bool {
        forall|t1: int, t2: int|
            0 <= t1 < t2 < self@.len() ==> (#[trigger] self@[t1]).0 != (#[trigger] self@[t2]).0
    }

    /// The priority recorded for a line that stands in the set.
    pub open spec fn spec_priority(&self, key: LineInfo) -> u32 {
        self@[choose|t: int| 0 <= t < self@.len() && (#[trigger] self@[t]).0 == key].1
    }

    pub fn new() -> (r: PrioritySet)
        ensures
            r.wf(),
            r@.len() == 0,
    {
        PrioritySet { elements: Vec::new() }
    }

    /// The number of lines in the set.
    pub fn len(&self) -> (r: usize)
        ensures
            r == self@.len(),
    {
        self.elements.len()
    }

    fn find(&self, value: LineInfo) -> (r: Option<usize>)
        ensures
            match r {
                Some(t) => t < self@.len() && self@[t as int].0 == value,
                None => !self.spec_contains(value),
            },
    {
        let n = self.elements.len();
        let mut t: usize = 0;
        while t < n
            invariant
                t <= n,
                n == self@.len(),
                forall|t2: int| 0 <= t2 < t ==> (#[trigger] self@[t2]).0 != value,
            decreases n - t,
        {
            let entry = self.elements[t];
            if entry.0.index == value.index && entry.0.linetype == value.linetype {
                return Some(t);
            }
            t = t + 1;
        }
        None
    }

    /// Insert a line, bumping its priority by one if it already stands in the
    /// set (saturating at the priority type's maximum).
    pub fn insert(&mut self, value: LineInfo)
        requires
            old(self).wf(),
        ensures
            final(self).wf(),
            final(self).spec_contains(value),
            old(self)@.len() <= final(self)@.len() <= old(self)@.len() + 1,
            forall|k: LineInfo| old(self).spec_contains(k) ==> final(self).spec_contains(k),
            forall|k: LineInfo|
                final(self).spec_contains(k) ==> (old(self).spec_contains(k) || k == value),
            old(self).spec_contains(value) ==> final(self)@.len() == old(self)@.len()
                && final(self).spec_priority(value) == (if old(self).spec_priority(value)
                < u32::MAX {
                (old(self).spec_priority(value) + 1) as u32
            } else {
                u32::MAX
            }),
            !old(self).spec_contains(value) ==> final(self)@.len() == old(self)@.len() + 1
                && final(self).spec_priority(value) == 1,
            forall|k: LineInfo|
                old(self).spec_contains(k) && k != value ==> final(self).spec_priority(k) == old(
                    self,
                ).spec_priority(k),
    {
        match self.find(value) {
            Some(t) => {
                let entry = self.elements[t];
                let bumped: u32 = if entry.1 < u32::MAX {
                    entry.1 + 1
                } else {
                    entry.1
                };
                self.elements[t] = (entry.0, bumped);
                proof {
                    assert(self@[t as int].0 == value);
                    assert forall|k: LineInfo| old(self).spec_contains(k) implies self.spec_contains(
                        k,
                    ) by {
                        let t2 = choose|t2: int|
                            0 <= t2 < old(self)@.len() && (#[trigger] old(self)@[t2]).0 == k;
                        assert(self@[t2].0 == k);
                    }
                    assert forall|k: LineInfo| self.spec_contains(k) implies (old(
                        self,
                    ).spec_contains(k) || k == value) by {
                        let t2 = choose|t2: int|
                            0 <= t2 < self@.len() && (#[trigger] self@[t2]).0 == k;
                        if t2 != t {
                            assert(old(self)@[t2].0 == k);
                        }
                    }
                    lemma_priority_at(*old(self), t as int);
                    lemma_priority_at(*self, t as int);
                    assert forall|k: LineInfo|
                        old(self).spec_contains(k) && k != value implies self.spec_priority(k)
                        == old(self).spec_priority(k) by {
                        let t2 = choose|t2: int|
                            0 <= t2 < old(self)@.len() && (#[trigger] old(self)@[t2]).0 == k;
                        assert(t2 != t);
                        assert(self@[t2] == old(self)@[t2]);
                        lemma_priority_at(*old(self), t2);
                        lemma_priority_at(*self, t2);
                    }
                }
            },
            None => {
                self.elements.push((value, 1));
                proof {
                    assert(self@[self@.len() - 1].0 == value);
                    assert forall|k: LineInfo| old(self).spec_contains(k) implies self.spec_contains(
                        k,
                    ) by {
                        let t2 = choose|t2: int|
                            0 <= t2 < old(self)@.len() && (#[trigger] old(self)@[t2]).0 == k;
                        assert(self@[t2].0 == k);
                    }
                    assert forall|k: LineInfo| self.spec_contains(k) implies (old(
                        self,
                    ).spec_contains(k) || k == value) by {
                        let t2 = choose|t2: int|
                            0 <= t2 < self@.len() && (#[trigger] self@[t2]).0 == k;
                        if t2 < old(self)@.len() {
                            assert(old(self)@[t2].0 == k);
                        }
                    }
                    lemma_priority_at(*self, self@.len() - 1);
                    assert forall|k: LineInfo|
                        old(self).spec_contains(k) && k != value implies self.spec_priority(k)
                        == old(self).spec_priority(k) by {
                        let t2 = choose|t2: int|
                            0 <= t2 < old(self)@.len() && (#[trigger] old(self)@[t2]).0 == k;
                        assert(self@[t2] == old(self)@[t2]);
                        lemma_priority_at(*old(self), t2);
                        lemma_priority_at(*self, t2);
                    }
                }
            },
        }
    }

    /// Insert a line with the given priority, overwriting the priority it may
    /// already have.
    pub fn insert_with_priority(&mut self, value: LineInfo, p: u32)
        requires
            old(self).wf(),
        ensures
            final(self).wf(),
            final(self).spec_contains(value),
            old(self)@.len() <= final(self)@.len() <= old(self)@.len() + 1,
            forall|k: LineInfo| old(self).spec_contains(k) ==> final(self).spec_contains(k),
            forall|k: LineInfo|
                final(self).spec_contains(k) ==> (old(self).spec_contains(k) || k == value),
            final(self).spec_priority(value) == p,
            old(self).spec_contains(value) ==> final(self)@.len() == old(self)@.len(),
            !old(self).spec_contains(value) ==> final(self)@.len() == old(self)@.len() + 1,
            forall|k: LineInfo|
                old(self).spec_contains(k) && k != value ==> final(self).spec_priority(k) == old(
                    self,
                ).spec_priority(k),
    {
        match self.find(value) {
            Some(t) => {
                let entry = self.elements[t];
                self.elements[t] = (entry.0, p);
                proof {
                    assert(self@[t as int].0 == value);
                    assert forall|k: LineInfo| old(self).spec_contains(k) implies self.spec_contains(
                        k,
                    ) by {
                        let t2 = choose|t2: int|
                            0 <= t2 < old(self)@.len() && (#[trigger] old(self)@[t2]).0 == k;
                        assert(self@[t2].0 == k);
                    }
                    assert forall|k: LineInfo| self.spec_contains(k) implies (old(
                        self,
                    ).spec_contains(k) || k == value) by {
                        let t2 = choose|t2: int|
                            0 <= t2 < self@.len() && (#[trigger] self@[t2]).0 == k;
                        if t2 != t {
                            assert(old(self)@[t2].0 == k);
                        }
                    }
                    lemma_priority_at(*self, t as int);
                    assert forall|k: LineInfo|
                        old(self).spec_contains(k) && k != value implies self.spec_priority(k)
                        == old(self).spec_priority(k) by {
                        let t2 = choose|t2: int|
                            0 <= t2 < old(self)@.len() && (#[trigger] old(self)@[t2]).0 == k;
                        assert(t2 != t);
                        assert(self@[t2] == old(self)@[t2]);
                        lemma_priority_at(*old(self), t2);
                        lemma_priority_at(*self, t2);
                    }
                }
            },
            None => {
                self.elements.push((value, p));
                proof {
                    assert(self@[self@.len() - 1].0 == value);
                    assert forall|k: LineInfo| old(self).spec_contains(k) implies self.spec_contains(
                        k,
                    ) by {
                        let t2 = choose|t2: int|
                            0 <= t2 < old(self)@.len() && (#[trigger] old(self)@[t2]).0 == k;
                        assert(self@[t2].0 == k);
                    }
                    assert forall|k: LineInfo| self.spec_contains(k) implies (old(
                        self,
                    ).spec_contains(k) || k == value) by {
                        let t2 = choose|t2: int|
                            0 <= t2 < self@.len() && (#[trigger] self@[t2]).0 == k;
                        if t2 < old(self)@.len() {
                            assert(old(self)@[t2].0 == k);
                        }
                    }
                    lemma_priority_at(*self, self@.len() - 1);
                    assert forall|k: LineInfo|
                        old(self).spec_contains(k) && k != value implies self.spec_priority(k)
                        == old(self).spec_priority(k) by {
                        let t2 = choose|t2: int|
                            0 <= t2 < old(self)@.len() && (#[trigger] old(self)@[t2]).0 == k;
                        assert(self@[t2] == old(self)@[t2]);
                        lemma_priority_at(*old(self), t2);
                        lemma_priority_at(*self, t2);
                    }
                }
            },
        }
    }

    /// Remove and return the line with the highest priority; ties go to the
    /// line latest in the deterministic line order.
    pub fn pop(&mut self) -> (r: Option<LineInfo>)
        requires
            old(self).wf(),
        ensures
            final(self).wf(),
            match r {
                None => old(self)@.len() == 0 && final(self)@ == old(self)@,
                Some(x) => {
                    &&& old(self)@.len() >= 1
                    &&& final(self)@.len() == old(self)@.len() - 1
                    &&& old(self).spec_contains(x)
                    &&& !final(self).spec_contains(x)
                    &&& forall|k: LineInfo|
                        final(self).spec_contains(k) ==> old(self).spec_contains(k)
                    &&& forall|k: LineInfo|
                        old(self).spec_contains(k) && k != x ==> final(self).spec_contains(k)
                    &&& forall|k: LineInfo|
                        old(self).spec_contains(k) && k != x ==> (old(self).spec_priority(k) < old(
                            self,
                        ).spec_priority(x) || (old(self).spec_priority(k) == old(
                            self,
                        ).spec_priority(x) && line_le(k, x)))
                    &&& forall|k: LineInfo|
                        final(self).spec_contains(k) ==> final(self).spec_priority(k) == old(
                            self,
                        ).spec_priority(k)
                },
            },
    {
        let n = self.elements.len();
        if n == 0 {
            return None;
        }
        let mut best: usize = 0;
        let mut t: usize = 1;
        while t < n
            invariant
                1 <= t <= n,
                n == self@.len(),
                best < t,
                forall|t2: int|
                    0 <= t2 < t ==> ((#[trigger] self@[t2]).1 < self@[best as int].1 || (
                    self@[t2].1 == self@[best as int].1 && line_le(
                        self@[t2].0,
                        self@[best as int].0,
                    ))),
            decreases n - t,
        {
            let cur = self.elements[t];
            let b = self.elements[best];
            let better = if cur.1 != b.1 {
                cur.1 > b.1
            } else {
                // Later in the line order wins the tie.
                !(cur.0.index < b.0.index || (cur.0.index == b.0.index && linetype_rank_exec(
                    cur.0.linetype,
                ) <= linetype_rank_exec(b.0.linetype)))
            };
            let ghost old_best = best as int;
            if better {
                best = t;
            }
            proof {
                assert forall|t2: int|
                    0 <= t2 < t + 1 implies ((#[trigger] self@[t2]).1 < self@[best as int].1 || (
                self@[t2].1 == self@[best as int].1 && line_le(
                    self@[t2].0,
                    self@[best as int].0,
                ))) by {
                    lemma_line_le_total(self@[t2].0, self@[best as int].0);
                    lemma_line_le_total(cur.0, b.0);
                }
            }
            t = t + 1;
        }
        let entry = self.elements.remove(best);
        proof {
            let bi = best as int;
            assert(old(self)@[bi].0 == entry.0);
            lemma_priority_at(*old(self), bi);
            assert forall|k: LineInfo|
                old(self).spec_contains(k) && k != entry.0 implies (old(self).spec_priority(k)
                < old(self).spec_priority(entry.0) || (old(self).spec_priority(k) == old(
                self,
            ).spec_priority(entry.0) && line_le(k, entry.0))) by {
                let t2 = choose|t2: int|
                    0 <= t2 < old(self)@.len() && (#[trigger] old(self)@[t2]).0 == k;
                lemma_priority_at(*old(self), t2);
            }
            assert forall|t1: int, t2: int|
                0 <= t1 < t2 < self@.len() implies (#[trigger] self@[t1]).0 != (
            #[trigger] self@[t2]).0 by {
                let o1: int = if t1 < bi {
                    t1
                } else {
                    t1 + 1
                };
                let o2: int = if t2 < bi {
                    t2
                } else {
                    t2 + 1
                };
                assert(self@[t1] == old(self)@[o1] && self@[t2] == old(self)@[o2]);
            }
            assert(!self.spec_contains(entry.0)) by {
                if self.spec_contains(entry.0) {
                    let t2 = choose|t2: int|
                        0 <= t2 < self@.len() && (#[trigger] self@[t2]).0 == entry.0;
                    let o2: int = if t2 < bi {
                        t2
                    } else {
                        t2 + 1
                    };
                    assert(old(self)@[o2].0 == entry.0);
                }
            }
            assert forall|k: LineInfo| self.spec_contains(k) implies old(self).spec_contains(k)
                && self.spec_priority(k) == old(self).spec_priority(k) by {
                let t2 = choose|t2: int| 0 <= t2 < self@.len() && (#[trigger] self@[t2]).0 == k;
                let o2: int = if t2 < bi {
                    t2
                } else {
                    t2 + 1
                };
                assert(self@[t2] == old(self)@[o2]);
                lemma_priority_at(*old(self), o2);
                lemma_priority_at(*self, t2);
            }
            assert forall|k: LineInfo|
                old(self).spec_contains(k) && k != entry.0 implies self.spec_contains(k) by {
                let o2 = choose|o2: int|
                    0 <= o2 < old(self)@.len() && (#[trigger] old(self)@[o2]).0 == k;
                let t2: int = if o2 < bi {
                    o2
                } else {
                    o2 - 1
                };
                assert(self@[t2].0 == k);
            }
        }
        Some(entry.0)
    }
}

impl Clone for PrioritySet {
    /// A value copy of the whole set.
    fn clone(&self) -> (r: PrioritySet)
        ensures
            r@ == self@,
    {
        let mut out: Vec<(LineInfo, u32)> = Vec::new();
        let n = self.elements.len();
        let mut k: usize = 0;
        while k < n
            invariant
                k <= n,
                n == self.elements@.len(),
                out@ == self.elements@.take(k as int),
            decreases n - k,
        {
            out.push(self.elements[k]);
            proof {
                assert(out@ == self.elements@.take(k + 1 as int));
            }
            k = k + 1;
        }
        proof {
            assert(self.elements@.take(n as int) == self.elements@);
        }
        PrioritySet { elements: out }
    }
}

fn linetype_rank_exec(t: LineType) -> (r: u8)
    ensures
        r as int == linetype_rank(t),
{
    match t {
        LineType::Row => 0,
        LineType::Column => 1,
    }
}

// ---------------------------------------------------------------------------
// Whole-board notions: what a solved board is, what it means for one board to
// refine another, and what a solution of a puzzle is.
// ---------------------------------------------------------------------------

/// Every cell determined and every line's contents satisfiable — for a
/// complete line, that is: its runs match its constraint list.
pub open spec fn board_solved(b: Board) -> bool {
    &&& forall|r: int|
        0 <= r < b.spec_height() ==> complete(#[trigger] b.spec_row(r)) && feasible(
            b.spec_row(r),
            b.spec_row_constraints(r),
        )
    &&& forall|c: int|
        0 <= c < b.spec_width() ==> complete(#[trigger] b.spec_col(c)) && feasible(
            b.spec_col(c),
            b.spec_col_constraints(c),
        )
}

/// Two boards pose the same puzzle: equal dimensions and constraint lists.
pub open spec fn same_puzzle(b1: Board, b2: Board) -> bool {
    &&& b2.spec_width() == b1.spec_width()
    &&& b2.spec_height() == b1.spec_height()
    &&& forall|r: int|
        0 <= r < b1.spec_height() ==> #[trigger] b2.spec_row_constraints(r)
            == b1.spec_row_constraints(r)
    &&& forall|c: int|
        0 <= c < b1.spec_width() ==> #[trigger] b2.spec_col_constraints(c)
            == b1.spec_col_constraints(c)
}

/// `b2` answers the same puzzle as `b1` and keeps every cell `b1` has
/// determined.
pub open spec fn board_refines(b1: Board, b2: Board) -> bool {
    &&& same_puzzle(b1, b2)
    &&& refines(b1.spec_cells(), b2.spec_cells())
}

/// `s` is a solution of the puzzle in the state `b`: a solved board that
/// keeps every cell `b` has determined.
pub open spec fn solution_of(b: Board, s: Board) -> bool {
    &&& s.wf()
    &&& board_refines(b, s)
    &&& board_solved(s)
}

/// Every already complete line of the board still satisfies its constraints.
/// The driver maintains this; on success it makes the whole board satisfy it.
pub open spec fn complete_lines_ok(b: Board) -> bool {
    &&& forall|r: int|
        0 <= r < b.spec_height() && complete(#[trigger] b.spec_row(r)) ==> feasible(
            b.spec_row(r),
            b.spec_row_constraints(r),
        )
    &&& forall|c: int|
        0 <= c < b.spec_width() && complete(#[trigger] b.spec_col(c)) ==> feasible(
            b.spec_col(c),
            b.spec_col_constraints(c),
        )
}

/// Writing one cell rewrites exactly one row and one column of the board,
/// each in exactly one position.
proof fn lemma_set_cell_effect(b1: Board, b2: Board, col: int, row: int, v: Cell)
    requires
        b2.spec_width() == b1.spec_width(),
        b2.spec_height() == b1.spec_height(),
        0 <= col < b1.spec_width(),
        0 <= row < b1.spec_height(),
        b2.spec_cell(col, row) == v,
        forall|c: int, r: int|
            0 <= c < b1.spec_width() && 0 <= r < b1.spec_height() && !(c == col && r == row)
                ==> #[trigger] b2.spec_cell(c, r) == b1.spec_cell(c, r),
    ensures
        b2.spec_row(row) == b1.spec_row(row).update(col, v),
        forall|r: int|
            0 <= r < b1.spec_height() && r != row ==> #[trigger] b2.spec_row(r) == b1.spec_row(r),
        b2.spec_col(col) == b1.spec_col(col).update(row, v),
        forall|c: int|
            0 <= c < b1.spec_width() && c != col ==> #[trigger] b2.spec_col(c) == b1.spec_col(c),
{
    assert(b2.spec_row(row) =~= b1.spec_row(row).update(col, v));
    assert forall|r: int|
        0 <= r < b1.spec_height() && r != row implies #[trigger] b2.spec_row(r) == b1.spec_row(
        r,
    ) by {
        assert(b2.spec_row(r) =~= b1.spec_row(r));
    }
    assert(b2.spec_col(col) =~= b1.spec_col(col).update(row, v));
    assert forall|c: int|
        0 <= c < b1.spec_width() && c != col implies #[trigger] b2.spec_col(c) == b1.spec_col(
        c,
    ) by {
        assert(b2.spec_col(c) =~= b1.spec_col(c));
    }
}

/// A cell-by-cell refinement of a board is a refinement of its flat grid.
proof fn lemma_cells_refines_pointwise(b1: Board, b2: Board)
    requires
        b1.wf(),
        b2.wf(),
        b2.spec_width() == b1.spec_width(),
        b2.spec_height() == b1.spec_height(),
        forall|c: int, r: int|
            0 <= c < b1.spec_width() && 0 <= r < b1.spec_height() && #[trigger] b1.spec_cell(c, r)
                != Cell::Unknown ==> b2.spec_cell(c, r) == b1.spec_cell(c, r),
    ensures
        refines(b1.spec_cells(), b2.spec_cells()),
{
    let w = b1.spec_width();
    let h = b1.spec_height();
    b1.lemma_cells_len();
    b2.lemma_cells_len();
    assert forall|q: int|
        0 <= q < b1.spec_cells().len() && b1.spec_cells()[q] != Cell::Unknown
            implies #[trigger] b2.spec_cells()[q] == b1.spec_cells()[q] by {
        let cc = q % w;
        let rr = q / w;
        assert(w > 0 && h > 0) by (nonlinear_arith)
            requires
                0 <= w,
                0 <= h,
                0 < w * h,
        ;
        assert(q == cc + rr * w && 0 <= cc < w && 0 <= rr < h) by (nonlinear_arith)
            requires
                w > 0,
                0 <= q < w * h,
                cc == q % w,
                rr == q / w,
        ;
        b1.lemma_cell_index(cc, rr);
        b2.lemma_cell_index(cc, rr);
    }
}

/// A refinement of a board's flat grid refines it cell by cell.
proof fn lemma_cells_refines_to_pointwise(b1: Board, b2: Board)
    requires
        b1.wf(),
        b2.wf(),
        b2.spec_width() == b1.spec_width(),
        b2.spec_height() == b1.spec_height(),
        refines(b1.spec_cells(), b2.spec_cells()),
    ensures
        forall|c: int, r: int|
            0 <= c < b1.spec_width() && 0 <= r < b1.spec_height() && #[trigger] b1.spec_cell(c, r)
                != Cell::Unknown ==> b2.spec_cell(c, r) == b1.spec_cell(c, r),
{
    assert forall|c: int, r: int|
        0 <= c < b1.spec_width() && 0 <= r < b1.spec_height() && #[trigger] b1.spec_cell(c, r)
            != Cell::Unknown implies b2.spec_cell(c, r) == b1.spec_cell(c, r) by {
        b1.lemma_cell_index(c, r);
        b2.lemma_cell_index(c, r);
    }
}

/// Cell `c` stands among the first `t` entries of the change list.
pub open spec fn in_prefix(v: Seq<Unit>, t: int, c: int) -> bool {
    exists|u: int| 0 <= u < t && (#[trigger] v[u]) == c
}

/// A board refinement refines every row and every column.
proof fn lemma_board_refines_lines(b1: Board, b2: Board)
    requires
        b1.wf(),
        b2.wf(),
        b2.spec_width() == b1.spec_width(),
        b2.spec_height() == b1.spec_height(),
        refines(b1.spec_cells(), b2.spec_cells()),
    ensures
        forall|r: int|
            0 <= r < b1.spec_height() ==> refines(#[trigger] b1.spec_row(r), b2.spec_row(r)),
        forall|c: int|
            0 <= c < b1.spec_width() ==> refines(#[trigger] b1.spec_col(c), b2.spec_col(c)),
{
    assert forall|r: int|
        0 <= r < b1.spec_height() implies refines(#[trigger] b1.spec_row(r), b2.spec_row(r)) by {
        assert forall|c: int|
            0 <= c < b1.spec_row(r).len() && b1.spec_row(r)[c] != Cell::Unknown implies #[trigger] b2.spec_row(
            r,
        )[c] == b1.spec_row(r)[c] by {
            b1.lemma_cell_index(c, r);
            b2.lemma_cell_index(c, r);
        }
    }
    assert forall|c: int|
        0 <= c < b1.spec_width() implies refines(#[trigger] b1.spec_col(c), b2.spec_col(c)) by {
        assert forall|r: int|
            0 <= r < b1.spec_col(c).len() && b1.spec_col(c)[r] != Cell::Unknown implies #[trigger] b2.spec_col(
            c,
        )[r] == b1.spec_col(c)[r] by {
            b1.lemma_cell_index(c, r);
            b2.lemma_cell_index(c, r);
        }
    }
}

/// A board with no undetermined cell has every row and column complete.
proof fn lemma_board_complete(b: Board)
    requires
        b.wf(),
        count_unknown(b.spec_cells()) == 0,
    ensures
        forall|r: int| 0 <= r < b.spec_height() ==> complete(#[trigger] b.spec_row(r)),
        forall|c: int| 0 <= c < b.spec_width() ==> complete(#[trigger] b.spec_col(c)),
{
    lemma_count_unknown_zero(b.spec_cells());
    assert forall|r: int| 0 <= r < b.spec_height() implies complete(#[trigger] b.spec_row(r)) by {
        assert forall|c: int| 0 <= c < b.spec_row(r).len() implies #[trigger] b.spec_row(r)[c]
            != Cell::Unknown by {
            b.lemma_cell_index(c, r);
            assert(b.spec_row(r)[c] == b.spec_cell(c, r));
            assert(b.spec_cells()[c + r * b.spec_width()] != Cell::Unknown);
        }
    }
    assert forall|c: int| 0 <= c < b.spec_width() implies complete(#[trigger] b.spec_col(c)) by {
        assert forall|r: int| 0 <= r < b.spec_col(c).len() implies #[trigger] b.spec_col(c)[r]
            != Cell::Unknown by {
            b.lemma_cell_index(c, r);
            assert(b.spec_col(c)[r] == b.spec_cell(c, r));
            assert(b.spec_cells()[c + r * b.spec_width()] != Cell::Unknown);
        }
    }
}

/// What stays fixed through one row solve: the starting board, the row's old
/// and deduced contents, its constraints, and the ordered change list.
spec fn row_solve_ctx(
    b0: Board,
    idx: int,
    old_row: Seq<Cell>,
    new_row: Seq<Cell>,
    csv: Seq<Constraint>,
    v: Seq<Unit>,
) -> bool {
    &&& b0.wf()
    &&& 0 <= idx < b0.spec_height()
    &&& old_row == b0.spec_row(idx)
    &&& csv == b0.spec_row_constraints(idx)
    &&& old_row.len() == b0.spec_width()
    &&& new_row.len() == b0.spec_width()
    &&& solved_line(old_row, new_row, csv)
    &&& reported_changes(old_row, new_row, v)
    &&& forall|u: int| 0 <= u < v.len() ==> (#[trigger] v[u]) < b0.spec_width()
    &&& forall|u: int| 0 < u < v.len() ==> v[u - 1] < #[trigger] v[u]
}

/// The board after the first `t` changes of one row solve are written: the
/// row carries the deduced values on the written prefix, every other line is
/// as it was, and the whole board refines the starting one.
spec fn row_step_state(
    b0: Board,
    b: Board,
    idx: int,
    old_row: Seq<Cell>,
    new_row: Seq<Cell>,
    v: Seq<Unit>,
    t: int,
) -> bool {
    &&& b.wf()
    &&& same_puzzle(b0, b)
    &&& b.spec_width() == b0.spec_width()
    &&& b.spec_height() == b0.spec_height()
    &&& forall|c: int|
        0 <= c < b0.spec_width() ==> #[trigger] b.spec_cell(c, idx) == (if in_prefix(v, t, c) {
            new_row[c]
        } else {
            old_row[c]
        })
    &&& forall|r: int|
        0 <= r < b0.spec_height() && r != idx ==> #[trigger] b.spec_row(r) == b0.spec_row(r)
    &&& forall|c: int|
        0 <= c < b0.spec_width() && !in_prefix(v, t, c) ==> #[trigger] b.spec_col(c)
            == b0.spec_col(c)
    &&& forall|c: int|
        0 <= c < b0.spec_width() && in_prefix(v, t, c) ==> #[trigger] b.spec_col(c) == b0.spec_col(
            c,
        ).update(idx, new_row[c])
    &&& refines(b0.spec_cells(), b.spec_cells())
}

/// In a strictly increasing list, earlier entries are smaller.
proof fn lemma_sorted_lt(v: Seq<Unit>, u: int, t: int)
    requires
        forall|u2: int| 0 < u2 < v.len() ==> v[u2 - 1] < #[trigger] v[u2],
        0 <= u < t < v.len(),
    ensures
        v[u] < v[t],
    decreases t - u,
{
    if u < t - 1 {
        lemma_sorted_lt(v, u, t - 1);
    }
}

/// Writing change `t` takes the board from the `t`-prefix state to the
/// `t + 1`-prefix state.
#[verifier::rlimit(100)]
proof fn lemma_row_write_step(
    b0: Board,
    bprev: Board,
    b: Board,
    idx: int,
    old_row: Seq<Cell>,
    new_row: Seq<Cell>,
    csv: Seq<Constraint>,
    v: Seq<Unit>,
    t: int,
)
    requires
        row_solve_ctx(b0, idx, old_row, new_row, csv, v),
        row_step_state(b0, bprev, idx, old_row, new_row, v, t),
        0 <= t < v.len(),
        b.wf(),
        same_puzzle(bprev, b),
        b.spec_width() == bprev.spec_width(),
        b.spec_height() == bprev.spec_height(),
        b.spec_cell(v[t] as int, idx) == new_row[v[t] as int],
        forall|c: int, r: int|
            0 <= c < b0.spec_width() && 0 <= r < b0.spec_height() && !(c == v[t] as int && r
                == idx) ==> #[trigger] b.spec_cell(c, r) == bprev.spec_cell(c, r),
    ensures
        row_step_state(b0, b, idx, old_row, new_row, v, t + 1),
{
    let w = b0.spec_width();
    let x = v[t] as int;
    lemma_set_cell_effect(bprev, b, x, idx, new_row[x]);
    assert(!in_prefix(v, t, x)) by {
        if in_prefix(v, t, x) {
            let u = choose|u: int| 0 <= u < t && (#[trigger] v[u]) == x;
            lemma_sorted_lt(v, u, t);
        }
    }
    assert forall|c: int| 0 <= c < w implies #[trigger] b.spec_cell(c, idx) == (if in_prefix(
        v,
        t + 1,
        c,
    ) {
        new_row[c]
    } else {
        old_row[c]
    }) by {
        if c == x {
            assert(v[t] == c);
            assert(in_prefix(v, t + 1, c));
        } else {
            assert(b.spec_cell(c, idx) == bprev.spec_cell(c, idx));
            if in_prefix(v, t + 1, c) {
                let u = choose|u: int| 0 <= u < t + 1 && (#[trigger] v[u]) == c;
                assert(u < t && in_prefix(v, t, c));
            }
        }
    }
    assert forall|r: int|
        0 <= r < b0.spec_height() && r != idx implies #[trigger] b.spec_row(r) == b0.spec_row(
        r,
    ) by {
        assert(b.spec_row(r) == bprev.spec_row(r));
    }
    assert forall|c: int|
        0 <= c < w && !in_prefix(v, t + 1, c) implies #[trigger] b.spec_col(c) == b0.spec_col(
        c,
    ) by {
        assert(!in_prefix(v, t, c));
        assert(c != x);
        assert(b.spec_col(c) == bprev.spec_col(c));
    }
    assert forall|c: int|
        0 <= c < w && in_prefix(v, t + 1, c) implies #[trigger] b.spec_col(c) == b0.spec_col(
        c,
    ).update(idx, new_row[c]) by {
        if c == x {
            assert(bprev.spec_col(c) == b0.spec_col(c));
            assert(b.spec_col(c) == bprev.spec_col(c).update(idx, new_row[c]));
        } else {
            let u = choose|u: int| 0 <= u < t + 1 && (#[trigger] v[u]) == c;
            assert(u < t && in_prefix(v, t, c));
            assert(b.spec_col(c) == bprev.spec_col(c));
        }
    }
    lemma_cells_refines_to_pointwise(b0, bprev);
    assert forall|c: int, r: int|
        0 <= c < w && 0 <= r < b0.spec_height() && #[trigger] b0.spec_cell(c, r) != Cell::Unknown
            implies b.spec_cell(c, r) == b0.spec_cell(c, r) by {
        if c == x && r == idx {
            assert(b0.spec_cell(c, r) == old_row[c]);
            lemma_solved_line_refines(old_row, new_row, csv);
        }
    }
    lemma_cells_refines_pointwise(b0, b);
}

/// Once every reported change of a row solve is written, the row holds
/// exactly the solver's output line: unreported cells never differed.
proof fn lemma_row_unwritten_cells(
    b0: Board,
    b: Board,
    idx: int,
    old_row: Seq<Cell>,
    new_row: Seq<Cell>,
    csv: Seq<Constraint>,
    v: Seq<Unit>,
)
    requires
        row_solve_ctx(b0, idx, old_row, new_row, csv, v),
        row_step_state(b0, b, idx, old_row, new_row, v, v.len() as int),
    ensures
        b.spec_row(idx) == new_row,
{
    let w = b0.spec_width();
    assert forall|c: int| 0 <= c < w implies b.spec_row(idx)[c] == new_row[c] by {
        assert(b.spec_row(idx)[c] == b.spec_cell(c, idx));
        if !in_prefix(v, v.len() as int, c) {
            assert(b.spec_cell(c, idx) == old_row[c]);
            assert(!v.contains(c as Unit)) by {
                if v.contains(c as Unit) {
                    let u = choose|u: int| 0 <= u < v.len() && (#[trigger] v[u]) == c as Unit;
                    assert(in_prefix(v, v.len() as int, c));
                }
            }
            if old_row[c] != Cell::Unknown {
                lemma_solved_line_refines(old_row, new_row, csv);
            }
        }
    }
    assert(b.spec_row(idx) =~= new_row);
}

/// At every stage of the writeback the board has exactly the solutions the
/// starting board has: what was written is forced, and what is forced cuts
/// off no solution.
proof fn lemma_row_step_solutions(
    b0: Board,
    b: Board,
    idx: int,
    old_row: Seq<Cell>,
    new_row: Seq<Cell>,
    csv: Seq<Constraint>,
    v: Seq<Unit>,
    t: int,
)
    requires
        row_solve_ctx(b0, idx, old_row, new_row, csv, v),
        row_step_state(b0, b, idx, old_row, new_row, v, t),
    ensures
        forall|s: Board| solution_of(b0, s) <==> solution_of(b, s),
{
    let w = b0.spec_width();
    assert forall|s: Board| solution_of(b0, s) implies solution_of(b, s) by {
        lemma_board_refines_lines(b0, s);
        lemma_solution_refines_solved(old_row, new_row, csv, s.spec_row(idx));
        lemma_cells_refines_to_pointwise(b0, s);
        assert forall|c: int, r: int|
            0 <= c < w && 0 <= r < b0.spec_height() && #[trigger] b.spec_cell(c, r)
                != Cell::Unknown implies s.spec_cell(c, r) == b.spec_cell(c, r) by {
            if r == idx {
                assert(s.spec_row(idx)[c] == s.spec_cell(c, r));
                if in_prefix(v, t, c) {
                    assert(b.spec_cell(c, r) == new_row[c]);
                } else {
                    assert(b.spec_cell(c, r) == old_row[c] && old_row[c] == b0.spec_cell(c, r));
                }
            } else {
                assert(b.spec_row(r)[c] == b0.spec_row(r)[c]);
            }
        }
        lemma_cells_refines_pointwise(b, s);
    }
    assert forall|s: Board| solution_of(b, s) implies solution_of(b0, s) by {
        assert forall|q: int|
            0 <= q < b0.spec_cells().len() && b0.spec_cells()[q] != Cell::Unknown
                implies #[trigger] s.spec_cells()[q] == b0.spec_cells()[q] by {
            assert(b.spec_cells()[q] == b0.spec_cells()[q]);
        }
    }
}

/// After writing change `t`, every complete line still satisfies its
/// constraints: the just-checked crossing column by that check, the row by
/// the line solver's own guarantee, and every other line because it did not
/// change.
#[verifier::rlimit(100)]
proof fn lemma_row_step_lines_ok(
    b0: Board,
    bprev: Board,
    b: Board,
    idx: int,
    old_row: Seq<Cell>,
    new_row: Seq<Cell>,
    csv: Seq<Constraint>,
    v: Seq<Unit>,
    t: int,
)
    requires
        row_solve_ctx(b0, idx, old_row, new_row, csv, v),
        row_step_state(b0, bprev, idx, old_row, new_row, v, t),
        row_step_state(b0, b, idx, old_row, new_row, v, t + 1),
        0 <= t < v.len(),
        complete_lines_ok(bprev),
        feasible(b.spec_col(v[t] as int), b0.spec_col_constraints(v[t] as int)),
    ensures
        complete_lines_ok(b),
{
    let w = b0.spec_width();
    let x = v[t] as int;
    assert forall|r: int|
        0 <= r < b.spec_height() && complete(#[trigger] b.spec_row(r)) implies feasible(
        b.spec_row(r),
        b.spec_row_constraints(r),
    ) by {
        if r == idx {
            // Complete means every deduced value is in and nothing else changed.
            assert(b.spec_row(r) =~= new_row) by {
                assert forall|c: int| 0 <= c < w implies b.spec_row(r)[c] == new_row[c] by {
                    assert(b.spec_row(r)[c] == b.spec_cell(c, idx));
                    if !in_prefix(v, t + 1, c) {
                        assert(b.spec_cell(c, idx) == old_row[c]);
                        assert(b.spec_row(r)[c] != Cell::Unknown);
                        lemma_solved_line_refines(old_row, new_row, csv);
                    }
                }
            }
            let ws = choose|starts: Seq<int>| consistent(old_row, csv, starts);
            lemma_solved_line_consistent(old_row, new_row, csv, ws);
            assert(consistent(new_row, csv, ws));
        } else {
            assert(b.spec_row(r) == b0.spec_row(r) && bprev.spec_row(r) == b0.spec_row(r));
        }
    }
    assert forall|c: int|
        0 <= c < b.spec_width() && complete(#[trigger] b.spec_col(c)) implies feasible(
        b.spec_col(c),
        b.spec_col_constraints(c),
    ) by {
        if c != x {
            assert(b.spec_col(c) == bprev.spec_col(c)) by {
                if in_prefix(v, t + 1, c) {
                    let u = choose|u: int| 0 <= u < t + 1 && (#[trigger] v[u]) == c;
                    assert(u < t && in_prefix(v, t, c));
                } else {
                    assert(!in_prefix(v, t, c));
                }
            }
        }
    }
}

/// Run the line solver on one row, write the deduced cells back to the
/// board, keep the meta counters in step, check every crossing column for
/// feasibility, and enqueue still-unsolved crossing columns.  Returns false
/// when a contradiction was found.
#[verifier::rlimit(100)]
fn solve_row_step(
    b: &mut Board,
    meta: &mut BoardMeta,
    to_solve: &mut PrioritySet,
    idx: Unit,
) -> (r: bool)
    requires
        old(b).wf(),
        meta_matches(*old(b), *old(meta)),
        complete_lines_ok(*old(b)),
        old(to_solve).wf(),
        idx < old(b).spec_height(),
    ensures
        final(b).wf(),
        same_puzzle(*old(b), *final(b)),
        refines(old(b).spec_cells(), final(b).spec_cells()),
        final(to_solve).wf(),
        meta_matches(*final(b), *final(meta)),
        final(meta).num_unsolved <= old(meta).num_unsolved,
        forall|s: Board| solution_of(*old(b), s) <==> solution_of(*final(b), s),
        r ==> complete_lines_ok(*final(b)),
        r ==> (final(meta).num_unsolved < old(meta).num_unsolved || (*final(b) == *old(b)
            && final(to_solve)@ == old(to_solve)@)),
        !r ==> forall|s: Board| !solution_of(*final(b), s),
        !r ==> some_line_infeasible(*final(b)),
        forall|k: LineInfo|
            final(to_solve).spec_contains(k) ==> old(to_solve).spec_contains(k) || (k.linetype
                == LineType::Column && k.index < old(b).spec_width()),
        forall|k: LineInfo| old(to_solve).spec_contains(k) ==> final(to_solve).spec_contains(k),
        forall|r2: int|
            0 <= r2 < old(b).spec_height() && r2 != idx ==> #[trigger] final(b).spec_row(r2)
                == old(b).spec_row(r2),
        r ==> line_fixpoint(
            final(b).spec_row(idx as int),
            old(b).spec_row_constraints(idx as int),
        ),
        r ==> forall|c: int|
            0 <= c < old(b).spec_width() ==> (#[trigger] final(b).spec_col(c) == old(b).spec_col(c)
                || final(to_solve).spec_contains(
                (LineInfo { index: c as Unit, linetype: LineType::Column }),
            ) || (complete(final(b).spec_col(c)) && feasible(
                final(b).spec_col(c),
                old(b).spec_col_constraints(c),
            ))),
{
    let ghost b0 = *b;
    let ghost csv = b0.spec_row_constraints(idx as int);
    let row_ref = b.get_row_ref(idx);
    let mut line = row_ref.create_standalone_line();
    let ghost old_row = line@;
    let res = line.try_solve_line_complete();
    let v = match res {
        None => {
            proof {
                // No placement fits this row, so no solution extends this board.
                assert forall|s: Board| !solution_of(*b, s) by {
                    if solution_of(*b, s) {
                        lemma_board_refines_lines(*b, s);
                        lemma_infeasible_no_solution(old_row, csv, s.spec_row(idx as int));
                    }
                }
                assert(!feasible(b.spec_row(idx as int), b.spec_row_constraints(idx as int)));
            }
            return false;
        },
        Some(v) => v,
    };
    let ghost new_row = line@;
    proof {
        assert(row_solve_ctx(b0, idx as int, old_row, new_row, csv, v@));
        assert(row_step_state(b0, *b, idx as int, old_row, new_row, v@, 0)) by {
            assert forall|c: int| 0 <= c < b0.spec_width() implies #[trigger] b.spec_cell(
                c,
                idx as int,
            ) == (if in_prefix(v@, 0, c) {
                new_row[c]
            } else {
                old_row[c]
            }) by {
                assert(!in_prefix(v@, 0, c));
            }
            assert(refines(b0.spec_cells(), b.spec_cells()));
        }
    }
    // Copy the deduced values out of the line carrier.
    let mut vals: Vec<Cell> = Vec::new();
    let n = v.len();
    if n == 0 {
        proof {
            lemma_row_unwritten_cells(b0, *b, idx as int, old_row, new_row, csv, v@);
            lemma_solved_line_fixpoint(old_row, new_row, csv);
        }
        return true;
    }
    let mut t: usize = 0;
    while t < n
        invariant
            t <= n,
            n == v@.len(),
            line@ == new_row,
            forall|u: int| 0 <= u < n ==> (#[trigger] v@[u]) < new_row.len(),
            vals@.len() == t,
            forall|u: int| 0 <= u < t ==> #[trigger] vals@[u] == new_row[v@[u] as int],
        decreases n - t,
    {
        vals.push(line.get_cell(v[t]));
        t = t + 1;
    }
    // Write the deduced cells back, one at a time.
    let ghost w = b0.spec_width();
    let mut t: usize = 0;
    while t < n
        invariant
            t <= n,
            n == v@.len(),
            vals@.len() == n,
            b0 == *old(b),
            idx < b0.spec_height(),
            w == b0.spec_width(),
            csv == b0.spec_row_constraints(idx as int),
            row_solve_ctx(b0, idx as int, old_row, new_row, csv, v@),
            row_step_state(b0, *b, idx as int, old_row, new_row, v@, t as int),
            forall|u: int| 0 <= u < n ==> #[trigger] vals@[u] == new_row[v@[u] as int],
            meta_matches(*b, *meta),
            meta.num_unsolved == old(meta).num_unsolved - t,
            complete_lines_ok(*b),
            to_solve.wf(),
            forall|k: LineInfo|
                to_solve.spec_contains(k) ==> old(to_solve).spec_contains(k) || (k.linetype
                    == LineType::Column && k.index < w),
            forall|k: LineInfo| old(to_solve).spec_contains(k) ==> to_solve.spec_contains(k),
            forall|c: int|
                0 <= c < w && in_prefix(v@, t as int, c) ==> (to_solve.spec_contains(
                    (LineInfo { index: c as Unit, linetype: LineType::Column }),
                ) || (complete(#[trigger] b.spec_col(c)) && feasible(
                    b.spec_col(c),
                    b0.spec_col_constraints(c),
                ))),
        decreases n - t,
    {
        let x = v[t];
        let value = vals[t];
        let ghost bprev = *b;
        proof {
            // This cell is still untouched and undetermined.
            assert(!in_prefix(v@, t as int, x as int)) by {
                if in_prefix(v@, t as int, x as int) {
                    let u = choose|u: int| 0 <= u < t && (#[trigger] v@[u]) == x as int;
                    lemma_sorted_lt(v@, u, t as int);
                }
            }
            assert(v@.contains(x)) by {
                assert(v@[t as int] == x);
            }
            assert(old_row[x as int] == Cell::Unknown && new_row[x as int] != Cell::Unknown);
            assert(b.spec_cell(x as int, idx as int) == Cell::Unknown);
        }
        b.set_cell(x, idx, value);
        proof {
            lemma_row_write_step(b0, bprev, *b, idx as int, old_row, new_row, csv, v@, t as int);
            lemma_row_step_solutions(b0, *b, idx as int, old_row, new_row, csv, v@, t + 1);
            // One undetermined cell became determined: all three counts drop.
            lemma_set_cell_effect(bprev, *b, x as int, idx as int, value);
            lemma_count_unknown_update(bprev.spec_row(idx as int), x as int, value);
            assert(bprev.spec_row(idx as int)[x as int] == Cell::Unknown);
            lemma_count_unknown_update(bprev.spec_col(x as int), idx as int, value);
            assert(bprev.spec_col(x as int)[idx as int] == Cell::Unknown);
            bprev.lemma_cell_index(x as int, idx as int);
            lemma_count_unknown_update(bprev.spec_cells(), x as int + (idx as int) * w, value);
            lemma_count_unknown_pos(bprev.spec_row(idx as int), x as int);
            lemma_count_unknown_pos(bprev.spec_col(x as int), idx as int);
            lemma_count_unknown_pos(bprev.spec_cells(), x as int + (idx as int) * w);
        }
        meta.solve(x, idx);
        let col_line = b.get_col_ref(x).create_standalone_line();
        if !col_line.is_solvable() {
            proof {
                // The crossing column can no longer be completed: no solution
                // extends this board.
                assert forall|s: Board| !solution_of(*b, s) by {
                    if solution_of(*b, s) {
                        lemma_board_refines_lines(*b, s);
                        lemma_infeasible_no_solution(
                            b.spec_col(x as int),
                            b0.spec_col_constraints(x as int),
                            s.spec_col(x as int),
                        );
                    }
                }
                lemma_row_step_solutions(b0, *b, idx as int, old_row, new_row, csv, v@, t + 1);
                assert(!feasible(b.spec_col(x as int), b.spec_col_constraints(x as int)));
            }
            return false;
        }
        proof {
            lemma_row_step_lines_ok(b0, bprev, *b, idx as int, old_row, new_row, csv, v@, t as int);
        }
        if !meta.is_column_solved(x as usize) {
            to_solve.insert(LineInfo { index: x, linetype: LineType::Column });
        } else {
            proof {
                lemma_count_unknown_zero(b.spec_col(x as int));
            }
        }
        proof {
            // Every written column is either queued for re-solving or is
            // complete and was just checked feasible.
            assert forall|c: int|
                0 <= c < w && in_prefix(v@, t + 1, c) implies (to_solve.spec_contains(
                (LineInfo { index: c as Unit, linetype: LineType::Column }),
            ) || (complete(#[trigger] b.spec_col(c)) && feasible(
                b.spec_col(c),
                b0.spec_col_constraints(c),
            ))) by {
                if c != x as int {
                    let u = choose|u: int| 0 <= u < t + 1 && (#[trigger] v@[u]) == c;
                    assert(u < t && in_prefix(v@, t as int, c));
                    assert(b.spec_col(c) == bprev.spec_col(c));
                }
            }
        }
        t = t + 1;
    }
    proof {
        lemma_row_step_solutions(b0, *b, idx as int, old_row, new_row, csv, v@, n as int);
        lemma_row_unwritten_cells(b0, *b, idx as int, old_row, new_row, csv, v@);
        lemma_solved_line_fixpoint(old_row, new_row, csv);
    }
    true
}

/// What stays fixed through one column solve: the starting board, the
/// column's old and deduced contents, its constraints, and the ordered
/// change list.
spec fn col_solve_ctx(
    b0: Board,
    idx: int,
    old_col: Seq<Cell>,
    new_col: Seq<Cell>,
    csv: Seq<Constraint>,
    v: Seq<Unit>,
) -> bool {
    &&& b0.wf()
    &&& 0 <= idx < b0.spec_width()
    &&& old_col == b0.spec_col(idx)
    &&& csv == b0.spec_col_constraints(idx)
    &&& old_col.len() == b0.spec_height()
    &&& new_col.len() == b0.spec_height()
    &&& solved_line(old_col, new_col, csv)
    &&& reported_changes(old_col, new_col, v)
    &&& forall|u: int| 0 <= u < v.len() ==> (#[trigger] v[u]) < b0.spec_height()
    &&& forall|u: int| 0 < u < v.len() ==> v[u - 1] < #[trigger] v[u]
}

/// The board after the first `t` changes of one column solve are written.
spec fn col_step_state(
    b0: Board,
    b: Board,
    idx: int,
    old_col: Seq<Cell>,
    new_col: Seq<Cell>,
    v: Seq<Unit>,
    t: int,
) -> bool {
    &&& b.wf()
    &&& same_puzzle(b0, b)
    &&& b.spec_width() == b0.spec_width()
    &&& b.spec_height() == b0.spec_height()
    &&& forall|r: int|
        0 <= r < b0.spec_height() ==> #[trigger] b.spec_cell(idx, r) == (if in_prefix(v, t, r) {
            new_col[r]
        } else {
            old_col[r]
        })
    &&& forall|c: int|
        0 <= c < b0.spec_width() && c != idx ==> #[trigger] b.spec_col(c) == b0.spec_col(c)
    &&& forall|r: int|
        0 <= r < b0.spec_height() && !in_prefix(v, t, r) ==> #[trigger] b.spec_row(r)
            == b0.spec_row(r)
    &&& forall|r: int|
        0 <= r < b0.spec_height() && in_prefix(v, t, r) ==> #[trigger] b.spec_row(r)
            == b0.spec_row(r).update(idx, new_col[r])
    &&& refines(b0.spec_cells(), b.spec_cells())
}

/// Writing change `t` takes the board from the `t`-prefix state to the
/// `t + 1`-prefix state.
#[verifier::rlimit(100)]
proof fn lemma_col_write_step(
    b0: Board,
    bprev: Board,
    b: Board,
    idx: int,
    old_col: Seq<Cell>,
    new_col: Seq<Cell>,
    csv: Seq<Constraint>,
    v: Seq<Unit>,
    t: int,
)
    requires
        col_solve_ctx(b0, idx, old_col, new_col, csv, v),
        col_step_state(b0, bprev, idx, old_col, new_col, v, t),
        0 <= t < v.len(),
        b.wf(),
        same_puzzle(bprev, b),
        b.spec_width() == bprev.spec_width(),
        b.spec_height() == bprev.spec_height(),
        b.spec_cell(idx, v[t] as int) == new_col[v[t] as int],
        forall|c: int, r: int|
            0 <= c < b0.spec_width() && 0 <= r < b0.spec_height() && !(c == idx && r == v[t] as int)
                ==> #[trigger] b.spec_cell(c, r) == bprev.spec_cell(c, r),
    ensures
        col_step_state(b0, b, idx, old_col, new_col, v, t + 1),
{
    let h = b0.spec_height();
    let x = v[t] as int;
    lemma_set_cell_effect(bprev, b, idx, x, new_col[x]);
    assert(!in_prefix(v, t, x)) by {
        if in_prefix(v, t, x) {
            let u = choose|u: int| 0 <= u < t && (#[trigger] v[u]) == x;
            lemma_sorted_lt(v, u, t);
        }
    }
    assert forall|r: int| 0 <= r < h implies #[trigger] b.spec_cell(idx, r) == (if in_prefix(
        v,
        t + 1,
        r,
    ) {
        new_col[r]
    } else {
        old_col[r]
    }) by {
        if r == x {
            assert(v[t] == r);
            assert(in_prefix(v, t + 1, r));
        } else {
            assert(b.spec_cell(idx, r) == bprev.spec_cell(idx, r));
            if in_prefix(v, t + 1, r) {
                let u = choose|u: int| 0 <= u < t + 1 && (#[trigger] v[u]) == r;
                assert(u < t && in_prefix(v, t, r));
            }
        }
    }
    assert forall|c: int|
        0 <= c < b0.spec_width() && c != idx implies #[trigger] b.spec_col(c) == b0.spec_col(
        c,
    ) by {
        assert(b.spec_col(c) == bprev.spec_col(c));
    }
    assert forall|r: int|
        0 <= r < h && !in_prefix(v, t + 1, r) implies #[trigger] b.spec_row(r) == b0.spec_row(
        r,
    ) by {
        assert(!in_prefix(v, t, r));
        assert(r != x);
        assert(b.spec_row(r) == bprev.spec_row(r));
    }
    assert forall|r: int|
        0 <= r < h && in_prefix(v, t + 1, r) implies #[trigger] b.spec_row(r) == b0.spec_row(
        r,
    ).update(idx, new_col[r]) by {
        if r == x {
            assert(bprev.spec_row(r) == b0.spec_row(r));
            assert(b.spec_row(r) == bprev.spec_row(r).update(idx, new_col[r]));
        } else {
            let u = choose|u: int| 0 <= u < t + 1 && (#[trigger] v[u]) == r;
            assert(u < t && in_prefix(v, t, r));
            assert(b.spec_row(r) == bprev.spec_row(r));
        }
    }
    lemma_cells_refines_to_pointwise(b0, bprev);
    assert forall|c: int, r: int|
        0 <= c < b0.spec_width() && 0 <= r < h && #[trigger] b0.spec_cell(c, r) != Cell::Unknown
            implies b.spec_cell(c, r) == b0.spec_cell(c, r) by {
        if c == idx && r == x {
            assert(b0.spec_cell(c, r) == old_col[r]);
            lemma_solved_line_refines(old_col, new_col, csv);
        }
    }
    lemma_cells_refines_pointwise(b0, b);
}

/// Once every reported change of a column solve is written, the column holds
/// exactly the solver's output line: unreported cells never differed.
proof fn lemma_col_unwritten_cells(
    b0: Board,
    b: Board,
    idx: int,
    old_col: Seq<Cell>,
    new_col: Seq<Cell>,
    csv: Seq<Constraint>,
    v: Seq<Unit>,
)
    requires
        col_solve_ctx(b0, idx, old_col, new_col, csv, v),
        col_step_state(b0, b, idx, old_col, new_col, v, v.len() as int),
    ensures
        b.spec_col(idx) == new_col,
{
    let h = b0.spec_height();
    assert forall|r2: int| 0 <= r2 < h implies b.spec_col(idx)[r2] == new_col[r2] by {
        assert(b.spec_col(idx)[r2] == b.spec_cell(idx, r2));
        if !in_prefix(v, v.len() as int, r2) {
            assert(b.spec_cell(idx, r2) == old_col[r2]);
            assert(!v.contains(r2 as Unit)) by {
                if v.contains(r2 as Unit) {
                    let u = choose|u: int| 0 <= u < v.len() && (#[trigger] v[u]) == r2 as Unit;
                    assert(in_prefix(v, v.len() as int, r2));
                }
            }
            if old_col[r2] != Cell::Unknown {
                lemma_solved_line_refines(old_col, new_col, csv);
            }
        }
    }
    assert(b.spec_col(idx) =~= new_col);
}

/// At every stage of the writeback the board has exactly the solutions the
/// starting board has.
proof fn lemma_col_step_solutions(
    b0: Board,
    b: Board,
    idx: int,
    old_col: Seq<Cell>,
    new_col: Seq<Cell>,
    csv: Seq<Constraint>,
    v: Seq<Unit>,
    t: int,
)
    requires
        col_solve_ctx(b0, idx, old_col, new_col, csv, v),
        col_step_state(b0, b, idx, old_col, new_col, v, t),
    ensures
        forall|s: Board| solution_of(b0, s) <==> solution_of(b, s),
{
    let h = b0.spec_height();
    assert forall|s: Board| solution_of(b0, s) implies solution_of(b, s) by {
        lemma_board_refines_lines(b0, s);
        lemma_solution_refines_solved(old_col, new_col, csv, s.spec_col(idx));
        lemma_cells_refines_to_pointwise(b0, s);
        assert forall|c: int, r: int|
            0 <= c < b0.spec_width() && 0 <= r < h && #[trigger] b.spec_cell(c, r)
                != Cell::Unknown implies s.spec_cell(c, r) == b.spec_cell(c, r) by {
            if c == idx {
                assert(s.spec_col(idx)[r] == s.spec_cell(c, r));
                if in_prefix(v, t, r) {
                    assert(b.spec_cell(c, r) == new_col[r]);
                } else {
                    assert(b.spec_cell(c, r) == old_col[r] && old_col[r] == b0.spec_cell(c, r));
                }
            } else {
                assert(b.spec_col(c)[r] == b0.spec_col(c)[r]);
            }
        }
        lemma_cells_refines_pointwise(b, s);
    }
    assert forall|s: Board| solution_of(b, s) implies solution_of(b0, s) by {
        assert forall|q: int|
            0 <= q < b0.spec_cells().len() && b0.spec_cells()[q] != Cell::Unknown
                implies #[trigger] s.spec_cells()[q] == b0.spec_cells()[q] by {
            assert(b.spec_cells()[q] == b0.spec_cells()[q]);
        }
    }
}

/// After writing change `t`, every complete line still satisfies its
/// constraints.
#[verifier::rlimit(100)]
proof fn lemma_col_step_lines_ok(
    b0: Board,
    bprev: Board,
    b: Board,
    idx: int,
    old_col: Seq<Cell>,
    new_col: Seq<Cell>,
    csv: Seq<Constraint>,
    v: Seq<Unit>,
    t: int,
)
    requires
        col_solve_ctx(b0, idx, old_col, new_col, csv, v),
        col_step_state(b0, bprev, idx, old_col, new_col, v, t),
        col_step_state(b0, b, idx, old_col, new_col, v, t + 1),
        0 <= t < v.len(),
        complete_lines_ok(bprev),
        feasible(b.spec_row(v[t] as int), b0.spec_row_constraints(v[t] as int)),
    ensures
        complete_lines_ok(b),
{
    let h = b0.spec_height();
    let x = v[t] as int;
    assert forall|c: int|
        0 <= c < b.spec_width() && complete(#[trigger] b.spec_col(c)) implies feasible(
        b.spec_col(c),
        b.spec_col_constraints(c),
    ) by {
        if c == idx {
            // Complete means every deduced value is in and nothing else changed.
            assert(b.spec_col(c) =~= new_col) by {
                assert forall|r: int| 0 <= r < h implies b.spec_col(c)[r] == new_col[r] by {
                    assert(b.spec_col(c)[r] == b.spec_cell(idx, r));
                    if !in_prefix(v, t + 1, r) {
                        assert(b.spec_cell(idx, r) == old_col[r]);
                        assert(b.spec_col(c)[r] != Cell::Unknown);
                        lemma_solved_line_refines(old_col, new_col, csv);
                    }
                }
            }
            let ws = choose|starts: Seq<int>| consistent(old_col, csv, starts);
            lemma_solved_line_consistent(old_col, new_col, csv, ws);
            assert(consistent(new_col, csv, ws));
        } else {
            assert(b.spec_col(c) == b0.spec_col(c) && bprev.spec_col(c) == b0.spec_col(c));
        }
    }
    assert forall|r: int|
        0 <= r < b.spec_height() && complete(#[trigger] b.spec_row(r)) implies feasible(
        b.spec_row(r),
        b.spec_row_constraints(r),
    ) by {
        if r != x {
            assert(b.spec_row(r) == bprev.spec_row(r)) by {
                if in_prefix(v, t + 1, r) {
                    let u = choose|u: int| 0 <= u < t + 1 && (#[trigger] v[u]) == r;
                    assert(u < t && in_prefix(v, t, r));
                } else {
                    assert(!in_prefix(v, t, r));
                }
            }
        }
    }
}

/// Run the line solver on one column, write the deduced cells back, keep the
/// meta counters in step, check every crossing row for feasibility, and
/// enqueue still-unsolved crossing rows.  Returns false when a contradiction
/// was found.
#[verifier::rlimit(100)]
fn solve_col_step(
    b: &mut Board,
    meta: &mut BoardMeta,
    to_solve: &mut PrioritySet,
    idx: Unit,
) -> (r: bool)
    requires
        old(b).wf(),
        meta_matches(*old(b), *old(meta)),
        complete_lines_ok(*old(b)),
        old(to_solve).wf(),
        idx < old(b).spec_width(),
    ensures
        final(b).wf(),
        same_puzzle(*old(b), *final(b)),
        refines(old(b).spec_cells(), final(b).spec_cells()),
        final(to_solve).wf(),
        meta_matches(*final(b), *final(meta)),
        final(meta).num_unsolved <= old(meta).num_unsolved,
        forall|s: Board| solution_of(*old(b), s) <==> solution_of(*final(b), s),
        r ==> complete_lines_ok(*final(b)),
        r ==> (final(meta).num_unsolved < old(meta).num_unsolved || (*final(b) == *old(b)
            && final(to_solve)@ == old(to_solve)@)),
        !r ==> forall|s: Board| !solution_of(*final(b), s),
        !r ==> some_line_infeasible(*final(b)),
        forall|k: LineInfo|
            final(to_solve).spec_contains(k) ==> old(to_solve).spec_contains(k) || (k.linetype
                == LineType::Row && k.index < old(b).spec_height()),
        forall|k: LineInfo| old(to_solve).spec_contains(k) ==> final(to_solve).spec_contains(k),
        forall|c2: int|
            0 <= c2 < old(b).spec_width() && c2 != idx ==> #[trigger] final(b).spec_col(c2)
                == old(b).spec_col(c2),
        r ==> line_fixpoint(
            final(b).spec_col(idx as int),
            old(b).spec_col_constraints(idx as int),
        ),
        r ==> forall|r2: int|
            0 <= r2 < old(b).spec_height() ==> (#[trigger] final(b).spec_row(r2) == old(
                b,
            ).spec_row(r2) || final(to_solve).spec_contains(
                (LineInfo { index: r2 as Unit, linetype: LineType::Row }),
            ) || (complete(final(b).spec_row(r2)) && feasible(
                final(b).spec_row(r2),
                old(b).spec_row_constraints(r2),
            ))),
{
    let ghost b0 = *b;
    let ghost csv = b0.spec_col_constraints(idx as int);
    let col_ref = b.get_col_ref(idx);
    let mut line = col_ref.create_standalone_line();
    let ghost old_col = line@;
    let res = line.try_solve_line_complete();
    let v = match res {
        None => {
            proof {
                // No placement fits this column, so no solution extends this board.
                assert forall|s: Board| !solution_of(*b, s) by {
                    if solution_of(*b, s) {
                        lemma_board_refines_lines(*b, s);
                        lemma_infeasible_no_solution(old_col, csv, s.spec_col(idx as int));
                    }
                }
                assert(!feasible(b.spec_col(idx as int), b.spec_col_constraints(idx as int)));
            }
            return false;
        },
        Some(v) => v,
    };
    let ghost new_col = line@;
    proof {
        assert(col_solve_ctx(b0, idx as int, old_col, new_col, csv, v@));
        assert(col_step_state(b0, *b, idx as int, old_col, new_col, v@, 0)) by {
            assert forall|r: int| 0 <= r < b0.spec_height() implies #[trigger] b.spec_cell(
                idx as int,
                r,
            ) == (if in_prefix(v@, 0, r) {
                new_col[r]
            } else {
                old_col[r]
            }) by {
                assert(!in_prefix(v@, 0, r));
            }
            assert(refines(b0.spec_cells(), b.spec_cells()));
        }
    }
    // Copy the deduced values out of the line carrier.
    let mut vals: Vec<Cell> = Vec::new();
    let n = v.len();
    if n == 0 {
        proof {
            lemma_col_unwritten_cells(b0, *b, idx as int, old_col, new_col, csv, v@);
            lemma_solved_line_fixpoint(old_col, new_col, csv);
        }
        return true;
    }
    let mut t: usize = 0;
    while t < n
        invariant
            t <= n,
            n == v@.len(),
            line@ == new_col,
            forall|u: int| 0 <= u < n ==> (#[trigger] v@[u]) < new_col.len(),
            vals@.len() == t,
            forall|u: int| 0 <= u < t ==> #[trigger] vals@[u] == new_col[v@[u] as int],
        decreases n - t,
    {
        vals.push(line.get_cell(v[t]));
        t = t + 1;
    }
    // Write the deduced cells back, one at a time.
    let ghost h = b0.spec_height();
    let mut t: usize = 0;
    while t < n
        invariant
            t <= n,
            n == v@.len(),
            vals@.len() == n,
            b0 == *old(b),
            idx < b0.spec_width(),
            h == b0.spec_height(),
            csv == b0.spec_col_constraints(idx as int),
            col_solve_ctx(b0, idx as int, old_col, new_col, csv, v@),
            col_step_state(b0, *b, idx as int, old_col, new_col, v@, t as int),
            forall|u: int| 0 <= u < n ==> #[trigger] vals@[u] == new_col[v@[u] as int],
            meta_matches(*b, *meta),
            meta.num_unsolved == old(meta).num_unsolved - t,
            complete_lines_ok(*b),
            to_solve.wf(),
            forall|k: LineInfo|
                to_solve.spec_contains(k) ==> old(to_solve).spec_contains(k) || (k.linetype
                    == LineType::Row && k.index < h),
            forall|k: LineInfo| old(to_solve).spec_contains(k) ==> to_solve.spec_contains(k),
            forall|r2: int|
                0 <= r2 < h && in_prefix(v@, t as int, r2) ==> (to_solve.spec_contains(
                    (LineInfo { index: r2 as Unit, linetype: LineType::Row }),
                ) || (complete(#[trigger] b.spec_row(r2)) && feasible(
                    b.spec_row(r2),
                    b0.spec_row_constraints(r2),
                ))),
        decreases n - t,
    {
        let x = v[t];
        let value = vals[t];
        let ghost bprev = *b;
        proof {
            // This cell is still untouched and undetermined.
            assert(!in_prefix(v@, t as int, x as int)) by {
                if in_prefix(v@, t as int, x as int) {
                    let u = choose|u: int| 0 <= u < t && (#[trigger] v@[u]) == x as int;
                    lemma_sorted_lt(v@, u, t as int);
                }
            }
            assert(v@.contains(x)) by {
                assert(v@[t as int] == x);
            }
            assert(old_col[x as int] == Cell::Unknown && new_col[x as int] != Cell::Unknown);
            assert(b.spec_cell(idx as int, x as int) == Cell::Unknown);
        }
        b.set_cell(idx, x, value);
        proof {
            lemma_col_write_step(b0, bprev, *b, idx as int, old_col, new_col, csv, v@, t as int);
            lemma_col_step_solutions(b0, *b, idx as int, old_col, new_col, csv, v@, t + 1);
            // One undetermined cell became determined: all three counts drop.
            lemma_set_cell_effect(bprev, *b, idx as int, x as int, value);
            lemma_count_unknown_update(bprev.spec_col(idx as int), x as int, value);
            assert(bprev.spec_col(idx as int)[x as int] == Cell::Unknown);
            lemma_count_unknown_update(bprev.spec_row(x as int), idx as int, value);
            assert(bprev.spec_row(x as int)[idx as int] == Cell::Unknown);
            bprev.lemma_cell_index(idx as int, x as int);
            lemma_count_unknown_update(
                bprev.spec_cells(),
                idx as int + (x as int) * b0.spec_width(),
                value,
            );
            lemma_count_unknown_pos(bprev.spec_col(idx as int), x as int);
            lemma_count_unknown_pos(bprev.spec_row(x as int), idx as int);
            lemma_count_unknown_pos(bprev.spec_cells(), idx as int + (x as int) * b0.spec_width());
        }
        meta.solve(idx, x);
        let row_line = b.get_row_ref(x).create_standalone_line();
        if !row_line.is_solvable() {
            proof {
                // The crossing row can no longer be completed: no solution
                // extends this board.
                assert forall|s: Board| !solution_of(*b, s) by {
                    if solution_of(*b, s) {
                        lemma_board_refines_lines(*b, s);
                        lemma_infeasible_no_solution(
                            b.spec_row(x as int),
                            b0.spec_row_constraints(x as int),
                            s.spec_row(x as int),
                        );
                    }
                }
                lemma_col_step_solutions(b0, *b, idx as int, old_col, new_col, csv, v@, t + 1);
                assert(!feasible(b.spec_row(x as int), b.spec_row_constraints(x as int)));
            }
            return false;
        }
        proof {
            lemma_col_step_lines_ok(b0, bprev, *b, idx as int, old_col, new_col, csv, v@, t as int);
        }
        if !meta.is_row_solved(x as usize) {
            to_solve.insert(LineInfo { index: x, linetype: LineType::Row });
        } else {
            proof {
                lemma_count_unknown_zero(b.spec_row(x as int));
            }
        }
        proof {
            // Every written row is either queued for re-solving or is
            // complete and was just checked feasible.
            assert forall|r2: int|
                0 <= r2 < h && in_prefix(v@, t + 1, r2) implies (to_solve.spec_contains(
                (LineInfo { index: r2 as Unit, linetype: LineType::Row }),
            ) || (complete(#[trigger] b.spec_row(r2)) && feasible(
                b.spec_row(r2),
                b0.spec_row_constraints(r2),
            ))) by {
                if r2 != x as int {
                    let u = choose|u: int| 0 <= u < t + 1 && (#[trigger] v@[u]) == r2;
                    assert(u < t && in_prefix(v@, t as int, r2));
                    assert(b.spec_row(r2) == bprev.spec_row(r2));
                }
            }
        }
        t = t + 1;
    }
    proof {
        lemma_col_step_solutions(b0, *b, idx as int, old_col, new_col, csv, v@, n as int);
        lemma_col_unwritten_cells(b0, *b, idx as int, old_col, new_col, csv, v@);
        lemma_solved_line_fixpoint(old_col, new_col, csv);
    }
    true
}

/// Every line that is not queued for re-solving is a fixed point of
/// single-line reasoning: only queued lines are worth revisiting.
pub open spec fn unqueued_fixpoint(b: Board, q: PrioritySet) -> bool {
    &&& forall|r: int|
        0 <= r < b.spec_height() && !q.spec_contains(
            (LineInfo { index: r as Unit, linetype: LineType::Row }),
        ) ==> line_fixpoint(#[trigger] b.spec_row(r), b.spec_row_constraints(r))
    &&& forall|c: int|
        0 <= c < b.spec_width() && !q.spec_contains(
            (LineInfo { index: c as Unit, linetype: LineType::Column }),
        ) ==> line_fixpoint(#[trigger] b.spec_col(c), b.spec_col_constraints(c))
}

/// Every line of the board is a fixed point of single-line reasoning:
/// another full pass of the line solver would change nothing.
pub open spec fn board_fixpoint(b: Board) -> bool {
    &&& forall|r: int|
        0 <= r < b.spec_height() ==> line_fixpoint(
            #[trigger] b.spec_row(r),
            b.spec_row_constraints(r),
        )
    &&& forall|c: int|
        0 <= c < b.spec_width() ==> line_fixpoint(
            #[trigger] b.spec_col(c),
            b.spec_col_constraints(c),
        )
}

/// Some line of the board admits no placement consistent with its current
/// partial contents.
pub open spec fn some_line_infeasible(b: Board) -> bool {
    ||| exists|r: int|
        0 <= r < b.spec_height() && !feasible(
            #[trigger] b.spec_row(r),
            b.spec_row_constraints(r),
        )
    ||| exists|c: int|
        0 <= c < b.spec_width() && !feasible(
            #[trigger] b.spec_col(c),
            b.spec_col_constraints(c),
        )
}

/// Every line named in the queue lies on the board.
pub open spec fn queue_valid(q: PrioritySet, b: Board) -> bool {
    forall|k: LineInfo|
        #[trigger] q.spec_contains(k) ==> (k.linetype == LineType::Row ==> k.index
            < b.spec_height()) && (k.linetype == LineType::Column ==> k.index < b.spec_width())
}

/// Every line outside the queue, other than one just popped, is at a
/// fixpoint.
spec fn unqueued_fixpoint_except(b: Board, q: PrioritySet, x: LineInfo) -> bool {
    &&& forall|r: int|
        0 <= r < b.spec_height() && !q.spec_contains(
            (LineInfo { index: r as Unit, linetype: LineType::Row }),
        ) && (LineInfo { index: r as Unit, linetype: LineType::Row }) != x ==> line_fixpoint(
            #[trigger] b.spec_row(r),
            b.spec_row_constraints(r),
        )
    &&& forall|c: int|
        0 <= c < b.spec_width() && !q.spec_contains(
            (LineInfo { index: c as Unit, linetype: LineType::Column }),
        ) && (LineInfo { index: c as Unit, linetype: LineType::Column }) != x ==> line_fixpoint(
            #[trigger] b.spec_col(c),
            b.spec_col_constraints(c),
        )
}

/// A popped line that was skipped, once shown at a fixpoint itself, leaves
/// everything outside the queue at a fixpoint.
proof fn lemma_unqueued_after_skip(b: Board, q: PrioritySet, x: LineInfo)
    requires
        unqueued_fixpoint_except(b, q, x),
        x.linetype == LineType::Row && x.index < b.spec_height() ==> line_fixpoint(
            b.spec_row(x.index as int),
            b.spec_row_constraints(x.index as int),
        ),
        x.linetype == LineType::Column && x.index < b.spec_width() ==> line_fixpoint(
            b.spec_col(x.index as int),
            b.spec_col_constraints(x.index as int),
        ),
    ensures
        unqueued_fixpoint(b, q),
{
    assert forall|r: int|
        0 <= r < b.spec_height() && !q.spec_contains(
            (LineInfo { index: r as Unit, linetype: LineType::Row }),
        ) implies line_fixpoint(#[trigger] b.spec_row(r), b.spec_row_constraints(r)) by {
        if (LineInfo { index: r as Unit, linetype: LineType::Row }) == x {
            assert(x.index == r);
        }
    }
    assert forall|c: int|
        0 <= c < b.spec_width() && !q.spec_contains(
            (LineInfo { index: c as Unit, linetype: LineType::Column }),
        ) implies line_fixpoint(#[trigger] b.spec_col(c), b.spec_col_constraints(c)) by {
        if (LineInfo { index: c as Unit, linetype: LineType::Column }) == x {
            assert(x.index == c);
        }
    }
}

/// After one row solve, everything outside the queue is at a fixpoint: the
/// solved row by the solver's own guarantee, untouched lines as before, and
/// every changed column either queued or complete and checked.
proof fn lemma_unqueued_after_row(
    b_pop: Board,
    b: Board,
    q_pop: PrioritySet,
    q: PrioritySet,
    x: LineInfo,
)
    requires
        x.linetype == LineType::Row,
        x.index < b_pop.spec_height(),
        same_puzzle(b_pop, b),
        b.spec_width() == b_pop.spec_width(),
        b.spec_height() == b_pop.spec_height(),
        unqueued_fixpoint_except(b_pop, q_pop, x),
        forall|k: LineInfo| q_pop.spec_contains(k) ==> q.spec_contains(k),
        forall|r2: int|
            0 <= r2 < b_pop.spec_height() && r2 != x.index ==> #[trigger] b.spec_row(r2)
                == b_pop.spec_row(r2),
        line_fixpoint(b.spec_row(x.index as int), b_pop.spec_row_constraints(x.index as int)),
        forall|c: int|
            0 <= c < b_pop.spec_width() ==> (#[trigger] b.spec_col(c) == b_pop.spec_col(c)
                || q.spec_contains((LineInfo { index: c as Unit, linetype: LineType::Column }))
                || (complete(b.spec_col(c)) && feasible(
                b.spec_col(c),
                b_pop.spec_col_constraints(c),
            ))),
    ensures
        unqueued_fixpoint(b, q),
{
    assert forall|r: int|
        0 <= r < b.spec_height() && !q.spec_contains(
            (LineInfo { index: r as Unit, linetype: LineType::Row }),
        ) implies line_fixpoint(#[trigger] b.spec_row(r), b.spec_row_constraints(r)) by {
        if r == x.index {
            assert(b.spec_row_constraints(r) == b_pop.spec_row_constraints(r));
        } else {
            assert(!q_pop.spec_contains((LineInfo { index: r as Unit, linetype: LineType::Row })));
            assert((LineInfo { index: r as Unit, linetype: LineType::Row }) != x);
        }
    }
    assert forall|c: int|
        0 <= c < b.spec_width() && !q.spec_contains(
            (LineInfo { index: c as Unit, linetype: LineType::Column }),
        ) implies line_fixpoint(#[trigger] b.spec_col(c), b.spec_col_constraints(c)) by {
        if b.spec_col(c) == b_pop.spec_col(c) {
            assert(!q_pop.spec_contains(
                (LineInfo { index: c as Unit, linetype: LineType::Column }),
            ));
            assert((LineInfo { index: c as Unit, linetype: LineType::Column }) != x);
        } else {
            assert(complete(b.spec_col(c)) && feasible(b.spec_col(c), b_pop.spec_col_constraints(c)));
            lemma_complete_feasible_fixpoint(b.spec_col(c), b_pop.spec_col_constraints(c));
        }
    }
}

/// After one column solve, everything outside the queue is at a fixpoint.
proof fn lemma_unqueued_after_col(
    b_pop: Board,
    b: Board,
    q_pop: PrioritySet,
    q: PrioritySet,
    x: LineInfo,
)
    requires
        x.linetype == LineType::Column,
        x.index < b_pop.spec_width(),
        same_puzzle(b_pop, b),
        b.spec_width() == b_pop.spec_width(),
        b.spec_height() == b_pop.spec_height(),
        unqueued_fixpoint_except(b_pop, q_pop, x),
        forall|k: LineInfo| q_pop.spec_contains(k) ==> q.spec_contains(k),
        forall|c2: int|
            0 <= c2 < b_pop.spec_width() && c2 != x.index ==> #[trigger] b.spec_col(c2)
                == b_pop.spec_col(c2),
        line_fixpoint(b.spec_col(x.index as int), b_pop.spec_col_constraints(x.index as int)),
        forall|r2: int|
            0 <= r2 < b_pop.spec_height() ==> (#[trigger] b.spec_row(r2) == b_pop.spec_row(r2)
                || q.spec_contains((LineInfo { index: r2 as Unit, linetype: LineType::Row })) || (
            complete(b.spec_row(r2)) && feasible(
                b.spec_row(r2),
                b_pop.spec_row_constraints(r2),
            ))),
    ensures
        unqueued_fixpoint(b, q),
{
    assert forall|c: int|
        0 <= c < b.spec_width() && !q.spec_contains(
            (LineInfo { index: c as Unit, linetype: LineType::Column }),
        ) implies line_fixpoint(#[trigger] b.spec_col(c), b.spec_col_constraints(c)) by {
        if c == x.index {
            assert(b.spec_col_constraints(c) == b_pop.spec_col_constraints(c));
        } else {
            assert(!q_pop.spec_contains(
                (LineInfo { index: c as Unit, linetype: LineType::Column }),
            ));
            assert((LineInfo { index: c as Unit, linetype: LineType::Column }) != x);
        }
    }
    assert forall|r: int|
        0 <= r < b.spec_height() && !q.spec_contains(
            (LineInfo { index: r as Unit, linetype: LineType::Row }),
        ) implies line_fixpoint(#[trigger] b.spec_row(r), b.spec_row_constraints(r)) by {
        if b.spec_row(r) == b_pop.spec_row(r) {
            assert(!q_pop.spec_contains((LineInfo { index: r as Unit, linetype: LineType::Row })));
            assert((LineInfo { index: r as Unit, linetype: LineType::Row }) != x);
        } else {
            assert(complete(b.spec_row(r)) && feasible(b.spec_row(r), b_pop.spec_row_constraints(r)));
            lemma_complete_feasible_fixpoint(b.spec_row(r), b_pop.spec_row_constraints(r));
        }
    }
}

/// The propagation driver: pop lines from the queue and run the line solver
/// on each until the board is solved, a contradiction surfaces, or the queue
/// drains with cells still undetermined (`None`: stalled).
#[verifier::rlimit(100)]
pub fn stupid_solver_set(
    b: &mut Board,
    meta: &mut BoardMeta,
    to_solve: &mut PrioritySet,
) -> (r: Option<SolveResult>)
    requires
        old(b).wf(),
        meta_matches(*old(b), *old(meta)),
        complete_lines_ok(*old(b)),
        old(to_solve).wf(),
        queue_valid(*old(to_solve), *old(b)),
        unqueued_fixpoint(*old(b), *old(to_solve)),
    ensures
        final(b).wf(),
        same_puzzle(*old(b), *final(b)),
        refines(old(b).spec_cells(), final(b).spec_cells()),
        final(to_solve).wf(),
        meta_matches(*final(b), *final(meta)),
        final(meta).num_unsolved <= old(meta).num_unsolved,
        forall|s: Board| solution_of(*old(b), s) <==> solution_of(*final(b), s),
        match r {
            Some(SolveResult::Success) => final(meta).num_unsolved == 0 && board_solved(*final(b))
                && complete_lines_ok(*final(b)),
            Some(SolveResult::Contradiction) => (forall|s: Board| !solution_of(*final(b), s))
                && some_line_infeasible(*final(b)),
            None => complete_lines_ok(*final(b)) && queue_valid(*final(to_solve), *final(b))
                && final(meta).num_unsolved != 0 && final(to_solve)@.len() == 0 && board_fixpoint(
                *final(b),
            ),
        },
{
    let ghost b0 = *b;
    while to_solve.len() > 0
        invariant
            b.wf(),
            b0 == *old(b),
            same_puzzle(b0, *b),
            b.spec_width() == b0.spec_width(),
            b.spec_height() == b0.spec_height(),
            refines(b0.spec_cells(), b.spec_cells()),
            meta_matches(*b, *meta),
            meta.num_unsolved <= old(meta).num_unsolved,
            complete_lines_ok(*b),
            to_solve.wf(),
            queue_valid(*to_solve, *b),
            unqueued_fixpoint(*b, *to_solve),
            forall|s: Board| solution_of(b0, s) <==> solution_of(*b, s),
        decreases meta.num_unsolved, to_solve@.len(),
    {
        let ghost meta_before = *meta;
        let ghost queue_after_pop_len = to_solve@.len() - 1;
        let lineid = match to_solve.pop() {
            Some(lineid) => lineid,
            None => {
                // The queue was non-empty, so pop cannot come back empty.
                proof {
                    assert(false);
                }
                vstd::pervasive::unreached()
            },
        };
        let ghost q_pop = *to_solve;
        let ghost b_pop = *b;
        proof {
            // Everything outside the queue, other than the popped line, was
            // already outside it before the pop and so is at a fixpoint.
            assert(unqueued_fixpoint_except(b_pop, q_pop, lineid));
        }
        match lineid.linetype {
            LineType::Row => {
                if !meta.is_row_solved(lineid.index as usize) {
                    if !solve_row_step(b, meta, to_solve, lineid.index) {
                        return Some(SolveResult::Contradiction);
                    }
                    proof {
                        lemma_unqueued_after_row(b_pop, *b, q_pop, *to_solve, lineid);
                    }
                } else {
                    proof {
                        lemma_count_unknown_zero(b.spec_row(lineid.index as int));
                        lemma_complete_feasible_fixpoint(
                            b.spec_row(lineid.index as int),
                            b.spec_row_constraints(lineid.index as int),
                        );
                        lemma_unqueued_after_skip(*b, q_pop, lineid);
                    }
                }
            },
            LineType::Column => {
                if !meta.is_column_solved(lineid.index as usize) {
                    if !solve_col_step(b, meta, to_solve, lineid.index) {
                        return Some(SolveResult::Contradiction);
                    }
                    proof {
                        lemma_unqueued_after_col(b_pop, *b, q_pop, *to_solve, lineid);
                    }
                } else {
                    proof {
                        lemma_count_unknown_zero(b.spec_col(lineid.index as int));
                        lemma_complete_feasible_fixpoint(
                            b.spec_col(lineid.index as int),
                            b.spec_col_constraints(lineid.index as int),
                        );
                        lemma_unqueued_after_skip(*b, q_pop, lineid);
                    }
                }
            },
        }
        if meta.num_unsolved == 0 {
            proof {
                lemma_board_complete(*b);
            }
            return Some(SolveResult::Success);
        }
        proof {
            assert(meta.num_unsolved < meta_before.num_unsolved || to_solve@.len()
                <= queue_after_pop_len);
        }
    }
    if meta.num_unsolved == 0 {
        proof {
            lemma_board_complete(*b);
        }
        Some(SolveResult::Success)
    } else {
        proof {
            // The queue drained: every line is unqueued, hence at a fixpoint.
            assert(board_fixpoint(*b)) by {
                assert forall|k: LineInfo| !to_solve.spec_contains(k) by {}
            }
        }
        None
    }
}

/// Count the undetermined cells of a line.
fn count_unknown_cells(line: &StandaloneLine) -> (r: usize)
    requires
        line.wf(),
    ensures
        r == count_unknown(line@),
{
    let n = line.size();
    let mut cnt: usize = 0;
    let mut i: Unit = 0;
    proof {
        assert(line@.take(0) =~= Seq::<Cell>::empty());
    }
    while i < n
        invariant
            i <= n,
            n == line@.len(),
            line@.len() <= Unit::MAX,
            cnt == count_unknown(line@.take(i as int)),
            cnt <= i,
        decreases n - i,
    {
        proof {
            assert(line@.take(i + 1).drop_last() =~= line@.take(i as int));
            assert(line@.take(i + 1).last() == line@[i as int]);
            lemma_count_unknown_bounds(line@.take(i as int));
        }
        if line.get_cell(i) == Cell::Unknown {
            cnt = cnt + 1;
        }
        i = i + 1;
    }
    proof {
        assert(line@.take(n as int) =~= line@);
    }
    cnt
}

/// Count the undetermined cells of the whole grid.
fn count_unknown_total(b: &Board) -> (r: usize)
    requires
        b.wf(),
    ensures
        r == count_unknown(b.spec_cells()),
{
    let n = b.get_num_cells();
    let mut cnt: usize = 0;
    let mut i: usize = 0;
    proof {
        assert(b.spec_cells().take(0) =~= Seq::<Cell>::empty());
    }
    while i < n
        invariant
            i <= n,
            b.wf(),
            n == b.spec_cells().len(),
            cnt == count_unknown(b.spec_cells().take(i as int)),
            cnt <= i,
        decreases n - i,
    {
        proof {
            assert(b.spec_cells().take(i + 1).drop_last() =~= b.spec_cells().take(i as int));
            assert(b.spec_cells().take(i + 1).last() == b.spec_cells()[i as int]);
            lemma_count_unknown_bounds(b.spec_cells().take(i as int));
        }
        if b.get_cell_index(i) == Cell::Unknown {
            cnt = cnt + 1;
        }
        i = i + 1;
    }
    proof {
        assert(b.spec_cells().take(n as int) =~= b.spec_cells());
    }
    cnt
}

/// Build counters that agree with the board as it stands.
fn build_meta(b: &Board) -> (r: BoardMeta)
    requires
        b.wf(),
    ensures
        meta_matches(*b, r),
{
    let height = b.get_height();
    let width = b.get_width();
    let mut per_row: Vec<usize> = Vec::new();
    let mut rr: Unit = 0;
    while rr < height
        invariant
            rr <= height,
            b.wf(),
            height == b.spec_height(),
            per_row@.len() == rr,
            forall|r2: int| 0 <= r2 < rr ==> #[trigger] per_row@[r2] == count_unknown(b.spec_row(r2)),
        decreases height - rr,
    {
        let line = b.get_row_ref(rr).create_standalone_line();
        per_row.push(count_unknown_cells(&line));
        rr = rr + 1;
    }
    let mut per_col: Vec<usize> = Vec::new();
    let mut cc: Unit = 0;
    while cc < width
        invariant
            cc <= width,
            b.wf(),
            width == b.spec_width(),
            per_col@.len() == cc,
            forall|c2: int| 0 <= c2 < cc ==> #[trigger] per_col@[c2] == count_unknown(b.spec_col(c2)),
        decreases width - cc,
    {
        let line = b.get_col_ref(cc).create_standalone_line();
        per_col.push(count_unknown_cells(&line));
        cc = cc + 1;
    }
    BoardMeta {
        num_unsolved: count_unknown_total(b),
        unsolved_per_row: per_row,
        unsolved_per_column: per_col,
    }
}

/// Check that every already complete line of the board satisfies its
/// constraints.
fn check_lines(b: &Board) -> (r: bool)
    requires
        b.wf(),
    ensures
        r == complete_lines_ok(*b),
{
    let height = b.get_height();
    let width = b.get_width();
    let mut rr: Unit = 0;
    while rr < height
        invariant
            rr <= height,
            b.wf(),
            height == b.spec_height(),
            width == b.spec_width(),
            forall|r2: int|
                0 <= r2 < rr && complete(#[trigger] b.spec_row(r2)) ==> feasible(
                    b.spec_row(r2),
                    b.spec_row_constraints(r2),
                ),
        decreases height - rr,
    {
        let line = b.get_row_ref(rr).create_standalone_line();
        if line.is_completed() {
            if !line.is_solvable() {
                return false;
            }
        }
        rr = rr + 1;
    }
    let mut cc: Unit = 0;
    while cc < width
        invariant
            cc <= width,
            b.wf(),
            height == b.spec_height(),
            width == b.spec_width(),
            forall|r2: int|
                0 <= r2 < height && complete(#[trigger] b.spec_row(r2)) ==> feasible(
                    b.spec_row(r2),
                    b.spec_row_constraints(r2),
                ),
            forall|c2: int|
                0 <= c2 < cc && complete(#[trigger] b.spec_col(c2)) ==> feasible(
                    b.spec_col(c2),
                    b.spec_col_constraints(c2),
                ),
        decreases width - cc,
    {
        let line = b.get_col_ref(cc).create_standalone_line();
        if line.is_completed() {
            if !line.is_solvable() {
                return false;
            }
        }
        cc = cc + 1;
    }
    true
}

/// Seed a queue with every row and every column of the board.
fn seed_queue(b: &Board) -> (r: PrioritySet)
    requires
        b.wf(),
    ensures
        r.wf(),
        queue_valid(r, *b),
        forall|c: int|
            0 <= c < b.spec_width() ==> #[trigger] r.spec_contains(
                (LineInfo { index: c as Unit, linetype: LineType::Column }),
            ),
        forall|rr: int|
            0 <= rr < b.spec_height() ==> #[trigger] r.spec_contains(
                (LineInfo { index: rr as Unit, linetype: LineType::Row }),
            ),
{
    let mut q = PrioritySet::new();
    let width = b.get_width();
    let height = b.get_height();
    let mut cc: Unit = 0;
    while cc < width
        invariant
            cc <= width,
            width == b.spec_width(),
            q.wf(),
            queue_valid(q, *b),
            forall|c: int|
                0 <= c < cc ==> #[trigger] q.spec_contains(
                    (LineInfo { index: c as Unit, linetype: LineType::Column }),
                ),
        decreases width - cc,
    {
        q.insert(LineInfo { index: cc, linetype: LineType::Column });
        cc = cc + 1;
    }
    let mut rr: Unit = 0;
    while rr < height
        invariant
            rr <= height,
            height == b.spec_height(),
            width == b.spec_width(),
            q.wf(),
            queue_valid(q, *b),
            forall|c: int|
                0 <= c < width ==> #[trigger] q.spec_contains(
                    (LineInfo { index: c as Unit, linetype: LineType::Column }),
                ),
            forall|r2: int|
                0 <= r2 < rr ==> #[trigger] q.spec_contains(
                    (LineInfo { index: r2 as Unit, linetype: LineType::Row }),
                ),
        decreases height - rr,
    {
        q.insert(LineInfo { index: rr, linetype: LineType::Row });
        rr = rr + 1;
    }
    q
}

/// Find the first undetermined cell of the board, in row-major order.
fn find_unknown(b: &Board) -> (r: Option<usize>)
    requires
        b.wf(),
    ensures
        match r {
            Some(i) => i < b.spec_cells().len() && b.spec_cells()[i as int] == Cell::Unknown,
            None => complete(b.spec_cells()),
        },
{
    let n = b.get_num_cells();
    let mut i: usize = 0;
    while i < n
        invariant
            i <= n,
            b.wf(),
            n == b.spec_cells().len(),
            forall|q: int| 0 <= q < i ==> #[trigger] b.spec_cells()[q] != Cell::Unknown,
        decreases n - i,
    {
        if b.get_cell_index(i) == Cell::Unknown {
            return Some(i);
        }
        i = i + 1;
    }
    None
}

/// Increase the branch counter, saturating at the counter type's maximum.
fn count_branch(value: &mut usize)
    ensures
        *final(value) >= *old(value),
        *old(value) < usize::MAX ==> *final(value) == *old(value) + 1,
{
    if *value < usize::MAX {
        *value = *value + 1;
    }
}

/// A board whose pivot cell was undetermined splits its solutions between
/// the two boards that determine the pivot each way: if neither has one, the
/// board has none.
proof fn lemma_split_pivot(bst: Board, be: Board, bf: Board, col_i: int, row_i: int)
    requires
        bst.wf(),
        be.wf(),
        bf.wf(),
        same_puzzle(bst, be),
        same_puzzle(bst, bf),
        be.spec_width() == bst.spec_width(),
        be.spec_height() == bst.spec_height(),
        bf.spec_width() == bst.spec_width(),
        bf.spec_height() == bst.spec_height(),
        0 <= col_i < bst.spec_width(),
        0 <= row_i < bst.spec_height(),
        bst.spec_cell(col_i, row_i) == Cell::Unknown,
        be.spec_cell(col_i, row_i) == Cell::Empty,
        bf.spec_cell(col_i, row_i) == Cell::Filled,
        forall|c: int, r: int|
            0 <= c < bst.spec_width() && 0 <= r < bst.spec_height() && !(c == col_i && r == row_i)
                ==> #[trigger] be.spec_cell(c, r) == bst.spec_cell(c, r),
        forall|c: int, r: int|
            0 <= c < bst.spec_width() && 0 <= r < bst.spec_height() && !(c == col_i && r == row_i)
                ==> #[trigger] bf.spec_cell(c, r) == bst.spec_cell(c, r),
        forall|s: Board| !solution_of(be, s),
        forall|s: Board| !solution_of(bf, s),
    ensures
        forall|s: Board| !solution_of(bst, s),
{
    assert forall|s: Board| !solution_of(bst, s) by {
        if solution_of(bst, s) {
            lemma_cells_refines_to_pointwise(bst, s);
            // A solution is complete, so the pivot cell is determined in it.
            assert(s.spec_row(row_i)[col_i] == s.spec_cell(col_i, row_i));
            assert(complete(s.spec_row(row_i)));
            assert(s.spec_cell(col_i, row_i) != Cell::Unknown);
            if s.spec_cell(col_i, row_i) == Cell::Empty {
                assert forall|c: int, r: int|
                    0 <= c < bst.spec_width() && 0 <= r < bst.spec_height()
                        && #[trigger] be.spec_cell(c, r) != Cell::Unknown implies s.spec_cell(c, r)
                    == be.spec_cell(c, r) by {}
                lemma_cells_refines_pointwise(be, s);
                assert(solution_of(be, s));
            } else {
                assert forall|c: int, r: int|
                    0 <= c < bst.spec_width() && 0 <= r < bst.spec_height()
                        && #[trigger] bf.spec_cell(c, r) != Cell::Unknown implies s.spec_cell(c, r)
                    == bf.spec_cell(c, r) by {}
                lemma_cells_refines_pointwise(bf, s);
                assert(solution_of(bf, s));
            }
        }
    }
}

/// Prepare one branch: copy the board, determine the pivot, and check that
/// the pivot's row and column can still be completed.  Returns the branch
/// board and whether both lines stayed feasible; when they did, every
/// complete line of the branch board satisfies its constraints.
#[verifier::rlimit(100)]
fn make_branch(b: &Board, col_i: Unit, row_i: Unit, value: Cell) -> (r: (Board, bool))
    requires
        b.wf(),
        complete_lines_ok(*b),
        col_i < b.spec_width(),
        row_i < b.spec_height(),
        b.spec_cell(col_i as int, row_i as int) == Cell::Unknown,
        value != Cell::Unknown,
    ensures
        r.0.wf(),
        same_puzzle(*b, r.0),
        r.0.spec_width() == b.spec_width(),
        r.0.spec_height() == b.spec_height(),
        r.0.spec_cell(col_i as int, row_i as int) == value,
        forall|c: int, rr: int|
            0 <= c < b.spec_width() && 0 <= rr < b.spec_height() && !(c == col_i && rr == row_i)
                ==> #[trigger] r.0.spec_cell(c, rr) == b.spec_cell(c, rr),
        refines(b.spec_cells(), r.0.spec_cells()),
        count_unknown(r.0.spec_cells()) == count_unknown(b.spec_cells()) - 1,
        count_unknown(r.0.spec_row(row_i as int)) == count_unknown(b.spec_row(row_i as int)) - 1,
        count_unknown(r.0.spec_col(col_i as int)) == count_unknown(b.spec_col(col_i as int)) - 1,
        forall|rr: int|
            0 <= rr < b.spec_height() && rr != row_i ==> #[trigger] r.0.spec_row(rr) == b.spec_row(
                rr,
            ),
        forall|c: int|
            0 <= c < b.spec_width() && c != col_i ==> #[trigger] r.0.spec_col(c) == b.spec_col(c),
        r.1 ==> complete_lines_ok(r.0),
        !r.1 ==> forall|s: Board| !solution_of(r.0, s),
{
    let mut nb = b.clone();
    let ghost b0 = *b;
    nb.set_cell(col_i, row_i, value);
    proof {
        lemma_set_cell_effect(b0, nb, col_i as int, row_i as int, value);
        lemma_count_unknown_update(b0.spec_row(row_i as int), col_i as int, value);
        lemma_count_unknown_update(b0.spec_col(col_i as int), row_i as int, value);
        b0.lemma_cell_index(col_i as int, row_i as int);
        lemma_count_unknown_update(
            b0.spec_cells(),
            col_i as int + (row_i as int) * b0.spec_width(),
            value,
        );
        assert forall|c: int, r: int|
            0 <= c < b0.spec_width() && 0 <= r < b0.spec_height() && #[trigger] b0.spec_cell(c, r)
                != Cell::Unknown implies nb.spec_cell(c, r) == b0.spec_cell(c, r) by {}
        lemma_cells_refines_pointwise(b0, nb);
    }
    let row_line = nb.get_row_ref(row_i).create_standalone_line();
    if !row_line.is_solvable() {
        proof {
            assert forall|s: Board| !solution_of(nb, s) by {
                if solution_of(nb, s) {
                    lemma_board_refines_lines(nb, s);
                    lemma_infeasible_no_solution(
                        nb.spec_row(row_i as int),
                        nb.spec_row_constraints(row_i as int),
                        s.spec_row(row_i as int),
                    );
                }
            }
        }
        return (nb, false);
    }
    let col_line = nb.get_col_ref(col_i).create_standalone_line();
    if !col_line.is_solvable() {
        proof {
            assert forall|s: Board| !solution_of(nb, s) by {
                if solution_of(nb, s) {
                    lemma_board_refines_lines(nb, s);
                    lemma_infeasible_no_solution(
                        nb.spec_col(col_i as int),
                        nb.spec_col_constraints(col_i as int),
                        s.spec_col(col_i as int),
                    );
                }
            }
        }
        return (nb, false);
    }
    proof {
        assert forall|rr: int|
            0 <= rr < nb.spec_height() && complete(#[trigger] nb.spec_row(rr)) implies feasible(
            nb.spec_row(rr),
            nb.spec_row_constraints(rr),
        ) by {
            if rr != row_i {
                assert(nb.spec_row(rr) == b0.spec_row(rr));
            }
        }
        assert forall|c: int|
            0 <= c < nb.spec_width() && complete(#[trigger] nb.spec_col(c)) implies feasible(
            nb.spec_col(c),
            nb.spec_col_constraints(c),
        ) by {
            if c != col_i {
                assert(nb.spec_col(c) == b0.spec_col(c));
            }
        }
    }
    (nb, true)
}

/// A stalled board with one pivot cell determined is at a fixpoint on every
/// line but the pivot's own row and column, and those two are queued.
proof fn lemma_unqueued_branch(
    bst: Board,
    nb: Board,
    q: PrioritySet,
    col_i: int,
    row_i: int,
)
    requires
        board_fixpoint(bst),
        same_puzzle(bst, nb),
        nb.spec_width() == bst.spec_width(),
        nb.spec_height() == bst.spec_height(),
        0 <= col_i < bst.spec_width(),
        0 <= row_i < bst.spec_height(),
        forall|rr: int|
            0 <= rr < bst.spec_height() && rr != row_i ==> #[trigger] nb.spec_row(rr)
                == bst.spec_row(rr),
        forall|c: int|
            0 <= c < bst.spec_width() && c != col_i ==> #[trigger] nb.spec_col(c) == bst.spec_col(
                c,
            ),
        q.spec_contains((LineInfo { index: row_i as Unit, linetype: LineType::Row })),
        q.spec_contains((LineInfo { index: col_i as Unit, linetype: LineType::Column })),
    ensures
        unqueued_fixpoint(nb, q),
{
    assert forall|r: int|
        0 <= r < nb.spec_height() && !q.spec_contains(
            (LineInfo { index: r as Unit, linetype: LineType::Row }),
        ) implies line_fixpoint(#[trigger] nb.spec_row(r), nb.spec_row_constraints(r)) by {
        assert(r != row_i);
        assert(nb.spec_row(r) == bst.spec_row(r));
        assert(nb.spec_row_constraints(r) == bst.spec_row_constraints(r));
    }
    assert forall|c: int|
        0 <= c < nb.spec_width() && !q.spec_contains(
            (LineInfo { index: c as Unit, linetype: LineType::Column }),
        ) implies line_fixpoint(#[trigger] nb.spec_col(c), nb.spec_col_constraints(c)) by {
        assert(c != col_i);
        assert(nb.spec_col(c) == bst.spec_col(c));
        assert(nb.spec_col_constraints(c) == bst.spec_col_constraints(c));
    }
}

/// The branching search over a prepared board, counter set, and queue: run
/// propagation, and when it stalls, split on the first undetermined cell,
/// exploring the empty branch before the filled one.
#[verifier::rlimit(100)]
fn _stupid_branched_solver_set(
    b: &mut Board,
    meta: &mut BoardMeta,
    to_solve: &mut PrioritySet,
    num_branches: &mut usize,
) -> (r: SolveResult)
    requires
        old(b).wf(),
        meta_matches(*old(b), *old(meta)),
        complete_lines_ok(*old(b)),
        old(to_solve).wf(),
        queue_valid(*old(to_solve), *old(b)),
        unqueued_fixpoint(*old(b), *old(to_solve)),
    ensures
        final(b).wf(),
        same_puzzle(*old(b), *final(b)),
        refines(old(b).spec_cells(), final(b).spec_cells()),
        r == SolveResult::Success ==> solution_of(*old(b), *final(b)),
        r == SolveResult::Contradiction ==> forall|s: Board| !solution_of(*old(b), s),
        *final(num_branches) >= *old(num_branches),
        *old(num_branches) < usize::MAX ==> *final(num_branches) >= *old(num_branches) + 1,
    decreases old(meta).num_unsolved,
{
    count_branch(num_branches);
    let ghost b0 = *b;
    match stupid_solver_set(b, meta, to_solve) {
        Some(SolveResult::Success) => {
            return SolveResult::Success;
        },
        Some(SolveResult::Contradiction) => {
            return SolveResult::Contradiction;
        },
        None => {
            let ghost bst = *b;
            // Stalled: pick the first undetermined cell as the pivot.
            let index = match find_unknown(b) {
                Some(index) => index,
                None => {
                    proof {
                        lemma_count_unknown_zero(b.spec_cells());
                        assert(false);
                    }
                    return SolveResult::Contradiction;
                },
            };
            proof {
                b.lemma_cells_len();
                assert(b.spec_width() > 0) by (nonlinear_arith)
                    requires
                        0 <= b.spec_width(),
                        0 <= b.spec_height(),
                        0 < b.spec_width() * b.spec_height(),
                ;
            }
            let (col_i, row_i) = b.get_coordinate(index);
            proof {
                b.lemma_cell_index(col_i as int, row_i as int);
                assert(b.spec_cell(col_i as int, row_i as int) == Cell::Unknown);
                lemma_count_unknown_pos(b.spec_row(row_i as int), col_i as int);
                lemma_count_unknown_pos(b.spec_col(col_i as int), row_i as int);
                lemma_count_unknown_pos(b.spec_cells(), index as int);
            }
            // The pivot is about to be determined on both branches.
            to_solve.insert(LineInfo { index: row_i, linetype: LineType::Row });
            to_solve.insert(LineInfo { index: col_i, linetype: LineType::Column });
            meta.solve(col_i, row_i);
            // Branch A: the pivot empty, on copies of all the state.
            let (mut board_e, ok_e) = make_branch(b, col_i, row_i, Cell::Empty);
            let ghost board_e0 = board_e;
            proof {
                assert(meta_matches(board_e0, *meta)) by {
                    assert forall|r2: int|
                        0 <= r2 < board_e0.spec_height() implies #[trigger] meta.unsolved_per_row@[r2]
                        == count_unknown(board_e0.spec_row(r2)) by {
                        if r2 != row_i {
                            assert(board_e0.spec_row(r2) == bst.spec_row(r2));
                        }
                    }
                    assert forall|c2: int|
                        0 <= c2 < board_e0.spec_width() implies #[trigger] meta.unsolved_per_column@[c2]
                        == count_unknown(board_e0.spec_col(c2)) by {
                        if c2 != col_i {
                            assert(board_e0.spec_col(c2) == bst.spec_col(c2));
                        }
                    }
                }
                assert(queue_valid(*to_solve, board_e0));
                lemma_unqueued_branch(bst, board_e0, *to_solve, col_i as int, row_i as int);
            }
            let empty_result = if ok_e {
                let mut meta_e = meta.clone();
                let mut queue_e = to_solve.clone();
                proof {
                    assert forall|k: LineInfo| queue_e.spec_contains(k) implies to_solve.spec_contains(
                        k,
                    ) by {
                        let t2 = choose|t2: int|
                            0 <= t2 < queue_e@.len() && (#[trigger] queue_e@[t2]).0 == k;
                        assert(to_solve@[t2].0 == k);
                    }
                    assert forall|k: LineInfo| to_solve.spec_contains(k) implies queue_e.spec_contains(
                        k,
                    ) by {
                        let t2 = choose|t2: int|
                            0 <= t2 < to_solve@.len() && (#[trigger] to_solve@[t2]).0 == k;
                        assert(queue_e@[t2].0 == k);
                    }
                    assert(queue_valid(queue_e, board_e0));
                    assert(unqueued_fixpoint(board_e0, queue_e));
                }
                _stupid_branched_solver_set(&mut board_e, &mut meta_e, &mut queue_e, num_branches)
            } else {
                SolveResult::Contradiction
            };
            if empty_result == SolveResult::Success {
                proof {
                    assert(solution_of(board_e0, board_e));
                    assert(board_refines(bst, board_e0));
                    assert forall|q: int|
                        0 <= q < bst.spec_cells().len() && bst.spec_cells()[q] != Cell::Unknown
                            implies #[trigger] board_e.spec_cells()[q] == bst.spec_cells()[q] by {
                        assert(board_e0.spec_cells()[q] == bst.spec_cells()[q]);
                    }
                    assert(solution_of(bst, board_e));
                    assert(solution_of(b0, board_e));
                }
                *b = board_e;
                return SolveResult::Success;
            }
            // Branch B: the pivot filled, on the state already updated.
            let (mut board_f, ok_f) = make_branch(b, col_i, row_i, Cell::Filled);
            let ghost board_f0 = board_f;
            proof {
                assert(meta_matches(board_f0, *meta)) by {
                    assert forall|r2: int|
                        0 <= r2 < board_f0.spec_height() implies #[trigger] meta.unsolved_per_row@[r2]
                        == count_unknown(board_f0.spec_row(r2)) by {
                        if r2 != row_i {
                            assert(board_f0.spec_row(r2) == bst.spec_row(r2));
                        }
                    }
                    assert forall|c2: int|
                        0 <= c2 < board_f0.spec_width() implies #[trigger] meta.unsolved_per_column@[c2]
                        == count_unknown(board_f0.spec_col(c2)) by {
                        if c2 != col_i {
                            assert(board_f0.spec_col(c2) == bst.spec_col(c2));
                        }
                    }
                }
                assert(queue_valid(*to_solve, board_f0));
                lemma_unqueued_branch(bst, board_f0, *to_solve, col_i as int, row_i as int);
            }
            let filled_result = if ok_f {
                _stupid_branched_solver_set(&mut board_f, meta, to_solve, num_branches)
            } else {
                SolveResult::Contradiction
            };
            if filled_result == SolveResult::Success {
                proof {
                    assert(solution_of(board_f0, board_f));
                    assert(board_refines(bst, board_f0));
                    assert forall|q: int|
                        0 <= q < bst.spec_cells().len() && bst.spec_cells()[q] != Cell::Unknown
                            implies #[trigger] board_f.spec_cells()[q] == bst.spec_cells()[q] by {
                        assert(board_f0.spec_cells()[q] == bst.spec_cells()[q]);
                    }
                    assert(solution_of(bst, board_f));
                    assert(solution_of(b0, board_f));
                }
                *b = board_f;
                return SolveResult::Success;
            }
            // Neither branch has a solution, so the stalled board has none.
            proof {
                lemma_split_pivot(bst, board_e0, board_f0, col_i as int, row_i as int);
                assert forall|s: Board| !solution_of(b0, s) by {
                    if solution_of(b0, s) {
                        assert(solution_of(bst, s));
                    }
                }
            }
            return SolveResult::Contradiction;
        },
    }
}

/// No board whose complete lines already break their constraints has a
/// solution.
proof fn lemma_bad_lines_no_solution(b: Board)
    requires
        b.wf(),
        !complete_lines_ok(b),
    ensures
        forall|s: Board| !solution_of(b, s),
{
    assert forall|s: Board| !solution_of(b, s) by {
        if solution_of(b, s) {
            lemma_board_refines_lines(b, s);
            if exists|r: int|
                0 <= r < b.spec_height() && complete(#[trigger] b.spec_row(r)) && !feasible(
                    b.spec_row(r),
                    b.spec_row_constraints(r),
                ) {
                let r = choose|r: int|
                    0 <= r < b.spec_height() && complete(#[trigger] b.spec_row(r)) && !feasible(
                        b.spec_row(r),
                        b.spec_row_constraints(r),
                    );
                lemma_infeasible_no_solution(
                    b.spec_row(r),
                    b.spec_row_constraints(r),
                    s.spec_row(r),
                );
            } else {
                let c = choose|c: int|
                    0 <= c < b.spec_width() && complete(#[trigger] b.spec_col(c)) && !feasible(
                        b.spec_col(c),
                        b.spec_col_constraints(c),
                    );
                lemma_infeasible_no_solution(
                    b.spec_col(c),
                    b.spec_col_constraints(c),
                    s.spec_col(c),
                );
            }
        }
    }
}

/// Line solving to quiescence, without branching: seed every line, run the
/// propagation driver, and report success, contradiction, or a stall
/// (`None`) when propagation converged with cells still undetermined.
pub fn stupid_solver(b: &mut Board) -> (r: Option<SolveResult>)
    requires
        old(b).wf(),
    ensures
        final(b).wf(),
        same_puzzle(*old(b), *final(b)),
        refines(old(b).spec_cells(), final(b).spec_cells()),
        forall|s: Board| solution_of(*old(b), s) <==> solution_of(*final(b), s),
        match r {
            Some(SolveResult::Success) => solution_of(*old(b), *final(b)),
            Some(SolveResult::Contradiction) => (forall|s: Board| !solution_of(*old(b), s))
                && some_line_infeasible(*final(b)),
            None => complete_lines_ok(*final(b)) && count_unknown(final(b).spec_cells()) != 0
                && board_fixpoint(*final(b)),
        },
{
    if !check_lines(b) {
        proof {
            lemma_bad_lines_no_solution(*b);
        }
        return Some(SolveResult::Contradiction);
    }
    let mut meta = build_meta(b);
    let mut to_solve = seed_queue(b);
    proof {
        assert(unqueued_fixpoint(*b, to_solve));
    }
    let ghost b0 = *b;
    let r = stupid_solver_set(b, &mut meta, &mut to_solve);
    proof {
        if r == Some(SolveResult::Success) {
            assert(solution_of(b0, *b));
        }
    }
    r
}

/// The full branching search: line solving to quiescence, then a split on
/// the first undetermined cell, the empty branch before the filled one.
/// Mutates the board into a solution when one exists; the second component
/// counts the branches that were opened.
pub fn stupid_branched_solver_set(b: &mut Board) -> (r: (SolveResult, usize))
    requires
        old(b).wf(),
    ensures
        final(b).wf(),
        same_puzzle(*old(b), *final(b)),
        refines(old(b).spec_cells(), final(b).spec_cells()),
        r.0 == SolveResult::Success ==> solution_of(*old(b), *final(b)),
        r.0 == SolveResult::Contradiction ==> forall|s: Board| !solution_of(*old(b), s),
        r.1 >= 1,
{
    if !check_lines(b) {
        proof {
            lemma_bad_lines_no_solution(*b);
        }
        return (SolveResult::Contradiction, 1);
    }
    let mut meta = build_meta(b);
    let mut to_solve = seed_queue(b);
    proof {
        assert(unqueued_fixpoint(*b, to_solve));
    }
    let mut n_branches: usize = 0;
    let value = _stupid_branched_solver_set(b, &mut meta, &mut to_solve, &mut n_branches);
    (value, n_branches)
}

/// The branching search under its historical name: the same queue-driven
/// search as `stupid_branched_solver_set`.
pub fn stupid_branched_solver(b: &mut Board) -> (r: (SolveResult, usize))
    requires
        old(b).wf(),
    ensures
        final(b).wf(),
        same_puzzle(*old(b), *final(b)),
        refines(old(b).spec_cells(), final(b).spec_cells()),
        r.0 == SolveResult::Success ==> solution_of(*old(b), *final(b)),
        r.0 == SolveResult::Contradiction ==> forall|s: Board| !solution_of(*old(b), s),
        r.1 >= 1,
{
    stupid_branched_solver_set(b)
}

} // verus!
