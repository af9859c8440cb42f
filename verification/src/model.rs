//! The mathematical model of a single line: placements of constraint runs,
//! consistency with a partial line, and the cells forced by that model.
//!
//! A *placement* assigns a start position to every constraint of a line.  It
//! is valid when every run lies inside the line and consecutive runs are
//! separated by at least one cell.  A placement *agrees* with a partial line
//! when it fills every cell already known filled and leaves every cell known
//! empty uncovered.  Everything the solver reports is stated against the set
//! of consistent placements.

use vstd::prelude::*;
use crate::board::{Cell, Constraint};

verus! {

/// All constraint lengths are at least one.
pub open spec fn wf_constraints(cs: Seq<Constraint>) -> bool {
    forall|i: int| 0 <= i < cs.len() ==> #[trigger] cs[i].len() >= 1
}

/// Position `p` lies inside one of the runs that `starts` places.
pub open spec fn covers(starts: Seq<int>, cs: Seq<Constraint>, p: int) -> bool {
    exists|i: int|
        0 <= i < cs.len() && #[trigger] starts[i] <= p < starts[i] + cs[i].len()
}

/// `starts` places every run of `cs` inside a line of length `len`,
/// in order, with at least one separating cell between consecutive runs.
pub open spec fn valid_starts(starts: Seq<int>, cs: Seq<Constraint>, len: int) -> bool {
    &&& starts.len() == cs.len()
    &&& forall|i: int|
        0 <= i < cs.len() ==> 0 <= #[trigger] starts[i] && starts[i] + cs[i].len() <= len
    &&& forall|i: int|
        0 < i < cs.len() ==> #[trigger] starts[i] >= starts[i - 1] + cs[i - 1].len() + 1
}

/// The placement fills every cell of `line` already known filled and
/// leaves every cell known empty uncovered.
pub open spec fn agrees(line: Seq<Cell>, cs: Seq<Constraint>, starts: Seq<int>) -> bool {
    forall|p: int|
        0 <= p < line.len() ==> {
            &&& (#[trigger] line[p] == Cell::Filled ==> covers(starts, cs, p))
            &&& (line[p] == Cell::Empty ==> !covers(starts, cs, p))
        }
}

/// A placement that is valid for the line's length and agrees with its
/// determined cells.
pub open spec fn consistent(line: Seq<Cell>, cs: Seq<Constraint>, starts: Seq<int>) -> bool {
    valid_starts(starts, cs, line.len() as int) && agrees(line, cs, starts)
}

/// At least one consistent placement exists.
pub open spec fn feasible(line: Seq<Cell>, cs: Seq<Constraint>) -> bool {
    exists|starts: Seq<int>| consistent(line, cs, starts)
}

/// Every consistent placement fills position `p`.
pub open spec fn forced_filled(line: Seq<Cell>, cs: Seq<Constraint>, p: int) -> bool {
    forall|starts: Seq<int>| consistent(line, cs, starts) ==> covers(starts, cs, p)
}

/// Every consistent placement leaves position `p` uncovered.
pub open spec fn forced_empty(line: Seq<Cell>, cs: Seq<Constraint>, p: int) -> bool {
    forall|starts: Seq<int>| consistent(line, cs, starts) ==> !covers(starts, cs, p)
}

/// What the line solver guarantees of its output line `new` against its
/// input line `old`: some placement is consistent with `old`, and a cell of
/// `new` is filled exactly when `old` forces it filled and empty exactly when
/// `old` forces it empty.  Cells neither forced stay undetermined.
pub open spec fn solved_line(old: Seq<Cell>, new: Seq<Cell>, cs: Seq<Constraint>) -> bool {
    &&& new.len() == old.len()
    &&& feasible(old, cs)
    &&& forall|p: int|
        0 <= p < old.len() ==> {
            &&& ((#[trigger] new[p]) == Cell::Filled <==> forced_filled(old, cs, p))
            &&& (new[p] == Cell::Empty <==> forced_empty(old, cs, p))
        }
}

/// The line is a fixed point of single-line reasoning: every cell that the
/// consistent placements agree on already carries that value, so another
/// solver run would change nothing.
pub open spec fn line_fixpoint(l: Seq<Cell>, cs: Seq<Constraint>) -> bool {
    forall|p: int|
        0 <= p < l.len() ==> {
            &&& (forced_filled(l, cs, p) ==> #[trigger] l[p] == Cell::Filled)
            &&& (forced_empty(l, cs, p) ==> l[p] == Cell::Empty)
        }
}

/// Every cell determined in `old` keeps its value in `new`.
pub open spec fn refines(old: Seq<Cell>, new: Seq<Cell>) -> bool {
    &&& new.len() == old.len()
    &&& forall|p: int| 0 <= p < old.len() && old[p] != Cell::Unknown ==> #[trigger] new[p] == old[p]
}

/// `ret` lists, in increasing order, exactly the cells that the solver
/// changed: those undetermined before and determined after.
pub open spec fn reported_changes(old: Seq<Cell>, new: Seq<Cell>, ret: Seq<crate::board::Unit>) -> bool {
    &&& forall|t: int| 0 <= t < ret.len() ==> (#[trigger] ret[t]) < old.len()
    &&& forall|t: int| 0 < t < ret.len() ==> ret[t - 1] < #[trigger] ret[t]
    &&& forall|p: int|
        0 <= p < old.len() ==> ((old[p] == Cell::Unknown && #[trigger] new[p] != Cell::Unknown)
            <==> ret.contains(p as crate::board::Unit))
}

/// The sum of the first `i` constraint lengths.
pub open spec fn sum_prefix(cs: Seq<Constraint>, i: int) -> int
    decreases i,
{
    if i <= 0 {
        0
    } else {
        sum_prefix(cs, i - 1) + cs[i - 1].len()
    }
}

/// The earliest start position of constraint `i`: the `i` runs before it and
/// their `i` separators occupy at least this many cells.
pub open spec fn left_bound(cs: Seq<Constraint>, i: int) -> int {
    i + sum_prefix(cs, i)
}

/// The number of spare empty cells of a line of length `len`:
/// offsets of a run from its earliest start range over `0 ..= slack`.
pub open spec fn slack(cs: Seq<Constraint>, len: int) -> int {
    len + 1 - left_bound(cs, cs.len() as int)
}

/// No cell of `line[a..b]` is filled.
pub open spec fn no_filled(line: Seq<Cell>, a: int, b: int) -> bool {
    forall|p: int| a <= p < b && 0 <= p < line.len() ==> #[trigger] line[p] != Cell::Filled
}

/// No cell of `line[a..b]` is empty.
pub open spec fn no_empty(line: Seq<Cell>, a: int, b: int) -> bool {
    forall|p: int| a <= p < b && 0 <= p < line.len() ==> #[trigger] line[p] != Cell::Empty
}

/// A run of `len` filled cells with empty or undetermined neighbours can be
/// written at position `pos` without contradicting a determined cell.
pub open spec fn can_fit(line: Seq<Cell>, pos: int, len: int) -> bool {
    &&& (pos > 0 ==> line[pos - 1] != Cell::Filled)
    &&& (pos + len < line.len() ==> line[pos + len] != Cell::Filled)
    &&& no_empty(line, pos, pos + len)
}

/// Every cell of the line is determined.
pub open spec fn complete(line: Seq<Cell>) -> bool {
    forall|p: int| 0 <= p < line.len() ==> #[trigger] line[p] != Cell::Unknown
}

/// The number of undetermined cells of the line.
pub open spec fn count_unknown(line: Seq<Cell>) -> int
    decreases line.len(),
{
    if line.len() == 0 {
        0
    } else {
        count_unknown(line.drop_last()) + if line.last() == Cell::Unknown {
            1int
        } else {
            0int
        }
    }
}

/// The number of undetermined cells lies between zero and the length.
pub proof fn lemma_count_unknown_bounds(s: Seq<Cell>)
    ensures
        0 <= count_unknown(s) <= s.len(),
    decreases s.len(),
{
    if s.len() > 0 {
        lemma_count_unknown_bounds(s.drop_last());
    }
}

/// A line has no undetermined cell exactly when its count of them is zero.
pub proof fn lemma_count_unknown_zero(s: Seq<Cell>)
    ensures
        (count_unknown(s) == 0) == complete(s),
    decreases s.len(),
{
    if s.len() > 0 {
        lemma_count_unknown_zero(s.drop_last());
        lemma_count_unknown_bounds(s.drop_last());
        assert(forall|p: int| 0 <= p < s.len() - 1 ==> s.drop_last()[p] == s[p]);
        if complete(s) {
            assert(complete(s.drop_last()));
        }
        if count_unknown(s) == 0 {
            assert(s.last() != Cell::Unknown);
        }
    }
}

/// A line with an undetermined cell counts at least one.
pub proof fn lemma_count_unknown_pos(s: Seq<Cell>, i: int)
    requires
        0 <= i < s.len(),
        s[i] == Cell::Unknown,
    ensures
        count_unknown(s) >= 1,
    decreases s.len(),
{
    lemma_count_unknown_bounds(s.drop_last());
    if i < s.len() - 1 {
        lemma_count_unknown_pos(s.drop_last(), i);
    }
}

/// An all-undetermined line has as many undetermined cells as its length.
pub proof fn lemma_count_unknown_all(s: Seq<Cell>)
    requires
        forall|p: int| 0 <= p < s.len() ==> #[trigger] s[p] == Cell::Unknown,
    ensures
        count_unknown(s) == s.len(),
    decreases s.len(),
{
    if s.len() > 0 {
        lemma_count_unknown_all(s.drop_last());
    }
}

/// Overwriting one cell changes the count of undetermined cells by exactly
/// the difference the two values make.
pub proof fn lemma_count_unknown_update(s: Seq<Cell>, i: int, v: Cell)
    requires
        0 <= i < s.len(),
    ensures
        count_unknown(s.update(i, v)) == count_unknown(s) - (if s[i] == Cell::Unknown {
            1int
        } else {
            0int
        }) + (if v == Cell::Unknown {
            1int
        } else {
            0int
        }),
    decreases s.len(),
{
    let t = s.update(i, v);
    if i == s.len() - 1 {
        assert(t.drop_last() =~= s.drop_last());
    } else {
        assert(t.drop_last() =~= s.drop_last().update(i, v));
        lemma_count_unknown_update(s.drop_last(), i, v);
    }
}

/// The run lengths read off a line from position `p` on, with `cur` filled
/// cells of the current run already seen.
pub open spec fn runs_from(line: Seq<Cell>, p: int, cur: int) -> Seq<int>
    decreases line.len() - p,
{
    if p < 0 || p >= line.len() {
        if cur > 0 {
            seq![cur]
        } else {
            Seq::empty()
        }
    } else if line[p] == Cell::Filled {
        runs_from(line, p + 1, cur + 1)
    } else if cur > 0 {
        seq![cur] + runs_from(line, p + 1, 0)
    } else {
        runs_from(line, p + 1, 0)
    }
}

/// The ordered lengths of the maximal runs of filled cells of the line.
pub open spec fn runs_of(line: Seq<Cell>) -> Seq<int> {
    runs_from(line, 0, 0)
}

/// The lengths named by a constraint list.
pub open spec fn lengths_of(cs: Seq<Constraint>) -> Seq<int> {
    cs.map_values(|c: Constraint| c.len())
}

broadcast use crate::board::lemma_constraint_len_bounds;

// ---------------------------------------------------------------------------
// A complete line satisfies exactly the constraints its runs spell out.
// ---------------------------------------------------------------------------

/// Every start position moved right by `d`.
pub open spec fn shift_starts(starts: Seq<int>, d: int) -> Seq<int> {
    Seq::new(starts.len(), |i: int| starts[i] + d)
}

/// The first position at or past `p` that is not filled, or the line's end.
pub open spec fn run_end_from(line: Seq<Cell>, p: int) -> int
    decreases line.len() - p,
{
    if p < 0 || p >= line.len() || line[p] != Cell::Filled {
        p
    } else {
        run_end_from(line, p + 1)
    }
}

/// The leading run scan stops at the first cell that is not filled.
pub proof fn lemma_run_end_from(line: Seq<Cell>, p: int)
    requires
        0 <= p <= line.len(),
    ensures
        p <= run_end_from(line, p) <= line.len(),
        forall|q: int| p <= q < run_end_from(line, p) ==> #[trigger] line[q] == Cell::Filled,
        run_end_from(line, p) < line.len() ==> line[run_end_from(line, p)] != Cell::Filled,
    decreases line.len() - p,
{
    if p < line.len() && line[p] == Cell::Filled {
        lemma_run_end_from(line, p + 1);
    }
}

/// Reading runs from inside a filled block accumulates the block.
pub proof fn lemma_runs_through_filled(line: Seq<Cell>, p: int, cur: int, e: int)
    requires
        0 <= p <= e <= line.len(),
        forall|q: int| p <= q < e ==> #[trigger] line[q] == Cell::Filled,
    ensures
        runs_from(line, p, cur) == runs_from(line, e, cur + (e - p)),
    decreases e - p,
{
    if p < e {
        lemma_runs_through_filled(line, p + 1, cur + 1, e);
    }
}

/// Reading runs is unmoved by dropping an already-scanned prefix.
pub proof fn lemma_runs_skip(line: Seq<Cell>, m: int, p: int, cur: int)
    requires
        0 <= m <= p,
        m <= line.len(),
    ensures
        runs_from(line, p, cur) == runs_from(line.skip(m), p - m, cur),
    decreases line.len() - p,
{
    if p >= line.len() {
        assert(p - m >= line.skip(m).len());
    } else {
        assert(line.skip(m)[p - m] == line[p]);
        lemma_runs_skip(line, m, p + 1, cur + 1);
        lemma_runs_skip(line, m, p + 1, 0);
    }
}

/// A placement of a suffix line lifts to the whole line when the dropped
/// prefix holds no filled cell beyond what the placement explains.
pub proof fn lemma_consistent_unshift(line: Seq<Cell>, cs: Seq<Constraint>, starts: Seq<int>)
    requires
        line.len() >= 1,
        line[0] != Cell::Filled,
        consistent(line.skip(1), cs, starts),
    ensures
        consistent(line, cs, shift_starts(starts, 1)),
{
    let tail = line.skip(1);
    let s2 = shift_starts(starts, 1);
    assert(valid_starts(s2, cs, line.len() as int));
    assert forall|p: int| 0 <= p < line.len() implies ((#[trigger] line[p] == Cell::Filled
        ==> covers(s2, cs, p)) && (line[p] == Cell::Empty ==> !covers(s2, cs, p))) by {
        if p == 0 {
            assert(!covers(s2, cs, 0)) by {
                if covers(s2, cs, 0) {
                    let i = choose|i: int|
                        0 <= i < cs.len() && #[trigger] s2[i] <= 0 < s2[i] + cs[i].len();
                    assert(starts[i] >= 0);
                }
            }
        } else {
            assert(line[p] == tail[p - 1]);
            assert(covers(s2, cs, p) == covers(starts, cs, p - 1)) by {
                if covers(s2, cs, p) {
                    let i = choose|i: int|
                        0 <= i < cs.len() && #[trigger] s2[i] <= p < s2[i] + cs[i].len();
                    assert(starts[i] <= p - 1 < starts[i] + cs[i].len());
                }
                if covers(starts, cs, p - 1) {
                    let i = choose|i: int|
                        0 <= i < cs.len() && #[trigger] starts[i] <= p - 1 < starts[i]
                            + cs[i].len();
                    assert(s2[i] <= p < s2[i] + cs[i].len());
                }
            }
        }
    }
}

/// A placement of the line past a leading filled run and its separator lifts
/// to the whole line, with the leading run placed at its start.
pub proof fn lemma_consistent_prepend_run(
    line: Seq<Cell>,
    cs: Seq<Constraint>,
    starts: Seq<int>,
    k: int,
)
    requires
        cs.len() >= 1,
        cs[0].len() == k,
        1 <= k,
        k + 1 <= line.len(),
        forall|p: int| 0 <= p < k ==> #[trigger] line[p] == Cell::Filled,
        line[k] != Cell::Filled,
        consistent(line.skip(k + 1), cs.skip(1), starts),
    ensures
        consistent(line, cs, seq![0int] + shift_starts(starts, k + 1)),
{
    let tail = line.skip(k + 1);
    let cs2 = cs.skip(1);
    let s2 = seq![0int] + shift_starts(starts, k + 1);
    assert(s2.len() == cs.len());
    assert forall|i: int| 0 <= i < cs.len() implies 0 <= #[trigger] s2[i] && s2[i] + cs[i].len()
        <= line.len() by {
        if i > 0 {
            assert(s2[i] == starts[i - 1] + k + 1);
            assert(cs[i] == cs2[i - 1]);
        }
    }
    assert forall|i: int| 0 < i < cs.len() implies #[trigger] s2[i] >= s2[i - 1] + cs[i - 1].len()
        + 1 by {
        if i == 1 {
            assert(s2[1] == starts[0] + k + 1 && s2[0] == 0);
        } else {
            assert(s2[i] == starts[i - 1] + k + 1 && s2[i - 1] == starts[i - 2] + k + 1);
            assert(cs[i - 1] == cs2[i - 2]);
        }
    }
    assert forall|p: int| 0 <= p < line.len() implies ((#[trigger] line[p] == Cell::Filled
        ==> covers(s2, cs, p)) && (line[p] == Cell::Empty ==> !covers(s2, cs, p))) by {
        if p < k {
            assert(s2[0] <= p < s2[0] + cs[0].len());
            assert(covers(s2, cs, p));
        } else if p == k {
            assert(!covers(s2, cs, p)) by {
                if covers(s2, cs, p) {
                    let i = choose|i: int|
                        0 <= i < cs.len() && #[trigger] s2[i] <= p < s2[i] + cs[i].len();
                    if i > 0 {
                        assert(s2[i] == starts[i - 1] + k + 1);
                        assert(starts[i - 1] >= 0);
                    }
                }
            }
        } else {
            assert(line[p] == tail[p - k - 1]);
            assert(covers(s2, cs, p) == covers(starts, cs2, p - k - 1)) by {
                if covers(s2, cs, p) {
                    let i = choose|i: int|
                        0 <= i < cs.len() && #[trigger] s2[i] <= p < s2[i] + cs[i].len();
                    assert(i > 0);
                    assert(starts[i - 1] <= p - k - 1 < starts[i - 1] + cs2[i - 1].len());
                    assert(covers(starts, cs2, p - k - 1));
                }
                if covers(starts, cs2, p - k - 1) {
                    let i = choose|i: int|
                        0 <= i < cs2.len() && #[trigger] starts[i] <= p - k - 1 < starts[i]
                            + cs2[i].len();
                    assert(s2[i + 1] <= p < s2[i + 1] + cs[i + 1].len());
                }
            }
        }
    }
}

/// A complete line admits a placement of the constraints its own runs spell
/// out: the line itself, read back as a placement.
pub proof fn lemma_runs_feasible(line: Seq<Cell>, cs: Seq<Constraint>)
    requires
        complete(line),
        wf_constraints(cs),
        lengths_of(cs) == runs_of(line),
    ensures
        feasible(line, cs),
    decreases line.len(),
{
    if line.len() == 0 {
        assert(runs_of(line) =~= Seq::<int>::empty());
        assert(cs.len() == 0) by {
            assert(lengths_of(cs).len() == cs.len());
        }
        let w = Seq::<int>::empty();
        assert(consistent(line, cs, w));
    } else if line[0] != Cell::Filled {
        // The leading cell is empty: the runs are those of the rest.
        let tail = line.skip(1);
        assert(runs_of(line) == runs_of(tail)) by {
            lemma_runs_skip(line, 1, 1, 0);
        }
        assert(complete(tail)) by {
            assert(forall|p: int| 0 <= p < tail.len() ==> tail[p] == line[p + 1]);
        }
        lemma_runs_feasible(tail, cs);
        let w = choose|w: Seq<int>| consistent(tail, cs, w);
        lemma_consistent_unshift(line, cs, w);
        assert(consistent(line, cs, shift_starts(w, 1)));
    } else {
        // The leading cell opens a run of length k.
        let k = run_end_from(line, 0);
        lemma_run_end_from(line, 0);
        assert(k >= 1);
        assert(runs_of(line) == runs_from(line, k, k)) by {
            lemma_runs_through_filled(line, 0, 0, k);
        }
        if k == line.len() {
            // The whole line is one run.
            assert(runs_of(line) =~= seq![k]);
            assert(lengths_of(cs).len() == cs.len());
            assert(cs.len() == 1 && cs[0].len() == k) by {
                assert(lengths_of(cs)[0] == cs[0].len());
            }
            let w = seq![0int];
            assert(consistent(line, cs, w)) by {
                assert forall|p: int| 0 <= p < line.len() implies ((#[trigger] line[p]
                    == Cell::Filled ==> covers(w, cs, p)) && (line[p] == Cell::Empty ==> !covers(
                    w,
                    cs,
                    p,
                ))) by {
                    assert(w[0] <= p < w[0] + cs[0].len());
                }
            }
        } else {
            // The run ends before the line does; an empty cell follows.
            assert(line[k] != Cell::Filled && line[k] != Cell::Unknown);
            assert(runs_from(line, k, k) == seq![k] + runs_from(line, k + 1, 0));
            let tail = line.skip(k + 1);
            assert(runs_from(line, k + 1, 0) == runs_of(tail)) by {
                lemma_runs_skip(line, k + 1, k + 1, 0);
            }
            assert(lengths_of(cs) == seq![k] + runs_of(tail));
            assert(cs.len() == runs_of(tail).len() + 1) by {
                assert(lengths_of(cs).len() == cs.len());
            }
            assert(cs[0].len() == k) by {
                assert(lengths_of(cs)[0] == cs[0].len());
            }
            let cs2 = cs.skip(1);
            assert(lengths_of(cs2) =~= runs_of(tail)) by {
                assert forall|i: int| 0 <= i < cs2.len() implies lengths_of(cs2)[i] == runs_of(
                    tail,
                )[i] by {
                    assert(lengths_of(cs2)[i] == cs2[i].len());
                    assert(cs2[i] == cs[i + 1]);
                    assert(lengths_of(cs)[i + 1] == cs[i + 1].len());
                    assert((seq![k] + runs_of(tail))[i + 1] == runs_of(tail)[i]);
                }
            }
            assert(complete(tail)) by {
                assert(forall|p: int| 0 <= p < tail.len() ==> tail[p] == line[p + k + 1]);
            }
            assert(wf_constraints(cs2)) by {
                assert(forall|i: int| 0 <= i < cs2.len() ==> #[trigger] cs2[i] == cs[i + 1]);
            }
            lemma_runs_feasible(tail, cs2);
            let w = choose|w: Seq<int>| consistent(tail, cs2, w);
            lemma_consistent_prepend_run(line, cs, w, k);
            assert(consistent(line, cs, seq![0int] + shift_starts(w, k + 1)));
        }
    }
}

// ---------------------------------------------------------------------------
// The placement graph.  Node (i, j) stands for "run i starts at offset j past
// its earliest start"; an edge (i, j) -> (i+1, k) stands for the gap between
// the two runs.  A whole-line placement is a chain of viable nodes joined by
// viable edges.
// ---------------------------------------------------------------------------

/// Run `i` can be written at offset `j` without contradicting a determined
/// cell: the run itself on no empty cell, its immediate neighbours not
/// filled, and for the outermost runs the whole outer region not filled.
#[verifier::opaque]
pub open spec fn node_viable(line: Seq<Cell>, cs: Seq<Constraint>, i: int, j: int) -> bool {
    let s = left_bound(cs, i) + j;
    let e = s + cs[i].len();
    &&& can_fit(line, s, cs[i].len())
    &&& (i == 0 ==> no_filled(line, 0, s))
    &&& (i == cs.len() - 1 ==> no_filled(line, e, line.len() as int))
}

/// Runs `i` at offset `j` and `i + 1` at offset `k` leave no filled cell in
/// the gap strictly between them.  The separator cells themselves are part of
/// the two nodes' viability.
#[verifier::opaque]
pub open spec fn edge_ok(line: Seq<Cell>, cs: Seq<Constraint>, i: int, j: int, k: int) -> bool {
    &&& j <= k
    &&& no_filled(
        line,
        left_bound(cs, i) + j + cs[i].len() + 1,
        left_bound(cs, i + 1) + k - 1,
    )
}

/// One offset per run, each in range, every node viable and every
/// consecutive pair joined by a viable edge: a whole-line placement in graph
/// form.
pub open spec fn chain(line: Seq<Cell>, cs: Seq<Constraint>, js: Seq<int>) -> bool {
    &&& js.len() == cs.len()
    &&& forall|i: int| 0 <= i < js.len() ==> 0 <= #[trigger] js[i] <= slack(cs, line.len() as int)
    &&& forall|i: int| 0 <= i < js.len() ==> node_viable(line, cs, i, #[trigger] js[i])
    &&& forall|i: int| 0 < i < js.len() ==> edge_ok(line, cs, i - 1, js[i - 1], #[trigger] js[i])
}

/// Node (i, j) is viable and can be continued to the last layer through
/// viable nodes and edges.
pub open spec fn reaches_end(line: Seq<Cell>, cs: Seq<Constraint>, sl: int, i: int, j: int) -> bool
    decreases cs.len() - i,
{
    if 0 <= i < cs.len() {
        &&& node_viable(line, cs, i, j)
        &&& (i == cs.len() - 1 || exists|k: int|
            j <= k <= sl && #[trigger] edge_ok(line, cs, i, j, k) && reaches_end(
                line,
                cs,
                sl,
                i + 1,
                k,
            ))
    } else {
        false
    }
}

/// Node (i, j) can be reached from the first layer through viable nodes and
/// edges (the node itself need not be viable).
pub open spec fn from_start(line: Seq<Cell>, cs: Seq<Constraint>, sl: int, i: int, j: int) -> bool
    decreases i,
{
    if i <= 0 {
        i == 0
    } else {
        exists|j2: int|
            0 <= j2 <= sl && node_viable(line, cs, i - 1, j2) && #[trigger] edge_ok(
                line,
                cs,
                i - 1,
                j2,
                j,
            ) && from_start(line, cs, sl, i - 1, j2)
    }
}

/// Node (i, j) lies on at least one whole-line placement.
pub open spec fn on_full(line: Seq<Cell>, cs: Seq<Constraint>, sl: int, i: int, j: int) -> bool {
    from_start(line, cs, sl, i, j) && reaches_end(line, cs, sl, i, j)
}

/// The start positions named by a chain of offsets.
pub open spec fn starts_of(cs: Seq<Constraint>, js: Seq<int>) -> Seq<int> {
    Seq::new(js.len(), |i: int| left_bound(cs, i) + js[i])
}

/// The offsets named by a sequence of start positions.
pub open spec fn js_of(cs: Seq<Constraint>, starts: Seq<int>) -> Seq<int> {
    Seq::new(starts.len(), |i: int| starts[i] - left_bound(cs, i))
}

// ---------------------------------------------------------------------------
// Arithmetic facts about prefix sums and earliest starts.
// ---------------------------------------------------------------------------

/// Prefix sums of run lengths grow with the prefix.
pub proof fn lemma_sum_prefix_mono(cs: Seq<Constraint>, i1: int, i2: int)
    requires
        0 <= i1 <= i2,
    ensures
        sum_prefix(cs, i1) <= sum_prefix(cs, i2),
    decreases i2 - i1,
{
    if i1 < i2 {
        lemma_sum_prefix_mono(cs, i1, i2 - 1);
    }
}

/// Each constraint adds at least one cell to the prefix sum.
pub proof fn lemma_sum_prefix_ge(cs: Seq<Constraint>, i: int)
    requires
        wf_constraints(cs),
        0 <= i <= cs.len(),
    ensures
        sum_prefix(cs, i) >= i,
    decreases i,
{
    if i > 0 {
        lemma_sum_prefix_ge(cs, i - 1);
    }
}

/// Earliest starts grow by a run length plus a separator per step.
pub proof fn lemma_left_bound_mono(cs: Seq<Constraint>, i1: int, i2: int)
    requires
        wf_constraints(cs),
        0 <= i1 < i2 <= cs.len(),
    ensures
        left_bound(cs, i2) >= left_bound(cs, i1) + cs[i1].len() + 1 + 2 * (i2 - i1 - 1),
        left_bound(cs, i2) >= left_bound(cs, i1) + 2 * (i2 - i1),
        left_bound(cs, i1 + 1) == left_bound(cs, i1) + cs[i1].len() + 1,
    decreases i2 - i1,
{
    assert(sum_prefix(cs, i1 + 1) == sum_prefix(cs, i1) + cs[i1].len());
    if i2 > i1 + 1 {
        lemma_left_bound_mono(cs, i1 + 1, i2);
    }
}

/// Earliest starts are non-negative.
pub proof fn lemma_left_bound_nonneg(cs: Seq<Constraint>, i: int)
    requires
        wf_constraints(cs),
        0 <= i <= cs.len(),
    ensures
        left_bound(cs, i) >= 2 * i,
        left_bound(cs, i) >= 0,
    decreases i,
{
    lemma_sum_prefix_ge(cs, i);
}

// ---------------------------------------------------------------------------
// Facts about valid placements.
// ---------------------------------------------------------------------------

/// Later runs start after earlier runs end, with a separator between.
pub proof fn lemma_starts_mono(starts: Seq<int>, cs: Seq<Constraint>, len: int, i1: int, i2: int)
    requires
        valid_starts(starts, cs, len),
        0 <= i1 <= i2 < cs.len(),
    ensures
        starts[i2] >= starts[i1],
        i1 < i2 ==> starts[i2] >= starts[i1] + cs[i1].len() + 1,
    decreases i2 - i1,
{
    if i1 < i2 {
        lemma_starts_mono(starts, cs, len, i1 + 1, i2);
    }
}

/// Find, for a position at or past the first run's start, the last run that
/// starts at or before it.
pub proof fn lemma_find_region(
    starts: Seq<int>,
    cs: Seq<Constraint>,
    len: int,
    p: int,
    lo: int,
) -> (i: int)
    requires
        valid_starts(starts, cs, len),
        0 <= lo < cs.len(),
        starts[lo] <= p,
    ensures
        lo <= i < cs.len(),
        starts[i] <= p,
        i < cs.len() - 1 ==> p < starts[i + 1],
    decreases cs.len() - lo,
{
    if lo == cs.len() - 1 || p < starts[lo + 1] {
        lo
    } else {
        lemma_find_region(starts, cs, len, p, lo + 1)
    }
}

/// A position past the end of run `i` and before the start of run `i + 1`
/// (or past the last run, or before the first) is covered by no run.
pub proof fn lemma_uncovered_between(
    starts: Seq<int>,
    cs: Seq<Constraint>,
    len: int,
    i: int,
    p: int,
)
    requires
        valid_starts(starts, cs, len),
        -1 <= i < cs.len(),
        i >= 0 ==> p >= starts[i] + cs[i].len(),
        i + 1 < cs.len() ==> p < starts[i + 1],
    ensures
        !covers(starts, cs, p),
{
    assert forall|t: int| 0 <= t < cs.len() implies !(#[trigger] starts[t] <= p < starts[t]
        + cs[t].len()) by {
        if t <= i {
            lemma_starts_mono(starts, cs, len, t, i);
            if t < i {
                assert(starts[i] >= starts[t] + cs[t].len() + 1);
            }
        } else {
            lemma_starts_mono(starts, cs, len, i + 1, t);
        }
    }
}

// ---------------------------------------------------------------------------
// The bridge: chains of the placement graph are exactly the placements
// consistent with the line.
// ---------------------------------------------------------------------------

/// Every run of a valid placement starts at or past its earliest start.
pub proof fn lemma_starts_ge_left(starts: Seq<int>, cs: Seq<Constraint>, len: int, i: int)
    requires
        wf_constraints(cs),
        valid_starts(starts, cs, len),
        0 <= i < cs.len(),
    ensures
        starts[i] >= left_bound(cs, i),
    decreases i,
{
    if i == 0 {
        assert(left_bound(cs, 0) == 0);
    } else {
        lemma_starts_ge_left(starts, cs, len, i - 1);
        lemma_left_bound_mono(cs, i - 1, i);
    }
}

/// Every run of a valid placement starts at most `slack` past its earliest
/// start.
pub proof fn lemma_starts_le_left(starts: Seq<int>, cs: Seq<Constraint>, len: int, i: int)
    requires
        wf_constraints(cs),
        valid_starts(starts, cs, len),
        0 <= i < cs.len(),
    ensures
        starts[i] <= left_bound(cs, i) + slack(cs, len),
    decreases cs.len() - i,
{
    if i == cs.len() - 1 {
        lemma_left_bound_mono(cs, i, cs.len() as int);
    } else {
        lemma_starts_le_left(starts, cs, len, i + 1);
        lemma_left_bound_mono(cs, i, i + 1);
    }
}

/// A constraint list whose runs and separators do not fit the line admits no
/// valid placement.
pub proof fn lemma_negative_slack_infeasible(line: Seq<Cell>, cs: Seq<Constraint>)
    requires
        wf_constraints(cs),
        cs.len() >= 1,
        slack(cs, line.len() as int) < 0,
    ensures
        !feasible(line, cs),
{
    assert forall|starts: Seq<int>| !consistent(line, cs, starts) by {
        if consistent(line, cs, starts) {
            lemma_starts_ge_left(starts, cs, line.len() as int, 0);
            lemma_starts_le_left(starts, cs, line.len() as int, 0);
        }
    }
}

/// A chain of the placement graph names a placement consistent with the line.
pub proof fn lemma_chain_consistent(line: Seq<Cell>, cs: Seq<Constraint>, js: Seq<int>)
    requires
        wf_constraints(cs),
        cs.len() >= 1,
        slack(cs, line.len() as int) >= 0,
        chain(line, cs, js),
    ensures
        consistent(line, cs, starts_of(cs, js)),
{
    reveal(node_viable);
    reveal(edge_ok);
    let len = line.len() as int;
    let sl = slack(cs, len);
    let starts = starts_of(cs, js);
    let c = cs.len() as int;

    // valid_starts: bounds and separation.
    assert forall|i: int| 0 <= i < c implies 0 <= #[trigger] starts[i] && starts[i] + cs[i].len()
        <= len by {
        lemma_left_bound_nonneg(cs, i);
        if i < c - 1 {
            lemma_left_bound_mono(cs, i, i + 1);
            lemma_left_bound_mono(cs, i + 1, c);
            assert(left_bound(cs, c) == len + 1 - sl);
        } else {
            lemma_left_bound_mono(cs, i, c);
        }
    }
    assert forall|i: int| 0 < i < c implies #[trigger] starts[i] >= starts[i - 1] + cs[i
        - 1].len() + 1 by {
        lemma_left_bound_mono(cs, i - 1, i);
        assert(edge_ok(line, cs, i - 1, js[i - 1], js[i]));
    }
    assert(valid_starts(starts, cs, len));

    // agrees: determined cells are respected.
    assert forall|p: int| 0 <= p < len implies ((line[p] == Cell::Filled ==> covers(
        starts,
        cs,
        p,
    )) && (line[p] == Cell::Empty ==> !covers(starts, cs, p))) by {
        if covers(starts, cs, p) {
            // Covered cells lie inside some viable run, so they are not empty.
            let i = choose|i: int|
                0 <= i < cs.len() && #[trigger] starts[i] <= p < starts[i] + cs[i].len();
            assert(node_viable(line, cs, i, js[i]));
            assert(line[p] != Cell::Empty);
        } else {
            // Uncovered cells lie in a checked gap, so they are not filled.
            if p < starts[0] {
                assert(node_viable(line, cs, 0, js[0]));
                assert(line[p] != Cell::Filled);
            } else {
                let i = lemma_find_region(starts, cs, len, p, 0);
                let s = starts[i];
                let e = starts[i] + cs[i].len();
                assert(node_viable(line, cs, i, js[i]));
                assert(p >= e);  // otherwise p would be covered by run i
                if i == c - 1 {
                    assert(line[p] != Cell::Filled);  // outer right region of the last node
                } else {
                    assert(node_viable(line, cs, i + 1, js[i + 1]));
                    assert(edge_ok(line, cs, i, js[i], js[i + 1]));
                    if p == e {
                        assert(line[p] != Cell::Filled);  // right neighbour check of node i
                    } else if p == starts[i + 1] - 1 {
                        assert(starts[i + 1] > 0);
                        assert(line[p] != Cell::Filled);  // left neighbour check of node i+1
                    } else {
                        assert(e + 1 <= p < starts[i + 1] - 1);
                        assert(line[p] != Cell::Filled);  // gap check of the edge
                    }
                }
            }
        }
    }
}

/// A placement consistent with the line names a chain of the placement graph.
pub proof fn lemma_consistent_chain(line: Seq<Cell>, cs: Seq<Constraint>, starts: Seq<int>)
    requires
        wf_constraints(cs),
        cs.len() >= 1,
        consistent(line, cs, starts),
    ensures
        slack(cs, line.len() as int) >= 0,
        chain(line, cs, js_of(cs, starts)),
        starts_of(cs, js_of(cs, starts)) == starts,
    decreases 0int,
{
    reveal(node_viable);
    reveal(edge_ok);
    let len = line.len() as int;
    let sl = slack(cs, len);
    let js = js_of(cs, starts);
    let c = cs.len() as int;

    assert forall|i: int| 0 <= i < c implies 0 <= #[trigger] js[i] <= sl by {
        lemma_starts_ge_left(starts, cs, len, i);
        lemma_starts_le_left(starts, cs, len, i);
    }
    assert(slack(cs, len) >= 0) by {
        lemma_starts_ge_left(starts, cs, len, 0);
        lemma_starts_le_left(starts, cs, len, 0);
    }

    assert forall|i: int| 0 <= i < c implies node_viable(line, cs, i, #[trigger] js[i]) by {
        let s = starts[i];
        let e = starts[i] + cs[i].len();
        assert(left_bound(cs, i) + js[i] == s);
        // Inside the run: covered, so not empty.
        assert forall|p: int| s <= p < e && 0 <= p < line.len() implies #[trigger] line[p]
            != Cell::Empty by {
            assert(starts[i] <= p < starts[i] + cs[i].len());
            assert(covers(starts, cs, p));
        }
        // Immediate left neighbour: uncovered, so not filled.
        if s > 0 {
            lemma_uncovered_between(starts, cs, len, i - 1, s - 1);
        }
        // Immediate right neighbour: uncovered, so not filled.
        if e < len {
            lemma_uncovered_between(starts, cs, len, i, e);
        }
        // Whole left region for the first run.
        if i == 0 {
            assert forall|p: int| 0 <= p < s && 0 <= p < line.len() implies #[trigger] line[p]
                != Cell::Filled by {
                lemma_uncovered_between(starts, cs, len, -1, p);
            }
        }
        // Whole right region for the last run.
        if i == c - 1 {
            assert forall|p: int| e <= p < line.len() implies #[trigger] line[p]
                != Cell::Filled by {
                lemma_uncovered_between(starts, cs, len, c - 1, p);
            }
        }
    }

    assert forall|i: int| 0 < i < c implies edge_ok(line, cs, i - 1, js[i - 1], #[trigger] js[i]) by {
        lemma_left_bound_mono(cs, i - 1, i);
        let a = left_bound(cs, i - 1) + js[i - 1] + cs[i - 1].len() + 1;
        let b = left_bound(cs, i) + js[i] - 1;
        assert forall|p: int| a <= p < b && 0 <= p < line.len() implies #[trigger] line[p]
            != Cell::Filled by {
            lemma_uncovered_between(starts, cs, len, i - 1, p);
        }
    }

    assert(starts_of(cs, js_of(cs, starts)) =~= starts);
}

// ---------------------------------------------------------------------------
// How solving one line relates to whole-line solutions.
// ---------------------------------------------------------------------------

/// A placement consistent with a refinement of a line is consistent with the
/// line itself: refining only adds determined cells.
pub proof fn lemma_refine_consistent(
    old: Seq<Cell>,
    new: Seq<Cell>,
    cs: Seq<Constraint>,
    starts: Seq<int>,
)
    requires
        refines(old, new),
        consistent(new, cs, starts),
    ensures
        consistent(old, cs, starts),
{
    assert forall|p: int| 0 <= p < old.len() implies ((#[trigger] old[p] == Cell::Filled
        ==> covers(starts, cs, p)) && (old[p] == Cell::Empty ==> !covers(starts, cs, p))) by {
        if old[p] != Cell::Unknown {
            assert(new[p] == old[p]);
        }
    }
}

/// Every placement consistent with the solver's input line is consistent
/// with its output line: the solver only sets cells all placements agree on.
pub proof fn lemma_solved_line_consistent(
    old: Seq<Cell>,
    new: Seq<Cell>,
    cs: Seq<Constraint>,
    starts: Seq<int>,
)
    requires
        solved_line(old, new, cs),
        consistent(old, cs, starts),
    ensures
        consistent(new, cs, starts),
{
    assert forall|p: int| 0 <= p < new.len() implies ((#[trigger] new[p] == Cell::Filled ==> covers(
        starts,
        cs,
        p,
    )) && (new[p] == Cell::Empty ==> !covers(starts, cs, p))) by {
        if new[p] == Cell::Filled {
            assert(forced_filled(old, cs, p));
        }
        if new[p] == Cell::Empty {
            assert(forced_empty(old, cs, p));
        }
    }
}

/// The solver's output refines its input: determined cells keep their value.
pub proof fn lemma_solved_line_refines(old: Seq<Cell>, new: Seq<Cell>, cs: Seq<Constraint>)
    requires
        solved_line(old, new, cs),
    ensures
        refines(old, new),
{
    assert forall|p: int| 0 <= p < old.len() && old[p] != Cell::Unknown implies #[trigger] new[p]
        == old[p] by {
        if old[p] == Cell::Filled {
            assert forall|starts: Seq<int>| consistent(old, cs, starts) implies covers(
                starts,
                cs,
                p,
            ) by {}
            assert(forced_filled(old, cs, p));
            assert(!forced_empty(old, cs, p)) by {
                let ws = choose|starts: Seq<int>| consistent(old, cs, starts);
                assert(covers(ws, cs, p));
            }
        } else {
            assert forall|starts: Seq<int>| consistent(old, cs, starts) implies !covers(
                starts,
                cs,
                p,
            ) by {}
            assert(forced_empty(old, cs, p));
            assert(!forced_filled(old, cs, p)) by {
                let ws = choose|starts: Seq<int>| consistent(old, cs, starts);
                assert(!covers(ws, cs, p));
            }
        }
    }
}

/// A complete line satisfying the constraints that refines the solver's
/// input also refines its output: the solver never cuts off a solution.
pub proof fn lemma_solution_refines_solved(
    old: Seq<Cell>,
    new: Seq<Cell>,
    cs: Seq<Constraint>,
    s: Seq<Cell>,
)
    requires
        solved_line(old, new, cs),
        refines(old, s),
        complete(s),
        feasible(s, cs),
    ensures
        refines(new, s),
{
    let starts = choose|starts: Seq<int>| consistent(s, cs, starts);
    lemma_refine_consistent(old, s, cs, starts);
    assert forall|p: int| 0 <= p < new.len() && new[p] != Cell::Unknown implies #[trigger] s[p]
        == new[p] by {
        if new[p] == Cell::Filled {
            assert(forced_filled(old, cs, p));
            assert(covers(starts, cs, p));
            assert(s[p] != Cell::Empty);
        } else {
            assert(forced_empty(old, cs, p));
            assert(!covers(starts, cs, p));
            assert(s[p] != Cell::Filled);
        }
    }
}

/// The solver's output line is a fixed point of single-line reasoning: a
/// second run would change nothing.
pub proof fn lemma_solved_line_fixpoint(old: Seq<Cell>, new: Seq<Cell>, cs: Seq<Constraint>)
    requires
        solved_line(old, new, cs),
    ensures
        line_fixpoint(new, cs),
{
    assert forall|p: int| 0 <= p < new.len() implies ((forced_filled(new, cs, p)
        ==> #[trigger] new[p] == Cell::Filled) && (forced_empty(new, cs, p) ==> new[p]
        == Cell::Empty)) by {
        // Placements consistent with the input stay consistent with the
        // output, so anything forced of the output was forced of the input.
        if forced_filled(new, cs, p) {
            assert forall|starts: Seq<int>|
                consistent(old, cs, starts) implies covers(starts, cs, p) by {
                lemma_solved_line_consistent(old, new, cs, starts);
            }
            assert(forced_filled(old, cs, p));
        }
        if forced_empty(new, cs, p) {
            assert forall|starts: Seq<int>|
                consistent(old, cs, starts) implies !covers(starts, cs, p) by {
                lemma_solved_line_consistent(old, new, cs, starts);
            }
            assert(forced_empty(old, cs, p));
        }
    }
}

/// A complete line that satisfies its constraints is a fixed point of
/// single-line reasoning.
pub proof fn lemma_complete_feasible_fixpoint(l: Seq<Cell>, cs: Seq<Constraint>)
    requires
        complete(l),
        feasible(l, cs),
    ensures
        line_fixpoint(l, cs),
{
    let w = choose|starts: Seq<int>| consistent(l, cs, starts);
    assert forall|p: int| 0 <= p < l.len() implies ((forced_filled(l, cs, p) ==> #[trigger] l[p]
        == Cell::Filled) && (forced_empty(l, cs, p) ==> l[p] == Cell::Empty)) by {
        if l[p] == Cell::Empty {
            assert(!covers(w, cs, p));
        }
        if l[p] == Cell::Filled {
            assert(covers(w, cs, p));
        }
    }
}

/// An infeasible line has no complete feasible refinement: a contradiction
/// in one line refutes every solution extending the current board.
pub proof fn lemma_infeasible_no_solution(old: Seq<Cell>, cs: Seq<Constraint>, s: Seq<Cell>)
    requires
        !feasible(old, cs),
        refines(old, s),
    ensures
        !feasible(s, cs),
{
    if feasible(s, cs) {
        let starts = choose|starts: Seq<int>| consistent(s, cs, starts);
        lemma_refine_consistent(old, s, cs, starts);
    }
}

// ---------------------------------------------------------------------------
// Reachability: a node lies on a chain exactly when it is reachable from the
// first layer and can be continued to the last.
// ---------------------------------------------------------------------------

/// Every node of a chain can be continued to the last layer.
pub proof fn lemma_chain_reaches(line: Seq<Cell>, cs: Seq<Constraint>, js: Seq<int>, i: int)
    requires
        chain(line, cs, js),
        0 <= i < cs.len(),
    ensures
        reaches_end(line, cs, slack(cs, line.len() as int), i, js[i]),
    decreases cs.len() - i,
{
    reveal(edge_ok);
    let sl = slack(cs, line.len() as int);
    if i < cs.len() - 1 {
        lemma_chain_reaches(line, cs, js, i + 1);
        assert(js[i] <= js[i + 1] <= sl && edge_ok(line, cs, i, js[i], js[i + 1]) && reaches_end(
            line,
            cs,
            sl,
            i + 1,
            js[i + 1],
        ));
    }
}

/// Every node of a chain is reachable from the first layer.
pub proof fn lemma_chain_from_start(line: Seq<Cell>, cs: Seq<Constraint>, js: Seq<int>, i: int)
    requires
        chain(line, cs, js),
        0 <= i < cs.len(),
    ensures
        from_start(line, cs, slack(cs, line.len() as int), i, js[i]),
    decreases i,
{
    let sl = slack(cs, line.len() as int);
    if i > 0 {
        lemma_chain_from_start(line, cs, js, i - 1);
        assert(0 <= js[i - 1] <= sl && node_viable(line, cs, i - 1, js[i - 1]) && edge_ok(
            line,
            cs,
            i - 1,
            js[i - 1],
            js[i],
        ) && from_start(line, cs, sl, i - 1, js[i - 1]));
    }
}

/// Extract from `reaches_end` the tail of a chain: offsets for runs `i` on.
pub proof fn lemma_reaches_extract(
    line: Seq<Cell>,
    cs: Seq<Constraint>,
    sl: int,
    i: int,
    j: int,
) -> (js: Seq<int>)
    requires
        0 <= i < cs.len(),
        0 <= j <= sl,
        reaches_end(line, cs, sl, i, j),
    ensures
        js.len() == cs.len() - i,
        js[0] == j,
        forall|t: int| 0 <= t < js.len() ==> 0 <= #[trigger] js[t] <= sl,
        forall|t: int| 0 <= t < js.len() ==> node_viable(line, cs, i + t, #[trigger] js[t]),
        forall|t: int| 0 < t < js.len() ==> edge_ok(line, cs, i + t - 1, js[t - 1], #[trigger] js[t]),
    decreases cs.len() - i,
{
    if i == cs.len() - 1 {
        seq![j]
    } else {
        let k = choose|k: int|
            j <= k <= sl && #[trigger] edge_ok(line, cs, i, j, k) && reaches_end(
                line,
                cs,
                sl,
                i + 1,
                k,
            );
        let tail = lemma_reaches_extract(line, cs, sl, i + 1, k);
        let js = seq![j] + tail;
        assert forall|t: int| 0 <= t < js.len() implies node_viable(line, cs, i + t, #[trigger] js[t]) by {
            if t > 0 {
                assert(js[t] == tail[t - 1]);
                assert(node_viable(line, cs, (i + 1) + (t - 1), tail[t - 1]));
            }
        }
        assert forall|t: int| 0 < t < js.len() implies edge_ok(
            line,
            cs,
            i + t - 1,
            js[t - 1],
            #[trigger] js[t],
        ) by {
            if t == 1 {
                assert(js[0] == j && js[1] == tail[0]);
            } else {
                assert(js[t - 1] == tail[t - 2] && js[t] == tail[t - 1]);
                assert(edge_ok(line, cs, (i + 1) + (t - 1) - 1, tail[t - 2], tail[t - 1]));
            }
        }
        js
    }
}

/// Extract from `from_start` the head of a chain: offsets for runs `0 ..= i`,
/// all but the last known viable.
#[verifier::rlimit(50)]
pub proof fn lemma_start_extract(
    line: Seq<Cell>,
    cs: Seq<Constraint>,
    sl: int,
    i: int,
    j: int,
) -> (js: Seq<int>)
    requires
        0 <= i < cs.len(),
        0 <= j <= sl,
        from_start(line, cs, sl, i, j),
    ensures
        js.len() == i + 1,
        js[i] == j,
        forall|t: int| 0 <= t <= i ==> 0 <= #[trigger] js[t] <= sl,
        forall|t: int| 0 <= t < i ==> node_viable(line, cs, t, #[trigger] js[t]),
        forall|t: int| 0 < t <= i ==> edge_ok(line, cs, t - 1, js[t - 1], #[trigger] js[t]),
    decreases i,
{
    if i == 0 {
        seq![j]
    } else {
        let j2 = choose|j2: int|
            0 <= j2 <= sl && node_viable(line, cs, i - 1, j2) && #[trigger] edge_ok(
                line,
                cs,
                i - 1,
                j2,
                j,
            ) && from_start(line, cs, sl, i - 1, j2);
        let head = lemma_start_extract(line, cs, sl, i - 1, j2);
        let js = head + seq![j];
        assert forall|t: int| 0 <= t < i implies node_viable(line, cs, t, #[trigger] js[t]) by {
            assert(js[t] == head[t]);
        }
        assert forall|t: int| 0 < t <= i implies edge_ok(line, cs, t - 1, js[t - 1], #[trigger] js[t]) by {
            if t < i {
                assert(js[t - 1] == head[t - 1] && js[t] == head[t]);
            } else {
                assert(js[i - 1] == head[i - 1] && head[i - 1] == j2 && js[i] == j);
            }
        }
        js
    }
}

/// A node reachable from the first layer and continuable to the last, with a
/// viable edge between two such nodes, lies on a whole chain through both.
/// With `k == j`'s node alone (`i == cs.len() - 1` or a single node), use
/// `lemma_on_full_chain`.
#[verifier::rlimit(100)]
pub proof fn lemma_splice_chain(
    line: Seq<Cell>,
    cs: Seq<Constraint>,
    sl: int,
    i: int,
    j: int,
    k: int,
) -> (js: Seq<int>)
    requires
        sl == slack(cs, line.len() as int),
        0 <= i,
        i + 1 < cs.len(),
        0 <= j <= sl,
        0 <= k <= sl,
        from_start(line, cs, sl, i, j),
        node_viable(line, cs, i, j),
        edge_ok(line, cs, i, j, k),
        reaches_end(line, cs, sl, i + 1, k),
    ensures
        chain(line, cs, js),
        js.len() == cs.len(),
        js[i] == j,
        js[i + 1] == k,
    decreases 0int,
{
    let head = lemma_start_extract(line, cs, sl, i, j);
    let tail = lemma_reaches_extract(line, cs, sl, i + 1, k);
    let js = head + tail;
    assert(js.len() == cs.len());
    assert(js[i] == head[i] == j);
    assert(js[i + 1] == tail[0] == k);
    assert forall|t: int| 0 <= t < js.len() implies 0 <= #[trigger] js[t] <= sl by {
        if t <= i {
            assert(js[t] == head[t]);
        } else {
            assert(js[t] == tail[t - i - 1]);
        }
    }
    assert forall|t: int| 0 <= t < js.len() implies node_viable(line, cs, t, #[trigger] js[t]) by {
        if t < i {
            assert(js[t] == head[t]);
        } else if t == i {
            assert(js[t] == j);
        } else {
            assert(js[t] == tail[t - i - 1]);
            assert(node_viable(line, cs, i + 1 + (t - i - 1), tail[t - i - 1]));
        }
    }
    assert forall|t: int| 0 < t < js.len() implies edge_ok(line, cs, t - 1, js[t - 1], #[trigger] js[t]) by {
        if t <= i {
            assert(js[t - 1] == head[t - 1] && js[t] == head[t]);
        } else if t == i + 1 {
            assert(js[t - 1] == j && js[t] == k);
        } else {
            assert(js[t - 1] == tail[t - i - 2] && js[t] == tail[t - i - 1]);
            assert(edge_ok(line, cs, i + 1 + (t - i - 1) - 1, tail[t - i - 2], tail[t - i - 1]));
        }
    }
    js
}

/// A node on a full path lies on a whole chain through it.
#[verifier::rlimit(100)]
pub proof fn lemma_on_full_chain(
    line: Seq<Cell>,
    cs: Seq<Constraint>,
    sl: int,
    i: int,
    j: int,
) -> (js: Seq<int>)
    requires
        sl == slack(cs, line.len() as int),
        0 <= i < cs.len(),
        0 <= j <= sl,
        on_full(line, cs, sl, i, j),
    ensures
        chain(line, cs, js),
        js.len() == cs.len(),
        js[i] == j,
    decreases 0int,
{
    let head = lemma_start_extract(line, cs, sl, i, j);
    let tail = lemma_reaches_extract(line, cs, sl, i, j);
    let js = head.take(i) + tail;
    assert(js.len() == cs.len());
    assert(js[i] == tail[0] == j);
    assert forall|t: int| 0 <= t < js.len() implies 0 <= #[trigger] js[t] <= sl by {
        if t < i {
            assert(js[t] == head[t]);
        } else {
            assert(js[t] == tail[t - i]);
        }
    }
    assert forall|t: int| 0 <= t < js.len() implies node_viable(line, cs, t, #[trigger] js[t]) by {
        if t < i {
            assert(js[t] == head[t]);
        } else {
            assert(js[t] == tail[t - i]);
            assert(node_viable(line, cs, i + (t - i), tail[t - i]));
        }
    }
    assert forall|t: int| 0 < t < js.len() implies edge_ok(line, cs, t - 1, js[t - 1], #[trigger] js[t]) by {
        if t < i {
            assert(js[t - 1] == head[t - 1] && js[t] == head[t]);
        } else if t == i {
            assert(js[t - 1] == head[i - 1] && js[t] == j && head[i] == j);
            assert(edge_ok(line, cs, i - 1, head[i - 1], head[i]));
        } else {
            assert(js[t - 1] == tail[t - 1 - i] && js[t] == tail[t - i]);
            assert(edge_ok(line, cs, i + (t - i) - 1, tail[t - i - 1], tail[t - i]));
        }
    }
    js
}

} // verus!
