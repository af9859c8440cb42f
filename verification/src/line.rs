//! The line solver: a two-pass reachability computation on the placement
//! graph of one row or column.
//!
//! Pass one decides, for every node `(i, j)`, whether run `i` can locally be
//! written at offset `j`.  Pass two marks the nodes that lie on at least one
//! whole-line placement.  A final sweep over the marked nodes records, per
//! cell, whether some placement leaves it empty and whether some placement
//! fills it, and forces every cell that all placements agree on.

use vstd::prelude::*;
use crate::board::{Cell, Constraint, ConstraintList, StandaloneLine, Unit};
use crate::model::{
    can_fit, chain, consistent, covers, edge_ok, feasible, forced_empty, forced_filled, from_start,
    left_bound, lemma_chain_consistent, lemma_chain_from_start, lemma_chain_reaches,
    lemma_consistent_chain, lemma_find_region, lemma_left_bound_mono, lemma_left_bound_nonneg,
    lemma_negative_slack_infeasible, lemma_on_full_chain, lemma_reaches_extract,
    lemma_splice_chain, lemma_sum_prefix_ge, lemma_sum_prefix_mono, lemma_uncovered_between,
    no_filled, node_viable, on_full, reaches_end, slack, starts_of, sum_prefix, wf_constraints,
};
use crate::util::NodeList;

verus! {

broadcast use crate::board::lemma_constraint_len_bounds, vstd::seq_lib::lemma_seq_contains_after_push;

impl<'a> StandaloneLine<'a> {
    /// Determine whether a run of `len` filled cells, bounded by cells that
    /// are not filled, can be written at position `pos` of this line.
    pub fn can_fit_constraint(&self, pos: Unit, len: Unit) -> (r: bool)
        requires
            self@.len() <= Unit::MAX,
            pos + len <= self@.len(),
        ensures
            r == can_fit(self@, pos as int, len as int),
    {
        // Check the cell before the run.
        if pos > 0 {
            if self.get_cell(pos - 1) == Cell::Filled {
                return false;
            }
        }
        // Check the cell after the run.
        if (pos + len as Unit) < self.size() {
            if self.get_cell(pos + len) == Cell::Filled {
                return false;
            }
        }
        // Check the cells inside the run.
        let mut i: Unit = pos;
        while i < pos + len
            invariant
                pos <= i <= pos + len,
                pos + len <= self@.len() <= Unit::MAX,
                forall|p: int| pos <= p < i ==> #[trigger] self@[p] != Cell::Empty,
            decreases pos + len - i,
        {
            if self.get_cell(i) == Cell::Empty {
                return false;
            }
            i = i + 1;
        }
        true
    }
}

/// The placement graph of a line with at least one constraint and
/// non-negative slack fits comfortably in memory: with `c` runs of total
/// length at least `c` in a line of length `l`, the table holds
/// `c * (slack + 1) <= (l + 2)^2 / 8` entries.
proof fn lemma_table_size(c: int, sl: int, l: int)
    requires
        1 <= c,
        0 <= sl,
        0 <= l <= Unit::MAX,
        sl + 1 <= l + 2 - 2 * c,
    ensures
        c * (sl + 1) < 0x4000_0000,
{
    assert(8 * (c * (sl + 1)) <= (l + 2) * (l + 2)) by (nonlinear_arith)
        requires
            1 <= c,
            0 <= sl,
            sl + 1 <= l + 2 - 2 * c,
    {
        assert((l + 2 - 4 * c) * (l + 2 - 4 * c) >= 0);
    }
    assert((l + 2) * (l + 2) <= (Unit::MAX + 2) * (Unit::MAX + 2)) by (nonlinear_arith)
        requires
            0 <= l <= Unit::MAX,
    ;
}

impl<'a> StandaloneLine<'a> {
    /// Sum the run lengths of this line's constraints.
    fn sum_constraints(&self) -> (r: usize)
        requires
            self.wf(),
            self.cs().len() >= 1 ==> slack(self.cs(), self@.len() as int) >= 0,
        ensures
            r == sum_prefix(self.cs(), self.cs().len() as int),
            r + self.cs().len() <= self@.len() + 1 || self.cs().len() == 0,
    {
        let c = self.get_constraints();
        let n = c.len();
        proof {
            if n > 0 {
                lemma_sum_prefix_ge(self.cs(), n as int);
            }
        }
        let mut acc: usize = 0;
        let mut i: usize = 0;
        while i < n
            invariant
                i <= n,
                n == self.cs().len(),
                c@ == self.cs(),
                wf_constraints(self.cs()),
                n >= 1 ==> n + sum_prefix(self.cs(), n as int) <= self@.len() + 1,
                self@.len() <= Unit::MAX,
                acc == sum_prefix(self.cs(), i as int),
            decreases n - i,
        {
            proof {
                lemma_sum_prefix_mono(self.cs(), i as int + 1, n as int);
                lemma_sum_prefix_ge(self.cs(), i as int + 1);
            }
            acc = acc + c[i].get_length() as usize;
            i = i + 1;
        }
        acc
    }

    /// Allocate a node table sized for this line's placement graph, with
    /// every entry set to `init`.
    pub fn make_empty_node_list<T: Copy>(&self, init: T) -> (r: NodeList<T>)
        requires
            self.wf(),
            self.cs().len() >= 1 ==> slack(self.cs(), self@.len() as int) >= 0,
        ensures
            r.wf(),
            self.cs().len() == 0 ==> r.spec_width() == 0 && r.spec_height() == 0,
            self.cs().len() >= 1 ==> r.spec_width() == self.cs().len() && r.spec_height() == slack(
                self.cs(),
                self@.len() as int,
            ) + 1,
            forall|i: int, j: int|
                0 <= i < r.spec_width() && 0 <= j < r.spec_height() ==> #[trigger] r.spec_get(i, j)
                    == init,
    {
        let c = self.get_constraints();
        if c.len() == 0 {
            NodeList::<T>::new(0, 0, init)
        } else {
            let c_sum = self.sum_constraints();
            let extra_space = self.size() as usize + 1 - c_sum - c.len();
            let num_nodes_width = c.len();
            let num_nodes_height = extra_space + 1;
            proof {
                lemma_sum_prefix_ge(self.cs(), self.cs().len() as int);
                lemma_table_size(
                    self.cs().len() as int,
                    slack(self.cs(), self@.len() as int),
                    self@.len() as int,
                );
            }
            NodeList::<T>::new(num_nodes_width, num_nodes_height, init)
        }
    }

    /// Check that the constraints fit the line at all: their total length
    /// plus one separator between each pair must not exceed the line length.
    /// Returns the total run length, or `None` when the runs cannot fit.
    fn check_space(&self) -> (r: Option<usize>)
        requires
            self.wf(),
            self.cs().len() >= 1,
        ensures
            match r {
                Some(sum) => sum == sum_prefix(self.cs(), self.cs().len() as int) && slack(
                    self.cs(),
                    self@.len() as int,
                ) >= 0,
                None => slack(self.cs(), self@.len() as int) < 0,
            },
    {
        let c = self.get_constraints();
        let n = c.len();
        let size = self.size() as usize;
        let mut acc: usize = 0;
        let mut i: usize = 0;
        while i < n
            invariant
                i <= n,
                n == self.cs().len(),
                c@ == self.cs(),
                self.wf(),
                size == self@.len(),
                acc == sum_prefix(self.cs(), i as int),
                acc + i <= size + 1,
            decreases n - i,
        {
            acc = acc + c[i].get_length() as usize;
            i = i + 1;
            if acc + i > size + 1 {
                proof {
                    // Even the first i runs and separators overrun the line.
                    if i < n {
                        lemma_left_bound_mono(self.cs(), i as int, n as int);
                    }
                }
                return None;
            }
        }
        Some(acc)
    }

    /// Scan a cell range for a filled cell; true when none stands there.
    fn region_clear(&self, a: usize, b: usize) -> (r: bool)
        requires
            self@.len() <= Unit::MAX,
            b <= self@.len(),
        ensures
            r == no_filled(self@, a as int, b as int),
    {
        let mut q: usize = a;
        if b <= a {
            return true;
        }
        while q < b
            invariant
                a <= q <= b,
                b <= self@.len() <= Unit::MAX,
                forall|p: int| a <= p < q ==> #[trigger] self@[p] != Cell::Filled,
            decreases b - q,
        {
            if self.get_cell(q as Unit) == Cell::Filled {
                return false;
            }
            q = q + 1;
        }
        true
    }

    /// Pass one: decide for every node of the placement graph whether its run
    /// can locally be written there.
    #[verifier::loop_isolation(false)]
    fn fill_viability(&self, nodelist: &mut NodeList<bool>)
        requires
            self.wf(),
            self.cs().len() >= 1,
            slack(self.cs(), self@.len() as int) >= 0,
            old(nodelist).wf(),
            old(nodelist).spec_width() == self.cs().len(),
            old(nodelist).spec_height() == slack(self.cs(), self@.len() as int) + 1,
        ensures
            final(nodelist).wf(),
            final(nodelist).spec_width() == old(nodelist).spec_width(),
            final(nodelist).spec_height() == old(nodelist).spec_height(),
            forall|i2: int, j2: int|
                0 <= i2 < self.cs().len() && 0 <= j2 <= slack(self.cs(), self@.len() as int)
                    ==> #[trigger] final(nodelist).spec_get(i2, j2) == node_viable(
                    self@,
                    self.cs(),
                    i2,
                    j2,
                ),
    {
        let cs = self.get_constraints();
        let num_nodes_width = cs.len();
        let size = self.size() as usize;
        let num_nodes_height = nodelist.height();
        let ghost sl = slack(self.cs(), self@.len() as int);
        proof {
            lemma_left_bound_nonneg(self.cs(), self.cs().len() as int);
        }
        let mut i: usize = 0;
        while i < num_nodes_width
            invariant
                i <= num_nodes_width,
                nodelist.wf(),
                nodelist.spec_width() == old(nodelist).spec_width(),
                nodelist.spec_height() == old(nodelist).spec_height(),
                forall|i2: int, j2: int|
                    0 <= i2 < i && 0 <= j2 <= sl ==> #[trigger] nodelist.spec_get(i2, j2)
                        == node_viable(self@, self.cs(), i2, j2),
            decreases num_nodes_width - i,
        {
            let (left, _right) = get_constraint_bounds(cs, i);
            let value = cs[i].get_length();
            proof {
                lemma_left_bound_nonneg(self.cs(), i as int);
                lemma_left_bound_mono(self.cs(), i as int, self.cs().len() as int);
            }
            let mut j: usize = 0;
            while j < num_nodes_height
                invariant
                    j <= num_nodes_height,
                    i < num_nodes_width,
                    left == left_bound(self.cs(), i as int),
                    value == self.cs()[i as int].len(),
                    nodelist.wf(),
                    nodelist.spec_width() == old(nodelist).spec_width(),
                    nodelist.spec_height() == old(nodelist).spec_height(),
                    forall|i2: int, j2: int|
                        0 <= i2 < i && 0 <= j2 <= sl ==> #[trigger] nodelist.spec_get(i2, j2)
                            == node_viable(self@, self.cs(), i2, j2),
                    forall|j2: int|
                        0 <= j2 < j ==> #[trigger] nodelist.spec_get(i as int, j2) == node_viable(
                            self@,
                            self.cs(),
                            i as int,
                            j2,
                        ),
                decreases num_nodes_height - j,
            {
                proof {
                    // The run fits inside the line at every offset up to the slack.
                    assert(left_bound(self.cs(), self.cs().len() as int) >= left_bound(
                        self.cs(),
                        i as int,
                    ) + value + 1 + 2 * (self.cs().len() - i - 1)) by {
                        lemma_left_bound_mono(self.cs(), i as int, self.cs().len() as int);
                    }
                }
                let mut nodevalue = self.can_fit_constraint((left + j) as Unit, value);
                // The first run must leave no filled cell to its left.
                if nodevalue && i == 0 && j > 1 {
                    nodevalue = self.region_clear(0, j - 1);
                }
                // The last run must leave no filled cell to its right.
                if nodevalue && i == num_nodes_width - 1 && j + 2 < num_nodes_height {
                    nodevalue = self.region_clear(size - num_nodes_height + j + 2, size);
                }
                proof {
                    reveal(node_viable);
                    let line = self@;
                    let csv = self.cs();
                    let s = left_bound(csv, i as int) + j;
                    let e = s + csv[i as int].len();
                    if i == 0 {
                        assert(left_bound(csv, 0) == 0);
                        assert(s == j);
                        if can_fit(line, s, value as int) {
                            if j > 1 {
                                assert(no_filled(line, 0, j - 1) ==> no_filled(line, 0, s));
                            } else {
                                assert(no_filled(line, 0, s));
                            }
                        }
                    }
                    if i == num_nodes_width - 1 {
                        assert(e == size - num_nodes_height + j + 1);
                        if can_fit(line, s, value as int) {
                            if j + 2 < num_nodes_height {
                                assert(no_filled(line, e + 1, size as int) ==> no_filled(
                                    line,
                                    e,
                                    size as int,
                                ));
                            } else {
                                assert(no_filled(line, e, size as int));
                            }
                        }
                    }
                }
                nodelist.set(i, j, nodevalue);
                j = j + 1;
            }
            i = i + 1;
        }
    }
}

impl<'a> StandaloneLine<'a> {
    /// A line without constraints admits a placement exactly when no cell of
    /// it is filled: the empty placement.
    proof fn lemma_no_constraints_feasible(&self)
        requires
            self.cs().len() == 0,
        ensures
            feasible(self@, self.cs()) == no_filled(self@, 0, self@.len() as int),
    {
        let line = self@;
        let cs = self.cs();
        if no_filled(line, 0, line.len() as int) {
            let starts = Seq::<int>::empty();
            assert(consistent(line, cs, starts));
        }
        if feasible(line, cs) {
            let starts = choose|starts: Seq<int>| consistent(line, cs, starts);
            assert forall|p: int| 0 <= p < line.len() implies #[trigger] line[p]
                != Cell::Filled by {
                assert(!covers(starts, cs, p));
            }
        }
    }

    /// Determine whether this line, with its current partial contents, can
    /// still be completed to satisfy its constraints.
    #[verifier::loop_isolation(false)]
    pub fn is_solvable(&self) -> (r: bool)
        requires
            self.wf(),
        ensures
            r == feasible(self@, self.cs()),
    {
        let cs = self.get_constraints();
        let ghost line = self@;
        let ghost csv = self.cs();
        // Special case: no constraints, so every cell must be empty.
        if cs.len() == 0 {
            proof {
                self.lemma_no_constraints_feasible();
            }
            return self.region_clear(0, self.size() as usize);
        }
        // The runs must fit the line at all.
        if self.check_space().is_none() {
            proof {
                lemma_negative_slack_infeasible(line, csv);
            }
            return false;
        }
        let ghost sl = slack(csv, line.len() as int);
        let mut nodelist = self.make_empty_node_list(false);
        self.fill_viability(&mut nodelist);
        let num_nodes_width = cs.len();
        let num_nodes_height = nodelist.height();
        // Backward pass: overwrite each node with whether it reaches the last
        // layer.  The last layer already holds its viability, which is its
        // reachability.
        proof {
            assert forall|j2: int| 0 <= j2 <= sl implies #[trigger] nodelist.spec_get(
                num_nodes_width - 1,
                j2,
            ) == reaches_end(line, csv, sl, num_nodes_width - 1, j2) by {
                assert(nodelist.spec_get(num_nodes_width - 1, j2) == node_viable(
                    line,
                    csv,
                    num_nodes_width - 1,
                    j2,
                ));
            }
        }
        let mut ii: usize = num_nodes_width - 1;
        while ii > 0
            invariant
                0 <= ii <= num_nodes_width - 1,
                nodelist.wf(),
                nodelist.spec_width() == num_nodes_width,
                nodelist.spec_height() == num_nodes_height,
                forall|i2: int, j2: int|
                    ii <= i2 < num_nodes_width && 0 <= j2 <= sl ==> #[trigger] nodelist.spec_get(
                        i2,
                        j2,
                    ) == reaches_end(line, csv, sl, i2, j2),
                forall|i2: int, j2: int|
                    0 <= i2 < ii && 0 <= j2 <= sl ==> #[trigger] nodelist.spec_get(i2, j2)
                        == node_viable(line, csv, i2, j2),
            decreases ii,
        {
            let i = ii - 1;
            let mut j: usize = 0;
            while j < num_nodes_height
                invariant
                    0 <= j <= num_nodes_height,
                    ii == i + 1,
                    0 <= i < num_nodes_width - 1,
                    nodelist.wf(),
                    nodelist.spec_width() == num_nodes_width,
                    nodelist.spec_height() == num_nodes_height,
                    forall|i2: int, j2: int|
                        ii <= i2 < num_nodes_width && 0 <= j2 <= sl ==> #[trigger] nodelist.spec_get(
                            i2,
                            j2,
                        ) == reaches_end(line, csv, sl, i2, j2),
                    forall|j2: int|
                        0 <= j2 < j ==> #[trigger] nodelist.spec_get(i as int, j2) == reaches_end(
                            line,
                            csv,
                            sl,
                            i as int,
                            j2,
                        ),
                    forall|i2: int, j2: int|
                        0 <= i2 < i && 0 <= j2 <= sl ==> #[trigger] nodelist.spec_get(i2, j2)
                            == node_viable(line, csv, i2, j2),
                    forall|j2: int|
                        j <= j2 <= sl ==> #[trigger] nodelist.spec_get(i as int, j2)
                            == node_viable(line, csv, i as int, j2),
                decreases num_nodes_height - j,
            {
                let pvalue = *nodelist.get(i, j);
                if pvalue {
                    let mut edgevalue = false;
                    let mut k: usize = j;
                    while k < num_nodes_height && !edgevalue
                        invariant
                            j <= k <= num_nodes_height,
                            edgevalue ==> exists|k2: int|
                                j <= k2 <= sl && #[trigger] edge_ok(line, csv, i as int, j as int, k2)
                                    && reaches_end(line, csv, sl, i as int + 1, k2),
                            !edgevalue ==> forall|k2: int|
                                j <= k2 < k ==> !(#[trigger] edge_ok(line, csv, i as int, j as int, k2)
                                    && reaches_end(line, csv, sl, i as int + 1, k2)),
                        decreases num_nodes_height - k + (if edgevalue { 0int } else { 1int }),
                    {
                        if *nodelist.get(ii, k) {
                            if determine_edge(i, j, k, cs, self) {
                                edgevalue = true;
                            }
                        } else {
                            proof {
                                assert(!reaches_end(line, csv, sl, i as int + 1, k as int));
                            }
                        }
                        if !edgevalue {
                            k = k + 1;
                        }
                    }
                    nodelist.set(i, j, edgevalue);
                    proof {
                        assert(edgevalue == reaches_end(line, csv, sl, i as int, j as int));
                    }
                } else {
                    nodelist.set(i, j, false);
                    proof {
                        assert(!reaches_end(line, csv, sl, i as int, j as int));
                    }
                }
                j = j + 1;
            }
            ii = ii - 1;
        }
        // Some first-layer node must reach the end.
        let mut found = false;
        let mut j: usize = 0;
        while j < num_nodes_height && !found
            invariant
                0 <= j <= num_nodes_height,
                found ==> exists|j2: int| 0 <= j2 <= sl && #[trigger] reaches_end(line, csv, sl, 0, j2),
                !found ==> forall|j2: int| 0 <= j2 < j ==> !#[trigger] reaches_end(line, csv, sl, 0, j2),
            decreases num_nodes_height - j + (if found { 0int } else { 1int }),
        {
            if *nodelist.get(0, j) {
                found = true;
            } else {
                j = j + 1;
            }
        }
        proof {
            if found {
                let j0 = choose|j2: int| 0 <= j2 <= sl && #[trigger] reaches_end(line, csv, sl, 0, j2);
                let js = lemma_reaches_extract(line, csv, sl, 0, j0);
                assert forall|t: int| 0 <= t < js.len() implies node_viable(line, csv, t, #[trigger] js[t]) by {
                    assert(node_viable(line, csv, 0 + t, js[t]));
                }
                assert forall|t: int| 0 < t < js.len() implies edge_ok(line, csv, t - 1, js[t - 1], #[trigger] js[t]) by {
                    assert(edge_ok(line, csv, 0 + t - 1, js[t - 1], js[t]));
                }
                assert(chain(line, csv, js));
                lemma_chain_consistent(line, csv, js);
                assert(feasible(line, csv));
            } else {
                assert forall|starts: Seq<int>| !consistent(line, csv, starts) by {
                    if consistent(line, csv, starts) {
                        lemma_consistent_chain(line, csv, starts);
                        let js = crate::model::js_of(csv, starts);
                        lemma_chain_reaches(line, csv, js, 0);
                        assert(nodelist.spec_get(0, js[0]) == reaches_end(line, csv, sl, 0, js[0]));
                    }
                }
                assert(!feasible(line, csv));
            }
        }
        found
    }
}

/// Every determined entry of the table is correct: it records whether its
/// node reaches the last layer, and only visited nodes — nodes reachable from
/// the first layer — are determined.
pub open spec fn memo_ok(
    det: NodeList<Option<bool>>,
    line: Seq<Cell>,
    cs: Seq<Constraint>,
    sl: int,
) -> bool {
    forall|i: int, j: int|
        0 <= i < det.spec_width() && 0 <= j < det.spec_height() && (#[trigger] det.spec_get(
            i,
            j,
        )) is Some ==> {
            &&& det.spec_get(i, j) == Some(reaches_end(line, cs, sl, i, j))
            &&& from_start(line, cs, sl, i, j)
        }
}

/// Every determined viable node has all the targets of its viable edges
/// determined too: the search has explored every child of every node it
/// visited.
pub open spec fn memo_closed(
    det: NodeList<Option<bool>>,
    line: Seq<Cell>,
    cs: Seq<Constraint>,
    sl: int,
) -> bool {
    forall|i: int, j: int, k: int|
        0 <= i < det.spec_width() - 1 && 0 <= j < det.spec_height() && j <= k
            < det.spec_height() && (#[trigger] det.spec_get(i, j)) is Some && node_viable(
            line,
            cs,
            i,
            j,
        ) && #[trigger] edge_ok(line, cs, i, j, k) ==> det.spec_get(i + 1, k) is Some
}

/// Every node reachable from the first layer is determined, once the whole
/// first layer is.
proof fn lemma_visits_complete(
    det: NodeList<Option<bool>>,
    line: Seq<Cell>,
    cs: Seq<Constraint>,
    sl: int,
    i: int,
    j: int,
)
    requires
        det.spec_width() == cs.len(),
        det.spec_height() == sl + 1,
        sl >= 0,
        memo_ok(det, line, cs, sl),
        memo_closed(det, line, cs, sl),
        forall|j2: int| 0 <= j2 <= sl ==> (#[trigger] det.spec_get(0, j2)) is Some,
        0 <= i < cs.len(),
        0 <= j <= sl,
        from_start(line, cs, sl, i, j),
    ensures
        det.spec_get(i, j) is Some,
    decreases i,
{
    if i > 0 {
        let j2 = choose|j2: int|
            0 <= j2 <= sl && node_viable(line, cs, i - 1, j2) && #[trigger] edge_ok(
                line,
                cs,
                i - 1,
                j2,
                j,
            ) && from_start(line, cs, sl, i - 1, j2);
        lemma_visits_complete(det, line, cs, sl, i - 1, j2);
        assert(j2 <= j) by {
            reveal(edge_ok);
        }
        assert(det.spec_get(i - 1, j2) is Some);
        assert(det.spec_get((i - 1) + 1, j) is Some);
    } else {
        assert(det.spec_get(0, j) is Some);
    }
}

/// Given a list of locally viable nodes, decide whether node `(i, j)` can be
/// continued to the last layer, memoizing every answer in `determined` and
/// visiting every child of every viable node it visits.
#[verifier::loop_isolation(false)]
fn find_full_paths(
    i: usize,
    j: usize,
    w: usize,
    h: usize,
    nodelist: &NodeList<bool>,
    determined: &mut NodeList<Option<bool>>,
    c: &ConstraintList,
    line: &StandaloneLine,
) -> (r: bool)
    requires
        line.wf(),
        c@ == line.cs(),
        line.cs().len() == w,
        w >= 1,
        slack(line.cs(), line@.len() as int) >= 0,
        h == slack(line.cs(), line@.len() as int) + 1,
        nodelist.wf(),
        nodelist.spec_width() == w,
        nodelist.spec_height() == h,
        forall|i2: int, j2: int|
            0 <= i2 < w && 0 <= j2 < h ==> #[trigger] nodelist.spec_get(i2, j2) == node_viable(
                line@,
                line.cs(),
                i2,
                j2,
            ),
        old(determined).wf(),
        old(determined).spec_width() == w,
        old(determined).spec_height() == h,
        memo_ok(*old(determined), line@, line.cs(), slack(line.cs(), line@.len() as int)),
        memo_closed(*old(determined), line@, line.cs(), slack(line.cs(), line@.len() as int)),
        i < w,
        j < h,
        from_start(line@, line.cs(), slack(line.cs(), line@.len() as int), i as int, j as int),
    ensures
        final(determined).wf(),
        final(determined).spec_width() == w,
        final(determined).spec_height() == h,
        memo_ok(*final(determined), line@, line.cs(), slack(line.cs(), line@.len() as int)),
        memo_closed(*final(determined), line@, line.cs(), slack(line.cs(), line@.len() as int)),
        forall|i2: int, j2: int|
            0 <= i2 < w && 0 <= j2 < h && (#[trigger] old(determined).spec_get(i2, j2)) is Some
                ==> final(determined).spec_get(i2, j2) is Some,
        final(determined).spec_get(i as int, j as int) == Some(r),
        r == reaches_end(line@, line.cs(), slack(line.cs(), line@.len() as int), i as int, j as int),
    decreases w - i,
{
    let ghost lv = line@;
    let ghost csv = line.cs();
    let ghost sl = slack(csv, lv.len() as int);
    let memoized = *determined.get(i, j);
    if let Some(value) = memoized {
        // This node has already been determined.
        value
    } else {
        if *nodelist.get(i, j) {
            if i == w - 1 {
                // A viable node in the last layer is its own full path tail.
                determined.set(i, j, Some(true));
                proof {
                    assert(reaches_end(lv, csv, sl, i as int, j as int));
                }
                true
            } else {
                let mut v = false;
                let mut k: usize = j;
                while k < h
                    invariant
                        j <= k <= h,
                        determined.wf(),
                        determined.spec_width() == w,
                        determined.spec_height() == h,
                        memo_ok(*determined, lv, csv, sl),
                        memo_closed(*determined, lv, csv, sl),
                        forall|i2: int, j2: int|
                            0 <= i2 < w && 0 <= j2 < h && (#[trigger] old(determined).spec_get(
                                i2,
                                j2,
                            )) is Some ==> determined.spec_get(i2, j2) is Some,
                        v == exists|k2: int|
                            j <= k2 < k && #[trigger] edge_ok(lv, csv, i as int, j as int, k2)
                                && reaches_end(lv, csv, sl, i as int + 1, k2),
                        forall|k2: int|
                            j <= k2 < k && #[trigger] edge_ok(lv, csv, i as int, j as int, k2)
                                ==> determined.spec_get(i as int + 1, k2) is Some,
                    decreases h - k,
                {
                    if determine_edge(i, j, k, c, line) {
                        proof {
                            // The child is reachable from the start through this node.
                            assert(from_start(lv, csv, sl, i as int + 1, k as int)) by {
                                assert(0 <= j as int <= sl && node_viable(lv, csv, i as int, j as int)
                                    && edge_ok(lv, csv, i as int, j as int, k as int) && from_start(
                                    lv,
                                    csv,
                                    sl,
                                    i as int,
                                    j as int,
                                ));
                            }
                        }
                        let r2 = find_full_paths(i + 1, k, w, h, nodelist, determined, c, line);
                        v = v || r2;
                    }
                    k = k + 1;
                }
                determined.set(i, j, Some(v));
                proof {
                    assert(v == reaches_end(lv, csv, sl, i as int, j as int)) by {
                        if v {
                            let k2 = choose|k2: int|
                                j <= k2 < h && #[trigger] edge_ok(lv, csv, i as int, j as int, k2)
                                    && reaches_end(lv, csv, sl, i as int + 1, k2);
                            assert(j as int <= k2 <= sl);
                        }
                    }
                }
                v
            }
        } else {
            // This node cannot locally hold its run, so no path uses it.
            determined.set(i, j, Some(false));
            proof {
                assert(!reaches_end(lv, csv, sl, i as int, j as int));
            }
            false
        }
    }
}

/// Some consistent placement covers cell `p` (when `fill` is true) or leaves
/// it uncovered (when `fill` is false).
pub open spec fn cell_witnessed(line: Seq<Cell>, cs: Seq<Constraint>, p: int, fill: bool) -> bool {
    exists|starts: Seq<int>|
        #[trigger] consistent(line, cs, starts) && covers(starts, cs, p) == fill
}

/// Every recorded mark is witnessed by a placement: a fill mark by a
/// consistent placement that covers the cell, an empty mark by one that does
/// not.
pub open spec fn marks_sound(marks: Seq<(bool, bool)>, line: Seq<Cell>, cs: Seq<Constraint>) -> bool {
    forall|p: int|
        0 <= p < marks.len() ==> {
            &&& ((#[trigger] marks[p]).0 ==> cell_witnessed(line, cs, p, false))
            &&& (marks[p].1 ==> cell_witnessed(line, cs, p, true))
        }
}

/// All the marks that one node of the placement graph contributes: its run
/// can be filled; the separators beside it, the outer regions beyond the
/// outermost runs, and the gaps to the next layer's nodes can be empty.
pub open spec fn node_marked(
    marks: Seq<(bool, bool)>,
    line: Seq<Cell>,
    cs: Seq<Constraint>,
    sl: int,
    i: int,
    j: int,
) -> bool {
    let s = left_bound(cs, i) + j;
    let e = s + cs[i].len();
    let len = line.len() as int;
    &&& forall|p: int| s <= p < e ==> (#[trigger] marks[p]).1
    &&& (i == 0 ==> forall|p: int| 0 <= p < s ==> (#[trigger] marks[p]).0)
    &&& (i > 0 ==> marks[s - 1].0)
    &&& (i == cs.len() - 1 ==> forall|p: int| e <= p < len ==> (#[trigger] marks[p]).0)
    &&& (i < cs.len() - 1 && e < len ==> marks[e].0)
    &&& (i < cs.len() - 1 ==> forall|k: int, p: int|
        j <= k <= sl && #[trigger] edge_ok(line, cs, i, j, k) && on_full(line, cs, sl, i + 1, k)
            && e + 1 <= p <= left_bound(cs, i + 1) + k - 2 ==> (#[trigger] marks[p]).0)
}

/// Marks only ever get added, so a node's marks survive later marking.
proof fn lemma_node_marked_mono(
    m1: Seq<(bool, bool)>,
    m2: Seq<(bool, bool)>,
    line: Seq<Cell>,
    cs: Seq<Constraint>,
    sl: int,
    i: int,
    j: int,
)
    requires
        wf_constraints(cs),
        cs.len() >= 1,
        sl == slack(cs, line.len() as int),
        sl >= 0,
        0 <= i < cs.len(),
        0 <= j <= sl,
        m1.len() == line.len(),
        m2.len() == line.len(),
        node_marked(m1, line, cs, sl, i, j),
        forall|p: int|
            0 <= p < m1.len() ==> (((#[trigger] m1[p]).0 ==> m2[p].0) && (m1[p].1 ==> m2[p].1)),
    ensures
        node_marked(m2, line, cs, sl, i, j),
{
    let s = left_bound(cs, i) + j;
    let e = s + cs[i].len();
    let len = line.len() as int;
    lemma_left_bound_nonneg(cs, i);
    lemma_left_bound_mono(cs, i, cs.len() as int);
    assert(e <= len);
    assert forall|p: int| s <= p < e implies (#[trigger] m2[p]).1 by {
        assert(m1[p].1);
    }
    if i == 0 {
        assert forall|p: int| 0 <= p < s implies (#[trigger] m2[p]).0 by {
            assert(m1[p].0);
        }
    }
    if i == cs.len() - 1 {
        assert forall|p: int| e <= p < len implies (#[trigger] m2[p]).0 by {
            assert(m1[p].0);
        }
    }
    if i < cs.len() - 1 {
        assert forall|k: int, p: int|
            j <= k <= sl && #[trigger] edge_ok(line, cs, i, j, k) && on_full(line, cs, sl, i + 1, k)
                && e + 1 <= p <= left_bound(cs, i + 1) + k - 2 implies (#[trigger] m2[p]).0 by {
            assert(m1[p].0);
            assert(left_bound(cs, i + 1) + k <= left_bound(cs, cs.len() as int) + sl - 2 * (cs.len()
                - i - 2)) by {
                if i + 1 < cs.len() - 1 {
                    lemma_left_bound_mono(cs, i + 1, cs.len() as int);
                } else {
                    lemma_left_bound_mono(cs, i + 1, cs.len() as int);
                }
            }
        }
    }
}

/// Set one component of every mark in `[a, b)`, justified per cell by a
/// consistent placement.
fn mark_range(
    marks: &mut Vec<(bool, bool)>,
    a: usize,
    b: usize,
    fill: bool,
    Ghost(line): Ghost<Seq<Cell>>,
    Ghost(cs): Ghost<Seq<Constraint>>,
)
    requires
        b <= old(marks)@.len(),
        marks_sound(old(marks)@, line, cs),
        forall|p: int| a <= p < b ==> #[trigger] cell_witnessed(line, cs, p, fill),
    ensures
        final(marks)@.len() == old(marks)@.len(),
        marks_sound(final(marks)@, line, cs),
        forall|p: int|
            0 <= p < old(marks)@.len() ==> (((#[trigger] old(marks)@[p]).0 ==> final(marks)@[p].0)
                && (old(marks)@[p].1 ==> final(marks)@[p].1)),
        forall|p: int|
            a <= p < b ==> if fill {
                (#[trigger] final(marks)@[p]).1
            } else {
                final(marks)@[p].0
            },
        forall|p: int|
            0 <= p < old(marks)@.len() && !(a <= p < b) ==> #[trigger] final(marks)@[p] == old(marks)@[p],
    {
    let mut q: usize = a;
    if b <= a {
        return ;
    }
    while q < b
        invariant
            a <= q <= b,
            b <= marks@.len(),
            marks@.len() == old(marks)@.len(),
            marks_sound(marks@, line, cs),
            forall|p: int| a <= p < b ==> #[trigger] cell_witnessed(line, cs, p, fill),
            forall|p: int|
                0 <= p < old(marks)@.len() ==> (((#[trigger] old(marks)@[p]).0 ==> marks@[p].0) && (
                old(marks)@[p].1 ==> marks@[p].1)),
            forall|p: int|
                a <= p < q ==> if fill {
                    (#[trigger] marks@[p]).1
                } else {
                    marks@[p].0
                },
            forall|p: int|
                0 <= p < old(marks)@.len() && !(a <= p < b) ==> #[trigger] marks@[p] == old(
                    marks,
                )@[p],
        decreases b - q,
    {
        let entry = marks[q];
        if fill {
            marks[q] = (entry.0, true);
        } else {
            marks[q] = (true, entry.1);
        }
        q = q + 1;
    }
}

/// Record every mark that one node on a full path contributes: its run can
/// be filled; the cells beside and beyond it, and the gap to the farthest
/// next-layer node joined by a viable edge, can be empty.
#[verifier::loop_isolation(false)]
fn mark_node(
    marks: &mut Vec<(bool, bool)>,
    i: usize,
    j: usize,
    determined: &NodeList<Option<bool>>,
    c: &ConstraintList,
    line: &StandaloneLine,
)
    requires
        line.wf(),
        c@ == line.cs(),
        line.cs().len() >= 1,
        slack(line.cs(), line@.len() as int) >= 0,
        determined.wf(),
        determined.spec_width() == line.cs().len(),
        determined.spec_height() == slack(line.cs(), line@.len() as int) + 1,
        forall|i2: int, j2: int|
            0 <= i2 < line.cs().len() && 0 <= j2 <= slack(line.cs(), line@.len() as int) ==> ((
            #[trigger] determined.spec_get(i2, j2)) == Some(true) <==> on_full(
                line@,
                line.cs(),
                slack(line.cs(), line@.len() as int),
                i2,
                j2,
            )),
        i < line.cs().len(),
        j <= slack(line.cs(), line@.len() as int),
        on_full(line@, line.cs(), slack(line.cs(), line@.len() as int), i as int, j as int),
        old(marks)@.len() == line@.len(),
        marks_sound(old(marks)@, line@, line.cs()),
    ensures
        final(marks)@.len() == old(marks)@.len(),
        marks_sound(final(marks)@, line@, line.cs()),
        forall|p: int|
            0 <= p < old(marks)@.len() ==> (((#[trigger] old(marks)@[p]).0 ==> final(marks)@[p].0)
                && (old(marks)@[p].1 ==> final(marks)@[p].1)),
        node_marked(
            final(marks)@,
            line@,
            line.cs(),
            slack(line.cs(), line@.len() as int),
            i as int,
            j as int,
        ),
{
    let ghost lv = line@;
    let ghost csv = line.cs();
    let ghost sl = slack(csv, lv.len() as int);
    let ghost len = lv.len() as int;
    let w = c.len();
    let h = determined.height();
    let size = line.size() as usize;

    let ghost js0 = Seq::<int>::empty();
    let ghost starts0 = Seq::<int>::empty();
    proof {
        let js = lemma_on_full_chain(lv, csv, sl, i as int, j as int);
        js0 = js;
        starts0 = starts_of(csv, js0);
        lemma_chain_consistent(lv, csv, js0);
        lemma_left_bound_nonneg(csv, i as int);
        lemma_left_bound_mono(csv, i as int, csv.len() as int);
    }
    let (start, end) = get_node_range(i, j, c);
    proof {
        assert(starts0[i as int] == start);
        assert(end <= len);
        assert(end == starts0[i as int] + csv[i as int].len());
    }

    // The run itself can be filled.
    proof {
        assert forall|p: int| start <= p < end implies #[trigger] cell_witnessed(
            lv,
            csv,
            p,
            true,
        ) by {
            assert(starts0[i as int] <= p < starts0[i as int] + csv[i as int].len());
            assert(covers(starts0, csv, p));
            assert(consistent(lv, csv, starts0) && covers(starts0, csv, p) == true);
        }
    }
    mark_range(marks, start, end, true, Ghost(lv), Ghost(csv));
    let ghost m1 = marks@;

    // The cells before the run can be empty: all of them for the first run,
    // the separator cell for a later one.
    if i == 0 {
        proof {
            assert forall|p: int| 0 <= p < start implies #[trigger] cell_witnessed(
                lv,
                csv,
                p,
                false,
            ) by {
                lemma_uncovered_between(starts0, csv, len, -1, p);
                assert(consistent(lv, csv, starts0) && covers(starts0, csv, p) == false);
            }
        }
        mark_range(marks, 0, start, false, Ghost(lv), Ghost(csv));
    } else {
        proof {
            assert(start >= 2);
            assert forall|p: int| start - 1 <= p < start implies #[trigger] cell_witnessed(
                lv,
                csv,
                p,
                false,
            ) by {
                assert(starts0[i - 1] + csv[i - 1].len() + 1 <= starts0[i as int]);
                lemma_uncovered_between(starts0, csv, len, i - 1, p);
                assert(consistent(lv, csv, starts0) && covers(starts0, csv, p) == false);
            }
        }
        mark_range(marks, start - 1, start, false, Ghost(lv), Ghost(csv));
    }
    let ghost m2 = marks@;

    // The cells after the run can be empty: all of them for the last run,
    // the separator cell for an earlier one.
    if i == w - 1 {
        proof {
            assert forall|p: int| end <= p < size implies #[trigger] cell_witnessed(
                lv,
                csv,
                p,
                false,
            ) by {
                lemma_uncovered_between(starts0, csv, len, i as int, p);
                assert(consistent(lv, csv, starts0) && covers(starts0, csv, p) == false);
            }
        }
        mark_range(marks, end, size, false, Ghost(lv), Ghost(csv));
    } else if end < size {
        proof {
            assert forall|p: int| end <= p < end + 1 implies #[trigger] cell_witnessed(
                lv,
                csv,
                p,
                false,
            ) by {
                assert(starts0[i + 1] >= starts0[i as int] + csv[i as int].len() + 1);
                lemma_uncovered_between(starts0, csv, len, i as int, p);
                assert(consistent(lv, csv, starts0) && covers(starts0, csv, p) == false);
            }
        }
        mark_range(marks, end, end + 1, false, Ghost(lv), Ghost(csv));
    }
    let ghost m3 = marks@;

    // The gap to the farthest next-layer full-path node joined by a viable
    // edge can be empty; it subsumes the gaps of all nearer such nodes.
    let mut gap_hi: usize = 0;
    let mut found = false;
    if i < w - 1 {
        let mut kk: usize = h;
        while kk > j && !found
            invariant
                j <= kk <= h,
                i < w - 1,
                !found ==> forall|k2: int|
                    kk <= k2 <= sl ==> !(#[trigger] edge_ok(lv, csv, i as int, j as int, k2)
                        && on_full(lv, csv, sl, i as int + 1, k2)),
                found ==> {
                    &&& j <= gap_hi <= sl
                    &&& edge_ok(lv, csv, i as int, j as int, gap_hi as int)
                    &&& on_full(lv, csv, sl, i as int + 1, gap_hi as int)
                    &&& forall|k2: int|
                        gap_hi < k2 <= sl ==> !(#[trigger] edge_ok(lv, csv, i as int, j as int, k2)
                            && on_full(lv, csv, sl, i as int + 1, k2))
                },
            decreases kk - j + (if found { 0int } else { 1int }),
        {
            let cand = kk - 1;
            let reachable = match *determined.get(i + 1, cand) {
                Some(true) => true,
                _ => false,
            };
            if reachable && determine_edge(i, j, cand, c, line) {
                gap_hi = cand;
                found = true;
            } else {
                kk = kk - 1;
            }
        }
        if found {
            let ghost js2 = Seq::<int>::empty();
            let ghost starts2 = Seq::<int>::empty();
            proof {
                assert(node_viable(lv, csv, i as int, j as int));
                let js = lemma_splice_chain(lv, csv, sl, i as int, j as int, gap_hi as int);
                js2 = js;
                starts2 = starts_of(csv, js2);
                lemma_chain_consistent(lv, csv, js2);
                assert(starts2[i as int] == start);
                assert(starts2[i + 1] == left_bound(csv, i as int + 1) + gap_hi);
            }
            match get_edge_range(i, j, gap_hi, c) {
                Some(range) => {
                    let (ga, gb) = range;
                    proof {
                        assert(ga == end + 1);
                        assert(gb == starts2[i + 1] - 1);
                        assert(gb <= len);
                        assert forall|p: int| ga <= p < gb implies #[trigger] cell_witnessed(
                            lv,
                            csv,
                            p,
                            false,
                        ) by {
                            assert(starts2[i as int] + csv[i as int].len() == end);
                            lemma_uncovered_between(starts2, csv, len, i as int, p);
                            assert(consistent(lv, csv, starts2) && covers(starts2, csv, p)
                                == false);
                        }
                    }
                    mark_range(marks, ga, gb, false, Ghost(lv), Ghost(csv));
                },
                None => (),
            }
        }
    }

    // Everything marked along the way is still marked.
    proof {
        let mf = marks@;
        assert forall|p: int| start <= p < end implies (#[trigger] mf[p]).1 by {
            assert(m1[p].1 && m2[p].1 && m3[p].1);
        }
        if i == 0 {
            assert forall|p: int| 0 <= p < start implies (#[trigger] mf[p]).0 by {
                assert(m2[p].0 && m3[p].0);
            }
        } else {
            assert(m2[start - 1].0 && m3[start - 1].0 && mf[start - 1].0);
        }
        if i == w - 1 {
            assert forall|p: int| end <= p < len implies (#[trigger] mf[p]).0 by {
                assert(m3[p].0);
            }
        } else if end < size {
            assert(m3[end as int].0 && mf[end as int].0);
        }
        if i < w - 1 {
            assert forall|k: int, p: int|
                j <= k <= sl && #[trigger] edge_ok(lv, csv, i as int, j as int, k) && on_full(
                    lv,
                    csv,
                    sl,
                    i as int + 1,
                    k,
                ) && end + 1 <= p <= left_bound(csv, i as int + 1) + k - 2 implies (
            #[trigger] mf[p]).0 by {
                assert(found && k <= gap_hi);
                assert(left_bound(csv, i as int + 1) == left_bound(csv, i as int) + csv[
                    i as int
                ].len() + 1) by {
                    lemma_left_bound_mono(csv, i as int, i as int + 1);
                }
                assert(end + 1 <= p <= left_bound(csv, i as int + 1) + gap_hi - 2);
            }
        }
        assert(node_marked(mf, lv, csv, sl, i as int, j as int));
    }
}

/// What every consistent placement says of cell `p` is recorded in the marks,
/// once every full-path node's marks are recorded.
proof fn lemma_marks_complete(
    marks: Seq<(bool, bool)>,
    line: Seq<Cell>,
    cs: Seq<Constraint>,
    sl: int,
    starts: Seq<int>,
    p: int,
)
    requires
        wf_constraints(cs),
        cs.len() >= 1,
        sl == slack(cs, line.len() as int),
        sl >= 0,
        marks.len() == line.len(),
        forall|i: int, j: int|
            0 <= i < cs.len() && 0 <= j <= sl && #[trigger] on_full(line, cs, sl, i, j)
                ==> node_marked(marks, line, cs, sl, i, j),
        consistent(line, cs, starts),
        0 <= p < line.len(),
    ensures
        covers(starts, cs, p) ==> marks[p].1,
        !covers(starts, cs, p) ==> marks[p].0,
{
    lemma_consistent_chain(line, cs, starts);
    let js = crate::model::js_of(cs, starts);
    let len = line.len() as int;
    assert forall|t: int| 0 <= t < cs.len() implies #[trigger] on_full(line, cs, sl, t, js[t]) by {
        lemma_chain_from_start(line, cs, js, t);
        lemma_chain_reaches(line, cs, js, t);
    }
    assert forall|t: int| 0 <= t < cs.len() implies left_bound(cs, t) + js[t] == #[trigger] starts[t] by {}
    if covers(starts, cs, p) {
        let t = choose|t: int|
            0 <= t < cs.len() && #[trigger] starts[t] <= p < starts[t] + cs[t].len();
        assert(on_full(line, cs, sl, t, js[t]));
        assert(node_marked(marks, line, cs, sl, t, js[t]));
        assert(marks[p].1);
    } else {
        if p < starts[0] {
            assert(on_full(line, cs, sl, 0, js[0]));
            assert(node_marked(marks, line, cs, sl, 0, js[0]));
            assert(marks[p].0);
        } else {
            let t = lemma_find_region(starts, cs, len, p, 0);
            let e = starts[t] + cs[t].len();
            assert(p >= e);  // else run t would cover p
            assert(on_full(line, cs, sl, t, js[t]));
            assert(node_marked(marks, line, cs, sl, t, js[t]));
            if t == cs.len() - 1 {
                assert(marks[p].0);
            } else {
                assert(on_full(line, cs, sl, t + 1, js[t + 1]));
                assert(node_marked(marks, line, cs, sl, t + 1, js[t + 1]));
                if p == e {
                    assert(e < len);
                    assert(marks[p].0);
                } else if p == starts[t + 1] - 1 {
                    assert(left_bound(cs, t + 1) + js[t + 1] - 1 == p);
                    assert(marks[p].0);
                } else {
                    // Strictly inside the gap: the edge of the chain records it.
                    assert(edge_ok(line, cs, t, js[t], js[t + 1]));
                    assert(e + 1 <= p <= left_bound(cs, t + 1) + js[t + 1] - 2);
                    assert(marks[p].0);
                }
            }
        }
    }
}

/// The cells that run `index` leaves to its left at its earliest start
/// (`index` separators and the lengths of the earlier runs), and to its right
/// at its latest start.
pub fn get_constraint_bounds(ls: &ConstraintList, index: usize) -> (r: (usize, usize))
    requires
        index < ls@.len(),
        left_bound(ls@, ls@.len() as int) <= Unit::MAX + 1,
        wf_constraints(ls@),
    ensures
        r.0 == left_bound(ls@, index as int),
        r.1 == ls@.len() - index - 1 + sum_prefix(ls@, ls@.len() as int) - sum_prefix(
            ls@,
            index as int + 1,
        ),
{
    let n = ls.len();
    let mut left: usize = index;
    let mut right: usize = n - index - 1;
    proof {
        lemma_sum_prefix_ge(ls@, ls@.len() as int);
        lemma_sum_prefix_mono(ls@, index as int, ls@.len() as int);
        lemma_sum_prefix_mono(ls@, index as int + 1, ls@.len() as int);
    }
    let mut i: usize = 0;
    while i < n
        invariant
            i <= n,
            n == ls@.len(),
            index < n,
            wf_constraints(ls@),
            left_bound(ls@, n as int) <= Unit::MAX + 1,
            sum_prefix(ls@, index as int) <= sum_prefix(ls@, n as int),
            sum_prefix(ls@, index as int + 1) <= sum_prefix(ls@, n as int),
            left == index + if i <= index {
                sum_prefix(ls@, i as int)
            } else {
                sum_prefix(ls@, index as int)
            },
            right == n - index - 1 + if i <= index + 1 {
                0int
            } else {
                sum_prefix(ls@, i as int) - sum_prefix(ls@, index as int + 1)
            },
        decreases n - i,
    {
        proof {
            lemma_sum_prefix_mono(ls@, i as int, n as int);
            lemma_sum_prefix_mono(ls@, i as int + 1, n as int);
            lemma_sum_prefix_ge(ls@, i as int);
        }
        let value = ls[i].get_length();
        if i < index {
            left = left + value as usize;
        } else if i > index {
            right = right + value as usize;
        }
        i = i + 1;
    }
    (left, right)
}

/// The cell range `[start, end)` that run `i` occupies at offset `j`.
pub fn get_node_range(i: usize, j: usize, c: &ConstraintList) -> (r: (usize, usize))
    requires
        i < c@.len(),
        j <= Unit::MAX,
        left_bound(c@, c@.len() as int) <= Unit::MAX + 1,
        wf_constraints(c@),
    ensures
        r.0 == left_bound(c@, i as int) + j,
        r.1 == left_bound(c@, i as int) + j + c@[i as int].len(),
{
    let value = c[i].get_length();
    let (left, _right) = get_constraint_bounds(c, i);
    proof {
        lemma_left_bound_nonneg(c@, i as int);
        lemma_sum_prefix_ge(c@, i as int);
    }
    (left + j, left + j + value as usize)
}

/// The cell range strictly between run `i` at offset `j` and run `i + 1` at
/// offset `k`, short of the separator cell before run `i + 1`; `None` when
/// that range is empty.
pub fn get_edge_range(i: usize, j: usize, k: usize, c: &ConstraintList) -> (r: Option<
    (usize, usize),
>)
    requires
        i + 1 < c@.len(),
        j <= k <= Unit::MAX,
        left_bound(c@, c@.len() as int) <= Unit::MAX + 1,
        wf_constraints(c@),
    ensures
        match r {
            None => k <= j + 1,
            Some(range) => {
                &&& k > j + 1
                &&& range.0 == left_bound(c@, i as int) + c@[i as int].len() + j + 1
                &&& range.1 == left_bound(c@, i as int + 1) + k - 1
            },
        },
{
    if k <= j + 1 {
        None
    } else {
        let (left, _right) = get_constraint_bounds(c, i);
        let i0_value = c[i].get_length() as usize;
        // From node (i, j) to node (i + 1, k) where k >= j.
        let pos = left + i0_value + j + 1;
        // The gap between the two runs that must be able to be all empty.
        let width = k - j - 1;
        proof {
            lemma_left_bound_nonneg(c@, i as int);
            lemma_left_bound_mono(c@, i as int, i as int + 1);
        }
        Some((pos, pos + width))
    }
}

/// Decide whether the gap between run `i` at offset `j` and run `i + 1` at
/// offset `k` holds no filled cell.
#[verifier::loop_isolation(false)]
pub fn determine_edge(i: usize, j: usize, k: usize, c: &ConstraintList, line: &StandaloneLine) -> (r:
    bool)
    requires
        line.wf(),
        c@ == line.cs(),
        i + 1 < c@.len(),
        j <= k,
        k <= slack(c@, line@.len() as int),
        slack(c@, line@.len() as int) >= 0,
    ensures
        r == edge_ok(line@, c@, i as int, j as int, k as int),
{
    proof {
        reveal(edge_ok);
        lemma_left_bound_nonneg(c@, c@.len() as int);
        lemma_left_bound_mono(c@, i as int, i as int + 1);
        lemma_left_bound_mono(c@, i as int + 1, c@.len() as int);
    }
    if k <= j + 1 {
        // No cell lies strictly between the separator cells: nothing to check.
        true
    } else {
        let range = get_edge_range(i, j, k, c);
        let (pos, end) = match range {
            Some(r2) => r2,
            None => { return true },
        };
        proof {
            // end == left_bound(c, i + 1) + k - 1 <= left_bound(c, C) + slack - 1
            //     == line len - number of cells after run i + 1 <= line len.
            assert(left_bound(c@, i as int + 1) + k <= left_bound(c@, c@.len() as int) + slack(
                c@,
                line@.len() as int,
            ) - 2 * (c@.len() - (i + 1) - 1) - 2);
        }
        let mut q: usize = pos;
        while q < end
            invariant
                pos <= q <= end,
                end <= line@.len(),
                line@.len() <= Unit::MAX,
                forall|p: int| pos <= p < q ==> #[trigger] line@[p] != Cell::Filled,
            decreases end - q,
        {
            if line.get_cell(q as Unit) == Cell::Filled {
                return false;
            }
            q = q + 1;
        }
        true
    }
}

impl<'a> StandaloneLine<'a> {
    /// Solve this line as far as single-line reasoning carries: set every
    /// undetermined cell whose value all consistent placements agree on, and
    /// report the indices that were set.  Returns `None` when no placement is
    /// consistent with the line.
    #[verifier::loop_isolation(false)]
    #[verifier::rlimit(100)]
    pub fn try_solve_line_complete(&mut self) -> (r: Option<Vec<Unit>>)
        requires
            old(self).wf(),
        ensures
            final(self).wf(),
            final(self).cs() == old(self).cs(),
            final(self)@.len() == old(self)@.len(),
            crate::model::refines(old(self)@, final(self)@),
            match r {
                Some(v) => crate::model::solved_line(old(self)@, final(self)@, old(self).cs())
                    && crate::model::reported_changes(old(self)@, final(self)@, v@),
                None => !feasible(old(self)@, old(self).cs()),
            },
    {
        let ghost old_line = self@;
        let ghost csv = self.cs();
        let cs = self.get_constraints();
        let size = self.size() as usize;
        let mut ret: Vec<Unit> = Vec::new();

        // Special case: no constraints, so every cell must be empty.
        if cs.len() == 0 {
            let ghost empty_starts = Seq::<int>::empty();
            let mut p: usize = 0;
            while p < size
                invariant
                    p <= size,
                    size == old_line.len(),
                    self@.len() == old_line.len(),
                    self.cs() == csv,
                    csv.len() == 0,
                    self.wf(),
                    forall|q: int| p <= q < size ==> #[trigger] self@[q] == old_line[q],
                    forall|q: int| 0 <= q < p ==> #[trigger] old_line[q] != Cell::Filled,
                    forall|q: int| 0 <= q < p ==> #[trigger] self@[q] == Cell::Empty,
                    forall|t: int| 0 <= t < ret@.len() ==> (#[trigger] ret@[t]) < p,
                    forall|t: int| 0 < t < ret@.len() ==> ret@[t - 1] < #[trigger] ret@[t],
                    forall|q: int|
                        0 <= q < p ==> ((old_line[q] == Cell::Unknown && #[trigger] self@[q]
                            != Cell::Unknown) <==> ret@.contains(q as Unit)),
                    forall|q: int|
                        p <= q < size ==> !ret@.contains(#[trigger] (q as Unit)),
                decreases size - p,
            {
                match self.get_cell(p as Unit) {
                    Cell::Unknown => {
                        ret.push(p as Unit);
                        self.set_cell(p as Unit, Cell::Empty);
                    },
                    Cell::Filled => {
                        proof {
                            assert forall|starts: Seq<int>| !consistent(old_line, csv, starts) by {
                                if consistent(old_line, csv, starts) {
                                    assert(!covers(starts, csv, p as int));
                                }
                            }
                        }
                        return None;
                    },
                    Cell::Empty => {},
                }
                p = p + 1;
            }
            proof {
                assert(consistent(old_line, csv, empty_starts));
                assert(feasible(old_line, csv));
                assert forall|q: int| 0 <= q < old_line.len() implies ((#[trigger] self@[q]
                    == Cell::Filled <==> forced_filled(old_line, csv, q)) && (self@[q]
                    == Cell::Empty <==> forced_empty(old_line, csv, q))) by {
                    assert(!covers(empty_starts, csv, q));
                    assert(forced_empty(old_line, csv, q));
                }
            }
            return Some(ret);
        }

        // The runs must fit the line at all.
        if self.check_space().is_none() {
            proof {
                lemma_negative_slack_infeasible(old_line, csv);
            }
            return None;
        }
        let ghost sl = slack(csv, old_line.len() as int);

        // Pass one: local viability of every node.
        let mut nodelist = self.make_empty_node_list(false);
        self.fill_viability(&mut nodelist);
        let num_nodes_width = cs.len();
        let num_nodes_height = nodelist.height();

        // Pass two: mark the nodes that lie on a whole-line placement.
        let mut determined = self.make_empty_node_list::<Option<bool>>(None);
        let mut j0: usize = 0;
        while j0 < num_nodes_height
            invariant
                j0 <= num_nodes_height,
                determined.wf(),
                determined.spec_width() == num_nodes_width,
                determined.spec_height() == num_nodes_height,
                memo_ok(determined, old_line, csv, sl),
                memo_closed(determined, old_line, csv, sl),
                forall|j2: int| 0 <= j2 < j0 ==> (#[trigger] determined.spec_get(0, j2)) is Some,
            decreases num_nodes_height - j0,
        {
            let ghost det_prev = determined;
            find_full_paths(0, j0, num_nodes_width, num_nodes_height, &nodelist, &mut determined, cs, self);
            proof {
                assert forall|j2: int|
                    0 <= j2 < j0 + 1 implies (#[trigger] determined.spec_get(0, j2)) is Some by {
                    if j2 < j0 {
                        assert(det_prev.spec_get(0, j2) is Some);
                    }
                }
            }
            j0 = j0 + 1;
        }
        proof {
            assert forall|i2: int, j2: int|
                0 <= i2 < num_nodes_width && 0 <= j2 <= sl implies ((#[trigger] determined.spec_get(
                i2,
                j2,
            )) == Some(true) <==> on_full(old_line, csv, sl, i2, j2)) by {
                if on_full(old_line, csv, sl, i2, j2) {
                    lemma_visits_complete(determined, old_line, csv, sl, i2, j2);
                }
            }
        }

        // Pass three: record, per cell, whether some placement leaves it
        // empty and whether some placement fills it.
        let mut marks: Vec<(bool, bool)> = Vec::new();
        let mut p0: usize = 0;
        while p0 < size
            invariant
                p0 <= size,
                marks@.len() == p0,
                forall|q: int| 0 <= q < p0 ==> #[trigger] marks@[q] == (false, false),
            decreases size - p0,
        {
            marks.push((false, false));
            p0 = p0 + 1;
        }
        let mut i: usize = 0;
        while i < num_nodes_width
            invariant
                i <= num_nodes_width,
                marks@.len() == old_line.len(),
                marks_sound(marks@, old_line, csv),
                forall|i2: int, j2: int|
                    0 <= i2 < i && 0 <= j2 <= sl && #[trigger] on_full(old_line, csv, sl, i2, j2)
                        ==> node_marked(marks@, old_line, csv, sl, i2, j2),
            decreases num_nodes_width - i,
        {
            let mut j: usize = 0;
            while j < num_nodes_height
                invariant
                    j <= num_nodes_height,
                    i < num_nodes_width,
                    marks@.len() == old_line.len(),
                    marks_sound(marks@, old_line, csv),
                    forall|i2: int, j2: int|
                        0 <= i2 < i && 0 <= j2 <= sl && #[trigger] on_full(old_line, csv, sl, i2, j2)
                            ==> node_marked(marks@, old_line, csv, sl, i2, j2),
                    forall|j2: int|
                        0 <= j2 < j && #[trigger] on_full(old_line, csv, sl, i as int, j2)
                            ==> node_marked(marks@, old_line, csv, sl, i as int, j2),
                decreases num_nodes_height - j,
            {
                let reachable = match *determined.get(i, j) {
                    Some(true) => true,
                    _ => false,
                };
                if reachable {
                    let ghost before = marks@;
                    mark_node(&mut marks, i, j, &determined, cs, self);
                    proof {
                        assert forall|i2: int, j2: int|
                            (0 <= i2 < i || (i2 == i && 0 <= j2 < j)) && 0 <= j2 <= sl
                                && #[trigger] on_full(old_line, csv, sl, i2, j2) implies node_marked(
                            marks@,
                            old_line,
                            csv,
                            sl,
                            i2,
                            j2,
                        ) by {
                            lemma_node_marked_mono(before, marks@, old_line, csv, sl, i2, j2);
                        }
                    }
                }
                j = j + 1;
            }
            i = i + 1;
        }

        // Decide every cell: empty when no placement fills it, filled when no
        // placement leaves it empty, contradiction when a cell has no
        // placement at all or conflicts with its determined value.
        let ghost all_marked = marks@;
        let mut p: usize = 0;
        while p < size
            invariant
                p <= size,
                size == old_line.len(),
                self@.len() == old_line.len(),
                self.cs() == csv,
                self.wf(),
                marks@ == all_marked,
                all_marked.len() == old_line.len(),
                marks_sound(all_marked, old_line, csv),
                forall|i2: int, j2: int|
                    0 <= i2 < csv.len() && 0 <= j2 <= sl && #[trigger] on_full(old_line, csv, sl, i2, j2)
                        ==> node_marked(all_marked, old_line, csv, sl, i2, j2),
                csv.len() >= 1,
                sl == slack(csv, old_line.len() as int),
                sl >= 0,
                wf_constraints(csv),
                forall|q: int| p <= q < size ==> #[trigger] self@[q] == old_line[q],
                forall|q: int|
                    0 <= q < p ==> ((#[trigger] self@[q] == Cell::Filled <==> forced_filled(
                        old_line,
                        csv,
                        q,
                    )) && (self@[q] == Cell::Empty <==> forced_empty(old_line, csv, q))),
                forall|q: int|
                    0 <= q < p && old_line[q] != Cell::Unknown ==> #[trigger] self@[q] == old_line[q],
                forall|t: int| 0 <= t < ret@.len() ==> (#[trigger] ret@[t]) < p,
                forall|t: int| 0 < t < ret@.len() ==> ret@[t - 1] < #[trigger] ret@[t],
                forall|q: int|
                    0 <= q < p ==> ((old_line[q] == Cell::Unknown && #[trigger] self@[q]
                        != Cell::Unknown) <==> ret@.contains(q as Unit)),
                forall|q: int| p <= q < size ==> !ret@.contains(#[trigger] (q as Unit)),
                p > 0 ==> feasible(old_line, csv),
            decreases size - p,
        {
            let (can_be_empty, can_be_filled) = marks[p];
            let cell = self.get_cell(p as Unit);
            proof {
                assert(cell == old_line[p as int]);
                if can_be_empty {
                    assert(cell_witnessed(old_line, csv, p as int, false));
                }
                if can_be_filled {
                    assert(cell_witnessed(old_line, csv, p as int, true));
                }
            }
            if can_be_empty && !can_be_filled {
                proof {
                    // No placement fills this cell, so it is forced empty.
                    assert forall|starts: Seq<int>|
                        consistent(old_line, csv, starts) implies !covers(starts, csv, p as int) by {
                        lemma_marks_complete(all_marked, old_line, csv, sl, starts, p as int);
                    }
                    assert(forced_empty(old_line, csv, p as int));
                    let ws = choose|starts: Seq<int>|
                        #[trigger] consistent(old_line, csv, starts) && covers(starts, csv, p as int)
                            == false;
                    assert(!forced_filled(old_line, csv, p as int));
                    assert(feasible(old_line, csv));
                }
                match cell {
                    Cell::Empty => {},
                    Cell::Filled => {
                        return None;
                    },
                    Cell::Unknown => {
                        ret.push(p as Unit);
                        self.set_cell(p as Unit, Cell::Empty);
                    },
                }
            } else if !can_be_empty && can_be_filled {
                proof {
                    // No placement leaves this cell empty, so it is forced filled.
                    assert forall|starts: Seq<int>|
                        consistent(old_line, csv, starts) implies covers(starts, csv, p as int) by {
                        lemma_marks_complete(all_marked, old_line, csv, sl, starts, p as int);
                    }
                    assert(forced_filled(old_line, csv, p as int));
                    let ws = choose|starts: Seq<int>|
                        #[trigger] consistent(old_line, csv, starts) && covers(starts, csv, p as int)
                            == true;
                    assert(!forced_empty(old_line, csv, p as int));
                    assert(feasible(old_line, csv));
                }
                match cell {
                    Cell::Filled => {},
                    Cell::Empty => {
                        return None;
                    },
                    Cell::Unknown => {
                        ret.push(p as Unit);
                        self.set_cell(p as Unit, Cell::Filled);
                    },
                }
            } else if !can_be_empty && !can_be_filled {
                // No placement decides this cell at all: none exists.
                proof {
                    assert forall|starts: Seq<int>| !consistent(old_line, csv, starts) by {
                        if consistent(old_line, csv, starts) {
                            lemma_marks_complete(all_marked, old_line, csv, sl, starts, p as int);
                        }
                    }
                }
                return None;
            } else {
                proof {
                    let we = choose|starts: Seq<int>|
                        #[trigger] consistent(old_line, csv, starts) && covers(starts, csv, p as int)
                            == false;
                    let wf2 = choose|starts: Seq<int>|
                        #[trigger] consistent(old_line, csv, starts) && covers(starts, csv, p as int)
                            == true;
                    assert(!forced_filled(old_line, csv, p as int));
                    assert(!forced_empty(old_line, csv, p as int));
                    assert(feasible(old_line, csv));
                }
            }
            p = p + 1;
        }
        proof {
            // A line with a constraint has at least one cell, so feasibility
            // was established at the first cell.
            lemma_left_bound_nonneg(csv, csv.len() as int);
            assert(old_line.len() >= 1);
        }
        Some(ret)
    }

    /// Read the constraint list off a fully determined line: the ordered
    /// lengths of its maximal runs of filled cells.
    #[verifier::loop_isolation(false)]
    pub fn generate_new_constraints(&self) -> (r: Option<ConstraintList>)
        requires
            self.wf(),
        ensures
            match r {
                None => !crate::model::complete(self@),
                Some(cl) => {
                    &&& crate::model::complete(self@)
                    &&& crate::model::lengths_of(cl@) == crate::model::runs_of(self@)
                    &&& wf_constraints(cl@)
                },
            },
    {
        if !self.is_completed() {
            None
        } else {
            let size = self.size();
            let mut n: Unit = 0;
            let mut ret: ConstraintList = Vec::new();
            let mut i: Unit = 0;
            while i < size
                invariant
                    i <= size,
                    size == self@.len(),
                    self.wf(),
                    n <= i,
                    crate::model::runs_of(self@) == crate::model::lengths_of(ret@)
                        + crate::model::runs_from(self@, i as int, n as int),
                    wf_constraints(ret@),
                decreases size - i,
            {
                let ghost prev = ret@;
                let cell = self.get_cell(i);
                if cell == Cell::Filled {
                    n = n + 1;
                } else if n > 0 {
                    ret.push(Constraint::new(n));
                    proof {
                        assert(crate::model::lengths_of(ret@) =~= crate::model::lengths_of(
                            prev,
                        ).push(n as int));
                        assert(crate::model::lengths_of(prev).push(n as int)
                            + crate::model::runs_from(self@, i + 1, 0)
                            =~= crate::model::lengths_of(prev) + (seq![n as int]
                            + crate::model::runs_from(self@, i + 1, 0)));
                    }
                    n = 0;
                }
                i = i + 1;
            }
            let ghost prev = ret@;
            if n > 0 {
                ret.push(Constraint::new(n));
                proof {
                    assert(crate::model::lengths_of(ret@) =~= crate::model::lengths_of(prev).push(
                        n as int,
                    ));
                    assert(crate::model::lengths_of(prev).push(n as int)
                        =~= crate::model::lengths_of(prev) + seq![n as int]);
                }
            } else {
                proof {
                    assert(crate::model::lengths_of(ret@) + Seq::<int>::empty()
                        =~= crate::model::lengths_of(ret@));
                }
            }
            Some(ret)
        }
    }
}

} // verus!
