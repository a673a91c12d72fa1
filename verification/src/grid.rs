//! The puzzle grid and its region evaluator.
//!
//! A grid is a set of cells, each belonging to one or more rule regions, plus
//! an inventory of dominoes. During solving, cells carry an optional pip
//! value; a region is judged `Incomplete`, `Satisfied` or `Violated` from the
//! values assigned so far and the number of cells still empty. Judging
//! partially filled regions is what lets the search prune dead branches
//! early: with every pip at most six, a region whose maximum achievable sum
//! already falls short — or whose minimum already overshoots — can never be
//! completed.

use vstd::prelude::*;

use crate::rules::{parse_rule, Rule};

verus! {

/// A grid position, as an `(x, y)` pair.
pub type Coord = (u32, u32);

/// A domino: an unordered pair of pip values.
pub type Domino = (u8, u8);

/// Largest number of cells a single region may list. Pip sums are tallied in
/// 32 bits; with pips at most six, sums over regions of this size stay well
/// within range.
pub const MAX_REGION_CELLS: usize = 100000000;

/// One rule region: its textual rule token and the cells it governs.
pub struct GridEntry {
    pub rule: String,
    pub coords: Vec<Coord>,
}

/// A puzzle description: rule regions and the available domino set.
pub struct GridFile {
    pub grid: Vec<GridEntry>,
    pub dominoes: Vec<Domino>,
}

/// Evaluation status of a region under a partial assignment.
#[derive(Debug, Clone, Copy, PartialEq, Eq, Structural)]
pub enum RegionState {
    Incomplete,
    Satisfied,
    Violated,
}

/// The sum of a sequence of pip values.
pub open spec fn sum_of(values: Seq<u8>) -> int
    decreases values.len(),
{
    if values.len() == 0 {
        0
    } else {
        sum_of(values.drop_last()) + values.last()
    }
}

/// The verdict of a rule over a region, given the pip values of its assigned
/// cells (in region order) and the number of still-empty cells.
pub open spec fn region_eval(rule: Rule, values: Seq<u8>, empties: nat) -> RegionState {
    match rule {
        Rule::Any | Rule::Unknown => {
            if empties == 0 {
                RegionState::Satisfied
            } else {
                RegionState::Incomplete
            }
        },
        Rule::Equal => {
            if values.len() <= 1 {
                if empties == 0 {
                    RegionState::Satisfied
                } else {
                    RegionState::Incomplete
                }
            } else if exists|t: int| 0 <= t < values.len() && #[trigger] values[t] != values[0] {
                RegionState::Violated
            } else if empties == 0 {
                RegionState::Satisfied
            } else {
                RegionState::Incomplete
            }
        },
        Rule::Sum(target) => {
            let s = sum_of(values);
            if s > target {
                RegionState::Violated
            } else if s + 6 * empties < target {
                RegionState::Violated
            } else if empties == 0 {
                if s == target {
                    RegionState::Satisfied
                } else {
                    RegionState::Violated
                }
            } else {
                RegionState::Incomplete
            }
        },
        Rule::GreaterThan(k) => {
            let s = sum_of(values);
            if s + 6 * empties <= k {
                RegionState::Violated
            } else if empties == 0 {
                if s > k {
                    RegionState::Satisfied
                } else {
                    RegionState::Violated
                }
            } else {
                RegionState::Incomplete
            }
        },
        Rule::LessThan(k) => {
            let s = sum_of(values);
            if s >= k {
                RegionState::Violated
            } else if empties == 0 {
                if s < k {
                    RegionState::Satisfied
                } else {
                    RegionState::Violated
                }
            } else {
                RegionState::Incomplete
            }
        },
    }
}

/// A region ruled `"="` holding two assigned cells of differing pip value is
/// violated, no matter how many of its cells are still empty.
pub proof fn lemma_equal_rule_violated(values: Seq<u8>, empties: nat, a: int, b: int)
    requires
        0 <= a < values.len(),
        0 <= b < values.len(),
        values[a] != values[b],
    ensures
        region_eval(Rule::Equal, values, empties) == RegionState::Violated,
{
    if values[a] != values[0] {
        assert(exists|t: int| 0 <= t < values.len() && #[trigger] values[t] != values[0]);
    } else {
        assert(values[b] != values[0]);
        assert(exists|t: int| 0 <= t < values.len() && #[trigger] values[t] != values[0]);
    }
}

/// The exact verdicts of a `SumEquals` region: once nothing is empty, it is
/// satisfied precisely when the sum meets the target and violated otherwise;
/// while cells remain empty, it is violated precisely when the sum already
/// overshoots or six pips in every empty cell would still fall short, and
/// incomplete otherwise.
pub proof fn lemma_sum_rule_exact(target: u32, values: Seq<u8>, empties: nat)
    ensures
        empties == 0 ==> (region_eval(Rule::Sum(target), values, empties)
            == RegionState::Satisfied <==> sum_of(values) == target),
        empties == 0 ==> (region_eval(Rule::Sum(target), values, empties)
            == RegionState::Violated <==> sum_of(values) != target),
        empties > 0 ==> (region_eval(Rule::Sum(target), values, empties)
            == RegionState::Violated <==> (sum_of(values) > target || sum_of(values) + 6 * empties
            < target)),
        empties > 0 ==> (region_eval(Rule::Sum(target), values, empties)
            == RegionState::Incomplete <==> !(sum_of(values) > target || sum_of(values) + 6
            * empties < target)),
{
}

/// The maximum-achievable-sum prune for a `">k"` region: it is violated
/// precisely when six pips in every empty cell would still not push the sum
/// past `k`; once nothing is empty, satisfied precisely when the sum exceeds
/// `k`.
pub proof fn lemma_greater_rule_exact(k: u32, values: Seq<u8>, empties: nat)
    ensures
        region_eval(Rule::GreaterThan(k), values, empties) == RegionState::Violated <==> (sum_of(
            values,
        ) + 6 * empties <= k),
        empties == 0 ==> (region_eval(Rule::GreaterThan(k), values, empties)
            == RegionState::Satisfied <==> sum_of(values) > k),
        empties > 0 ==> (region_eval(Rule::GreaterThan(k), values, empties)
            == RegionState::Incomplete <==> sum_of(values) + 6 * empties > k),
{
}

/// The minimum-achievable-sum prune for a `"<k"` region: adding pips can
/// only grow the sum, so it is violated precisely when the sum has already
/// reached `k`; once nothing is empty, satisfied precisely when the sum is
/// below `k`.
pub proof fn lemma_less_rule_exact(k: u32, values: Seq<u8>, empties: nat)
    ensures
        region_eval(Rule::LessThan(k), values, empties) == RegionState::Violated <==> sum_of(
            values,
        ) >= k,
        empties == 0 ==> (region_eval(Rule::LessThan(k), values, empties)
            == RegionState::Satisfied <==> sum_of(values) < k),
        empties > 0 ==> (region_eval(Rule::LessThan(k), values, empties)
            == RegionState::Incomplete <==> sum_of(values) < k),
{
}

proof fn lemma_sum_of_concat(a: Seq<u8>, b: Seq<u8>)
    ensures
        sum_of(a + b) == sum_of(a) + sum_of(b),
    decreases b.len(),
{
    if b.len() == 0 {
        assert(a + b =~= a);
    } else {
        assert((a + b).drop_last() =~= a + b.drop_last());
        assert((a + b).last() == b.last());
        lemma_sum_of_concat(a, b.drop_last());
    }
}

proof fn lemma_sum_of_bounds(s: Seq<u8>)
    requires
        forall|i: int| 0 <= i < s.len() ==> s[i] <= 6,
    ensures
        0 <= sum_of(s) <= 6 * s.len(),
    decreases s.len(),
{
    if s.len() > 0 {
        assert(s.last() == s[s.len() - 1]);
        assert(forall|i: int| 0 <= i < s.drop_last().len() ==> s.drop_last()[i] <= 6);
        lemma_sum_of_bounds(s.drop_last());
    }
}

/// Forward checking is sound: a region judged `Violated` stays violated
/// however further pips, each at most six, fill its empty cells. A branch
/// pruned on a violated region can therefore never reach a satisfying
/// completion of that region.
pub proof fn lemma_violated_is_stable(rule: Rule, values: Seq<u8>, empties: nat, extra: Seq<u8>)
    requires
        region_eval(rule, values, empties) == RegionState::Violated,
        extra.len() <= empties,
        forall|i: int| 0 <= i < extra.len() ==> extra[i] <= 6,
    ensures
        region_eval(rule, values + extra, (empties - extra.len()) as nat)
            == RegionState::Violated,
{
    lemma_sum_of_concat(values, extra);
    lemma_sum_of_bounds(extra);
    match rule {
        Rule::Equal => {
            let t = choose|t: int| 0 <= t < values.len() && #[trigger] values[t] != values[0];
            assert((values + extra)[t] == values[t]);
            assert((values + extra)[0] == values[0]);
            assert(exists|u: int|
                0 <= u < (values + extra).len() && #[trigger] (values + extra)[u] != (values
                    + extra)[0]);
        },
        _ => {},
    }
}

/// In-memory puzzle grid plus solver state: the current cell assignment and
/// the remaining dominoes.
pub struct GameGrid {
    /// The rule regions as loaded.
    pub entries: Vec<GridEntry>,
    /// Rules parsed from the entries' tokens, parallel to `entries`.
    pub parsed_rules: Vec<Rule>,
    /// Every distinct cell of the grid, in first-appearance order.
    pub cells: Vec<Coord>,
    /// The current pip assignment, parallel to `cells`; `None` is empty.
    pub assignment: Vec<Option<u8>>,
    /// The domino occupying each assigned cell, parallel to `cells`; kept
    /// only so a renderer can group the two halves of one domino.
    pub domino_ids: Vec<Option<usize>>,
    /// The domino inventory as loaded.
    pub dominoes: Vec<Domino>,
    /// Availability flag per inventory slot, parallel to `dominoes`; toggled
    /// transactionally during search.
    pub available: Vec<bool>,
}

impl GameGrid {
    /// Structural well-formedness: parallel vectors agree in length, rules
    /// mirror the tokens, cells are distinct and cover every region
    /// coordinate, and pips as well as coordinates stay in the ranges the
    /// model supports.
    pub open spec fn wf(self) -> bool {
        &&& self.parsed_rules@.len() == self.entries@.len()
        &&& forall|i: int|
            0 <= i < self.entries@.len() ==> self.parsed_rules@[i] == parse_rule(
                self.entries@[i].rule@,
            )
        &&& self.assignment@.len() == self.cells@.len()
        &&& self.domino_ids@.len() == self.cells@.len()
        &&& self.available@.len() == self.dominoes@.len()
        &&& self.cells@.no_duplicates()
        &&& forall|i: int, k: int|
            0 <= i < self.entries@.len() && 0 <= k < self.entries@[i].coords@.len()
                ==> self.cells@.contains(#[trigger] self.entries@[i].coords@[k])
        &&& forall|i: int|
            0 <= i < self.entries@.len() ==> #[trigger] self.entries@[i].coords@.len()
                <= MAX_REGION_CELLS
        &&& forall|j: int|
            0 <= j < self.assignment@.len() ==> pip_opt_ok(#[trigger] self.assignment@[j])
        &&& forall|i: int|
            0 <= i < self.dominoes@.len() ==> (#[trigger] self.dominoes@[i]).0 <= 6
                && self.dominoes@[i].1 <= 6
        &&& forall|j: int|
            0 <= j < self.cells@.len() ==> (#[trigger] self.cells@[j]).0 < u32::MAX
                && self.cells@[j].1 < u32::MAX
        &&& forall|j: int|
            0 <= j < self.assignment@.len() && self.assignment@[j] is None
                ==> (#[trigger] self.domino_ids@[j]) is None
    }

    /// Whether `c` is a cell of the grid.
    pub open spec fn has_cell(self, c: Coord) -> bool {
        self.cells@.contains(c)
    }

    /// The position of cell `c` in the cell list.
    pub open spec fn cell_index(self, c: Coord) -> int {
        self.cells@.index_of(c)
    }

    /// The pip value a hypothetical assignment gives to `c`, if any.
    pub open spec fn pip_in(self, asg: Seq<Option<u8>>, c: Coord) -> Option<u8> {
        pip_lookup(self.cells@, asg, c)
    }

    /// The pip value currently assigned to `c`, if any.
    pub open spec fn pip_at(self, c: Coord) -> Option<u8> {
        self.pip_in(self.assignment@, c)
    }

    /// The pip values a hypothetical assignment gives within `coords`, in
    /// region order.
    pub open spec fn region_values_in(self, asg: Seq<Option<u8>>, coords: Seq<Coord>) -> Seq<u8> {
        values_in(self.cells@, asg, coords)
    }

    /// The pip values currently assigned within `coords`, in region order.
    pub open spec fn region_values(self, coords: Seq<Coord>) -> Seq<u8> {
        self.region_values_in(self.assignment@, coords)
    }

    /// How many cells of `coords` a hypothetical assignment leaves empty.
    pub open spec fn region_empties_in(self, asg: Seq<Option<u8>>, coords: Seq<Coord>) -> nat {
        empties_in(self.cells@, asg, coords)
    }

    /// How many cells of `coords` are still empty.
    pub open spec fn region_empties(self, coords: Seq<Coord>) -> nat {
        self.region_empties_in(self.assignment@, coords)
    }

    /// The verdict of region `i` under a hypothetical assignment.
    pub open spec fn status_with(self, asg: Seq<Option<u8>>, i: int) -> RegionState {
        eval_region(self.entries@, self.parsed_rules@, self.cells@, asg, i)
    }

    /// The verdict of region `i` under the current assignment.
    pub open spec fn region_status(self, i: int) -> RegionState {
        self.status_with(self.assignment@, i)
    }

    /// Some cell is empty while every orthogonally adjacent grid cell is
    /// already filled. A domino always covers two adjacent cells, so such a
    /// cell can never be covered and the position is a dead end.
    #[verifier::opaque]
    pub open spec fn has_isolated_empty_cell(self) -> bool {
        exists|j: int|
            0 <= j < self.cells@.len() && (#[trigger] self.assignment@[j]) is None && (forall|
                k: int,
            |
                0 <= k < self.cells@.len() && neighbor_seq(self.cells@[j]).contains(
                    #[trigger] self.cells@[k],
                ) ==> self.assignment@[k] is Some)
    }

    /// Whether region `i` touches any of the given coordinates.
    pub open spec fn region_touches(self, i: int, coords: Seq<Coord>) -> bool {
        exists|k: int| 0 <= k < coords.len() && self.entries@[i].coords@.contains(coords[k])
    }

    /// Locate a coordinate in the cell list.
    pub(crate) fn find_cell(&self, c: Coord) -> (r: Option<usize>)
        ensures
            match r {
                Some(j) => j < self.cells@.len() && self.cells@[j as int] == c,
                None => !self.has_cell(c),
            },
    {
        let n = self.cells.len();
        let mut j: usize = 0;
        while j < n
            invariant
                0 <= j <= n,
                n == self.cells@.len(),
                forall|t: int| 0 <= t < j ==> self.cells@[t] != c,
            decreases n - j,
        {
            let cur = self.cells[j];
            if cur.0 == c.0 && cur.1 == c.1 {
                return Some(j);
            }
            j = j + 1;
        }
        None
    }

    /// The pip value currently assigned to a coordinate, if any.
    pub fn pip_value(&self, c: Coord) -> (r: Option<u8>)
        requires
            self.wf(),
        ensures
            r == self.pip_at(c),
            pip_opt_ok(r),
    {
        match self.find_cell(c) {
            Some(j) => {
                proof {
                    lemma_cell_index_agrees(*self, c, j as int);
                }
                self.assignment[j]
            },
            None => None,
        }
    }
    /// Determine the current state (`Incomplete` / `Satisfied` / `Violated`)
    /// of region `idx` under the partial assignment.
    pub fn region_state(&self, idx: usize) -> (r: RegionState)
        requires
            self.wf(),
            idx < self.entries@.len(),
        ensures
            r == self.region_status(idx as int),
    {
        let entry = &self.entries[idx];
        let rule = self.parsed_rules[idx];
        let ncoords = entry.coords.len();
        let ghost coords = entry.coords@;
        let mut sum: u32 = 0;
        let mut cnt: usize = 0;
        let mut first: u8 = 0;
        let mut any_diff = false;
        let mut empty: usize = 0;
        let mut k: usize = 0;
        while k < ncoords
            invariant
                self.wf(),
                idx < self.entries@.len(),
                coords == self.entries@[idx as int].coords@,
                entry.coords@ == coords,
                ncoords == coords.len(),
                ncoords <= MAX_REGION_CELLS,
                0 <= k <= ncoords,
                ({
                    let vals = self.region_values(coords.take(k as int));
                    &&& cnt == vals.len()
                    &&& sum == sum_of(vals)
                    &&& empty == self.region_empties(coords.take(k as int))
                    &&& (cnt > 0 ==> first == vals[0])
                    &&& any_diff == exists|t: int|
                        0 <= t < vals.len() && #[trigger] vals[t] != vals[0]
                }),
                cnt + empty == k,
                sum <= 6 * cnt,
            decreases ncoords - k,
        {
            let c = entry.coords[k];
            let ghost prefix = coords.take(k as int);
            let ghost grown = coords.take(k as int + 1);
            proof {
                assert(grown.drop_last() =~= prefix);
                assert(grown.last() == coords[k as int]);
            }
            match self.pip_value(c) {
                Some(v) => {
                    sum = sum + v as u32;
                    if cnt == 0 {
                        first = v;
                    } else if v != first {
                        any_diff = true;
                    }
                    cnt = cnt + 1;
                    proof {
                        let vals = self.region_values(prefix);
                        let nvals = self.region_values(grown);
                        assert(nvals == vals.push(v));
                        assert(nvals.drop_last() =~= vals);
                        assert(nvals.last() == v);
                        assert(nvals[nvals.len() - 1] == v);
                        assert(forall|t: int| 0 <= t < vals.len() ==> nvals[t] == vals[t]);
                    }
                },
                None => {
                    empty = empty + 1;
                },
            }
            k = k + 1;
        }
        proof {
            assert(coords.take(ncoords as int) =~= coords);
        }
        match rule {
            Rule::Any | Rule::Unknown => {
                if empty == 0 {
                    RegionState::Satisfied
                } else {
                    RegionState::Incomplete
                }
            },
            Rule::Equal => {
                if cnt <= 1 {
                    if empty == 0 {
                        RegionState::Satisfied
                    } else {
                        RegionState::Incomplete
                    }
                } else if any_diff {
                    RegionState::Violated
                } else if empty == 0 {
                    RegionState::Satisfied
                } else {
                    RegionState::Incomplete
                }
            },
            Rule::Sum(target) => {
                if sum > target {
                    return RegionState::Violated;
                }
                let max_possible = sum + (empty as u32) * 6;
                if max_possible < target {
                    return RegionState::Violated;
                }
                if empty == 0 {
                    if sum == target {
                        RegionState::Satisfied
                    } else {
                        RegionState::Violated
                    }
                } else {
                    RegionState::Incomplete
                }
            },
            Rule::GreaterThan(k_bound) => {
                let max_possible = sum + (empty as u32) * 6;
                if max_possible <= k_bound {
                    return RegionState::Violated;
                }
                if empty == 0 {
                    if sum > k_bound {
                        RegionState::Satisfied
                    } else {
                        RegionState::Violated
                    }
                } else {
                    RegionState::Incomplete
                }
            },
            Rule::LessThan(k_bound) => {
                if sum >= k_bound {
                    return RegionState::Violated;
                }
                if empty == 0 {
                    if sum < k_bound {
                        RegionState::Satisfied
                    } else {
                        RegionState::Violated
                    }
                } else {
                    RegionState::Incomplete
                }
            },
        }
    }
    /// Construct from an already deserialized `GridFile`, building the
    /// parsed rules and the distinct cell list the solver works on.
    pub fn from_parsed(parsed: GridFile) -> (g: GameGrid)
        requires
            forall|i: int|
                0 <= i < parsed.grid@.len() ==> #[trigger] parsed.grid@[i].coords@.len()
                    <= MAX_REGION_CELLS,
            forall|i: int, k: int|
                0 <= i < parsed.grid@.len() && 0 <= k < parsed.grid@[i].coords@.len()
                    ==> (#[trigger] parsed.grid@[i].coords@[k]).0 < u32::MAX
                    && parsed.grid@[i].coords@[k].1 < u32::MAX,
            forall|i: int|
                0 <= i < parsed.dominoes@.len() ==> (#[trigger] parsed.dominoes@[i]).0 <= 6
                    && parsed.dominoes@[i].1 <= 6,
        ensures
            g.wf(),
            g.entries == parsed.grid,
            g.dominoes == parsed.dominoes,
            forall|j: int| 0 <= j < g.assignment@.len() ==> (#[trigger] g.assignment@[j]) is None,
            forall|j: int| 0 <= j < g.domino_ids@.len() ==> (#[trigger] g.domino_ids@[j]) is None,
            forall|t: int| 0 <= t < g.available@.len() ==> #[trigger] g.available@[t],
            forall|c: Coord| #[trigger] g.has_cell(c) <==> coord_in_grid(parsed.grid@, c),
            g.cells@ == cells_after_entries(Seq::empty(), parsed.grid@),
    {
        let nentries = parsed.grid.len();
        let mut parsed_rules: Vec<Rule> = Vec::new();
        let mut i: usize = 0;
        while i < nentries
            invariant
                i <= nentries,
                nentries == parsed.grid@.len(),
                parsed_rules@.len() == i,
                forall|t: int|
                    0 <= t < i ==> #[trigger] parsed_rules@[t] == parse_rule(
                        parsed.grid@[t].rule@,
                    ),
            decreases nentries - i,
        {
            let r = Rule::parse(parsed.grid[i].rule.as_str());
            parsed_rules.push(r);
            i = i + 1;
        }
        let mut cells: Vec<Coord> = Vec::new();
        let mut i: usize = 0;
        while i < nentries
            invariant
                i <= nentries,
                nentries == parsed.grid@.len(),
                cells@.no_duplicates(),
                forall|a: int, b: int|
                    0 <= a < i && 0 <= b < parsed.grid@[a].coords@.len() ==> cells@.contains(
                        #[trigger] parsed.grid@[a].coords@[b],
                    ),
                forall|j: int|
                    0 <= j < cells@.len() ==> coord_in_grid(parsed.grid@, #[trigger] cells@[j]),
                cells@ == cells_after_entries(Seq::empty(), parsed.grid@.take(i as int)),
            decreases nentries - i,
        {
            let entry_len = parsed.grid[i].coords.len();
            let mut k: usize = 0;
            while k < entry_len
                invariant
                    i < nentries,
                    nentries == parsed.grid@.len(),
                    k <= entry_len,
                    entry_len == parsed.grid@[i as int].coords@.len(),
                    cells@.no_duplicates(),
                    forall|a: int, b: int|
                        0 <= a < i && 0 <= b < parsed.grid@[a].coords@.len() ==> cells@.contains(
                            #[trigger] parsed.grid@[a].coords@[b],
                        ),
                    forall|b: int|
                        0 <= b < k ==> cells@.contains(
                            #[trigger] parsed.grid@[i as int].coords@[b],
                        ),
                    forall|j: int|
                        0 <= j < cells@.len() ==> coord_in_grid(parsed.grid@, #[trigger] cells@[j]),
                    cells@ == cells_after_coords(
                        cells_after_entries(Seq::empty(), parsed.grid@.take(i as int)),
                        parsed.grid@[i as int].coords@.take(k as int),
                    ),
                decreases entry_len - k,
            {
                let ghost coords_i = parsed.grid@[i as int].coords@;
                proof {
                    assert(coords_i.take(k + 1).drop_last() =~= coords_i.take(k as int));
                    assert(coords_i.take(k + 1).last() == coords_i[k as int]);
                }
                let c = parsed.grid[i].coords[k];
                if !coords_contain(&cells, c) {
                    let ghost before = cells@;
                    cells.push(c);
                    proof {
                        assert forall|x: Coord| before.contains(x) implies cells@.contains(x) by {
                            let w = choose|w: int| 0 <= w < before.len() && before[w] == x;
                            assert(cells@[w] == x);
                        }
                        assert(cells@[before.len() as int] == c);
                        assert(cells@.contains(c));
                        assert(parsed.grid@[i as int].coords@[k as int] == c);
                        assert(coord_in_grid(parsed.grid@, c));
                        assert forall|p: int, q: int| 0 <= p < q < cells@.len() implies cells@[p]
                            != cells@[q] by {
                            if q < before.len() {
                                assert(before[p] != before[q]);
                            } else {
                                assert(!before.contains(cells@[q]));
                            }
                        }
                        assert(cells@.no_duplicates());
                    }
                }
                k = k + 1;
            }
            proof {
                let done = parsed.grid@[i as int].coords@;
                assert(done.take(entry_len as int) =~= done);
                assert(parsed.grid@.take(i + 1).drop_last() =~= parsed.grid@.take(i as int));
                assert(parsed.grid@.take(i + 1).last() == parsed.grid@[i as int]);
            }
            i = i + 1;
        }
        proof {
            assert(parsed.grid@.take(nentries as int) =~= parsed.grid@);
        }
        let ncells = cells.len();
        let mut assignment: Vec<Option<u8>> = Vec::new();
        while assignment.len() < ncells
            invariant
                assignment@.len() <= ncells,
                forall|j: int| 0 <= j < assignment@.len() ==> (#[trigger] assignment@[j]) is None,
            decreases ncells - assignment.len(),
        {
            assignment.push(None);
        }
        let mut domino_ids: Vec<Option<usize>> = Vec::new();
        while domino_ids.len() < ncells
            invariant
                domino_ids@.len() <= ncells,
                forall|j: int| 0 <= j < domino_ids@.len() ==> (#[trigger] domino_ids@[j]) is None,
            decreases ncells - domino_ids.len(),
        {
            domino_ids.push(None);
        }
        let ndominoes = parsed.dominoes.len();
        let mut available: Vec<bool> = Vec::new();
        while available.len() < ndominoes
            invariant
                available@.len() <= ndominoes,
                forall|t: int| 0 <= t < available@.len() ==> #[trigger] available@[t],
            decreases ndominoes - available.len(),
        {
            available.push(true);
        }
        GameGrid {
            entries: parsed.grid,
            parsed_rules,
            cells,
            assignment,
            domino_ids,
            dominoes: parsed.dominoes,
            available,
        }
    }

    /// Return the orthogonally adjacent coordinates. Subtraction wraps
    /// below zero; a well-formed grid holds no coordinate at the numeric
    /// limit, so a wrapped value never names a real cell and the existence
    /// check discards it.
    pub fn neighbors(coord: Coord) -> (r: Vec<Coord>)
        requires
            coord.0 < u32::MAX,
            coord.1 < u32::MAX,
        ensures
            r@ == neighbor_seq(coord),
    {
        let x = coord.0;
        let y = coord.1;
        let left: u32 = if x == 0 {
            u32::MAX
        } else {
            x - 1
        };
        let down: u32 = if y == 0 {
            u32::MAX
        } else {
            y - 1
        };
        let r = vec![(left, y), (x + 1, y), (x, down), (x, y + 1)];
        proof {
            assert(r@ =~= neighbor_seq(coord));
        }
        r
    }

    /// Assign pip `v` directly to cell `c`, if the grid has such a cell;
    /// used to seed a partial position before judging regions or solving.
    pub fn set_cell(&mut self, c: Coord, v: u8) -> (r: bool)
        requires
            old(self).wf(),
            v <= 6,
        ensures
            final(self).wf(),
            final(self).entries == old(self).entries,
            final(self).parsed_rules == old(self).parsed_rules,
            final(self).cells == old(self).cells,
            final(self).dominoes == old(self).dominoes,
            final(self).domino_ids == old(self).domino_ids,
            final(self).available == old(self).available,
            r == old(self).has_cell(c),
            r ==> final(self).assignment@ == old(self).assignment@.update(
                old(self).cell_index(c),
                Some(v),
            ),
            !r ==> final(self).assignment@ == old(self).assignment@,
    {
        match self.find_cell(c) {
            Some(j) => {
                proof {
                    lemma_cell_index_agrees(*self, c, j as int);
                }
                self.assignment[j] = Some(v);
                true
            },
            None => false,
        }
    }

    /// Check that every region touching any of the provided coordinates is
    /// still feasible, that is, none of them reports `Violated`.
    pub(crate) fn affected_regions_feasible(&self, coords: &[Coord]) -> (r: bool)
        requires
            self.wf(),
        ensures
            r == forall|i: int|
                0 <= i < self.entries@.len() && self.region_touches(i, coords@)
                    ==> #[trigger] self.region_status(i) != RegionState::Violated,
    {
        let nentries = self.entries.len();
        let mut i: usize = 0;
        while i < nentries
            invariant
                self.wf(),
                i <= nentries,
                nentries == self.entries@.len(),
                forall|t: int|
                    0 <= t < i && self.region_touches(t, coords@)
                        ==> #[trigger] self.region_status(t) != RegionState::Violated,
            decreases nentries - i,
        {
            let ncoords = coords.len();
            let mut touched = false;
            let mut k: usize = 0;
            while k < ncoords
                invariant
                    self.wf(),
                    i < self.entries@.len(),
                    k <= ncoords,
                    ncoords == coords@.len(),
                    touched == exists|t: int|
                        0 <= t < k && self.entries@[i as int].coords@.contains(
                            #[trigger] coords@[t],
                        ),
                decreases ncoords - k,
            {
                if coords_contain(&self.entries[i].coords, coords[k]) {
                    touched = true;
                }
                k = k + 1;
            }
            if touched {
                match self.region_state(i) {
                    RegionState::Violated => {
                        return false;
                    },
                    _ => {},
                }
            }
            i = i + 1;
        }
        true
    }
}

/// The pip a hypothetical assignment gives to `c` on the given cell list.
pub open spec fn pip_lookup(cells: Seq<Coord>, asg: Seq<Option<u8>>, c: Coord) -> Option<u8> {
    if cells.contains(c) {
        asg[cells.index_of(c)]
    } else {
        None
    }
}

/// The pip values a hypothetical assignment gives within `coords`, in
/// region order. A coordinate listed twice contributes twice, as it does
/// when tallying.
pub open spec fn values_in(cells: Seq<Coord>, asg: Seq<Option<u8>>, coords: Seq<Coord>) -> Seq<u8>
    decreases coords.len(),
{
    if coords.len() == 0 {
        Seq::empty()
    } else {
        let rest = values_in(cells, asg, coords.drop_last());
        match pip_lookup(cells, asg, coords.last()) {
            Some(v) => rest.push(v),
            None => rest,
        }
    }
}

/// How many cells of `coords` a hypothetical assignment leaves empty.
pub open spec fn empties_in(cells: Seq<Coord>, asg: Seq<Option<u8>>, coords: Seq<Coord>) -> nat
    decreases coords.len(),
{
    if coords.len() == 0 {
        0
    } else {
        empties_in(cells, asg, coords.drop_last()) + (if pip_lookup(
            cells,
            asg,
            coords.last(),
        ) is Some {
            0nat
        } else {
            1nat
        })
    }
}

/// The verdict of region `i` of a grid description under a hypothetical
/// assignment. A free function of the grid's pieces, so judgements carry
/// across solver states that share them.
pub open spec fn eval_region(
    entries: Seq<GridEntry>,
    parsed: Seq<Rule>,
    cells: Seq<Coord>,
    asg: Seq<Option<u8>>,
    i: int,
) -> RegionState {
    region_eval(parsed[i], values_in(cells, asg, entries[i].coords@), empties_in(
        cells,
        asg,
        entries[i].coords@,
    ))
}

/// Append a coordinate unless it is already present.
pub open spec fn push_new(acc: Seq<Coord>, c: Coord) -> Seq<Coord> {
    if acc.contains(c) {
        acc
    } else {
        acc.push(c)
    }
}

/// The cells seen after walking one entry's coordinates in order, starting
/// from those already collected in `acc`.
pub open spec fn cells_after_coords(acc: Seq<Coord>, coords: Seq<Coord>) -> Seq<Coord>
    decreases coords.len(),
{
    if coords.len() == 0 {
        acc
    } else {
        push_new(cells_after_coords(acc, coords.drop_last()), coords.last())
    }
}

/// The distinct cells of a grid in first-appearance order: entries in input
/// order, each entry's coordinates in listed order, duplicates dropped. This
/// fixed enumeration is what makes solving reproducible.
pub open spec fn cells_after_entries(acc: Seq<Coord>, grid: Seq<GridEntry>) -> Seq<Coord>
    decreases grid.len(),
{
    if grid.len() == 0 {
        acc
    } else {
        cells_after_coords(cells_after_entries(acc, grid.drop_last()), grid.last().coords@)
    }
}

/// Whether `c` appears among the region coordinates of `grid`.
pub open spec fn coord_in_grid(grid: Seq<GridEntry>, c: Coord) -> bool {
    exists|i: int, k: int|
        0 <= i < grid.len() && 0 <= k < grid[i].coords@.len() && #[trigger] grid[i].coords@[k] == c
}

/// One step down in a coordinate, wrapping below zero.
pub open spec fn wrap_dec(v: u32) -> u32 {
    if v == 0 {
        u32::MAX
    } else {
        (v - 1) as u32
    }
}

/// The four orthogonal neighbours of a coordinate: left, right, below, above.
pub open spec fn neighbor_seq(c: Coord) -> Seq<Coord> {
    seq![
        (wrap_dec(c.0), c.1),
        ((c.0 + 1) as u32, c.1),
        (c.0, wrap_dec(c.1)),
        (c.0, (c.1 + 1) as u32),
    ]
}

/// In a duplicate-free cell list, the position where a coordinate was found
/// is the position the model assigns it.
pub(crate) proof fn lemma_cell_index_agrees(g: GameGrid, c: Coord, j: int)
    requires
        g.cells@.no_duplicates(),
        0 <= j < g.cells@.len(),
        g.cells@[j] == c,
    ensures
        g.has_cell(c),
        g.cell_index(c) == j,
{
    assert(g.cells@.contains(c));
    let w = g.cell_index(c);
    assert(0 <= w < g.cells@.len() && g.cells@[w] == c);
}

/// Orthogonal adjacency is symmetric for coordinates below the numeric
/// limit: the wrapped phantom values lie outside every well-formed grid.
pub proof fn lemma_adjacent_symmetric(a: Coord, b: Coord)
    requires
        a.0 < u32::MAX,
        a.1 < u32::MAX,
        b.0 < u32::MAX,
        b.1 < u32::MAX,
        neighbor_seq(a).contains(b),
    ensures
        neighbor_seq(b).contains(a),
{
    let t = choose|t: int|
        0 <= t < neighbor_seq(a).len() && #[trigger] neighbor_seq(a)[t] == b;
    if t == 0 {
        assert(neighbor_seq(b)[1] == a);
    } else if t == 1 {
        assert(neighbor_seq(b)[0] == a);
    } else if t == 2 {
        assert(neighbor_seq(b)[3] == a);
    } else {
        assert(neighbor_seq(b)[2] == a);
    }
}

/// Linear search for a coordinate in a list.
fn coords_contain(list: &Vec<Coord>, c: Coord) -> (r: bool)
    ensures
        r == list@.contains(c),
{
    let n = list.len();
    let mut j: usize = 0;
    while j < n
        invariant
            j <= n,
            n == list@.len(),
            forall|t: int| 0 <= t < j ==> list@[t] != c,
        decreases n - j,
    {
        let cur = list[j];
        if cur.0 == c.0 && cur.1 == c.1 {
            return true;
        }
        j = j + 1;
    }
    false
}

/// An assigned pip never exceeds six.
pub open spec fn pip_opt_ok(o: Option<u8>) -> bool {
    match o {
        Some(v) => v <= 6,
        None => true,
    }
}

} // verus!
