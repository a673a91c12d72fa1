//! The backtracking placement search.
//!
//! Each step picks the first unfilled cell (the anchor), pairs it with every
//! orthogonally adjacent open cell, tries every remaining domino in both
//! orientations, prunes through the region evaluator, and recurses. A failed
//! branch undoes its tentative placement exactly, so on an unsolved return
//! the assignment, the placement bookkeeping and the domino availability are
//! bit-for-bit what they were before the branch was attempted.

use vstd::prelude::*;

use crate::grid::{eval_region, lemma_adjacent_symmetric, neighbor_seq, Coord, GameGrid, RegionState};

verus! {

/// How many slots of an assignment are still empty: the measure that shrinks
/// as the search fills the board, bounding the recursion.
pub open spec fn none_count(s: Seq<Option<u8>>) -> nat
    decreases s.len(),
{
    if s.len() == 0 {
        0
    } else {
        none_count(s.drop_last()) + (if s.last() is None {
            1nat
        } else {
            0nat
        })
    }
}

/// Filling one empty slot lowers the number of empty slots by exactly one.
proof fn lemma_none_count_fill(s: Seq<Option<u8>>, j: int, v: u8)
    requires
        0 <= j < s.len(),
        s[j] is None,
    ensures
        none_count(s) >= 1,
        none_count(s.update(j, Some(v))) == none_count(s) - 1,
    decreases s.len(),
{
    let t = s.update(j, Some(v));
    if j == s.len() - 1 {
        assert(t.drop_last() =~= s.drop_last());
    } else {
        assert(t.drop_last() =~= s.drop_last().update(j, Some(v)));
        lemma_none_count_fill(s.drop_last(), j, v);
    }
}

/// An isolated empty cell survives a tentative placement: it can be neither
/// the anchor nor the partner, since those two have each other as an open
/// neighbour, and filling other cells only closes more of its surroundings.
proof fn lemma_isolated_still(g: GameGrid, g2: GameGrid, aj: int, pj: int, av: u8, bv: u8)
    requires
        g.wf(),
        g.has_isolated_empty_cell(),
        g2.cells@ == g.cells@,
        g2.assignment@ == g.assignment@.update(aj, Some(av)).update(pj, Some(bv)),
        0 <= aj < g.assignment@.len(),
        0 <= pj < g.assignment@.len(),
        aj != pj,
        g.assignment@[aj] is None,
        g.assignment@[pj] is None,
        neighbor_seq(g.cells@[aj]).contains(g.cells@[pj]),
    ensures
        g2.has_isolated_empty_cell(),
{
    reveal(GameGrid::has_isolated_empty_cell);
    let jstar = choose|j: int|
        0 <= j < g.cells@.len() && (#[trigger] g.assignment@[j]) is None && (forall|k: int|
            0 <= k < g.cells@.len() && neighbor_seq(g.cells@[j]).contains(
                #[trigger] g.cells@[k],
            ) ==> g.assignment@[k] is Some);
    if jstar == aj {
        assert(neighbor_seq(g.cells@[jstar]).contains(g.cells@[pj]));
        assert(false);
    } else if jstar == pj {
        lemma_adjacent_symmetric(g.cells@[aj], g.cells@[pj]);
        assert(neighbor_seq(g.cells@[jstar]).contains(g.cells@[aj]));
        assert(false);
    } else {
        assert(g2.assignment@[jstar] is None);
        assert forall|k: int|
            0 <= k < g2.cells@.len() && neighbor_seq(g2.cells@[jstar]).contains(
                #[trigger] g2.cells@[k],
            ) implies g2.assignment@[k] is Some by {
            if k != aj && k != pj {
                assert(g.assignment@[k] is Some);
            }
        }
        assert(g2.has_isolated_empty_cell());
    }
}

/// A search level that placed one pair and then succeeded below extends the
/// deeper levels' placement guarantee by its own pair.
proof fn lemma_placed_ok_extend(
    gf: GameGrid,
    before: Seq<Option<u8>>,
    ids0: Seq<Option<usize>>,
    av0: Seq<bool>,
    aj: int,
    pj: int,
    di: usize,
    av: u8,
    bv: u8,
)
    requires
        0 <= aj < before.len(),
        0 <= pj < before.len(),
        aj != pj,
        before[aj] is None,
        before[pj] is None,
        ids0.len() == before.len(),
        0 <= di < av0.len(),
        av0[di as int],
        di < gf.dominoes@.len(),
        gf.placed_ok(
            before.update(aj, Some(av)).update(pj, Some(bv)),
            ids0.update(aj, Some(di)).update(pj, Some(di)),
            av0.update(di as int, false),
        ),
        gf.assignment@[aj] == Some(av),
        gf.assignment@[pj] == Some(bv),
        neighbor_seq(gf.cells@[aj]).contains(gf.cells@[pj]),
        ({
            let dom = gf.dominoes@[di as int];
            (av == dom.0 && bv == dom.1) || (av == dom.1 && bv == dom.0)
        }),
    ensures
        gf.placed_ok(before, ids0, av0),
{
    reveal(GameGrid::placed_ok);
    reveal(GameGrid::paired_with);
    let pre = before.update(aj, Some(av)).update(pj, Some(bv));
    let pre_ids = ids0.update(aj, Some(di)).update(pj, Some(di));
    let pre_av = av0.update(di as int, false);
    assert forall|t: int| 0 <= t < before.len() && before[t] is Some
        implies #[trigger] gf.domino_ids@[t] == ids0[t] by {
        assert(t != aj && t != pj);
        assert(pre[t] == before[t]);
        assert(pre_ids[t] == ids0[t]);
    }
    assert(gf.domino_ids@[aj] == Some(di));
    assert(gf.domino_ids@[pj] == Some(di));
    assert(gf.paired_with(before, aj, pj));
    assert(gf.paired_with(before, pj, aj));
    assert forall|t: int| 0 <= t < before.len() && before[t] is None && t != aj && t != pj
        implies ({
        let d = (#[trigger] gf.domino_ids@[t])->0;
        &&& gf.domino_ids@[t] is Some
        &&& d < gf.dominoes@.len()
        &&& 0 <= d < av0.len() && av0[d as int]
        &&& d != di
        &&& exists|k: int| gf.paired_with(before, t, k)
    }) by {
        assert(pre[t] is None);
        assert(pre_av[gf.domino_ids@[t]->0 as int]);
        let k = choose|k: int| gf.paired_with(pre, t, k);
        assert(gf.paired_with(pre, t, k));
        assert(k != aj && k != pj);
        assert(before[k] is None);
        assert(gf.paired_with(before, t, k));
    }
    assert(gf.placed_ok(before, ids0, av0));
}

impl GameGrid {
    /// A hypothetical assignment leaves no cell empty and satisfies every
    /// region.
    pub open spec fn completes_all(self, full: Seq<Option<u8>>) -> bool {
        &&& forall|t: int| 0 <= t < full.len() ==> (#[trigger] full[t]) is Some
        &&& forall|i: int|
            0 <= i < self.entries@.len() ==> #[trigger] eval_region(
                self.entries@,
                self.parsed_rules@,
                self.cells@,
                full,
                i,
            ) == RegionState::Satisfied
    }

    /// One placement finishes the puzzle: cells `a` and `b` are empty and
    /// orthogonally adjacent, inventory slot `d` is still available, and
    /// laying that domino across them in the given orientation completes
    /// the board with every region satisfied.
    pub open spec fn one_move_wins(self, a: int, b: int, d: int, flip: bool) -> bool {
        &&& 0 <= a < self.assignment@.len()
        &&& 0 <= b < self.assignment@.len()
        &&& a != b
        &&& self.assignment@[a] is None
        &&& self.assignment@[b] is None
        &&& neighbor_seq(self.cells@[a]).contains(self.cells@[b])
        &&& 0 <= d < self.dominoes@.len()
        &&& self.available@[d]
        &&& ({
            let dom = self.dominoes@[d];
            let va: u8 = if flip {
                dom.1
            } else {
                dom.0
            };
            let vb: u8 = if flip {
                dom.0
            } else {
                dom.1
            };
            self.completes_all(self.assignment@.update(a, Some(va)).update(b, Some(vb)))
        })
    }
}

impl GameGrid {
    /// Cells `j` and `k` hold the two halves of one placed domino: both were
    /// empty in `base`, they record the same inventory slot, they are
    /// orthogonally adjacent, and they carry that domino's two pip values in
    /// one of its orientations.
    #[verifier::opaque]
    pub open spec fn paired_with(self, base: Seq<Option<u8>>, j: int, k: int) -> bool {
        &&& 0 <= k < base.len()
        &&& k != j
        &&& base[k] is None
        &&& self.domino_ids@[k] == self.domino_ids@[j]
        &&& (neighbor_seq(self.cells@[j]).contains(self.cells@[k]) || neighbor_seq(
            self.cells@[k],
        ).contains(self.cells@[j]))
        &&& {
            let dom = self.dominoes@[self.domino_ids@[j]->0 as int];
            ||| (self.assignment@[j] == Some(dom.0) && self.assignment@[k] == Some(dom.1))
            ||| (self.assignment@[j] == Some(dom.1) && self.assignment@[k] == Some(dom.0))
        }
    }

    /// What a successful search guarantees of its placements, relative to
    /// the assignment, bookkeeping and availability it started from: cells
    /// that were already filled keep their previous record; every cell the
    /// search filled records an inventory slot that was available at the
    /// start; the cells recording one slot come in adjacent pairs carrying
    /// that domino's pip values; and no slot is recorded by more than two
    /// cells, so each domino is placed at most once.
    #[verifier::opaque]
    pub open spec fn placed_ok(
        self,
        base: Seq<Option<u8>>,
        base_ids: Seq<Option<usize>>,
        base_avail: Seq<bool>,
    ) -> bool {
        &&& forall|j: int|
            0 <= j < base.len() && base[j] is Some ==> #[trigger] self.domino_ids@[j]
                == base_ids[j]
        &&& forall|j: int|
            0 <= j < base.len() && base[j] is None ==> (#[trigger] self.domino_ids@[j]) is Some
        &&& forall|j: int|
            0 <= j < base.len() && base[j] is None ==> {
                let d = (#[trigger] self.domino_ids@[j])->0;
                &&& d < self.dominoes@.len()
                &&& 0 <= d < base_avail.len() && base_avail[d as int]
                &&& exists|k: int| self.paired_with(base, j, k)
            }
        &&& forall|j: int, k: int, l: int|
            #![trigger self.domino_ids@[j], self.domino_ids@[k], self.domino_ids@[l]]
            0 <= j < base.len() && 0 <= k < base.len() && 0 <= l < base.len() && j != k && j != l
                && k != l && base[j] is None && base[k] is None && base[l] is None
                && self.domino_ids@[j] == self.domino_ids@[k] && self.domino_ids@[k]
                == self.domino_ids@[l] ==> false
    }

    /// The first still-empty cell, scanning the cell list in order; `None`
    /// means the board is completely filled.
    fn first_unassigned(&self) -> (r: Option<usize>)
        ensures
            match r {
                Some(j) => j < self.assignment@.len() && self.assignment@[j as int] is None,
                None => forall|t: int|
                    0 <= t < self.assignment@.len() ==> (#[trigger] self.assignment@[t]) is Some,
            },
    {
        let n = self.assignment.len();
        let mut j: usize = 0;
        while j < n
            invariant
                j <= n,
                n == self.assignment@.len(),
                forall|t: int| 0 <= t < j ==> (#[trigger] self.assignment@[t]) is Some,
            decreases n - j,
        {
            if self.assignment[j].is_none() {
                return Some(j);
            }
            j = j + 1;
        }
        None
    }

    /// Recursive backtracking search with forward checking.
    ///
    /// On success the board is left fully assigned, every region reports
    /// `Satisfied`, and the cells the search filled decompose into adjacent
    /// pairs carrying available dominoes, each recorded in the bookkeeping
    /// under its inventory slot (`placed_ok`). On failure every tentative
    /// placement has been undone: the assignment, the placement bookkeeping
    /// and the availability flags are exactly as they were when the call
    /// began. A board holding an isolated empty cell always fails; a board
    /// already complete and satisfying always succeeds, as does one that a
    /// single placement finishes.
    #[verifier::loop_isolation(false)]
    #[verifier::rlimit(100)]
    #[verifier::spinoff_prover]
    fn backtrack(&mut self) -> (r: bool)
        requires
            old(self).wf(),
        ensures
            final(self).wf(),
            final(self).entries == old(self).entries,
            final(self).parsed_rules == old(self).parsed_rules,
            final(self).cells == old(self).cells,
            final(self).dominoes == old(self).dominoes,
            !r ==> final(self).assignment@ == old(self).assignment@ && final(self).domino_ids@
                == old(self).domino_ids@ && final(self).available@ == old(self).available@,
            r ==> forall|t: int|
                0 <= t < final(self).assignment@.len() ==> (#[trigger] final(self).assignment@[t]) is Some,
            r ==> forall|i: int|
                0 <= i < final(self).entries@.len() ==> #[trigger] final(self).region_status(i)
                    == RegionState::Satisfied,
            r ==> forall|t: int|
                0 <= t < old(self).assignment@.len() && old(self).assignment@[t] is Some
                    ==> final(self).assignment@[t] == (#[trigger] old(self).assignment@[t]),
            r ==> final(self).placed_ok(
                old(self).assignment@,
                old(self).domino_ids@,
                old(self).available@,
            ),
            (forall|t: int|
                0 <= t < old(self).assignment@.len() ==> (#[trigger] old(
                    self,
                ).assignment@[t]) is Some) && (forall|i: int|
                0 <= i < old(self).entries@.len() ==> #[trigger] eval_region(
                    old(self).entries@,
                    old(self).parsed_rules@,
                    old(self).cells@,
                    old(self).assignment@,
                    i,
                ) == RegionState::Satisfied) ==> r,
            old(self).has_isolated_empty_cell() ==> !r,
            (exists|a: int, b: int, d: int, f: bool|
                #[trigger] old(self).one_move_wins(a, b, d, f)) ==> r,
            old(self).cells@.len() == 0 && old(self).entries@.len() == 0 ==> r,
        decreases none_count(self.assignment@),
    {
        let anchor_j = match self.first_unassigned() {
            None => {
                // Terminal: every cell is filled; revalidate every region,
                // since `Satisfied` is only meaningful once nothing is empty.
                let nentries = self.entries.len();
                let mut i: usize = 0;
                while i < nentries
                    invariant
                        forall|t: int|
                            0 <= t < i ==> #[trigger] self.region_status(t)
                                == RegionState::Satisfied,
                    decreases nentries - i,
                {
                    match self.region_state(i) {
                        RegionState::Satisfied => {},
                        _ => {
                            return false;
                        },
                    }
                    i = i + 1;
                }
                proof {
                    // Nothing was placed at this level: the guarantee about
                    // placements is vacuous, and a board with no empty cell
                    // has no isolated empty cell either.
                    reveal(GameGrid::placed_ok);
                    assert(self.placed_ok(
                        old(self).assignment@,
                        old(self).domino_ids@,
                        old(self).available@,
                    ));
                    reveal(GameGrid::has_isolated_empty_cell);
                }
                return true;
            },
            Some(j) => j,
        };
        let anchor = self.cells[anchor_j];
        let neigh = Self::neighbors(anchor);
        let mut partners: Vec<usize> = Vec::new();
        let nneigh = neigh.len();
        let mut t: usize = 0;
        while t < nneigh
            invariant
                forall|p: int|
                    0 <= p < partners@.len() ==> {
                        let pj = #[trigger] partners@[p];
                        &&& pj < self.cells@.len()
                        &&& self.assignment@[pj as int] is None
                        &&& self.cells@[pj as int] != anchor
                        &&& neighbor_seq(anchor).contains(self.cells@[pj as int])
                    },
                forall|k: int|
                    0 <= k < self.cells@.len() && (#[trigger] self.assignment@[k]) is None && (
                    exists|t2: int| 0 <= t2 < t && (#[trigger] neigh@[t2]) == self.cells@[k])
                        ==> exists|p: int|
                        0 <= p < partners@.len() && (#[trigger] partners@[p]) as int == k,
            decreases nneigh - t,
        {
            let c = neigh[t];
            match self.find_cell(c) {
                Some(j) => {
                    if self.assignment[j].is_none() {
                        proof {
                            assert(neigh@[t as int] != anchor);
                        }
                        let ghost pold = partners@;
                        partners.push(j);
                        proof {
                            assert(partners@[partners@.len() - 1] == j);
                            assert forall|k: int|
                                0 <= k < self.cells@.len() && (self.assignment@[k]) is None && (
                                exists|t2: int|
                                    0 <= t2 < t + 1 && (#[trigger] neigh@[t2])
                                        == self.cells@[k])
                                implies exists|p: int|
                                0 <= p < partners@.len() && (#[trigger] partners@[p]) as int
                                    == k by {
                                let t2 = choose|t2: int|
                                    0 <= t2 < t + 1 && (#[trigger] neigh@[t2])
                                        == self.cells@[k];
                                if t2 == t {
                                    assert(self.cells@[j as int] == neigh@[t as int]);
                                    assert(k == j as int);
                                    assert(partners@[partners@.len() - 1] as int == k);
                                } else {
                                    let p = choose|p: int|
                                        0 <= p < pold.len() && (#[trigger] pold[p]) as int == k;
                                    assert(partners@[p] as int == k);
                                }
                            }
                        }
                    } else {
                        proof {
                            assert forall|k: int|
                                0 <= k < self.cells@.len() && self.cells@[k] == neigh@[t as int]
                                implies !(self.assignment@[k] is None) by {
                                assert(self.cells@[j as int] == neigh@[t as int]);
                                assert(k == j as int);
                            }
                        }
                    }
                },
                None => {
                    proof {
                        assert forall|k: int| 0 <= k < self.cells@.len()
                            implies self.cells@[k] != neigh@[t as int] by {
                            if self.cells@[k] == neigh@[t as int] {
                                assert(self.cells@.contains(neigh@[t as int]));
                            }
                        }
                    }
                },
            }
            t = t + 1;
        }
        proof {
            // If one placement wins somewhere, one placement wins at the
            // anchor: the winning move fills every empty cell, and the
            // anchor is empty, so the move covers it on one side or the
            // other.
            if exists|a: int, b: int, d: int, f: bool|
                #[trigger] old(self).one_move_wins(a, b, d, f) {
                let (a, b, d, f) = choose|a: int, b: int, d: int, f: bool|
                    #[trigger] old(self).one_move_wins(a, b, d, f);
                let g0 = *old(self);
                let dom = g0.dominoes@[d];
                let va: u8 = if f {
                    dom.1
                } else {
                    dom.0
                };
                let vb: u8 = if f {
                    dom.0
                } else {
                    dom.1
                };
                let full = g0.assignment@.update(a, Some(va)).update(b, Some(vb));
                let aj = anchor_j as int;
                assert(0 <= aj < g0.assignment@.len());
                assert(full.len() == g0.assignment@.len());
                assert(g0.one_move_wins(a, b, d, f));
                assert(g0.completes_all(full));
                if aj != a && aj != b {
                    assert(full[aj] == g0.assignment@[aj]);
                    assert(full[aj] is Some);
                    assert(false);
                }
                if aj == b {
                    lemma_adjacent_symmetric(g0.cells@[a], g0.cells@[b]);
                    let full2 = g0.assignment@.update(b, Some(vb)).update(a, Some(va));
                    assert(full2 =~= full);
                    assert(g0.one_move_wins(b, a, d, !f));
                } else {
                    assert(g0.one_move_wins(aj, b, d, f));
                }
                assert(exists|p: int, dd: int, ff: bool|
                    #[trigger] g0.one_move_wins(anchor_j as int, p, dd, ff));
            }
        }
        if partners.len() == 0 {
            proof {
                if exists|p: int, dd: int, ff: bool|
                    #[trigger] old(self).one_move_wins(anchor_j as int, p, dd, ff) {
                    let (p, dd, ff) = choose|p: int, dd: int, ff: bool|
                        #[trigger] old(self).one_move_wins(anchor_j as int, p, dd, ff);
                    // the winning partner is an open neighbour of the
                    // anchor, so it would have been collected
                    assert(neigh@.contains(old(self).cells@[p]));
                    let t2 = choose|t2: int|
                        0 <= t2 < neigh@.len() && neigh@[t2] == old(self).cells@[p];
                    assert(exists|q: int|
                        0 <= q < partners@.len() && (#[trigger] partners@[q]) as int == p);
                    assert(false);
                }
            }
            return false;
        }
        let ndominoes = self.dominoes.len();
        let mut di: usize = 0;
        while di < ndominoes
            invariant
                self.wf(),
                self.entries == old(self).entries,
                self.parsed_rules == old(self).parsed_rules,
                self.cells == old(self).cells,
                self.dominoes == old(self).dominoes,
                self.assignment@ == old(self).assignment@,
                self.domino_ids@ == old(self).domino_ids@,
                self.available@ == old(self).available@,
                forall|p: int, d: int, f: bool|
                    #[trigger] old(self).one_move_wins(anchor_j as int, p, d, f) ==> d >= di,
            decreases ndominoes - di,
        {
            if self.available[di] {
                let dom = self.dominoes[di];
                let npartners = partners.len();
                let mut pi: usize = 0;
                while pi < npartners
                    invariant
                        self.wf(),
                        self.entries == old(self).entries,
                        self.parsed_rules == old(self).parsed_rules,
                        self.cells == old(self).cells,
                        self.dominoes == old(self).dominoes,
                        self.assignment@ == old(self).assignment@,
                        self.domino_ids@ == old(self).domino_ids@,
                        self.available@ == old(self).available@,
                        forall|p: int, f: bool|
                            #[trigger] old(self).one_move_wins(anchor_j as int, p, di as int, f)
                                ==> exists|t: int|
                                pi <= t < partners@.len() && (#[trigger] partners@[t]) as int
                                    == p,
                    decreases npartners - pi,
                {
                    let pj = partners[pi];
                    let partner = self.cells[pj];
                    let orient_count: usize = if dom.0 == dom.1 {
                        1
                    } else {
                        2
                    };
                    let mut oi: usize = 0;
                    while oi < orient_count
                        invariant
                            self.wf(),
                            self.entries == old(self).entries,
                            self.parsed_rules == old(self).parsed_rules,
                            self.cells == old(self).cells,
                            self.dominoes == old(self).dominoes,
                            self.assignment@ == old(self).assignment@,
                            self.domino_ids@ == old(self).domino_ids@,
                            self.available@ == old(self).available@,
                            forall|f: bool|
                                #[trigger] old(self).one_move_wins(
                                    anchor_j as int,
                                    pj as int,
                                    di as int,
                                    f,
                                ) ==> (if f {
                                    1int
                                } else {
                                    0int
                                }) >= oi,
                        decreases orient_count - oi,
                    {
                        let a_val = if oi == 0 {
                            dom.0
                        } else {
                            dom.1
                        };
                        let b_val = if oi == 0 {
                            dom.1
                        } else {
                            dom.0
                        };
                        self.assignment[anchor_j] = Some(a_val);
                        self.assignment[pj] = Some(b_val);
                        self.domino_ids[anchor_j] = Some(di);
                        self.domino_ids[pj] = Some(di);
                        let pair = vec![anchor, partner];
                        let feasible = self.affected_regions_feasible(pair.as_slice());
                        if feasible {
                            self.available[di] = false;
                            proof {
                                let one = old(self).assignment@.update(
                                    anchor_j as int,
                                    Some(a_val),
                                );
                                lemma_none_count_fill(
                                    old(self).assignment@,
                                    anchor_j as int,
                                    a_val,
                                );
                                lemma_none_count_fill(one, pj as int, b_val);
                                assert(self.assignment@ == one.update(pj as int, Some(b_val)));
                                assert(none_count(self.assignment@) < none_count(
                                    old(self).assignment@,
                                ));
                                if old(self).has_isolated_empty_cell() {
                                    lemma_isolated_still(
                                        *old(self),
                                        *self,
                                        anchor_j as int,
                                        pj as int,
                                        a_val,
                                        b_val,
                                    );
                                }
                            }
                            if self.backtrack() {
                                proof {
                                    let before = old(self).assignment@;
                                    let ids0 = old(self).domino_ids@;
                                    let av0 = old(self).available@;
                                    let aj = anchor_j as int;
                                    let pjj = pj as int;
                                    let pre = before.update(aj, Some(a_val)).update(
                                        pjj,
                                        Some(b_val),
                                    );
                                    let pre_ids = ids0.update(aj, Some(di)).update(pjj, Some(di));
                                    let pre_av = av0.update(di as int, false);
                                    assert forall|t: int|
                                        0 <= t < before.len() && before[t] is Some
                                        implies self.assignment@[t] == before[t] by {
                                        assert(t != aj && t != pjj);
                                        assert(pre[t] == before[t]);
                                    }
                                    assert(self.placed_ok(pre, pre_ids, pre_av));
                                    assert(pre[aj] == Some(a_val));
                                    assert(pre[pjj] == Some(b_val));
                                    assert(self.assignment@[aj] == Some(a_val));
                                    assert(self.assignment@[pjj] == Some(b_val));
                                    lemma_placed_ok_extend(
                                        *self,
                                        before,
                                        ids0,
                                        av0,
                                        aj,
                                        pjj,
                                        di,
                                        a_val,
                                        b_val,
                                    );
                                }
                                return true;
                            }
                            self.available[di] = true;
                        }
                        proof {
                            // The orientation just tried does not win: had
                            // it completed the board satisfying every
                            // region, the feasibility check would have let
                            // it through and the recursive call would have
                            // been obliged to succeed.
                            let fcur: bool = oi == 1;
                            if old(self).one_move_wins(
                                anchor_j as int,
                                pj as int,
                                di as int,
                                fcur,
                            ) {
                                let g0 = *old(self);
                                let dom0 = g0.dominoes@[di as int];
                                let va: u8 = if fcur {
                                    dom0.1
                                } else {
                                    dom0.0
                                };
                                let vb: u8 = if fcur {
                                    dom0.0
                                } else {
                                    dom0.1
                                };
                                let full = g0.assignment@.update(
                                    anchor_j as int,
                                    Some(va),
                                ).update(pj as int, Some(vb));
                                assert(self.assignment@ == full);
                                assert(g0.completes_all(full));
                                assert forall|i: int| 0 <= i < self.entries@.len()
                                    implies #[trigger] self.region_status(i)
                                    == RegionState::Satisfied by {
                                    assert(eval_region(
                                        g0.entries@,
                                        g0.parsed_rules@,
                                        g0.cells@,
                                        full,
                                        i,
                                    ) == RegionState::Satisfied);
                                }
                                assert(false);
                            }
                        }
                        self.assignment[anchor_j] = None;
                        self.assignment[pj] = None;
                        self.domino_ids[anchor_j] = None;
                        self.domino_ids[pj] = None;
                        proof {
                            assert(old(self).assignment@[anchor_j as int] is None);
                            assert(old(self).assignment@[pj as int] is None);
                            assert(old(self).domino_ids@[anchor_j as int] is None);
                            assert(old(self).domino_ids@[pj as int] is None);
                            assert(self.assignment@ =~= old(self).assignment@);
                            assert(self.domino_ids@ =~= old(self).domino_ids@);
                            assert(self.available@ =~= old(self).available@);
                        }
                        oi = oi + 1;
                    }
                    proof {
                        // Both orientations at this partner are ruled out
                        // (for a double they coincide), so a winning move
                        // with this domino sits at a later partner.
                        assert forall|p: int, f: bool|
                            #[trigger] old(self).one_move_wins(anchor_j as int, p, di as int, f)
                            implies exists|t: int|
                            pi + 1 <= t < partners@.len() && (#[trigger] partners@[t]) as int
                                == p by {
                            let t = choose|t: int|
                                pi <= t < partners@.len() && (#[trigger] partners@[t]) as int
                                    == p;
                            if t == pi {
                                if dom.0 == dom.1 && f {
                                    assert(old(self).one_move_wins(
                                        anchor_j as int,
                                        p,
                                        di as int,
                                        false,
                                    ));
                                }
                                assert(false);
                            }
                        }
                    }
                    pi = pi + 1;
                }
            }
            proof {
                // Every partner was exhausted for this slot — or it was
                // consumed to begin with — so a winning move uses a later
                // domino.
                assert forall|p: int, d: int, f: bool|
                    #[trigger] old(self).one_move_wins(anchor_j as int, p, d, f)
                    implies d >= di + 1 by {
                    if d == di {
                        assert(old(self).available@[di as int]);
                    }
                }
            }
            di = di + 1;
        }
        proof {
            // No domino anywhere wins in one move from here, so in
            // particular none at the anchor does.
            if exists|a: int, b: int, d: int, f: bool|
                #[trigger] old(self).one_move_wins(a, b, d, f) {
                let (p, dd, ff) = choose|p: int, dd: int, ff: bool|
                    #[trigger] old(self).one_move_wins(anchor_j as int, p, dd, ff);
                assert(false);
            }
        }
        false
    }

    /// Attempt to solve the currently loaded puzzle.
    ///
    /// On success, every cell is assigned, every region reports `Satisfied`,
    /// the cells the search filled decompose into adjacent pairs of
    /// available dominoes (`placed_ok`), and the completed assignment is
    /// returned as `(cell, pip)` pairs in cell-list order. On failure the
    /// search space was exhausted and the grid is left exactly as it was. A
    /// puzzle with an isolated empty cell never solves; a puzzle that one
    /// placement finishes always does, and one with no regions and no
    /// dominoes solves trivially.
    #[verifier::loop_isolation(false)]
    pub fn solve(&mut self) -> (r: Option<Vec<(Coord, u8)>>)
        requires
            old(self).wf(),
        ensures
            final(self).wf(),
            final(self).entries == old(self).entries,
            final(self).parsed_rules == old(self).parsed_rules,
            final(self).cells == old(self).cells,
            final(self).dominoes == old(self).dominoes,
            match r {
                Some(sol) => {
                    &&& forall|t: int|
                        0 <= t < final(self).assignment@.len() ==> (#[trigger] final(self).assignment@[t]) is Some
                    &&& forall|i: int|
                        0 <= i < final(self).entries@.len() ==> #[trigger] final(self).region_status(i) == RegionState::Satisfied
                    &&& sol@.len() == final(self).cells@.len()
                    &&& forall|t: int|
                        0 <= t < sol@.len() ==> (#[trigger] sol@[t]).0 == final(self).cells@[t]
                            && final(self).assignment@[t] == Some(sol@[t].1)
                    &&& forall|t: int|
                        0 <= t < old(self).assignment@.len() && old(self).assignment@[t] is Some
                            ==> final(self).assignment@[t] == (#[trigger] old(self).assignment@[t])
                    &&& final(self).placed_ok(
                        old(self).assignment@,
                        old(self).domino_ids@,
                        old(self).available@,
                    )
                },
                None => {
                    &&& final(self).assignment@ == old(self).assignment@
                    &&& final(self).domino_ids@ == old(self).domino_ids@
                    &&& final(self).available@ == old(self).available@
                },
            },
            old(self).has_isolated_empty_cell() ==> r is None,
            (exists|a: int, b: int, d: int, f: bool|
                #[trigger] old(self).one_move_wins(a, b, d, f)) ==> r is Some,
            old(self).cells@.len() == 0 && old(self).entries@.len() == 0 ==> r is Some,
    {
        if self.backtrack() {
            let n = self.cells.len();
            let mut sol: Vec<(Coord, u8)> = Vec::new();
            let mut j: usize = 0;
            while j < n
                invariant
                    j <= n,
                    sol@.len() == j,
                    forall|t: int|
                        0 <= t < j ==> (#[trigger] sol@[t]).0 == self.cells@[t]
                            && self.assignment@[t] == Some(sol@[t].1),
                decreases n - j,
            {
                let c = self.cells[j];
                let v = self.assignment[j].unwrap();
                sol.push((c, v));
                j = j + 1;
            }
            Some(sol)
        } else {
            None
        }
    }
}

} // verus!
