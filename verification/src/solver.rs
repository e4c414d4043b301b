//! The solving engine: rule-based constraint propagation to a fixed
//! point, minimum-remaining-values backtracking search, and the solve
//! entry point.
//!
//! The central contract is `solve_post`: a solved result is a full,
//! consistent completion of the input board, and a "no solution"
//! result means that no completion exists at all.

use crate::board::{mask_digits, SudokuCell, SudokuGrid};
use crate::rules::{
    cell_admits,
    cell_empty,
    cell_extends,
    cell_wf,
    digit_ok,
    digits_of,
    grid_contradicted,
    grid_extends,
    grid_full,
    grid_wf,
    has_duplicate,
    has_empty_cell,
    lemma_contradicted_no_solution,
    lemma_extends_solution,
    lemma_extends_trans,
    lemma_full_clean_solution,
    lemma_unsolved_count_le,
    lemma_unsolved_count_lt,
    same_unit,
    solution_for,
    unsolved_count,
};
use crate::board::{lemma_mask_digits_increasing, lemma_mask_digits_membership};
use crate::rules::{cell_open_count, lemma_full_solution_unique, lemma_mask_open_count_clear, lemma_mask_open_count_pos, lemma_open_candidates_bound, lemma_open_candidates_le, lemma_open_candidates_lt, mask_single, no_elimination, no_promotion, open_candidates, propagation_fixed};
use vstd::prelude::*;

verus! {

/// The terminal result of solving: a fully determined consistent
/// board, or the finding that no consistent completion exists.
pub enum SolveOutcome {
    Solved(SudokuGrid),
    NoSolution,
}

/// What the solver promises about its result for an initial board
/// `g0`: a solved board is a full, consistent strengthening of `g0`
/// whose digits solve `g0`; "no solution" means `g0` admits no
/// solution whatsoever.
pub open spec fn solve_post(g0: Seq<SudokuCell>, r: SolveOutcome) -> bool {
    match r {
        SolveOutcome::Solved(sol) => {
            &&& grid_wf(sol@)
            &&& grid_full(sol@)
            &&& grid_extends(sol@, g0)
            &&& solution_for(g0, digits_of(sol@))
        },
        SolveOutcome::NoSolution => forall|s: Seq<u8>| !solution_for(g0, s),
    }
}

/// The terminal result of solving with uniqueness checking: the one
/// completion, two distinct witnessing completions, or none.
pub enum UniqueOutcome {
    Unique(SudokuGrid),
    Ambiguous(SudokuGrid, SudokuGrid),
    NoSolution,
}

/// What the uniqueness-checking solver promises: a unique board is
/// the sole completion, an ambiguous answer carries two distinct
/// completions, and "no solution" again means none exists.
pub open spec fn solve_unique_post(g0: Seq<SudokuCell>, r: UniqueOutcome) -> bool {
    match r {
        UniqueOutcome::Unique(sol) => {
            &&& grid_wf(sol@)
            &&& grid_full(sol@)
            &&& grid_extends(sol@, g0)
            &&& solution_for(g0, digits_of(sol@))
            &&& forall|s: Seq<u8>| solution_for(g0, s) ==> s == digits_of(sol@)
        },
        UniqueOutcome::Ambiguous(a, b) => {
            &&& grid_wf(a@)
            &&& grid_full(a@)
            &&& grid_extends(a@, g0)
            &&& solution_for(g0, digits_of(a@))
            &&& grid_wf(b@)
            &&& grid_full(b@)
            &&& grid_extends(b@, g0)
            &&& solution_for(g0, digits_of(b@))
            &&& digits_of(a@) != digits_of(b@)
        },
        UniqueOutcome::NoSolution => forall|s: Seq<u8>| !solution_for(g0, s),
    }
}

/// Whether two flat indices share a row, column or 3x3 box.
fn same_unit_cells(i: usize, j: usize) -> (r: bool)
    requires
        i < 81,
        j < 81,
    ensures
        r == same_unit(i as int, j as int),
{
    i / 9 == j / 9 || i % 9 == j % 9 || ((i / 9) / 3 == (j / 9) / 3 && (i % 9) / 3 == (j % 9) / 3)
}

/// Whether the mask has no open candidate left.
fn mask_is_empty(m: &[bool; 9]) -> (r: bool)
    ensures
        r == forall|k: int| 0 <= k < 9 ==> !(#[trigger] m@[k]),
{
    let mut b: usize = 0;
    while b < 9
        invariant
            b <= 9,
            forall|k: int| 0 <= k < b ==> !(#[trigger] m@[k]),
        decreases 9 - b,
    {
        if m[b] {
            return false;
        }
        b = b + 1;
    }
    true
}

/// The number of open candidates in the mask.
fn mask_count(m: &[bool; 9]) -> (n: usize)
    ensures
        n <= 9,
{
    let mut n: usize = 0;
    let mut b: usize = 0;
    while b < 9
        invariant
            b <= 9,
            n <= b,
        decreases 9 - b,
    {
        if m[b] {
            n = n + 1;
        }
        b = b + 1;
    }
    n
}

impl SudokuGrid {
    /// Whether some unit already holds the same digit twice.
    fn duplicate_check(&self) -> (r: bool)
        ensures
            r == has_duplicate(self@),
    {
        let mut i: usize = 0;
        while i < 81
            invariant
                i <= 81,
                forall|a: int, b: int|
                    0 <= a < i && 0 <= b < 81 && a != b && same_unit(a, b) && (
                    #[trigger] self@[a]) is Solved && (#[trigger] self@[b]) is Solved
                        ==> self@[a]->Solved_0 != self@[b]->Solved_0,
            decreases 81 - i,
        {
            match self.cell_at(i) {
                SudokuCell::Solved(vi) => {
                    let mut j: usize = 0;
                    while j < 81
                        invariant
                            i < 81,
                            j <= 81,
                            self@[i as int] == SudokuCell::Solved(vi),
                            forall|b: int|
                                0 <= b < j && i != b && same_unit(i as int, b) && (
                                #[trigger] self@[b]) is Solved ==> self@[b]->Solved_0 != vi,
                        decreases 81 - j,
                    {
                        if i != j && same_unit_cells(i, j) {
                            match self.cell_at(j) {
                                SudokuCell::Solved(vj) => {
                                    if vi == vj {
                                        return true;
                                    }
                                },
                                _ => {},
                            }
                        }
                        j = j + 1;
                    }
                },
                _ => {},
            }
            i = i + 1;
        }
        false
    }

    /// Whether some cell has run out of candidates.
    fn empty_cell_check(&self) -> (r: bool)
        ensures
            r == has_empty_cell(self@),
    {
        let mut i: usize = 0;
        while i < 81
            invariant
                i <= 81,
                forall|k: int| 0 <= k < i ==> !cell_empty(#[trigger] self@[k]),
            decreases 81 - i,
        {
            match self.cell_at(i) {
                SudokuCell::Unsolved(m) => {
                    if mask_is_empty(&m) {
                        assert(cell_empty(self@[i as int]));
                        return true;
                    }
                },
                _ => {},
            }
            i = i + 1;
        }
        false
    }

    /// Whether the board is visibly inconsistent: a duplicate digit in
    /// a unit, or an unsolved cell with no candidate left.  Either
    /// finding dooms the board.
    pub fn contradicted(&self) -> (r: bool)
        ensures
            r == grid_contradicted(self@),
    {
        self.duplicate_check() || self.empty_cell_check()
    }

    /// Whether every cell is solved.
    pub fn is_full(&self) -> (r: bool)
        ensures
            r == grid_full(self@),
    {
        let mut i: usize = 0;
        while i < 81
            invariant
                i <= 81,
                forall|k: int| 0 <= k < i ==> (#[trigger] self@[k]) is Solved,
            decreases 81 - i,
        {
            match self.cell_at(i) {
                SudokuCell::Unsolved(_) => {
                    return false;
                },
                _ => {},
            }
            i = i + 1;
        }
        true
    }

    /// One elimination sweep: for every solved cell, clears its digit
    /// from the masks of all unsolved cells sharing a unit with it.
    /// Only rule-justified deductions: every solution of the old board
    /// still solves the new one.
    fn eliminate_pass(&mut self) -> (changed: bool)
        requires
            grid_wf(old(self)@),
        ensures
            grid_wf(final(self)@),
            grid_extends(final(self)@, old(self)@),
            forall|s: Seq<u8>| solution_for(old(self)@, s) ==> solution_for(final(self)@, s),
            open_candidates(final(self)@) <= open_candidates(old(self)@),
            changed ==> open_candidates(final(self)@) < open_candidates(old(self)@),
            !changed ==> final(self)@ == old(self)@,
            !changed ==> no_elimination(final(self)@),
    {
        let ghost g0 = old(self)@;
        proof {
            crate::rules::lemma_extends_refl(g0);
        }
        let mut changed = false;
        let mut j: usize = 0;
        while j < 81
            invariant
                j <= 81,
                grid_wf(self@),
                grid_extends(self@, g0),
                forall|s: Seq<u8>| solution_for(g0, s) ==> solution_for(self@, s),
                open_candidates(self@) <= open_candidates(g0),
                changed ==> open_candidates(self@) < open_candidates(g0),
                !changed ==> self@ == g0,
                !changed ==> forall|jj: int, ii: int|
                    0 <= jj < j && 0 <= ii < 81 && ii != jj && same_unit(ii, jj) && (
                    #[trigger] self@[jj]) is Solved && (#[trigger] self@[ii]) is Unsolved ==> !(
                    self@[ii]->Unsolved_0@[self@[jj]->Solved_0 as int - 1]),
            decreases 81 - j,
        {
            match self.cell_at(j) {
                SudokuCell::Solved(v) => {
                    assert(digit_ok(v)) by {
                        assert(cell_wf(self@[j as int]));
                    }
                    let mut i: usize = 0;
                    while i < 81
                        invariant
                            i <= 81,
                            j < 81,
                            digit_ok(v),
                            self@[j as int] == SudokuCell::Solved(v),
                            grid_wf(self@),
                            grid_extends(self@, g0),
                            forall|s: Seq<u8>| solution_for(g0, s) ==> solution_for(self@, s),
                            open_candidates(self@) <= open_candidates(g0),
                            changed ==> open_candidates(self@) < open_candidates(g0),
                            !changed ==> self@ == g0,
                            !changed ==> forall|jj: int, ii: int|
                                0 <= jj < j && 0 <= ii < 81 && ii != jj && same_unit(ii, jj) && (
                                #[trigger] self@[jj]) is Solved && (
                                #[trigger] self@[ii]) is Unsolved ==> !(
                                self@[ii]->Unsolved_0@[self@[jj]->Solved_0 as int - 1]),
                            !changed ==> forall|ii: int|
                                0 <= ii < i && ii != j && same_unit(ii, j as int) && (
                                #[trigger] self@[ii]) is Unsolved ==> !(
                                self@[ii]->Unsolved_0@[v as int - 1]),
                        decreases 81 - i,
                    {
                        if i != j && same_unit_cells(i, j) {
                            match self.cell_at(i) {
                                SudokuCell::Unsolved(m) => {
                                    if m[(v - 1) as usize] {
                                        let mut m2 = m;
                                        m2[(v - 1) as usize] = false;
                                        let ghost pre = self@;
                                        self.set_at(i, SudokuCell::Unsolved(m2));
                                        changed = true;
                                        proof {
                                            let cur = self@;
                                            let ii: int = i as int;
                                            let jj: int = j as int;
                                            assert(m2@ == m@.update(v as int - 1, false));
                                            lemma_mask_open_count_clear(m, m2, v as int - 1, 9);
                                            assert forall|k: int| 0 <= k < 81 implies cell_open_count(
                                                #[trigger] cur[k],
                                            ) <= cell_open_count(#[trigger] pre[k]) by {
                                                if k != ii {
                                                    assert(cur[k] == pre[k]);
                                                }
                                            }
                                            lemma_open_candidates_lt(cur, pre, ii);
                                            assert forall|k: int| 0 <= k < 81 implies cell_wf(
                                                #[trigger] cur[k],
                                            ) by {
                                                if k != ii {
                                                    assert(cur[k] == pre[k]);
                                                }
                                            }
                                            assert forall|k: int| 0 <= k < 81 implies cell_extends(
                                                #[trigger] cur[k],
                                                #[trigger] pre[k],
                                            ) by {
                                                if k == ii {
                                                    assert forall|d: u8|
                                                        digit_ok(d) && cell_admits(
                                                            cur[k],
                                                            d,
                                                        ) implies cell_admits(pre[k], d) by {
                                                        assert(m2@[d as int - 1]);
                                                        assert(m@[d as int - 1]);
                                                    }
                                                } else {
                                                    assert(cur[k] == pre[k]);
                                                }
                                            }
                                            lemma_extends_trans(cur, pre, g0);
                                            assert forall|s: Seq<u8>|
                                                solution_for(g0, s) implies solution_for(
                                                cur,
                                                s,
                                            ) by {
                                                assert(solution_for(pre, s));
                                                assert(cell_admits(pre[jj], s[jj]));
                                                assert(s[jj] == v);
                                                assert(s[ii] != s[jj]);
                                                assert(cell_admits(pre[ii], s[ii]));
                                                assert(m@[s[ii] as int - 1]);
                                                assert(digit_ok(s[ii]));
                                                assert(s[ii] != v);
                                                assert(m2@[s[ii] as int - 1]);
                                                assert forall|k: int|
                                                    0 <= k < 81 implies cell_admits(
                                                    #[trigger] cur[k],
                                                    s[k],
                                                ) by {
                                                    if k != ii {
                                                        assert(cur[k] == pre[k]);
                                                        assert(cell_admits(pre[k], s[k]));
                                                    }
                                                }
                                            }
                                        }
                                    }
                                },
                                _ => {},
                            }
                        }
                        i = i + 1;
                    }
                },
                _ => {},
            }
            j = j + 1;
        }
        proof {
            if !changed {
                assert(no_elimination(self@));
            }
        }
        changed
    }

    /// One promotion sweep: every unsolved cell with exactly one open
    /// candidate becomes solved with that digit.
    fn promote_pass(&mut self) -> (changed: bool)
        requires
            grid_wf(old(self)@),
        ensures
            grid_wf(final(self)@),
            grid_extends(final(self)@, old(self)@),
            forall|s: Seq<u8>| solution_for(old(self)@, s) ==> solution_for(final(self)@, s),
            open_candidates(final(self)@) <= open_candidates(old(self)@),
            changed ==> open_candidates(final(self)@) < open_candidates(old(self)@),
            !changed ==> final(self)@ == old(self)@,
            !changed ==> no_promotion(final(self)@),
    {
        let ghost g0 = old(self)@;
        proof {
            crate::rules::lemma_extends_refl(g0);
        }
        let mut changed = false;
        let mut i: usize = 0;
        while i < 81
            invariant
                i <= 81,
                grid_wf(self@),
                grid_extends(self@, g0),
                forall|s: Seq<u8>| solution_for(g0, s) ==> solution_for(self@, s),
                open_candidates(self@) <= open_candidates(g0),
                changed ==> open_candidates(self@) < open_candidates(g0),
                !changed ==> self@ == g0,
                !changed ==> forall|ii: int|
                    0 <= ii < i && (#[trigger] self@[ii]) is Unsolved ==> !mask_single(
                        self@[ii]->Unsolved_0,
                    ),
            decreases 81 - i,
        {
            match self.cell_at(i) {
                SudokuCell::Unsolved(m) => {
                    let mut cnt: usize = 0;
                    let mut dig: u8 = 0;
                    let mut b: usize = 0;
                    while b < 9
                        invariant
                            b <= 9,
                            cnt <= b,
                            cnt == 0 ==> forall|k: int| 0 <= k < b ==> !(#[trigger] m@[k]),
                            cnt == 1 ==> 1 <= dig <= b && m@[dig as int - 1] && forall|k: int|
                                0 <= k < b && k != dig as int - 1 ==> !(#[trigger] m@[k]),
                            cnt >= 2 ==> exists|k1: int, k2: int|
                                0 <= k1 < k2 < b && #[trigger] m@[k1] && #[trigger] m@[k2],
                        decreases 9 - b,
                    {
                        if m[b] {
                            cnt = cnt + 1;
                            if cnt == 1 {
                                dig = (b + 1) as u8;
                            } else {
                                proof {
                                    if cnt == 2 {
                                        assert(m@[dig as int - 1] && m@[b as int]);
                                    }
                                }
                            }
                        }
                        b = b + 1;
                    }
                    if cnt == 1 {
                        let ghost pre = self@;
                        self.set_at(i, SudokuCell::Solved(dig));
                        changed = true;
                        proof {
                            let cur = self@;
                            let ii: int = i as int;
                            lemma_mask_open_count_pos(m, dig as int - 1, 9);
                            assert forall|k: int| 0 <= k < 81 implies cell_open_count(
                                #[trigger] cur[k],
                            ) <= cell_open_count(#[trigger] pre[k]) by {
                                if k != ii {
                                    assert(cur[k] == pre[k]);
                                }
                            }
                            lemma_open_candidates_lt(cur, pre, ii);
                            assert forall|k: int| 0 <= k < 81 implies cell_wf(
                                #[trigger] cur[k],
                            ) by {
                                if k != ii {
                                    assert(cur[k] == pre[k]);
                                }
                            }
                            assert forall|k: int| 0 <= k < 81 implies cell_extends(
                                #[trigger] cur[k],
                                #[trigger] pre[k],
                            ) by {
                                if k == ii {
                                    assert forall|d: u8|
                                        digit_ok(d) && cell_admits(cur[k], d) implies cell_admits(
                                        pre[k],
                                        d,
                                    ) by {
                                        assert(d == dig);
                                        assert(m@[dig as int - 1]);
                                    }
                                } else {
                                    assert(cur[k] == pre[k]);
                                }
                            }
                            lemma_extends_trans(cur, pre, g0);
                            assert forall|s: Seq<u8>| solution_for(g0, s) implies solution_for(
                                cur,
                                s,
                            ) by {
                                assert(solution_for(pre, s));
                                assert(cell_admits(pre[ii], s[ii]));
                                assert(m@[s[ii] as int - 1]);
                                assert(digit_ok(s[ii]));
                                assert(s[ii] as int - 1 == dig as int - 1);
                                assert(s[ii] == dig);
                                assert forall|k: int| 0 <= k < 81 implies cell_admits(
                                    #[trigger] cur[k],
                                    s[k],
                                ) by {
                                    if k != ii {
                                        assert(cur[k] == pre[k]);
                                        assert(cell_admits(pre[k], s[k]));
                                    }
                                }
                            }
                        }
                    } else {
                        proof {
                            if mask_single(m) {
                                let k = choose|k: int|
                                    0 <= k < 9 && #[trigger] m@[k] && forall|k2: int|
                                        0 <= k2 < 9 && k2 != k ==> !m@[k2];
                                if cnt == 0 {
                                    assert(!m@[k]);
                                } else {
                                    let (k1, k2) = choose|k1: int, k2: int|
                                        0 <= k1 < k2 < 9 && #[trigger] m@[k1] && #[trigger] m@[k2];
                                    assert(k1 == k && k2 == k);
                                }
                                assert(false);
                            }
                        }
                    }
                },
                _ => {},
            }
            i = i + 1;
        }
        proof {
            if !changed {
                assert(no_promotion(self@));
            }
        }
        changed
    }

    /// Runs elimination and promotion sweeps until a full pass changes
    /// nothing: the result is a fixed point of constraint propagation.
    /// Performs only rule-justified deductions: the new board
    /// strengthens the old one without losing any solution.
    pub fn propagate(&mut self)
        requires
            grid_wf(old(self)@),
        ensures
            grid_wf(final(self)@),
            grid_extends(final(self)@, old(self)@),
            forall|s: Seq<u8>| solution_for(old(self)@, s) ==> solution_for(final(self)@, s),
            propagation_fixed(final(self)@),
    {
        let ghost g0 = old(self)@;
        proof {
            crate::rules::lemma_extends_refl(g0);
            lemma_open_candidates_bound(g0);
        }
        // Each changing round clears at least one of the at most 729
        // open candidate bits, so a fixed point is always reached
        // before the round counter can run out.
        let mut rounds: usize = 0;
        let mut changed = true;
        while changed && rounds < 730
            invariant
                rounds <= 730,
                grid_wf(self@),
                grid_extends(self@, g0),
                forall|s: Seq<u8>| solution_for(g0, s) ==> solution_for(self@, s),
                changed ==> rounds + open_candidates(self@) <= 729,
                !changed ==> propagation_fixed(self@),
            decreases 730 - rounds,
        {
            let ghost pre = self@;
            let e = self.eliminate_pass();
            let ghost mid = self@;
            let p = self.promote_pass();
            changed = e || p;
            rounds = rounds + 1;
            proof {
                lemma_extends_trans(self@, mid, pre);
                lemma_extends_trans(self@, pre, g0);
                if changed {
                    assert(open_candidates(self@) < open_candidates(pre));
                } else {
                    assert(mid == pre && self@ == mid);
                    assert(no_elimination(self@) && no_promotion(self@));
                }
            }
        }
        proof {
            if changed {
                assert(rounds + open_candidates(self@) <= 729);
                assert(rounds >= 730);
                assert(false);
            }
        }
    }

    /// The first unsolved cell with the fewest open candidates: the
    /// deterministic branching choice of the search.
    fn pick_cell(&self) -> (ci: usize)
        requires
            grid_wf(self@),
            !grid_full(self@),
        ensures
            ci < 81,
            self@[ci as int] is Unsolved,
    {
        let mut best: usize = 81;
        let mut best_n: usize = 10;
        let mut i: usize = 0;
        while i < 81
            invariant
                i <= 81,
                best <= 81,
                grid_wf(self@),
                best == 81 ==> forall|k: int| 0 <= k < i ==> (#[trigger] self@[k]) is Solved,
                best < 81 ==> self@[best as int] is Unsolved,
            decreases 81 - i,
        {
            match self.cell_at(i) {
                SudokuCell::Unsolved(m) => {
                    let n: usize = mask_count(&m);
                    if best == 81 || n < best_n {
                        best = i;
                        best_n = n;
                    }
                },
                _ => {},
            }
            i = i + 1;
        }
        proof {
            if best == 81 {
                assert(grid_full(self@));
                assert(false);
            }
        }
        best
    }

    /// Backtracking search: propagates, then branches on the most
    /// constrained cell, trying its candidates in ascending order and
    /// recursing on an independent copy of the board.
    fn search(&self) -> (r: SolveOutcome)
        requires
            grid_wf(self@),
        ensures
            solve_post(self@, r),
        decreases unsolved_count(self@),
    {
        let mut g = *self;
        g.propagate();
        if g.contradicted() {
            proof {
                assert forall|s: Seq<u8>| !solution_for(self@, s) by {
                    if solution_for(self@, s) {
                        assert(solution_for(g@, s));
                        lemma_contradicted_no_solution(g@, s);
                    }
                }
            }
            return SolveOutcome::NoSolution;
        }
        if g.is_full() {
            proof {
                lemma_full_clean_solution(g@);
                lemma_extends_solution(g@, self@, digits_of(g@));
            }
            return SolveOutcome::Solved(g);
        }
        let ci = g.pick_cell();
        let cell = g.cell_at(ci);
        let ghost m = cell->Unsolved_0;
        proof {
            lemma_mask_digits_membership(m, 9);
        }
        let cands = match cell.candidates() {
            Some(v) => v,
            None => {
                proof {
                    assert(false);
                }
                Vec::new()
            },
        };
        let ghost gp = g@;
        proof {
            // The recursion measure shrinks: propagation never
            // unsolves a cell, and the branch solves one more.
            assert forall|k: int|
                0 <= k < 81 && (#[trigger] self@[k]) is Solved implies gp[k] is Solved by {
                assert(cell_extends(gp[k], self@[k]));
            }
            lemma_unsolved_count_le(gp, self@);
            // Every solution must place one of the enumerated
            // candidates at the chosen cell.
            assert forall|s: Seq<u8>| solution_for(gp, s) implies exists|k: int|
                0 <= k < mask_digits(m).len() && mask_digits(m)[k] == s[ci as int] by {
                let ii: int = ci as int;
                assert(cell_admits(gp[ii], s[ii]));
                assert(digit_ok(s[ii]));
                assert(m@[s[ii] as int - 1]);
                assert(mask_digits(m).contains(s[ii]));
            }
        }
        let mut t: usize = 0;
        while t < cands.len()
            invariant
                t <= cands@.len(),
                ci < 81,
                cands@ == mask_digits(m),
                g@ == gp,
                grid_wf(gp),
                grid_extends(gp, self@),
                gp[ci as int] == SudokuCell::Unsolved(m),
                unsolved_count(gp) <= unsolved_count(self@),
                forall|s: Seq<u8>| solution_for(self@, s) ==> solution_for(gp, s),
                forall|d: u8| #[trigger]
                    cands@.contains(d) <==> (1 <= d <= 9 && m@[d as int - 1]),
                forall|s: Seq<u8>|
                    solution_for(gp, s) ==> exists|k: int|
                        t <= k < cands@.len() && cands@[k] == s[ci as int],
            decreases cands@.len() - t,
        {
            let d: u8 = cands[t];
            proof {
                assert(cands@.contains(d));
                assert(digit_ok(d) && m@[d as int - 1]);
            }
            let mut g2 = g;
            g2.set_at(ci, SudokuCell::Solved(d));
            proof {
                let ii: int = ci as int;
                assert forall|k: int| 0 <= k < 81 implies cell_wf(#[trigger] g2@[k]) by {
                    if k != ii {
                        assert(g2@[k] == gp[k]);
                    }
                }
                lemma_unsolved_count_lt(g2@, gp, ii);
            }
            match g2.search() {
                SolveOutcome::Solved(sol) => {
                    proof {
                        let ii: int = ci as int;
                        assert forall|k: int| 0 <= k < 81 implies cell_extends(
                            #[trigger] g2@[k],
                            #[trigger] gp[k],
                        ) by {
                            if k == ii {
                                assert forall|dd: u8|
                                    digit_ok(dd) && cell_admits(g2@[k], dd) implies cell_admits(
                                    gp[k],
                                    dd,
                                ) by {
                                    assert(dd == d);
                                }
                            } else {
                                assert(g2@[k] == gp[k]);
                            }
                        }
                        lemma_extends_trans(g2@, gp, self@);
                        lemma_extends_trans(sol@, g2@, self@);
                        lemma_extends_solution(g2@, self@, digits_of(sol@));
                    }
                    return SolveOutcome::Solved(sol);
                },
                SolveOutcome::NoSolution => {
                    proof {
                        let ii: int = ci as int;
                        assert forall|s: Seq<u8>| solution_for(gp, s) implies exists|k: int|
                            t + 1 <= k < cands@.len() && cands@[k] == s[ii] by {
                            let k = choose|k: int|
                                t <= k < cands@.len() && cands@[k] == s[ii];
                            if k == t {
                                assert(s[ii] == d);
                                assert forall|kk: int| 0 <= kk < 81 implies cell_admits(
                                    #[trigger] g2@[kk],
                                    s[kk],
                                ) by {
                                    if kk != ii {
                                        assert(g2@[kk] == gp[kk]);
                                        assert(cell_admits(gp[kk], s[kk]));
                                    }
                                }
                                assert(solution_for(g2@, s));
                                assert(false);
                            }
                        }
                    }
                },
            }
            t = t + 1;
        }
        proof {
            assert forall|s: Seq<u8>| !solution_for(self@, s) by {
                if solution_for(self@, s) {
                    assert(solution_for(gp, s));
                }
            }
        }
        SolveOutcome::NoSolution
    }

    /// The solve entry point: propagation plus backtracking search to
    /// a terminal outcome.  A solved board is a full, consistent
    /// completion of this board that keeps every given clue; "no
    /// solution" means no consistent completion exists.
    pub fn solve(&self) -> (r: SolveOutcome)
        requires
            grid_wf(self@),
        ensures
            solve_post(self@, r),
    {
        self.search()
    }

    /// Backtracking search that keeps exploring after a first
    /// solution, to tell a unique completion from an ambiguous board.
    fn search_unique(&self) -> (r: UniqueOutcome)
        requires
            grid_wf(self@),
        ensures
            solve_unique_post(self@, r),
        decreases unsolved_count(self@),
    {
        let mut g = *self;
        g.propagate();
        if g.contradicted() {
            proof {
                assert forall|s: Seq<u8>| !solution_for(self@, s) by {
                    if solution_for(self@, s) {
                        assert(solution_for(g@, s));
                        lemma_contradicted_no_solution(g@, s);
                    }
                }
            }
            return UniqueOutcome::NoSolution;
        }
        if g.is_full() {
            proof {
                lemma_full_clean_solution(g@);
                lemma_extends_solution(g@, self@, digits_of(g@));
                assert forall|s: Seq<u8>| solution_for(self@, s) implies s == digits_of(g@) by {
                    assert(solution_for(g@, s));
                    lemma_full_solution_unique(g@, s);
                }
            }
            return UniqueOutcome::Unique(g);
        }
        let ci = g.pick_cell();
        let cell = g.cell_at(ci);
        let ghost m = cell->Unsolved_0;
        proof {
            lemma_mask_digits_membership(m, 9);
            lemma_mask_digits_increasing(m, 9);
        }
        let cands = match cell.candidates() {
            Some(v) => v,
            None => {
                proof {
                    assert(false);
                }
                Vec::new()
            },
        };
        let ghost gp = g@;
        proof {
            assert forall|k: int|
                0 <= k < 81 && (#[trigger] self@[k]) is Solved implies gp[k] is Solved by {
                assert(cell_extends(gp[k], self@[k]));
            }
            lemma_unsolved_count_le(gp, self@);
            assert forall|s: Seq<u8>| solution_for(gp, s) implies exists|k: int|
                0 <= k < mask_digits(m).len() && mask_digits(m)[k] == s[ci as int] by {
                let ii: int = ci as int;
                assert(cell_admits(gp[ii], s[ii]));
                assert(digit_ok(s[ii]));
                assert(m@[s[ii] as int - 1]);
                assert(mask_digits(m).contains(s[ii]));
            }
        }
        let mut found: Option<SudokuGrid> = None;
        let mut t: usize = 0;
        while t < cands.len()
            invariant
                t <= cands@.len(),
                ci < 81,
                cands@ == mask_digits(m),
                g@ == gp,
                grid_wf(gp),
                grid_extends(gp, self@),
                gp[ci as int] == SudokuCell::Unsolved(m),
                unsolved_count(gp) <= unsolved_count(self@),
                forall|s: Seq<u8>| solution_for(self@, s) ==> solution_for(gp, s),
                forall|d: u8| #[trigger]
                    cands@.contains(d) <==> (1 <= d <= 9 && m@[d as int - 1]),
                forall|t1: int, t2: int|
                    #![trigger cands@[t1], cands@[t2]]
                    0 <= t1 < t2 < cands@.len() ==> cands@[t1] < cands@[t2],
                match found {
                    None => forall|s: Seq<u8>|
                        solution_for(gp, s) ==> exists|k: int|
                            t <= k < cands@.len() && cands@[k] == s[ci as int],
                    Some(f) => {
                        &&& grid_wf(f@)
                        &&& grid_full(f@)
                        &&& grid_extends(f@, self@)
                        &&& solution_for(self@, digits_of(f@))
                        &&& exists|k: int|
                            0 <= k < t && cands@[k] == digits_of(f@)[ci as int]
                        &&& forall|s: Seq<u8>|
                            solution_for(gp, s) ==> (s == digits_of(f@) || exists|k: int|
                                t <= k < cands@.len() && cands@[k] == s[ci as int])
                    },
                },
            decreases cands@.len() - t,
        {
            let d: u8 = cands[t];
            proof {
                assert(cands@.contains(d));
                assert(digit_ok(d) && m@[d as int - 1]);
            }
            let mut g2 = g;
            g2.set_at(ci, SudokuCell::Solved(d));
            proof {
                let ii: int = ci as int;
                assert forall|k: int| 0 <= k < 81 implies cell_wf(#[trigger] g2@[k]) by {
                    if k != ii {
                        assert(g2@[k] == gp[k]);
                    }
                }
                lemma_unsolved_count_lt(g2@, gp, ii);
                assert forall|k: int| 0 <= k < 81 implies cell_extends(
                    #[trigger] g2@[k],
                    #[trigger] gp[k],
                ) by {
                    if k == ii {
                        assert forall|dd: u8|
                            digit_ok(dd) && cell_admits(g2@[k], dd) implies cell_admits(
                            gp[k],
                            dd,
                        ) by {
                            assert(dd == d);
                        }
                    } else {
                        assert(g2@[k] == gp[k]);
                    }
                }
                lemma_extends_trans(g2@, gp, self@);
            }
            match g2.search_unique() {
                UniqueOutcome::NoSolution => {
                    proof {
                        let ii: int = ci as int;
                        assert forall|s: Seq<u8>|
                            solution_for(gp, s) && s[ii] == d implies false by {
                            assert forall|kk: int| 0 <= kk < 81 implies cell_admits(
                                #[trigger] g2@[kk],
                                s[kk],
                            ) by {
                                if kk != ii {
                                    assert(g2@[kk] == gp[kk]);
                                    assert(cell_admits(gp[kk], s[kk]));
                                }
                            }
                            assert(solution_for(g2@, s));
                        }
                    }
                },
                UniqueOutcome::Unique(sol) => {
                    proof {
                        let ii: int = ci as int;
                        lemma_extends_trans(sol@, g2@, self@);
                        lemma_extends_solution(g2@, self@, digits_of(sol@));
                        // the branch digit is pinned in the solution
                        assert(cell_extends(sol@[ii], g2@[ii]));
                        assert(sol@[ii] == SudokuCell::Solved(d));
                        assert(digits_of(sol@)[ii] == d);
                        // any admitted assignment placing d here equals it
                        assert forall|s: Seq<u8>|
                            solution_for(gp, s) && s[ii] == d implies s == digits_of(sol@) by {
                            assert forall|kk: int| 0 <= kk < 81 implies cell_admits(
                                #[trigger] g2@[kk],
                                s[kk],
                            ) by {
                                if kk != ii {
                                    assert(g2@[kk] == gp[kk]);
                                    assert(cell_admits(gp[kk], s[kk]));
                                }
                            }
                            assert(solution_for(g2@, s));
                        }
                    }
                    match found {
                        None => {
                            found = Some(sol);
                        },
                        Some(f) => {
                            proof {
                                let ii: int = ci as int;
                                let k0 = choose|k: int|
                                    0 <= k < t && cands@[k] == digits_of(f@)[ii];
                                assert(cands@[k0] < cands@[t as int]);
                                assert(digits_of(f@)[ii] != digits_of(sol@)[ii]);
                                assert(digits_of(f@) != digits_of(sol@));
                            }
                            return UniqueOutcome::Ambiguous(f, sol);
                        },
                    }
                },
                UniqueOutcome::Ambiguous(a, b) => {
                    proof {
                        lemma_extends_trans(a@, g2@, self@);
                        lemma_extends_trans(b@, g2@, self@);
                        lemma_extends_solution(g2@, self@, digits_of(a@));
                        lemma_extends_solution(g2@, self@, digits_of(b@));
                    }
                    return UniqueOutcome::Ambiguous(a, b);
                },
            }
            t = t + 1;
        }
        match found {
            None => {
                proof {
                    assert forall|s: Seq<u8>| !solution_for(self@, s) by {
                        if solution_for(self@, s) {
                            assert(solution_for(gp, s));
                        }
                    }
                }
                UniqueOutcome::NoSolution
            },
            Some(f) => {
                proof {
                    assert forall|s: Seq<u8>|
                        solution_for(self@, s) implies s == digits_of(f@) by {
                        assert(solution_for(gp, s));
                    }
                }
                UniqueOutcome::Unique(f)
            },
        }
    }

    /// The uniqueness-checking mode of the solve entry point: besides
    /// solved and unsolvable it can report an ambiguous board, with
    /// two distinct witnessing completions.
    pub fn solve_unique(&self) -> (r: UniqueOutcome)
        requires
            grid_wf(self@),
        ensures
            solve_unique_post(self@, r),
    {
        self.search_unique()
    }
}

} // verus!
