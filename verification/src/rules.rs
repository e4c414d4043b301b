//! The mathematical model of the puzzle: which digits a cell admits,
//! what counts as a consistent full assignment, and how one grid can
//! refine another.  The solver's contracts are stated over these
//! definitions.

use crate::board::SudokuCell;
use vstd::prelude::*;

verus! {

/// A playable digit.
pub open spec fn digit_ok(d: u8) -> bool {
    1 <= d <= 9
}

/// Every candidate digit of the mask is still open.
pub open spec fn mask_full(m: [bool; 9]) -> bool {
    forall|k: int| 0 <= k < 9 ==> m@[k]
}

/// A solved cell holds a playable digit.
pub open spec fn cell_wf(c: SudokuCell) -> bool {
    match c {
        SudokuCell::Solved(v) => digit_ok(v),
        SudokuCell::Unsolved(_) => true,
    }
}

/// A well-formed board: 81 cells, all well-formed.
pub open spec fn grid_wf(g: Seq<SudokuCell>) -> bool {
    &&& g.len() == 81
    &&& forall|i: int| 0 <= i < 81 ==> cell_wf(#[trigger] g[i])
}

/// Whether the cell still allows digit `d` to be placed there.
pub open spec fn cell_admits(c: SudokuCell, d: u8) -> bool {
    match c {
        SudokuCell::Solved(v) => v == d,
        SudokuCell::Unsolved(m) => m@[d as int - 1],
    }
}

/// Cells `i` and `j` (row-major indices in 0..81) share a row.
pub open spec fn same_row(i: int, j: int) -> bool {
    i / 9 == j / 9
}

/// Cells `i` and `j` share a column.
pub open spec fn same_col(i: int, j: int) -> bool {
    i % 9 == j % 9
}

/// Cells `i` and `j` share a 3x3 box.
pub open spec fn same_box(i: int, j: int) -> bool {
    (i / 9) / 3 == (j / 9) / 3 && (i % 9) / 3 == (j % 9) / 3
}

/// Cells `i` and `j` share a unit (row, column or box), so they may not
/// hold the same digit.
pub open spec fn same_unit(i: int, j: int) -> bool {
    same_row(i, j) || same_col(i, j) || same_box(i, j)
}

/// A full assignment of digits to the 81 cells.
pub open spec fn assignment_wf(s: Seq<u8>) -> bool {
    &&& s.len() == 81
    &&& forall|i: int| 0 <= i < 81 ==> digit_ok(#[trigger] s[i])
}

/// No unit holds the same digit twice.
pub open spec fn assignment_consistent(s: Seq<u8>) -> bool {
    forall|i: int, j: int|
        0 <= i < 81 && 0 <= j < 81 && i != j && same_unit(i, j) ==> #[trigger] s[i]
            != #[trigger] s[j]
}

/// `s` is a complete, consistent assignment that respects every
/// constraint the board `g` already records: solved cells keep their
/// digit, unsolved cells receive one of their open candidates.
pub open spec fn solution_for(g: Seq<SudokuCell>, s: Seq<u8>) -> bool {
    &&& assignment_wf(s)
    &&& assignment_consistent(s)
    &&& forall|i: int| 0 <= i < 81 ==> cell_admits(#[trigger] g[i], s[i])
}

/// Every cell of the board is solved.
pub open spec fn grid_full(g: Seq<SudokuCell>) -> bool {
    forall|i: int| 0 <= i < 81 ==> (#[trigger] g[i]) is Solved
}

/// The digits of a fully solved board.
pub open spec fn digits_of(g: Seq<SudokuCell>) -> Seq<u8> {
    Seq::new(81, |i: int| g[i]->Solved_0)
}

/// Cell `c2` is a sound strengthening of `c1`: a solved cell is left
/// alone, and `c2` admits no digit that `c1` ruled out.
pub open spec fn cell_extends(c2: SudokuCell, c1: SudokuCell) -> bool {
    &&& (c1 is Solved ==> c2 == c1)
    &&& forall|d: u8| digit_ok(d) && cell_admits(c2, d) ==> cell_admits(c1, d)
}

/// Board `g2` is a sound, cell-by-cell strengthening of `g1`.
pub open spec fn grid_extends(g2: Seq<SudokuCell>, g1: Seq<SudokuCell>) -> bool {
    &&& g2.len() == 81
    &&& g1.len() == 81
    &&& forall|i: int| 0 <= i < 81 ==> cell_extends(#[trigger] g2[i], #[trigger] g1[i])
}

/// Some unit holds the same digit in two different solved cells.
pub open spec fn has_duplicate(g: Seq<SudokuCell>) -> bool {
    exists|i: int, j: int|
        0 <= i < 81 && 0 <= j < 81 && i != j && same_unit(i, j) && (#[trigger] g[i]) is Solved && (
        #[trigger] g[j]) is Solved && g[i]->Solved_0 == g[j]->Solved_0
}

/// An unsolved cell with no candidate left.
pub open spec fn cell_empty(c: SudokuCell) -> bool {
    c is Unsolved && forall|k: int| 0 <= k < 9 ==> !(#[trigger] c->Unsolved_0@[k])
}

/// Some cell of the board has run out of candidates.
pub open spec fn has_empty_cell(g: Seq<SudokuCell>) -> bool {
    exists|i: int| 0 <= i < 81 && cell_empty(#[trigger] g[i])
}

/// The board is visibly inconsistent: either one unit holds the same
/// digit twice, or some unsolved cell has no candidate left.
pub open spec fn grid_contradicted(g: Seq<SudokuCell>) -> bool {
    has_duplicate(g) || has_empty_cell(g)
}

/// No unsolved cell still holds open a digit that a solved cell in
/// the same unit already carries: elimination has nothing left to do.
pub open spec fn no_elimination(g: Seq<SudokuCell>) -> bool {
    forall|i: int, j: int|
        0 <= i < 81 && 0 <= j < 81 && i != j && same_unit(i, j) && (#[trigger] g[j]) is Solved && (
        #[trigger] g[i]) is Unsolved ==> !(g[i]->Unsolved_0@[g[j]->Solved_0 as int - 1])
}

/// Exactly one candidate of the mask is still open.
pub open spec fn mask_single(m: [bool; 9]) -> bool {
    exists|k: int|
        0 <= k < 9 && #[trigger] m@[k] && forall|k2: int| 0 <= k2 < 9 && k2 != k ==> !m@[k2]
}

/// No unsolved cell is down to a single candidate: promotion has
/// nothing left to do.
pub open spec fn no_promotion(g: Seq<SudokuCell>) -> bool {
    forall|i: int|
        0 <= i < 81 && (#[trigger] g[i]) is Unsolved ==> !mask_single(g[i]->Unsolved_0)
}

/// A fixed point of constraint propagation: neither an elimination
/// nor a promotion remains to be made.
pub open spec fn propagation_fixed(g: Seq<SudokuCell>) -> bool {
    no_elimination(g) && no_promotion(g)
}

/// The open candidates among the first `k` entries of a mask.
pub open spec fn mask_open_count(m: [bool; 9], k: int) -> nat
    decreases k,
{
    if k <= 0 {
        0
    } else {
        mask_open_count(m, k - 1) + if m@[k - 1] {
            1nat
        } else {
            0nat
        }
    }
}

/// The open candidates of one cell; a solved cell has none left.
pub open spec fn cell_open_count(c: SudokuCell) -> nat {
    match c {
        SudokuCell::Solved(_) => 0,
        SudokuCell::Unsolved(m) => mask_open_count(m, 9),
    }
}

/// The total of open candidates over the board: the measure that
/// every propagation step strictly shrinks.
pub open spec fn open_candidates(g: Seq<SudokuCell>) -> nat
    decreases g.len(),
{
    if g.len() == 0 {
        0
    } else {
        open_candidates(g.drop_last()) + cell_open_count(g.last())
    }
}

/// A mask holds at most `k` open candidates among its first `k`.
pub proof fn lemma_mask_open_count_le(m: [bool; 9], k: int)
    requires
        0 <= k <= 9,
    ensures
        mask_open_count(m, k) <= k,
    decreases k,
{
    if k > 0 {
        lemma_mask_open_count_le(m, k - 1);
    }
}

/// Clearing one open candidate strictly shrinks the mask's count.
pub proof fn lemma_mask_open_count_clear(m: [bool; 9], m2: [bool; 9], t: int, k: int)
    requires
        0 <= t < 9,
        m@[t],
        m2@ == m@.update(t, false),
        0 <= k <= 9,
    ensures
        k <= t ==> mask_open_count(m2, k) == mask_open_count(m, k),
        k > t ==> mask_open_count(m2, k) + 1 == mask_open_count(m, k),
    decreases k,
{
    if k > 0 {
        lemma_mask_open_count_clear(m, m2, t, k - 1);
    }
}

/// A mask with an open candidate has a positive count.
pub proof fn lemma_mask_open_count_pos(m: [bool; 9], t: int, k: int)
    requires
        0 <= t < k <= 9,
        m@[t],
    ensures
        mask_open_count(m, k) >= 1,
    decreases k,
{
    if t < k - 1 {
        lemma_mask_open_count_pos(m, t, k - 1);
    }
}

/// Pointwise: where no cell gains candidates, the total cannot grow.
pub proof fn lemma_open_candidates_le(g2: Seq<SudokuCell>, g1: Seq<SudokuCell>)
    requires
        g2.len() == g1.len(),
        forall|i: int|
            0 <= i < g1.len() ==> cell_open_count(#[trigger] g2[i]) <= cell_open_count(
                #[trigger] g1[i],
            ),
    ensures
        open_candidates(g2) <= open_candidates(g1),
    decreases g1.len(),
{
    if g1.len() > 0 {
        lemma_open_candidates_le(g2.drop_last(), g1.drop_last());
    }
}

/// Pointwise: one cell strictly losing candidates strictly shrinks
/// the total.
pub proof fn lemma_open_candidates_lt(g2: Seq<SudokuCell>, g1: Seq<SudokuCell>, w: int)
    requires
        g2.len() == g1.len(),
        forall|i: int|
            0 <= i < g1.len() ==> cell_open_count(#[trigger] g2[i]) <= cell_open_count(
                #[trigger] g1[i],
            ),
        0 <= w < g1.len(),
        cell_open_count(g2[w]) < cell_open_count(g1[w]),
    ensures
        open_candidates(g2) < open_candidates(g1),
    decreases g1.len(),
{
    if w == g1.len() - 1 {
        lemma_open_candidates_le(g2.drop_last(), g1.drop_last());
    } else {
        lemma_open_candidates_lt(g2.drop_last(), g1.drop_last(), w);
    }
}

/// The board never holds more than 9 open candidates per cell.
pub proof fn lemma_open_candidates_bound(g: Seq<SudokuCell>)
    ensures
        open_candidates(g) <= 9 * g.len(),
    decreases g.len(),
{
    if g.len() > 0 {
        lemma_open_candidates_bound(g.drop_last());
        match g.last() {
            SudokuCell::Solved(_) => {},
            SudokuCell::Unsolved(m) => {
                lemma_mask_open_count_le(m, 9);
            },
        }
    }
}

pub proof fn lemma_extends_refl(g: Seq<SudokuCell>)
    requires
        g.len() == 81,
    ensures
        grid_extends(g, g),
{
}

pub proof fn lemma_extends_trans(g3: Seq<SudokuCell>, g2: Seq<SudokuCell>, g1: Seq<SudokuCell>)
    requires
        grid_extends(g3, g2),
        grid_extends(g2, g1),
    ensures
        grid_extends(g3, g1),
{
    assert forall|i: int| 0 <= i < 81 implies cell_extends(#[trigger] g3[i], #[trigger] g1[i]) by {
        assert(cell_extends(g3[i], g2[i]));
        assert(cell_extends(g2[i], g1[i]));
    }
}

/// Strengthening a board never creates solutions: whatever solves the
/// stronger board solved the weaker one already.
pub proof fn lemma_extends_solution(g2: Seq<SudokuCell>, g1: Seq<SudokuCell>, s: Seq<u8>)
    requires
        grid_extends(g2, g1),
        solution_for(g2, s),
    ensures
        solution_for(g1, s),
{
    assert forall|i: int| 0 <= i < 81 implies cell_admits(#[trigger] g1[i], s[i]) by {
        assert(cell_extends(g2[i], g1[i]));
        assert(cell_admits(g2[i], s[i]));
    }
}

/// A visibly inconsistent board has no solution.
pub proof fn lemma_contradicted_no_solution(g: Seq<SudokuCell>, s: Seq<u8>)
    requires
        grid_contradicted(g),
    ensures
        !solution_for(g, s),
{
    if solution_for(g, s) {
        if has_duplicate(g) {
            let (i, j) = choose|i: int, j: int|
                0 <= i < 81 && 0 <= j < 81 && i != j && same_unit(i, j) && (
                #[trigger] g[i]) is Solved && (#[trigger] g[j]) is Solved && g[i]->Solved_0
                    == g[j]->Solved_0;
            assert(cell_admits(g[i], s[i]));
            assert(cell_admits(g[j], s[j]));
            assert(s[i] == s[j]);
            assert(false);
        } else {
            let i = choose|i: int| 0 <= i < 81 && cell_empty(#[trigger] g[i]);
            assert(cell_admits(g[i], s[i]));
            assert(digit_ok(s[i]));
            assert(!(g[i]->Unsolved_0@[s[i] as int - 1]));
            assert(false);
        }
    }
}

/// A full board with no visible contradiction is its own solution.
pub proof fn lemma_full_clean_solution(g: Seq<SudokuCell>)
    requires
        grid_wf(g),
        grid_full(g),
        !grid_contradicted(g),
    ensures
        solution_for(g, digits_of(g)),
{
    let s = digits_of(g);
    assert forall|i: int| 0 <= i < 81 implies digit_ok(#[trigger] s[i]) by {
        assert(cell_wf(g[i]));
    }
    assert forall|i: int, j: int|
        0 <= i < 81 && 0 <= j < 81 && i != j && same_unit(i, j) implies #[trigger] s[i]
        != #[trigger] s[j] by {
        assert(g[i] is Solved);
        assert(g[j] is Solved);
        if s[i] == s[j] {
            assert(g[i]->Solved_0 == g[j]->Solved_0);
            assert(grid_contradicted(g));
        }
    }
    assert forall|i: int| 0 <= i < 81 implies cell_admits(#[trigger] g[i], s[i]) by {
        assert(g[i] is Solved);
    }
}

/// A full board admits exactly one assignment: its own digits.
pub proof fn lemma_full_solution_unique(g: Seq<SudokuCell>, s: Seq<u8>)
    requires
        g.len() == 81,
        grid_full(g),
        solution_for(g, s),
    ensures
        s == digits_of(g),
{
    assert forall|i: int| 0 <= i < 81 implies s[i] == digits_of(g)[i] by {
        assert(cell_admits(g[i], s[i]));
        assert(g[i] is Solved);
    }
    assert(s =~= digits_of(g));
}

/// Two full boards with the same digits are the same board.
pub proof fn lemma_full_same_digits(a: Seq<SudokuCell>, b: Seq<SudokuCell>)
    requires
        a.len() == 81,
        b.len() == 81,
        grid_full(a),
        grid_full(b),
        digits_of(a) == digits_of(b),
    ensures
        a == b,
{
    assert forall|i: int| 0 <= i < 81 implies a[i] == b[i] by {
        let va = digits_of(a)[i];
        let vb = digits_of(b)[i];
        assert(va == vb);
        assert(va == a[i]->Solved_0);
        assert(vb == b[i]->Solved_0);
        assert(a[i] is Solved && b[i] is Solved);
        assert(a[i] == SudokuCell::Solved(a[i]->Solved_0));
        assert(b[i] == SudokuCell::Solved(b[i]->Solved_0));
    }
    assert(a =~= b);
}

/// The number of unsolved cells, the measure that shrinks with every
/// search step.
pub open spec fn unsolved_count(g: Seq<SudokuCell>) -> nat
    decreases g.len(),
{
    if g.len() == 0 {
        0
    } else {
        unsolved_count(g.drop_last()) + if g.last() is Unsolved {
            1nat
        } else {
            0nat
        }
    }
}

/// Pointwise: where no cell loses its solved status, the count cannot
/// grow.
pub proof fn lemma_unsolved_count_le(g2: Seq<SudokuCell>, g1: Seq<SudokuCell>)
    requires
        g2.len() == g1.len(),
        forall|i: int| 0 <= i < g1.len() && (#[trigger] g1[i]) is Solved ==> g2[i] is Solved,
    ensures
        unsolved_count(g2) <= unsolved_count(g1),
    decreases g1.len(),
{
    if g1.len() > 0 {
        lemma_unsolved_count_le(g2.drop_last(), g1.drop_last());
    }
}

/// Pointwise: solving one more cell strictly shrinks the count.
pub proof fn lemma_unsolved_count_lt(g2: Seq<SudokuCell>, g1: Seq<SudokuCell>, w: int)
    requires
        g2.len() == g1.len(),
        forall|i: int| 0 <= i < g1.len() && (#[trigger] g1[i]) is Solved ==> g2[i] is Solved,
        0 <= w < g1.len(),
        g1[w] is Unsolved,
        g2[w] is Solved,
    ensures
        unsolved_count(g2) < unsolved_count(g1),
    decreases g1.len(),
{
    if w == g1.len() - 1 {
        lemma_unsolved_count_le(g2.drop_last(), g1.drop_last());
    } else {
        lemma_unsolved_count_lt(g2.drop_last(), g1.drop_last(), w);
    }
}

} // verus!
