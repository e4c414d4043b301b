//! Library-wide laws: facts that relate parsing, rendering and the
//! solver, proved once and for all from the public contracts.

use crate::board::{cell_char, char_digit, is_clue_char, parsed_cell, parsed_grid, SudokuCell};
use crate::rules::{
    assignment_consistent,
    assignment_wf,
    digit_ok,
    digits_of,
    grid_full,
    has_duplicate,
    lemma_contradicted_no_solution,
    lemma_full_same_digits,
    mask_full,
    same_box,
    same_col,
    same_row,
    same_unit,
    solution_for,
};
use crate::solver::{solve_post, solve_unique_post, SolveOutcome, UniqueOutcome};
use vstd::arithmetic::div_mod::{
    lemma_fundamental_div_mod,
    lemma_fundamental_div_mod_converse,
    lemma_mod_bound,
};
use vstd::prelude::*;
use vstd::relations::injective_on;
use vstd::set_lib::{lemma_int_range, lemma_map_size, lemma_subset_equality, set_int_range};

verus! {

/// Round trip: rendering the board parsed from a flat 81-character
/// line reproduces the line exactly, provided its blanks were written
/// as `'.'` (the convention the renderer itself uses).
pub proof fn lemma_parse_render_round_trip(s: Seq<char>, g: Seq<SudokuCell>, r: Seq<char>)
    requires
        parsed_grid(s, g),
        r.len() == 81,
        forall|i: int| 0 <= i < 81 ==> r[i] == cell_char(#[trigger] g[i]),
        forall|i: int| 0 <= i < 81 ==> is_clue_char(#[trigger] s[i]) || s[i] == '.',
    ensures
        r == s,
{
    assert forall|i: int| 0 <= i < 81 implies r[i] == s[i] by {
        let c = s[i];
        if is_clue_char(c) {
            let v: u8 = char_digit(c);
            assert(g[i] == SudokuCell::Solved(v));
            assert(48 + v == c as u32);
            vstd::utf8::char_u32_cast(c, c as u32);
            assert(r[i] == c);
        }
    }
    assert(r =~= s);
}

/// Contradiction detection: a board whose given clues already repeat
/// a digit inside one unit has no solution, so the solver can only
/// report "no solution" for it.
pub proof fn lemma_duplicate_clues_unsolvable(g: Seq<SudokuCell>, r: SolveOutcome)
    requires
        has_duplicate(g),
        solve_post(g, r),
    ensures
        forall|s: Seq<u8>| !solution_for(g, s),
        r is NoSolution,
{
    assert forall|s: Seq<u8>| !solution_for(g, s) by {
        lemma_contradicted_no_solution(g, s);
    }
    match r {
        SolveOutcome::Solved(sol) => {
            assert(!solution_for(g, digits_of(sol@)));
            assert(false);
        },
        SolveOutcome::NoSolution => {},
    }
}

/// Completeness on known-solvable boards: a board with a solution is
/// never reported unsolvable, and when the solution is unique the
/// solver returns exactly it.
pub proof fn lemma_unique_solution_found(g: Seq<SudokuCell>, s: Seq<u8>, r: SolveOutcome)
    requires
        solve_post(g, r),
        solution_for(g, s),
        forall|t: Seq<u8>| solution_for(g, t) ==> t == s,
    ensures
        r matches SolveOutcome::Solved(sol) && digits_of(sol@) == s,
{
    match r {
        SolveOutcome::Solved(sol) => {
            assert(digits_of(sol@) == s);
        },
        SolveOutcome::NoSolution => {
            assert(!solution_for(g, s));
            assert(false);
        },
    }
}

/// Determinism under a unique solution: any two outcomes the solver
/// contract allows for the same board carry the very same cells.
pub proof fn lemma_solve_deterministic(
    g: Seq<SudokuCell>,
    s: Seq<u8>,
    r1: SolveOutcome,
    r2: SolveOutcome,
)
    requires
        solve_post(g, r1),
        solve_post(g, r2),
        solution_for(g, s),
        forall|t: Seq<u8>| solution_for(g, t) ==> t == s,
    ensures
        r1 matches SolveOutcome::Solved(a) && (r2 matches SolveOutcome::Solved(b) && a@ == b@),
{
    lemma_unique_solution_found(g, s, r1);
    lemma_unique_solution_found(g, s, r2);
    let a = r1->Solved_0;
    let b = r2->Solved_0;
    lemma_full_same_digits(a@, b@);
}

/// The two solve modes agree: when uniqueness checking finds a sole
/// completion, plain solving returns that very board.
pub proof fn lemma_modes_agree(g: Seq<SudokuCell>, r: SolveOutcome, u: UniqueOutcome)
    requires
        solve_post(g, r),
        solve_unique_post(g, u),
        u is Unique,
    ensures
        r matches SolveOutcome::Solved(sol) && sol@ == u->Unique_0@,
{
    let q = u->Unique_0;
    lemma_unique_solution_found(g, digits_of(q@), r);
    let sol = r->Solved_0;
    lemma_full_same_digits(sol@, q@);
}

/// Pigeonhole core: nine mutually constrained cells of a complete
/// consistent assignment carry nine distinct digits, hence every
/// digit.
proof fn lemma_unit_digits_complete(s: Seq<u8>, f: spec_fn(int) -> int, d: u8)
    requires
        assignment_wf(s),
        assignment_consistent(s),
        digit_ok(d),
        forall|k: int| 0 <= k < 9 ==> 0 <= #[trigger] f(k) < 81,
        forall|k1: int, k2: int|
            0 <= k1 < 9 && 0 <= k2 < 9 && k1 != k2 ==> #[trigger] f(k1) != #[trigger] f(k2)
                && same_unit(f(k1), f(k2)),
    ensures
        exists|k: int| 0 <= k < 9 && s[#[trigger] f(k)] == d,
{
    let ks = set_int_range(0, 9);
    lemma_int_range(0, 9);
    let g = |k: int| s[f(k)];
    let vals = ks.map(g);
    assert(injective_on(g, ks)) by {
        assert forall|k1: int, k2: int|
            ks.contains(k1) && ks.contains(k2) && #[trigger] g(k1) == #[trigger] g(k2) implies k1
            == k2 by {
            if k1 != k2 {
                assert(s[f(k1)] != s[f(k2)]);
            }
        }
    }
    lemma_map_size(ks, vals, g);
    let to_digit = |x: int| x as u8;
    let digits = set_int_range(1, 10).map(to_digit);
    lemma_int_range(1, 10);
    assert(injective_on(to_digit, set_int_range(1, 10)));
    lemma_map_size(set_int_range(1, 10), digits, to_digit);
    assert(vals.subset_of(digits)) by {
        assert forall|v: u8| vals.contains(v) implies digits.contains(v) by {
            let k = choose|k: int| ks.contains(k) && v == g(k);
            assert(digit_ok(s[f(k)]));
            assert(set_int_range(1, 10).contains(v as int) && v == to_digit(v as int));
        }
    }
    lemma_subset_equality(vals, digits);
    assert(set_int_range(1, 10).contains(d as int) && d == to_digit(d as int));
    assert(digits.contains(d));
    assert(vals.contains(d));
    let k = choose|k: int| ks.contains(k) && d == g(k);
    assert(0 <= k < 9 && s[f(k)] == d);
}

/// Soundness read as "exactly once": in a complete consistent
/// assignment, the row, the column and the box of every cell contain
/// each digit (consistency itself bounds them to at most once).
pub proof fn lemma_solution_units_complete(s: Seq<u8>, i: int, d: u8)
    requires
        assignment_wf(s),
        assignment_consistent(s),
        0 <= i < 81,
        digit_ok(d),
    ensures
        exists|j: int| 0 <= j < 81 && #[trigger] same_row(i, j) && s[j] == d,
        exists|j: int| 0 <= j < 81 && #[trigger] same_col(i, j) && s[j] == d,
        exists|j: int| 0 <= j < 81 && #[trigger] same_box(i, j) && s[j] == d,
{
    lemma_mod_bound(i, 9);
    lemma_fundamental_div_mod(i, 9);
    let r = i / 9;
    let c = i % 9;
    assert(0 <= r < 9);
    // the row of cell i
    let frow = |k: int| 9 * r + k;
    assert forall|k1: int, k2: int|
        0 <= k1 < 9 && 0 <= k2 < 9 && k1 != k2 implies #[trigger] frow(k1) != #[trigger] frow(k2)
        && same_unit(frow(k1), frow(k2)) by {
        lemma_fundamental_div_mod_converse(frow(k1), 9, r, k1);
        lemma_fundamental_div_mod_converse(frow(k2), 9, r, k2);
        assert(same_row(frow(k1), frow(k2)));
    }
    lemma_unit_digits_complete(s, frow, d);
    let kr = choose|k: int| 0 <= k < 9 && s[#[trigger] frow(k)] == d;
    lemma_fundamental_div_mod_converse(frow(kr), 9, r, kr);
    assert(0 <= frow(kr) < 81 && same_row(i, frow(kr)) && s[frow(kr)] == d);
    // the column of cell i
    let fcol = |k: int| 9 * k + c;
    assert forall|k1: int, k2: int|
        0 <= k1 < 9 && 0 <= k2 < 9 && k1 != k2 implies #[trigger] fcol(k1) != #[trigger] fcol(k2)
        && same_unit(fcol(k1), fcol(k2)) by {
        lemma_fundamental_div_mod_converse(fcol(k1), 9, k1, c);
        lemma_fundamental_div_mod_converse(fcol(k2), 9, k2, c);
        assert(same_col(fcol(k1), fcol(k2)));
    }
    lemma_unit_digits_complete(s, fcol, d);
    let kc = choose|k: int| 0 <= k < 9 && s[#[trigger] fcol(k)] == d;
    lemma_fundamental_div_mod_converse(fcol(kc), 9, kc, c);
    assert(0 <= fcol(kc) < 81 && same_col(i, fcol(kc)) && s[fcol(kc)] == d);
    // the box of cell i
    lemma_mod_bound(r, 3);
    lemma_fundamental_div_mod(r, 3);
    lemma_mod_bound(c, 3);
    lemma_fundamental_div_mod(c, 3);
    let br = r / 3;
    let bc = c / 3;
    assert(0 <= br < 3 && 0 <= bc < 3);
    let fbox = |k: int| 9 * (3 * br + k / 3) + 3 * bc + k % 3;
    assert forall|k: int| 0 <= k < 9 implies 0 <= #[trigger] fbox(k) < 81 && fbox(k) / 9 == 3 * br
        + k / 3 && fbox(k) % 9 == 3 * bc + k % 3 && (fbox(k) / 9) / 3 == br && (fbox(k) % 9) / 3
        == bc by {
        lemma_mod_bound(k, 3);
        lemma_fundamental_div_mod(k, 3);
        lemma_fundamental_div_mod_converse(fbox(k), 9, 3 * br + k / 3, 3 * bc + k % 3);
        lemma_fundamental_div_mod_converse(3 * br + k / 3, 3, br, k / 3);
        lemma_fundamental_div_mod_converse(3 * bc + k % 3, 3, bc, k % 3);
    }
    assert forall|k1: int, k2: int|
        0 <= k1 < 9 && 0 <= k2 < 9 && k1 != k2 implies #[trigger] fbox(k1) != #[trigger] fbox(k2)
        && same_unit(fbox(k1), fbox(k2)) by {
        lemma_mod_bound(k1, 3);
        lemma_fundamental_div_mod(k1, 3);
        lemma_mod_bound(k2, 3);
        lemma_fundamental_div_mod(k2, 3);
        assert(same_box(fbox(k1), fbox(k2)));
        if fbox(k1) == fbox(k2) {
            assert(3 * br + k1 / 3 == 3 * br + k2 / 3);
            assert(3 * bc + k1 % 3 == 3 * bc + k2 % 3);
            assert(k1 == k2);
        }
    }
    lemma_unit_digits_complete(s, fbox, d);
    let kb = choose|k: int| 0 <= k < 9 && s[#[trigger] fbox(k)] == d;
    assert(0 <= fbox(kb) < 81 && same_box(i, fbox(kb)) && s[fbox(kb)] == d);
}

/// The "exactly once" reading of soundness for a solved outcome: in
/// the board the solver returns, every row, column and box of every
/// cell contains each digit.
pub proof fn lemma_solved_outcome_units_complete(
    g: Seq<SudokuCell>,
    r: SolveOutcome,
    i: int,
    d: u8,
)
    requires
        solve_post(g, r),
        r is Solved,
        0 <= i < 81,
        digit_ok(d),
    ensures
        exists|j: int|
            0 <= j < 81 && #[trigger] same_row(i, j) && digits_of(r->Solved_0@)[j] == d,
        exists|j: int|
            0 <= j < 81 && #[trigger] same_col(i, j) && digits_of(r->Solved_0@)[j] == d,
        exists|j: int|
            0 <= j < 81 && #[trigger] same_box(i, j) && digits_of(r->Solved_0@)[j] == d,
{
    lemma_solution_units_complete(digits_of(r->Solved_0@), i, d);
}

/// Boundary: an all-blank line parses to a board in which every cell
/// still has all nine candidates open.
pub proof fn lemma_blank_parse(s: Seq<char>, g: Seq<SudokuCell>)
    requires
        parsed_grid(s, g),
        forall|i: int| 0 <= i < 81 ==> !is_clue_char(#[trigger] s[i]),
    ensures
        forall|i: int|
            0 <= i < 81 ==> (#[trigger] g[i]) is Unsolved && mask_full(g[i]->Unsolved_0),
{
}

} // verus!

verus! {

/// Determinism of parsing: one line decodes to one board.  Together
/// with `lemma_solve_deterministic` this pins the whole pipeline's
/// output whenever the puzzle has a unique solution.
pub proof fn lemma_parse_deterministic(s: Seq<char>, g1: Seq<SudokuCell>, g2: Seq<SudokuCell>)
    requires
        parsed_grid(s, g1),
        parsed_grid(s, g2),
    ensures
        g1 == g2,
{
    assert forall|i: int| 0 <= i < 81 implies g1[i] == g2[i] by {
        assert(parsed_cell(s[i], g1[i]) && parsed_cell(s[i], g2[i]));
        if !is_clue_char(s[i]) {
            let m1 = g1[i]->Unsolved_0;
            let m2 = g2[i]->Unsolved_0;
            assert(mask_full(m1) && mask_full(m2));
            assert forall|k: int| 0 <= k < 9 implies m1@[k] == m2@[k] by {
                assert(m1@[k] && m2@[k]);
            }
            assert(m1@ =~= m2@);
            assert(m1 == m2);
            assert(g1[i] == SudokuCell::Unsolved(m1));
            assert(g2[i] == SudokuCell::Unsolved(m2));
        }
    }
    assert(g1 =~= g2);
}

} // verus!
