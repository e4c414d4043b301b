use sudoku::{SolveOutcome, SudokuCell, SudokuGrid, UniqueOutcome};

const BLANK: &str =
    ".................................................................................";

const PUZZLE: &str =
    "530070000600195000098000060800060003400803001700020006060000280000419005000080079";

const PUZZLE_DOTS: &str =
    "53..7....6..195....98....6.8...6...34..8.3..17...2...6.6....28....419..5....8..79";

const SOLUTION: &str =
    "534678912672195348198342567859761423426853791713924856961537284287419635345286179";

fn solved_grid(outcome: SolveOutcome) -> SudokuGrid {
    match outcome {
        SolveOutcome::Solved(g) => g,
        SolveOutcome::NoSolution => panic!("expected a solved grid"),
    }
}

fn assert_valid_completion(sol: &SudokuGrid, clues: &str) {
    let clue_chars: Vec<char> = clues.chars().collect();
    let mut digits = [[0u8; 9]; 9];
    for y in 1..=9u8 {
        for x in 1..=9u8 {
            match *sol.get_cell(x, y) {
                SudokuCell::Solved(v) => {
                    assert!((1..=9).contains(&v));
                    digits[(y - 1) as usize][(x - 1) as usize] = v;
                }
                SudokuCell::Unsolved(_) => panic!("cell ({x}, {y}) left unsolved"),
            }
        }
    }
    // rows, columns and boxes each hold each digit exactly once
    for a in 0..9 {
        let mut row = [false; 10];
        let mut col = [false; 10];
        let mut boxd = [false; 10];
        for b in 0..9 {
            assert!(!row[digits[a][b] as usize], "duplicate in row {a}");
            row[digits[a][b] as usize] = true;
            assert!(!col[digits[b][a] as usize], "duplicate in column {a}");
            col[digits[b][a] as usize] = true;
            let (by, bx) = (3 * (a / 3) + b / 3, 3 * (a % 3) + b % 3);
            assert!(!boxd[digits[by][bx] as usize], "duplicate in box {a}");
            boxd[digits[by][bx] as usize] = true;
        }
    }
    // every given clue is unchanged
    for (i, c) in clue_chars.iter().enumerate() {
        if let Some(d) = c.to_digit(10) {
            if (1..=9).contains(&d) {
                assert_eq!(digits[i / 9][i % 9], d as u8, "clue at {i} changed");
            }
        }
    }
}

#[test]
fn cell_new_digit_is_solved() {
    assert_eq!(SudokuCell::new(5), SudokuCell::Solved(5));
    assert_eq!(SudokuCell::new(1), SudokuCell::Solved(1));
    assert_eq!(SudokuCell::new(9), SudokuCell::Solved(9));
}

#[test]
fn cell_new_other_is_unsolved_with_all_candidates() {
    assert_eq!(SudokuCell::new(0), SudokuCell::Unsolved([true; 9]));
    assert_eq!(SudokuCell::new(10), SudokuCell::Unsolved([true; 9]));
}

#[test]
fn candidates_of_solved_cell_is_none() {
    assert_eq!(SudokuCell::new(7).candidates(), None);
}

#[test]
fn candidates_of_fresh_cell_lists_all_digits() {
    assert_eq!(
        SudokuCell::new(0).candidates(),
        Some(vec![1, 2, 3, 4, 5, 6, 7, 8, 9])
    );
}

#[test]
fn candidates_follow_the_mask_in_ascending_order() {
    let mut mask = [false; 9];
    mask[0] = true; // digit 1
    mask[4] = true; // digit 5
    mask[8] = true; // digit 9
    assert_eq!(SudokuCell::Unsolved(mask).candidates(), Some(vec![1, 5, 9]));
}

#[test]
fn box_range_spans() {
    assert_eq!(SudokuGrid::box_range(1), 1..4);
    assert_eq!(SudokuGrid::box_range(2), 1..4);
    assert_eq!(SudokuGrid::box_range(3), 1..4);
    assert_eq!(SudokuGrid::box_range(4), 4..7);
    assert_eq!(SudokuGrid::box_range(5), 4..7);
    assert_eq!(SudokuGrid::box_range(6), 4..7);
    assert_eq!(SudokuGrid::box_range(7), 7..10);
    assert_eq!(SudokuGrid::box_range(9), 7..10);
}

#[test]
fn set_and_get_cell() {
    let mut g = SudokuGrid::new();
    g.set_cell(3, 2, SudokuCell::new(8));
    assert_eq!(*g.get_cell(3, 2), SudokuCell::Solved(8));
    // neighbours untouched
    assert_eq!(*g.get_cell(2, 2), SudokuCell::Unsolved([true; 9]));
    assert_eq!(*g.get_cell(3, 3), SudokuCell::Unsolved([true; 9]));
}

#[test]
fn new_grid_is_all_blank() {
    let g = SudokuGrid::new();
    for y in 1..=9 {
        for x in 1..=9 {
            assert_eq!(*g.get_cell(x, y), SudokuCell::Unsolved([true; 9]));
        }
    }
}

#[test]
fn short_input_is_a_length_error() {
    let input = "1".repeat(80);
    match SudokuGrid::from_string(&input) {
        Ok(_) => panic!("an 80-character line must be rejected"),
        Err(e) => assert_eq!(e.message(), "Puzzle string must have 81 digits"),
    }
}

#[test]
fn long_input_is_a_length_error() {
    let input = "5".repeat(82);
    assert!(SudokuGrid::from_string(&input).is_err());
}

#[test]
fn blank_input_has_all_candidates_open() {
    let g = SudokuGrid::from_string(BLANK).expect("81 characters parse");
    for y in 1..=9 {
        for x in 1..=9 {
            assert_eq!(*g.get_cell(x, y), SudokuCell::Unsolved([true; 9]));
        }
    }
}

#[test]
fn zeros_and_dots_both_mean_blank() {
    let zeros = "0".repeat(81);
    let a = SudokuGrid::from_string(&zeros).expect("parses");
    let b = SudokuGrid::from_string(BLANK).expect("parses");
    assert_eq!(a, b);
}

#[test]
fn parse_then_render_round_trips() {
    let g = SudokuGrid::from_string(PUZZLE_DOTS).expect("parses");
    assert_eq!(g.render(), PUZZLE_DOTS);
}

#[test]
fn render_writes_blanks_as_dots() {
    let g = SudokuGrid::from_string(PUZZLE).expect("parses");
    assert_eq!(g.render(), PUZZLE_DOTS);
}

#[test]
fn render_of_empty_grid_is_all_dots() {
    assert_eq!(SudokuGrid::new().render(), BLANK);
}

#[test]
fn known_puzzle_yields_its_unique_solution() {
    let g = SudokuGrid::from_string(PUZZLE).expect("parses");
    let sol = solved_grid(g.solve());
    assert_eq!(sol.render(), SOLUTION);
    assert_valid_completion(&sol, PUZZLE);
}

#[test]
fn solving_twice_is_byte_identical() {
    let g = SudokuGrid::from_string(PUZZLE_DOTS).expect("parses");
    let first = solved_grid(g.solve());
    let second = solved_grid(g.solve());
    assert_eq!(first.render(), second.render());
    assert_eq!(first, second);
}

#[test]
fn blank_grid_solves_to_some_valid_completion() {
    let g = SudokuGrid::from_string(BLANK).expect("parses");
    let sol = solved_grid(g.solve());
    assert_valid_completion(&sol, BLANK);
}

#[test]
fn blank_grid_solves_deterministically() {
    let g = SudokuGrid::new();
    let first = solved_grid(g.solve());
    let second = solved_grid(g.solve());
    assert_eq!(first.render(), second.render());
}

#[test]
fn all_fives_is_unsolvable() {
    let input = "5".repeat(81);
    let g = SudokuGrid::from_string(&input).expect("parses");
    assert!(matches!(g.solve(), SolveOutcome::NoSolution));
}

#[test]
fn duplicate_in_a_row_is_unsolvable() {
    let mut g = SudokuGrid::new();
    g.set_cell(2, 1, SudokuCell::new(5));
    g.set_cell(7, 1, SudokuCell::new(5));
    assert!(matches!(g.solve(), SolveOutcome::NoSolution));
}

#[test]
fn duplicate_in_a_column_is_unsolvable() {
    let mut g = SudokuGrid::new();
    g.set_cell(4, 2, SudokuCell::new(9));
    g.set_cell(4, 8, SudokuCell::new(9));
    assert!(matches!(g.solve(), SolveOutcome::NoSolution));
}

#[test]
fn duplicate_in_a_box_is_unsolvable() {
    let mut g = SudokuGrid::new();
    g.set_cell(1, 1, SudokuCell::new(3));
    g.set_cell(3, 3, SudokuCell::new(3));
    assert!(matches!(g.solve(), SolveOutcome::NoSolution));
}

#[test]
fn already_solved_grid_comes_back_unchanged() {
    let g = SudokuGrid::from_string(SOLUTION).expect("parses");
    let sol = solved_grid(g.solve());
    assert_eq!(sol, g);
    assert_eq!(sol.render(), SOLUTION);
}

#[test]
fn contradiction_and_fullness_checks() {
    let empty = SudokuGrid::new();
    assert!(!empty.contradicted());
    assert!(!empty.is_full());
    let full = SudokuGrid::from_string(SOLUTION).expect("parses");
    assert!(!full.contradicted());
    assert!(full.is_full());
    let mut dup = SudokuGrid::new();
    dup.set_cell(1, 1, SudokuCell::new(2));
    dup.set_cell(9, 1, SudokuCell::new(2));
    assert!(dup.contradicted());
}

#[test]
fn propagation_finishes_a_nearly_full_row() {
    // row 1 holds 1..8; propagation must place the 9
    let mut g = SudokuGrid::new();
    for x in 1..=8u8 {
        g.set_cell(x, 1, SudokuCell::new(x));
    }
    g.propagate();
    assert_eq!(*g.get_cell(9, 1), SudokuCell::Solved(9));
}

#[test]
fn propagation_eliminates_unit_digits_from_candidates() {
    let mut g = SudokuGrid::new();
    g.set_cell(1, 1, SudokuCell::new(1));
    g.set_cell(5, 1, SudokuCell::new(2));
    g.propagate();
    // cell (9, 1) shares a row with the 1 and the 2, nothing else
    let cands = g.get_cell(9, 1).candidates().expect("still unsolved");
    assert_eq!(cands, vec![3, 4, 5, 6, 7, 8, 9]);
}

#[test]
fn uniqueness_mode_confirms_a_unique_puzzle() {
    let g = SudokuGrid::from_string(PUZZLE).expect("parses");
    match g.solve_unique() {
        UniqueOutcome::Unique(sol) => assert_eq!(sol.render(), SOLUTION),
        _ => panic!("the puzzle has exactly one solution"),
    }
}

#[test]
fn uniqueness_mode_detects_ambiguity() {
    // in the known solution the cells (6,4)=1, (9,4)=3, (6,5)=3,
    // (9,5)=1 form a swappable rectangle: rows 4 and 5 share a band,
    // each column pair sits inside one box, and the 1/3 values can be
    // exchanged; blanking the four cells leaves (at least) two
    // completions
    let mut g = SudokuGrid::from_string(SOLUTION).expect("parses");
    let blank = SudokuCell::new(0);
    g.set_cell(6, 4, blank);
    g.set_cell(9, 4, blank);
    g.set_cell(6, 5, blank);
    g.set_cell(9, 5, blank);
    let clues = g.render();
    match g.solve_unique() {
        UniqueOutcome::Ambiguous(a, b) => {
            assert_valid_completion(&a, &clues);
            assert_valid_completion(&b, &clues);
            assert_ne!(a.render(), b.render());
        }
        UniqueOutcome::Unique(_) => panic!("expected two completions"),
        UniqueOutcome::NoSolution => panic!("the grid certainly completes"),
    }
}

#[test]
fn uniqueness_mode_detects_contradiction() {
    let mut g = SudokuGrid::new();
    g.set_cell(1, 1, SudokuCell::new(4));
    g.set_cell(9, 1, SudokuCell::new(4));
    assert!(matches!(g.solve_unique(), UniqueOutcome::NoSolution));
}

#[test]
fn propagation_reaches_a_fixed_point() {
    let mut g = SudokuGrid::from_string(PUZZLE).expect("parses");
    g.propagate();
    let settled = g;
    g.propagate();
    assert_eq!(g, settled);
}

#[test]
fn parsing_twice_gives_equal_boards() {
    let a = SudokuGrid::from_string(PUZZLE).expect("parses");
    let b = SudokuGrid::from_string(PUZZLE).expect("parses");
    assert_eq!(a, b);
}

#[test]
fn error_carries_its_message() {
    let e = sudoku::Error::new("boom");
    assert_eq!(e.message(), "boom");
}
