//! The board types: a cell (solved digit or candidate mask), the
//! 81-cell grid with coordinate access, parsing from the flat
//! 81-character format, and rendering back to it.

use crate::rules::{cell_wf, digit_ok, grid_wf, mask_full};
use vstd::prelude::*;
use vstd::string::StrSliceExecFns;
use vstd::string::StringExecFns;

verus! {

/// One board position: a fixed digit, or the mask of digits still
/// possible there (entry `k` stands for digit `k + 1`).
#[derive(Copy, Clone, PartialEq, Eq, Debug)]
pub enum SudokuCell {
    Solved(u8),
    Unsolved([bool; 9]),
}

/// The digits whose mask entries are open among the first `k`, in
/// ascending order.
pub open spec fn mask_digits_upto(m: [bool; 9], k: int) -> Seq<u8>
    decreases k,
{
    if k <= 0 {
        Seq::empty()
    } else if m@[k - 1] {
        mask_digits_upto(m, k - 1).push(k as u8)
    } else {
        mask_digits_upto(m, k - 1)
    }
}

/// The open digits of a candidate mask, in ascending order.
pub open spec fn mask_digits(m: [bool; 9]) -> Seq<u8> {
    mask_digits_upto(m, 9)
}

/// The candidate list holds exactly the digits whose mask entry is
/// open.
pub proof fn lemma_mask_digits_membership(m: [bool; 9], k: int)
    requires
        0 <= k <= 9,
    ensures
        forall|d: u8| #[trigger]
            mask_digits_upto(m, k).contains(d) <==> (1 <= d <= k && m@[d as int - 1]),
    decreases k,
{
    if k > 0 {
        lemma_mask_digits_membership(m, k - 1);
        let prev = mask_digits_upto(m, k - 1);
        assert forall|d: u8| #[trigger] mask_digits_upto(m, k).contains(d) implies (1 <= d <= k
            && m@[d as int - 1]) by {
            let cur = mask_digits_upto(m, k);
            let idx = choose|idx: int| 0 <= idx < cur.len() && cur[idx] == d;
            if m@[k - 1] {
                if idx < prev.len() {
                    assert(prev.contains(d));
                }
            } else {
                assert(prev.contains(d));
            }
        }
        assert forall|d: u8| (1 <= d <= k && m@[d as int - 1]) implies #[trigger] mask_digits_upto(
            m,
            k,
        ).contains(d) by {
            let cur = mask_digits_upto(m, k);
            if d <= k - 1 {
                assert(prev.contains(d));
                let idx = choose|idx: int| 0 <= idx < prev.len() && prev[idx] == d;
                assert(cur[idx] == d);
            } else {
                assert(d == k as u8);
                assert(m@[k - 1]);
                assert(cur.last() == d);
            }
        }
    }
}

/// The candidate list ascends strictly, so no digit appears in it
/// twice.
pub proof fn lemma_mask_digits_increasing(m: [bool; 9], k: int)
    requires
        0 <= k <= 9,
    ensures
        forall|t: int|
            0 <= t < mask_digits_upto(m, k).len() ==> 1 <= #[trigger] mask_digits_upto(m, k)[t]
                <= k,
        forall|t1: int, t2: int|
            #![trigger mask_digits_upto(m, k)[t1], mask_digits_upto(m, k)[t2]]
            0 <= t1 < t2 < mask_digits_upto(m, k).len() ==> mask_digits_upto(m, k)[t1]
                < mask_digits_upto(m, k)[t2],
    decreases k,
{
    if k > 0 {
        lemma_mask_digits_increasing(m, k - 1);
        let prev = mask_digits_upto(m, k - 1);
        let cur = mask_digits_upto(m, k);
        assert forall|t1: int, t2: int|
            0 <= t1 < t2 < cur.len() implies #[trigger] cur[t1] < #[trigger] cur[t2] by {
            if t2 < prev.len() {
                assert(cur[t1] == prev[t1] && cur[t2] == prev[t2]);
            } else {
                assert(m@[k - 1] && t2 == prev.len() && cur[t2] == k as u8);
                assert(cur[t1] == prev[t1] && prev[t1] <= k - 1);
            }
        }
    }
}

impl SudokuCell {
    /// A digit 1..9 yields a solved cell; anything else yields an
    /// unsolved cell with all nine candidates open.
    pub fn new(val: u8) -> (c: SudokuCell)
        ensures
            digit_ok(val) ==> c == SudokuCell::Solved(val),
            !digit_ok(val) ==> c is Unsolved && mask_full(c->Unsolved_0),
            cell_wf(c),
    {
        if 1 <= val && val <= 9 {
            SudokuCell::Solved(val)
        } else {
            SudokuCell::Unsolved([true;9])
        }
    }

    /// The still-possible digits of an unsolved cell, in ascending
    /// order; a solved cell has no candidates to enumerate.
    pub fn candidates(&self) -> (r: Option<Vec<u8>>)
        ensures
            self is Solved ==> r is None,
            self is Unsolved ==> (r matches Some(v) && v@ == mask_digits(self->Unsolved_0)),
    {
        match self {
            SudokuCell::Solved(_) => None,
            SudokuCell::Unsolved(possible) => {
                let mut candx: Vec<u8> = Vec::new();
                let mut i: usize = 0;
                while i < 9
                    invariant
                        i <= 9,
                        possible == self->Unsolved_0,
                        candx@ == mask_digits_upto(*possible, i as int),
                    decreases 9 - i,
                {
                    if possible[i] {
                        candx.push((i + 1) as u8);
                    }
                    i = i + 1;
                }
                Some(candx)
            },
        }
    }
}

/// Whether the character is a given clue (a digit 1..9).
pub open spec fn is_clue_char(c: char) -> bool {
    49 <= c as u32 <= 57
}

/// The digit value of a clue character.
pub open spec fn char_digit(c: char) -> u8 {
    (c as u32 - 48) as u8
}

/// How one character of the flat input decodes into a cell.
pub open spec fn parsed_cell(c: char, cell: SudokuCell) -> bool {
    if is_clue_char(c) {
        cell == SudokuCell::Solved(char_digit(c))
    } else {
        cell is Unsolved && mask_full(cell->Unsolved_0)
    }
}

/// How the whole 81-character input decodes, position by position.
pub open spec fn parsed_grid(s: Seq<char>, g: Seq<SudokuCell>) -> bool {
    &&& s.len() == 81
    &&& g.len() == 81
    &&& forall|i: int| 0 <= i < 81 ==> parsed_cell(s[i], #[trigger] g[i])
}

/// How one cell renders: its digit for a solved cell, `'.'` for an
/// unsolved one.
pub open spec fn cell_char(cell: SudokuCell) -> char {
    match cell {
        SudokuCell::Solved(v) => (48 + v) as char,
        SudokuCell::Unsolved(_) => '.',
    }
}

/// The 81-cell board, row-major: the cell at column `x`, row `y`
/// (both 1..9) sits at index `(x-1) + (y-1)*9`.
#[derive(Copy, Clone, PartialEq, Eq, Debug)]
pub struct SudokuGrid {
    grid: [SudokuCell; 81],
}

impl View for SudokuGrid {
    type V = Seq<SudokuCell>;

    closed spec fn view(&self) -> Seq<SudokuCell> {
        self.grid@
    }
}

/// The row-major index of coordinate (x, y).
pub open spec fn pos_spec(x: u8, y: u8) -> int {
    (x - 1) + (y - 1) * 9
}

/// Every board's view has exactly 81 cells, however the board was
/// obtained.
pub proof fn lemma_grid_len(g: SudokuGrid)
    ensures
        g@.len() == 81,
{
}

impl SudokuGrid {
    /// An empty board: every cell unsolved with all nine candidates
    /// open.
    pub fn new() -> (g: SudokuGrid)
        ensures
            g@.len() == 81,
            forall|i: int|
                0 <= i < 81 ==> (#[trigger] g@[i]) is Unsolved && mask_full(g@[i]->Unsolved_0),
            grid_wf(g@),
    {
        SudokuGrid { grid: [SudokuCell::new(0);81] }
    }

    /// Row-major index of a coordinate pair; coordinates outside 1..9
    /// are a caller error.
    fn pos(x: u8, y: u8) -> (i: usize)
        requires
            1 <= x <= 9,
            1 <= y <= 9,
        ensures
            i == pos_spec(x, y),
            i < 81,
    {
        ((x - 1) as usize) + ((y - 1) as usize) * 9
    }

    /// The 3-wide coordinate span of the 3x3 box containing the given
    /// axis coordinate.
    pub fn box_range(coord: u8) -> (r: core::ops::Range<u8>)
        requires
            1 <= coord <= 9,
        ensures
            r.start == 1 + ((coord - 1) / 3) * 3,
            r.end == r.start + 3,
            1 <= r.start && r.end <= 10,
    {
        let low: u8 = 1 + ((coord - 1) / 3) * 3;
        low..low + 3
    }

    /// The cell at (x, y); coordinates outside 1..9 are a caller
    /// error.
    pub fn get_cell(&self, x: u8, y: u8) -> (c: &SudokuCell)
        requires
            1 <= x <= 9,
            1 <= y <= 9,
        ensures
            *c == self@[pos_spec(x, y)],
    {
        &self.grid[SudokuGrid::pos(x, y)]
    }

    /// Replaces the cell at (x, y); coordinates outside 1..9 are a
    /// caller error.
    pub fn set_cell(&mut self, x: u8, y: u8, cell: SudokuCell)
        requires
            1 <= x <= 9,
            1 <= y <= 9,
        ensures
            final(self)@ == old(self)@.update(pos_spec(x, y), cell),
    {
        let i: usize = SudokuGrid::pos(x, y);
        self.grid[i] = cell;
    }

    /// Decodes the flat 81-character form: digits 1..9 become solved
    /// cells, every other character an unsolved cell with all nine
    /// candidates open.
    pub fn from_string(cell_values: &str) -> (r: Result<SudokuGrid, Error>)
        ensures
            cell_values@.len() == 81 ==> (r matches Ok(g) && parsed_grid(cell_values@, g@)
                && grid_wf(g@)),
            cell_values@.len() != 81 ==> (r matches Err(e) && e@ == "Puzzle string must have 81 digits"@),
    {
        if cell_values.unicode_len() != 81 {
            Err(Error::new("Puzzle string must have 81 digits"))
        } else {
            let mut chars: [char; 81] = ['.';81];
            let mut i: usize = 0;
            while i < 81
                invariant
                    i <= 81,
                    cell_values@.len() == 81,
                    forall|k: int| 0 <= k < i ==> chars@[k] == cell_values@[k],
                decreases 81 - i,
            {
                chars[i] = cell_values.get_char(i);
                i = i + 1;
            }
            Ok(SudokuGrid::from_chars(&chars))
        }
    }

    /// Decodes 81 characters, one cell per character, row-major.
    pub fn from_chars(cell_values: &[char; 81]) -> (g: SudokuGrid)
        ensures
            parsed_grid(cell_values@, g@),
            grid_wf(g@),
    {
        let mut cells: [SudokuCell; 81] = [SudokuCell::new(0);81];
        let mut i: usize = 0;
        while i < 81
            invariant
                i <= 81,
                forall|k: int| 0 <= k < i ==> parsed_cell(cell_values@[k], #[trigger] cells@[k]),
                forall|k: int| 0 <= k < 81 ==> cell_wf(#[trigger] cells@[k]),
            decreases 81 - i,
        {
            let c = cell_values[i];
            let u = c as u32;
            let n: u8 = if 49 <= u && u <= 57 {
                (u - 48) as u8
            } else {
                0
            };
            let cnew = SudokuCell::new(n);
            cells[i] = cnew;
            proof {
                assert(is_clue_char(c) ==> n == char_digit(c));
                assert(parsed_cell(c, cnew));
            }
            i = i + 1;
        }
        SudokuGrid { grid: cells }
    }

    /// The cell at a flat row-major index, for the solver's scans.
    pub(crate) fn cell_at(&self, i: usize) -> (c: SudokuCell)
        requires
            i < 81,
        ensures
            c == self@[i as int],
    {
        self.grid[i]
    }

    /// Replaces the cell at a flat row-major index.
    pub(crate) fn set_at(&mut self, i: usize, c: SudokuCell)
        requires
            i < 81,
        ensures
            final(self)@ == old(self)@.update(i as int, c),
    {
        self.grid[i] = c;
    }

    /// Renders the board back to the flat 81-character form: solved
    /// cells as their digit, unsolved cells as `'.'`.
    pub fn render(&self) -> (r: String)
        requires
            grid_wf(self@),
        ensures
            r@.len() == 81,
            forall|i: int| 0 <= i < 81 ==> r@[i] == cell_char(#[trigger] self@[i]),
    {
        let mut out = String::new();
        let mut i: usize = 0;
        while i < 81
            invariant
                i <= 81,
                grid_wf(self@),
                out@.len() == i,
                forall|k: int| 0 <= k < i ==> out@[k] == cell_char(#[trigger] self@[k]),
            decreases 81 - i,
        {
            let ch: char = match self.grid[i] {
                SudokuCell::Solved(v) => (48 + v) as char,
                SudokuCell::Unsolved(_) => '.',
            };
            push_char(&mut out, ch);
            i = i + 1;
        }
        out
    }
}

/// Relies on String::push: appends exactly the given character at the
/// end of the string.
#[verifier::external_body]
fn push_char(s: &mut String, c: char)
    ensures
        final(s)@ == old(s)@.push(c),
{
    s.push(c);
}

/// A descriptive, recoverable error for malformed input.
#[derive(Debug)]
pub struct Error {
    details: String,
}

impl View for Error {
    type V = Seq<char>;

    closed spec fn view(&self) -> Seq<char> {
        self.details@
    }
}

impl Error {
    /// An error carrying the given message.
    pub fn new(msg: &str) -> (e: Error)
        ensures
            e@ == msg@,
    {
        Error { details: String::from_str(msg) }
    }

    /// The error's message.
    pub fn message(&self) -> (r: &str)
        ensures
            r@ == self@,
    {
        self.details.as_str()
    }
}

} // verus!
