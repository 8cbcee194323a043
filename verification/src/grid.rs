//! The grid itself: fixed-size tables and two stacks of pending moves, with
//! the propagation primitives that work on them.

use crate::board::{
    blk_group, clues_upto, col_group, drained_but, entry, group_cell, hits, hits_upto, in_grid,
    lowered, notation, occurrences, placed_upto, raised, row_group, tally, tally_upto, valid_move,
    Board, Move,
};
use crate::candidates::{
    cleared, contains, is_single, lemma_cleared, lemma_none_marked, lowest, marked, nine_bit,
    without,
};
use crate::error::SolveError;
use crate::propagation::{
    lemma_assignment_keeps_counts, lemma_blank_with, lemma_from_clues, lemma_groups, lemma_listed_is_counted,
    lemma_pair_slot, lemma_placed_step, lemma_raised_entries, lemma_removal_keeps_counts, lemma_tally_step,
};
use crate::soundness::lemma_more_assignments_are_sound;
use crate::text::{is_clue_text, is_decimal, trimmed};
use vstd::prelude::*;

verus! {

/// A Sudoku grid together with the solver's bookkeeping.
#[derive(Debug)]
pub struct Grid {
    /// Digit of each cell, zero if blank.
    cells: [[u8; 9]; 9],
    /// Bitmaps of possible digits per cell.
    maybe: [[u16; 9]; 9],
    /// Digit counts per row, indexed by rows then by digits.
    row_digit_counters: [[u8; 9]; 9],
    /// Digit counts per column, indexed by columns then by digits.
    col_digit_counters: [[u8; 9]; 9],
    /// Digit counts per block, indexed by blocks then by digits.
    blk_digit_counters: [[u8; 9]; 9],
    /// Stack of candidate removals still to apply.
    del_maybes: Vec<Move>,
    /// Stack of cell assignments still to apply.
    set_cells: Vec<Move>,
}

/// A table of small numbers as a sequence of sequences.
pub closed spec fn table(t: [[u8; 9]; 9]) -> Seq<Seq<int>> {
    Seq::new(9, |i: int| Seq::new(9, |k: int| t[i][k] as int))
}

/// A table of bitmaps as a sequence of sequences.
pub closed spec fn masks(t: [[u16; 9]; 9]) -> Seq<Seq<u16>> {
    Seq::new(9, |i: int| Seq::new(9, |k: int| t[i][k]))
}

impl View for Grid {
    type V = Board;

    closed spec fn view(&self) -> Board {
        Board {
            cells: table(self.cells),
            maybe: masks(self.maybe),
            row_counts: table(self.row_digit_counters),
            col_counts: table(self.col_digit_counters),
            blk_counts: table(self.blk_digit_counters),
            removals: self.del_maybes@,
            assignments: self.set_cells@,
        }
    }
}

/// A copy of a stack of moves.
fn copy_moves(v: &Vec<Move>) -> (r: Vec<Move>)
    ensures
        r@ == v@,
{
    let mut r: Vec<Move> = Vec::new();
    let mut i: usize = 0;
    while i < v.len()
        invariant
            i <= v.len(),
            r@ == v@.take(i as int),
        decreases v.len() - i,
    {
        r.push(v[i]);
        i += 1;
        assert(r@ =~= v@.take(i as int));
    }
    assert(v@.take(i as int) =~= v@);
    r
}

/// The `i`-th cell of group `g`, as `(x, y)`: rows are the groups 0 to 8,
/// columns 9 to 17, blocks 18 to 26.
pub fn cell_of_group(g: usize, i: usize) -> (r: (usize, usize))
    requires
        g < 27,
        i < 9,
    ensures
        (r.0 as int, r.1 as int) == group_cell(g as int, i as int),
        r.0 < 9,
        r.1 < 9,
{
    proof {
        reveal(group_cell);
    }
    if g < 9 {
        (i, g)
    } else if g < 18 {
        (g - 9, i)
    } else {
        let blk: usize = g - 18;
        let blk_y: usize = blk / 3 * 3;
        let blk_x: usize = (blk - blk_y) * 3;
        (blk_x + i % 3, blk_y + i / 3)
    }
}

/// Pushes onto `out` the move of `digit` at every cell of group `g` that
/// lists the digit, in the order of the group.
fn push_hits(maybe: &[[u16; 9]; 9], g: usize, digit: usize, out: &mut Vec<Move>)
    requires
        g < 27,
        1 <= digit <= 9,
    ensures
        final(out)@ == old(out)@ + hits(masks(*maybe), g as int, digit as int),
{
    let mut i: usize = 0;
    while i < 9
        invariant
            i <= 9,
            g < 27,
            1 <= digit <= 9,
            out@ == old(out)@ + hits_upto(masks(*maybe), g as int, digit as int, i as int),
        decreases 9 - i,
    {
        let (x, y) = cell_of_group(g, i);
        if contains(maybe[x][y], digit) {
            out.push((digit, (x, y)));
        }
        i += 1;
        assert(out@ =~= old(out)@ + hits_upto(masks(*maybe), g as int, digit as int, i as int));
    }
}

/// Whether every bitmap of the table is empty.
fn no_masks(t: &[[u16; 9]; 9]) -> (r: bool)
    ensures
        r == forall|i: int, k: int| in_grid(i, k) ==> (#[trigger] masks(*t)[i][k]) == 0,
{
    let mut i: usize = 0;
    while i < 9
        invariant
            i <= 9,
            forall|a: int, k: int| 0 <= a < i && 0 <= k < 9 ==> (#[trigger] masks(*t)[a][k]) == 0,
        decreases 9 - i,
    {
        let mut k: usize = 0;
        while k < 9
            invariant
                i < 9,
                k <= 9,
                forall|a: int, k: int|
                    0 <= a < i && 0 <= k < 9 ==> (#[trigger] masks(*t)[a][k]) == 0,
                forall|b: int| 0 <= b < k ==> (#[trigger] masks(*t)[i as int][b]) == 0,
            decreases 9 - k,
        {
            if t[i][k] != 0 {
                assert(masks(*t)[i as int][k as int] != 0);
                return false;
            }
            k += 1;
        }
        i += 1;
    }
    true
}

/// Whether every entry of the table is `v`.
fn table_is(t: &[[u8; 9]; 9], v: u8) -> (r: bool)
    ensures
        r == forall|i: int, k: int| in_grid(i, k) ==> (#[trigger] table(*t)[i][k]) == v,
{
    let mut i: usize = 0;
    while i < 9
        invariant
            i <= 9,
            forall|a: int, k: int| 0 <= a < i && 0 <= k < 9 ==> (#[trigger] table(*t)[a][k]) == v,
        decreases 9 - i,
    {
        let mut k: usize = 0;
        while k < 9
            invariant
                i < 9,
                k <= 9,
                forall|a: int, k: int|
                    0 <= a < i && 0 <= k < 9 ==> (#[trigger] table(*t)[a][k]) == v,
                forall|b: int| 0 <= b < k ==> (#[trigger] table(*t)[i as int][b]) == v,
            decreases 9 - k,
        {
            if t[i][k] != v {
                assert(table(*t)[i as int][k as int] != v);
                return false;
            }
            k += 1;
        }
        i += 1;
    }
    true
}

impl Default for Grid {
    /// Returns an empty grid.
    fn default() -> (r: Self)
        ensures
            r@ == Board::blank(),
            r@.wf(),
            r@.consistent(),
    {
        let blanks: [u8; 9] = [0u8; 9];
        let every: [u16; 9] = [0x1ffu16; 9];
        let nines: [u8; 9] = [9u8; 9];
        let r = Self {
            cells: [blanks; 9],
            maybe: [every; 9],
            row_digit_counters: [nines; 9],
            col_digit_counters: [nines; 9],
            blk_digit_counters: [nines; 9],
            del_maybes: Vec::new(),
            set_cells: Vec::new(),
        };
        proof {
            let b = Board::blank();
            assert forall|i: int, k: int| in_grid(i, k) implies r.cells[i][k] == 0 && r.maybe[i][k]
                == 0x1ff && r.row_digit_counters[i][k] == 9 && r.col_digit_counters[i][k] == 9
                && r.blk_digit_counters[i][k] == 9 by {
                assert(r.cells[i] == blanks && blanks[k] == 0);
                assert(r.maybe[i] == every && every[k] == 0x1ff);
                assert(r.row_digit_counters[i] == nines && nines[k] == 9);
                assert(r.col_digit_counters[i] == nines);
                assert(r.blk_digit_counters[i] == nines);
            }
            assert(r@.cells =~~= b.cells);
            assert(r@.maybe =~~= b.maybe);
            assert(r@.row_counts =~~= b.row_counts);
            assert(r@.col_counts =~~= b.col_counts);
            assert(r@.blk_counts =~~= b.blk_counts);
            assert(r@.removals =~= b.removals);
            assert(r@.assignments =~= b.assignments);
            lemma_blank_with(Seq::empty());
            assert(b == (Board { assignments: Seq::empty(), ..Board::blank() }));
        }
        r
    }
}

impl Clone for Grid {
    /// A full copy of the grid, tables and stacks alike.
    fn clone(&self) -> (r: Self)
        ensures
            r@ == self@,
    {
        Self {
            cells: self.cells,
            maybe: self.maybe,
            row_digit_counters: self.row_digit_counters,
            col_digit_counters: self.col_digit_counters,
            blk_digit_counters: self.blk_digit_counters,
            del_maybes: copy_moves(&self.del_maybes),
            set_cells: copy_moves(&self.set_cells),
        }
    }
}

impl Grid {
    /// Parses a grid in notation: 81 decimal digits, row by row, `0` for a
    /// blank, with white space allowed around them. Each clue is queued as
    /// an assignment on a blank grid.
    pub fn from_str(str: String) -> (r: Self)
        requires
            is_clue_text(trimmed(str@)),
        ensures
            r@ == Board::from_clues(trimmed(str@)),
            r@.wf(),
            r@.consistent(),
    {
        let text = str.as_str().trim();
        let mut grid = Grid::default();
        let mut i: usize = 0;
        for c in it: text.chars()
            invariant
                i == it.index(),
                it.seq() == text@,
                is_clue_text(text@),
                grid@ == (Board { assignments: clues_upto(text@, i as int), ..Board::blank() }),
        {
            assert(is_decimal(text@[i as int]));
            let digit: u32 = c.to_digit(10).expect("Unexpected character in grid string.");
            if digit != 0 {
                let y: usize = i / 9;
                let x: usize = i - y * 9;
                grid.set_cells.push((digit as usize, (x, y)));
            }
            i += 1;
        }
        proof {
            lemma_from_clues(text@);
        }
        grid
    }

    /// Parses a grid in notation where the text is one, and returns `None`
    /// where it is not: where it does not hold exactly 81 characters between
    /// its surrounding white space, or where one of them is no decimal digit.
    pub fn try_from_str(str: String) -> (r: Option<Self>)
        ensures
            r is Some <==> is_clue_text(trimmed(str@)),
            r matches Some(grid) ==> grid@ == Board::from_clues(trimmed(str@)) && grid@.wf()
                && grid@.consistent(),
    {
        let text = str.as_str().trim();
        let mut n: usize = 0;
        for c in it: text.chars()
            invariant
                n == it.index(),
                it.seq() == text@,
                text@ == trimmed(str@),
                n <= 81,
                forall|i: int| 0 <= i < n ==> is_decimal(#[trigger] text@[i]),
        {
            assert(n < it.seq().len() && c == it.seq()[n as int]);
            if n >= 81 {
                return None;
            }
            if c.to_digit(10).is_none() {
                assert(!is_decimal(text@[n as int]));
                return None;
            }
            n += 1;
        }
        if n != 81 {
            return None;
        }
        Some(Grid::from_str(str))
    }

    /// Serialize grid into an 81-character string of ASCII digits from 0 to 9.
    pub fn to_str(&self) -> (r: String)
        requires
            self@.wf(),
        ensures
            r@ == notation(self@.cells),
    {
        let mut str = String::with_capacity(81);
        let mut y: usize = 0;
        while y < 9
            invariant
                y <= 9,
                self@.wf(),
                str@ == notation(self@.cells).take(y * 9),
            decreases 9 - y,
        {
            let mut x: usize = 0;
            while x < 9
                invariant
                    y < 9,
                    x <= 9,
                    self@.wf(),
                    str@ == notation(self@.cells).take(y * 9 + x),
                decreases 9 - x,
            {
                assert(self@.cells[x as int][y as int] == self.cells[x as int][y as int]);
                str.push(
                    char::from_digit(self.cells[x][y] as u32, 10).expect(
                        "grid contains invalid cell?",
                    ),
                );
                x += 1;
                assert(str@ =~= notation(self@.cells).take(y * 9 + x));
            }
            y += 1;
        }
        assert(notation(self@.cells).take(81) =~= notation(self@.cells));
        str
    }

    /// Check whether the grid is in a valid solved state or not: every cell
    /// filled, each digit exactly once in every row, column and block, and
    /// the candidates and counters all at zero.
    pub fn verify_solution(&self) -> (r: bool)
        requires
            self@.wf(),
        ensures
            r == self@.solved(),
    {
        // Check for exhaustion of maybes/available blocks
        if !no_masks(&self.maybe) || !table_is(&self.row_digit_counters, 0) || !table_is(
            &self.col_digit_counters,
            0,
        ) || !table_is(&self.blk_digit_counters, 0) {
            proof {
                if self@.solved() {
                    assert forall|i: int, k: int| in_grid(i, k) implies (#[trigger] masks(
                        self.maybe,
                    )[i][k]) == 0 by {
                        assert(self@.maybe[i][k] == 0);
                    }
                    assert forall|i: int, k: int| in_grid(i, k) implies (#[trigger] table(
                        self.row_digit_counters,
                    )[i][k]) == 0 by {
                        assert(self@.counter(i, k + 1) == 0);
                    }
                    assert forall|i: int, k: int| in_grid(i, k) implies (#[trigger] table(
                        self.col_digit_counters,
                    )[i][k]) == 0 by {
                        assert(self@.counter(9 + i, k + 1) == 0);
                    }
                    assert forall|i: int, k: int| in_grid(i, k) implies (#[trigger] table(
                        self.blk_digit_counters,
                    )[i][k]) == 0 by {
                        assert(self@.counter(18 + i, k + 1) == 0);
                    }
                }
            }
            return false;
        }
        // Ensure there is one of each digit in every row, column, and block

        let zeros: [u8; 9] = [0u8; 9];
        let mut row_digit_counters: [[u8; 9]; 9] = [zeros; 9];
        let mut col_digit_counters: [[u8; 9]; 9] = [zeros; 9];
        let mut blk_digit_counters: [[u8; 9]; 9] = [zeros; 9];
        let ghost cells = self@.cells;
        proof {
            assert forall|i: int, k: int| in_grid(i, k) implies row_digit_counters[i][k] == 0 by {
                assert(row_digit_counters[i] == zeros && zeros[k] == 0);
            }
            assert forall|i: int, k: int| in_grid(i, k) implies col_digit_counters[i][k] == 0 by {
                assert(col_digit_counters[i] == zeros && zeros[k] == 0);
            }
            assert forall|i: int, k: int| in_grid(i, k) implies blk_digit_counters[i][k] == 0 by {
                assert(blk_digit_counters[i] == zeros && zeros[k] == 0);
            }
            assert forall|g: int, d: int| 0 <= g < 27 && 1 <= d <= 9 implies #[trigger] entry(
                table(row_digit_counters),
                table(col_digit_counters),
                table(blk_digit_counters),
                g,
                d,
            ) == placed_upto(cells, g, d, 0) by {
                lemma_placed_step(cells, 0, 0, g, d);
            }
        }
        let mut y: usize = 0;
        while y < 9
            invariant
                y <= 9,
                self@.wf(),
                cells == self@.cells,
                forall|g: int, d: int|
                    0 <= g < 27 && 1 <= d <= 9 ==> #[trigger] entry(
                        table(row_digit_counters),
                        table(col_digit_counters),
                        table(blk_digit_counters),
                        g,
                        d,
                    ) == placed_upto(cells, g, d, y * 9),
                forall|u: int, v: int| in_grid(u, v) && v < y ==> #[trigger] cells[u][v] != 0,
            decreases 9 - y,
        {
            let mut x: usize = 0;
            while x < 9
                invariant
                    y < 9,
                    x <= 9,
                    self@.wf(),
                    cells == self@.cells,
                    forall|g: int, d: int|
                        0 <= g < 27 && 1 <= d <= 9 ==> #[trigger] entry(
                            table(row_digit_counters),
                            table(col_digit_counters),
                            table(blk_digit_counters),
                            g,
                            d,
                        ) == placed_upto(cells, g, d, y * 9 + x),
                    forall|u: int, v: int|
                        in_grid(u, v) && (v < y || (v == y && u < x)) ==> #[trigger] cells[u][v]
                            != 0,
                decreases 9 - x,
            {
                let c: u8 = self.cells[x][y];
                assert(cells[x as int][y as int] == c);
                if c == 0 {
                    return false;
                }
                let k: usize = c as usize - 1;
                let ghost rows = table(row_digit_counters);
                let ghost cols = table(col_digit_counters);
                let ghost blks = table(blk_digit_counters);
                proof {
                    lemma_groups(0, x as int, y as int);
                    lemma_placed_step(cells, x as int, y as int, y as int, c as int);
                    lemma_placed_step(cells, x as int, y as int, 9 + x, c as int);
                    lemma_placed_step(cells, x as int, y as int, 18 + x / 3 + y / 3 * 3, c as int);
                    assert(entry(rows, cols, blks, y as int, c as int) == rows[y as int][k as int]);
                    assert(entry(rows, cols, blks, 9 + x, c as int) == cols[x as int][k as int]);
                    assert(entry(rows, cols, blks, 18 + x / 3 + y / 3 * 3, c as int)
                        == blks[x / 3 + y / 3 * 3][k as int]);
                }
                row_digit_counters[y][k] += 1;
                col_digit_counters[x][k] += 1;
                blk_digit_counters[x / 3 + y / 3 * 3][k] += 1;
                proof {
                    assert(table(row_digit_counters) =~~= raised(rows, y as int, k as int));
                    assert(table(col_digit_counters) =~~= raised(cols, x as int, k as int));
                    assert(table(blk_digit_counters) =~~= raised(
                        blks,
                        x / 3 + y / 3 * 3,
                        k as int,
                    ));
                    assert forall|g: int, d: int| 0 <= g < 27 && 1 <= d <= 9 implies #[trigger] entry(
                        table(row_digit_counters),
                        table(col_digit_counters),
                        table(blk_digit_counters),
                        g,
                        d,
                    ) == placed_upto(cells, g, d, y * 9 + x + 1) by {
                        lemma_placed_step(cells, x as int, y as int, g, d);
                        lemma_raised_entries(rows, cols, blks, c as int, x as int, y as int, g, d);
                        assert(entry(rows, cols, blks, g, d) == placed_upto(cells, g, d, y * 9 + x));
                    }
                }
                x += 1;
            }
            y += 1;
        }
        let r = table_is(&row_digit_counters, 1) && table_is(&col_digit_counters, 1) && table_is(
            &blk_digit_counters,
            1,
        );
        proof {
            let rows = table(row_digit_counters);
            let cols = table(col_digit_counters);
            let blks = table(blk_digit_counters);
            assert forall|g: int, d: int| 0 <= g < 27 && 1 <= d <= 9 implies #[trigger] self@.counter(
                g,
                d,
            ) == 0 by {
                if g < 9 {
                    assert(table(self.row_digit_counters)[g][d - 1] == 0);
                } else if g < 18 {
                    assert(table(self.col_digit_counters)[g - 9][d - 1] == 0);
                } else {
                    assert(table(self.blk_digit_counters)[g - 18][d - 1] == 0);
                }
            }
            assert forall|u: int, v: int| in_grid(u, v) implies 1 <= #[trigger] self@.cells[u][v]
                <= 9 by {
                assert(cells[u][v] != 0);
            }
            if r {
                assert forall|g: int, d: int| 0 <= g < 27 && 1 <= d <= 9 implies #[trigger] occurrences(
                    cells,
                    g,
                    d,
                ) == 1 by {
                    assert(entry(rows, cols, blks, g, d) == placed_upto(cells, g, d, 81));
                    if g < 9 {
                        assert(rows[g][d - 1] == 1);
                    } else if g < 18 {
                        assert(cols[g - 9][d - 1] == 1);
                    } else {
                        assert(blks[g - 18][d - 1] == 1);
                    }
                }
            }
            if self@.solved() {
                assert forall|i: int, k: int| in_grid(i, k) implies (#[trigger] rows[i][k]) == 1 by {
                    assert(occurrences(cells, i, k + 1) == 1);
                    assert(entry(rows, cols, blks, i, k + 1) == placed_upto(cells, i, k + 1, 81));
                }
                assert forall|i: int, k: int| in_grid(i, k) implies (#[trigger] cols[i][k]) == 1 by {
                    assert(occurrences(cells, 9 + i, k + 1) == 1);
                    assert(entry(rows, cols, blks, 9 + i, k + 1) == placed_upto(
                        cells,
                        9 + i,
                        k + 1,
                        81,
                    ));
                }
                assert forall|i: int, k: int| in_grid(i, k) implies (#[trigger] blks[i][k]) == 1 by {
                    assert(occurrences(cells, 18 + i, k + 1) == 1);
                    assert(entry(rows, cols, blks, 18 + i, k + 1) == placed_upto(
                        cells,
                        18 + i,
                        k + 1,
                        81,
                    ));
                }
            }
        }
        r
    }

    /// The digit of the cell in column `x` and row `y`, zero for a blank.
    pub fn cell(&self, x: usize, y: usize) -> (r: u8)
        requires
            x < 9,
            y < 9,
        ensures
            r == self@.cells[x as int][y as int],
    {
        self.cells[x][y]
    }

    /// The candidate bitmap of the cell in column `x` and row `y`.
    pub fn candidates(&self, x: usize, y: usize) -> (r: u16)
        requires
            x < 9,
            y < 9,
        ensures
            r == self@.maybe[x as int][y as int],
    {
        self.maybe[x][y]
    }

    /// The counter for `digit` in group `g`: rows are the groups 0 to 8,
    /// columns 9 to 17, blocks 18 to 26.
    pub fn counter(&self, g: usize, digit: usize) -> (r: u8)
        requires
            g < 27,
            1 <= digit <= 9,
        ensures
            r == self@.counter(g as int, digit as int),
    {
        self.counter_at(g, digit - 1)
    }

    /// How many candidate removals are waiting.
    pub fn pending_removals(&self) -> (r: usize)
        ensures
            r == self@.removals.len(),
    {
        self.del_maybes.len()
    }

    /// How many assignments are waiting.
    pub fn pending_assignments(&self) -> (r: usize)
        ensures
            r == self@.assignments.len(),
    {
        self.set_cells.len()
    }

    /// Takes the newest candidate removal off its stack.
    pub fn pop_removal(&mut self) -> (r: Option<Move>)
        ensures
            match r {
                Some(m) => old(self)@.removals.len() > 0 && m == old(self)@.removals.last()
                    && final(self)@ == old(self)@.without_last_removal(),
                None => old(self)@.removals.len() == 0 && final(self)@ == old(self)@,
            },
    {
        self.del_maybes.pop()
    }

    /// Takes the newest assignment off its stack.
    pub fn pop_assignment(&mut self) -> (r: Option<Move>)
        ensures
            match r {
                Some(m) => old(self)@.assignments.len() > 0 && m == old(self)@.assignments.last()
                    && final(self)@ == old(self)@.without_last_assignment(),
                None => old(self)@.assignments.len() == 0 && final(self)@ == old(self)@,
            },
    {
        self.set_cells.pop()
    }

    /// Puts an assignment of `digit` at the cell `index` on the stack. A
    /// grid in shape stays so, and sound bookkeeping stays sound.
    pub fn push_assignment(&mut self, digit: usize, index: (usize, usize))
        requires
            valid_move((digit, index)),
        ensures
            final(self)@ == old(self)@.with_assignment((digit, index)),
            old(self)@.wf() ==> final(self)@.wf(),
            old(self)@.wf() && old(self)@.consistent() ==> final(self)@.consistent(),
    {
        self.set_cells.push((digit, index));
        proof {
            if old(self)@.wf() {
                assert forall|i: int| 0 <= i < self@.assignments.len() implies valid_move(
                    #[trigger] self@.assignments[i],
                ) by {
                    if i < old(self)@.assignments.len() {
                        assert(self@.assignments[i] == old(self)@.assignments[i]);
                    }
                }
                assert(self@.removals == old(self)@.removals);
                assert(self@.wf());
                if old(self)@.consistent() {
                    lemma_more_assignments_are_sound(old(self)@, self@);
                }
            }
        }
    }

    /// Whether no cell lists a candidate any more.
    pub fn is_exhausted(&self) -> (r: bool)
        ensures
            r == self@.exhausted(),
    {
        proof {
            if self@.exhausted() {
                assert forall|i: int, k: int| in_grid(i, k) implies (#[trigger] masks(
                    self.maybe,
                )[i][k]) == 0 by {
                    assert(self@.maybe[i][k] == 0);
                }
            }
        }
        no_masks(&self.maybe)
    }

    /// Decrement the row, column, and block counters according to the digit.
    fn update_counters(&mut self, digit: usize, index: (usize, usize))
        requires
            valid_move((digit, index)),
            old(self)@.counter(row_group(index.0 as int, index.1 as int), digit as int) > 0,
            old(self)@.counter(col_group(index.0 as int, index.1 as int), digit as int) > 0,
            old(self)@.counter(blk_group(index.0 as int, index.1 as int), digit as int) > 0,
        ensures
            final(self)@ == (Board {
                row_counts: lowered(old(self)@.row_counts, index.1 as int, digit - 1),
                col_counts: lowered(old(self)@.col_counts, index.0 as int, digit - 1),
                blk_counts: lowered(
                    old(self)@.blk_counts,
                    index.0 as int / 3 + index.1 as int / 3 * 3,
                    digit - 1,
                ),
                ..old(self)@
            }),
    {
        self.row_digit_counters[index.1][digit - 1] -= 1;
        self.col_digit_counters[index.0][digit - 1] -= 1;
        self.blk_digit_counters[index.0 / 3 + index.1 / 3 * 3][digit - 1] -= 1;
        assert(self@.row_counts =~~= lowered(old(self)@.row_counts, index.1 as int, digit - 1));
        assert(self@.col_counts =~~= lowered(old(self)@.col_counts, index.0 as int, digit - 1));
        assert(self@.blk_counts =~~= lowered(
            old(self)@.blk_counts,
            index.0 as int / 3 + index.1 as int / 3 * 3,
            digit - 1,
        ));
    }

    /// Strikes `digit` from the candidates of the cell at `index`.
    ///
    /// Where the cell does not list the digit nothing happens. Otherwise the
    /// digit goes, the counters follow, and a cell left with one candidate
    /// has it queued as an assignment. This never fails.
    pub fn del_maybe(&mut self, digit: usize, index: (usize, usize)) -> (r: Result<(), SolveError>)
        requires
            old(self)@.wf(),
            old(self)@.counts_match(),
            valid_move((digit, index)),
        ensures
            r is Ok,
            final(self)@ == old(self)@.after_removal(digit as int, index.0 as int, index.1 as int),
            final(self)@.wf(),
            final(self)@.counts_match(),
    {
        let ghost x = index.0 as int;
        let ghost y = index.1 as int;
        proof {
            lemma_removal_keeps_counts(self@, digit as int, x, y);
        }
        // If already unmaybed, return early
        let mask: u16 = self.maybe[index.0][index.1];
        if !contains(mask, digit) {
            return Ok(());
        }
        proof {
            assert(self@.maybe[x][y] == mask);
            lemma_cleared(mask, digit as int);
            lemma_none_marked(cleared(mask, digit as int));
            lemma_groups(row_group(x, y), x, y);
            lemma_groups(col_group(x, y), x, y);
            lemma_groups(blk_group(x, y), x, y);
            lemma_listed_is_counted(self@, digit as int, x, y, row_group(x, y));
            lemma_listed_is_counted(self@, digit as int, x, y, col_group(x, y));
            lemma_listed_is_counted(self@, digit as int, x, y, blk_group(x, y));
        }
        // Delete maybe
        let rest: u16 = without(mask, digit);
        self.maybe[index.0][index.1] = rest;

        // If there is only one remaining digit that may be set, set the cell.
        if is_single(rest) {
            self.set_cells.push((lowest(rest), index));
        }
        self.update_counters(digit, index);
        assert(self@.maybe =~~= old(self)@.maybe.update(x, old(self)@.maybe[x].update(y, rest)));
        Ok(())
    }

    /// Assigns `digit` to the cell at `index`.
    ///
    /// A cell that holds the digit already is left alone. A cell that holds
    /// another digit, or a blank one that no longer lists the digit, is a
    /// contradiction, and the grid is returned untouched. Otherwise a
    /// removal is queued for every cell of the row, the column and the block
    /// that lists the digit, the cell takes the digit, and its remaining
    /// candidates are settled against the counters.
    pub fn set_cell(&mut self, digit: usize, index: (usize, usize)) -> (r: Result<(), SolveError>)
        requires
            old(self)@.wf(),
            old(self)@.counts_match(),
            valid_move((digit, index)),
        ensures
            old(self)@.refuses(digit as int, index.0 as int, index.1 as int) ==> {
                &&& r == Err::<(), SolveError>(SolveError::Contradiction)
                &&& final(self)@ == old(self)@
            },
            !old(self)@.refuses(digit as int, index.0 as int, index.1 as int) ==> {
                &&& r is Ok
                &&& final(self)@ == old(self)@.after_assignment(
                    digit as int,
                    index.0 as int,
                    index.1 as int,
                )
            },
            final(self)@.wf(),
            final(self)@.counts_match(),
    {
        let ghost x = index.0 as int;
        let ghost y = index.1 as int;
        let ghost b = x / 3 + y / 3 * 3;
        let ghost start = self@;
        // Repeat check: check if already set
        if self.cells[index.0][index.1] != 0 {
            return if self.cells[index.0][index.1] != digit as u8 {
                Err(SolveError::Contradiction)  // Already set to something different.
            } else {
                Ok(())  // Already set to the correct value, no action necessary.
            };
        }
        // Contradiction check: the cell must still list the digit.

        let mask: u16 = self.maybe[index.0][index.1];
        if !contains(mask, digit) {
            return Err(SolveError::Contradiction);
        }
        proof {
            assert(start.maybe[x][y] == mask);
            lemma_assignment_keeps_counts(start, digit as int, x, y);
            lemma_groups(0, x, y);
        }
        // Remove maybes for each cell in row, column and block

        push_hits(&self.maybe, index.1, digit, &mut self.del_maybes);
        push_hits(&self.maybe, 9 + index.0, digit, &mut self.del_maybes);
        push_hits(&self.maybe, 18 + index.0 / 3 + index.1 / 3 * 3, digit, &mut self.del_maybes);

        // Set cell
        self.cells[index.0][index.1] = digit as u8;

        // Erase maybes
        let mut maybes: u16 = mask;
        proof {
            assert(self@.row_counts =~~= drained_but(start.row_counts, y, mask, maybes));
            assert(self@.col_counts =~~= drained_but(start.col_counts, x, mask, maybes));
            assert(self@.blk_counts =~~= drained_but(start.blk_counts, b, mask, maybes));
            assert(self@.cells =~~= start.cells.update(x, start.cells[x].update(y, digit as int)));
        }
        while maybes != 0
            invariant
                valid_move((digit, index)),
                x == index.0,
                y == index.1,
                b == x / 3 + y / 3 * 3,
                start.wf(),
                start.counts_match(),
                start.maybe[x][y] == mask,
                nine_bit(maybes),
                forall|e: int| marked(maybes, e) ==> marked(mask, e),
                self@.maybe == start.maybe,
                self@.row_counts == drained_but(start.row_counts, y, mask, maybes),
                self@.col_counts == drained_but(start.col_counts, x, mask, maybes),
                self@.blk_counts == drained_but(start.blk_counts, b, mask, maybes),
                self@.cells == start.cells.update(x, start.cells[x].update(y, digit as int)),
                self@.assignments == start.assignments,
                self@.removals == start.after_assignment(digit as int, x, y).removals,
            decreases maybes,
        {
            let d: usize = lowest(maybes);
            proof {
                lemma_cleared(maybes, d as int);
                lemma_groups(row_group(x, y), x, y);
                lemma_groups(col_group(x, y), x, y);
                lemma_groups(blk_group(x, y), x, y);
                lemma_listed_is_counted(start, d as int, x, y, row_group(x, y));
                lemma_listed_is_counted(start, d as int, x, y, col_group(x, y));
                lemma_listed_is_counted(start, d as int, x, y, blk_group(x, y));
            }
            let ghost before = self@;
            self.update_counters(d, index);
            maybes = without(maybes, d);
            proof {
                assert(self@.row_counts =~~= drained_but(start.row_counts, y, mask, maybes));
                assert(self@.col_counts =~~= drained_but(start.col_counts, x, mask, maybes));
                assert(self@.blk_counts =~~= drained_but(start.blk_counts, b, mask, maybes));
            }
        }
        self.maybe[index.0][index.1] = 0;
        proof {
            lemma_none_marked(0u16);
            let t = start.after_assignment(digit as int, x, y);
            assert(self@.maybe =~~= t.maybe);
            assert(self@.row_counts =~~= t.row_counts);
            assert(self@.col_counts =~~= t.col_counts);
            assert(self@.blk_counts =~~= t.blk_counts);
        }
        Ok(())
    }

    /// The counter for group `g` and the digit `di + 1`.
    fn counter_at(&self, g: usize, di: usize) -> (r: u8)
        requires
            g < 27,
            di < 9,
        ensures
            r as int == self@.counter(g as int, di + 1),
    {
        if g < 9 {
            self.row_digit_counters[g][di]
        } else if g < 18 {
            self.col_digit_counters[g - 9][di]
        } else {
            self.blk_digit_counters[g - 18][di]
        }
    }

    /// Queues an assignment for every hidden single: wherever the counter of
    /// a group and a digit stands at one, for the cells of the group that
    /// list the digit. Rows are scanned first, then columns, then blocks.
    pub fn find_hidden_singles(&mut self)
        ensures
            final(self)@ == old(self)@.with_hidden_singles(),
    {
        let mut g: usize = 0;
        while g < 27
            invariant
                g <= 27,
                self@ == (Board {
                    assignments: old(self)@.assignments + old(self)@.singles_upto(g * 9),
                    ..old(self)@
                }),
            decreases 27 - g,
        {
            let mut di: usize = 0;
            while di < 9
                invariant
                    g < 27,
                    di <= 9,
                    self@ == (Board {
                        assignments: old(self)@.assignments + old(self)@.singles_upto(g * 9 + di),
                        ..old(self)@
                    }),
                decreases 9 - di,
            {
                let ghost t = g * 9 + di + 1;
                assert((t - 1) / 9 == g && (t - 1) % 9 == di);
                if self.counter_at(g, di) == 1 {
                    // hidden single located, find and set
                    push_hits(&self.maybe, g, di + 1, &mut self.set_cells);
                }
                di += 1;
                assert(self@.assignments =~= old(self)@.assignments + old(self)@.singles_upto(
                    g * 9 + di,
                ));
            }
            g += 1;
        }
    }

    /// Searches the grid for a digit with exactly two places left in some
    /// group and returns it with the two cells, as `(digit, [(x, y); 2])`.
    ///
    /// Rows are scanned first, then columns, then blocks, each digit by
    /// digit; the first counter that stands at two decides. `None` says that
    /// no counter stands at two.
    pub fn find_maybe_pair(&self) -> (r: Option<(usize, [(usize, usize); 2])>)
        requires
            self@.wf(),
            self@.counts_match(),
        ensures
            match r {
                None => self@.pair_slot() == 243,
                Some((digit, cells)) => {
                    &&& self@.pair_slot() < 243
                    &&& self@.first_pair() == ((digit, cells[0]), (digit, cells[1]))
                },
            },
    {
        let mut g: usize = 0;
        while g < 27
            invariant
                g <= 27,
                self@.wf(),
                self@.counts_match(),
                self@.no_pair_before(g * 9),
            decreases 27 - g,
        {
            let mut di: usize = 0;
            while di < 9
                invariant
                    g < 27,
                    di <= 9,
                    self@.wf(),
                    self@.counts_match(),
                    self@.no_pair_before(g * 9 + di),
                decreases 9 - di,
            {
                let ghost t = g * 9 + di;
                assert(t / 9 == g && t % 9 == di);
                if self.counter_at(g, di) == 2 {
                    // pair of digit has been found in the group; locate the cells
                    let mut cell_index: usize = 0;
                    let mut cells: [(usize, usize); 2] = [(usize::MAX, usize::MAX); 2];
                    let mut i: usize = 0;
                    proof {
                        assert(self@.counter(g as int, di + 1) == tally(self@.maybe, g as int, di + 1));
                        lemma_tally_step(self@.maybe, g as int, di + 1, 0);
                    }
                    while i < 9
                        invariant
                            g < 27,
                            di < 9,
                            i <= 9,
                            tally(self@.maybe, g as int, di + 1) == 2,
                            cell_index == tally_upto(self@.maybe, g as int, di + 1, i as int),
                            cell_index == hits_upto(self@.maybe, g as int, di + 1, i as int).len(),
                            forall|j: int|
                                0 <= j < cell_index ==> hits_upto(
                                    self@.maybe,
                                    g as int,
                                    di + 1,
                                    i as int,
                                )[j] == ((di + 1) as usize, #[trigger] cells[j]),
                        decreases 9 - i,
                    {
                        proof {
                            lemma_tally_step(self@.maybe, g as int, di + 1, i as int);
                            lemma_tally_step(self@.maybe, g as int, di + 1, i + 1);
                        }
                        let (x, y) = cell_of_group(g, i);
                        assert(self@.maybe[x as int][y as int] == self.maybe[x as int][y as int]);
                        if contains(self.maybe[x][y], di + 1) {
                            cells[cell_index] = (x, y);
                            cell_index += 1;
                        }
                        i += 1;
                    }
                    proof {
                        lemma_tally_step(self@.maybe, g as int, di + 1, 9);
                        assert(hits(self@.maybe, t / 9, t % 9 + 1) =~= seq![
                            ((di + 1) as usize, cells[0]),
                            ((di + 1) as usize, cells[1]),
                        ]);
                        lemma_pair_slot(self@, 0, t);
                    }
                    return Some((di + 1, cells));
                }
                di += 1;
                assert forall|s: int| 0 <= s < g * 9 + di implies #[trigger] self@.counter(
                    s / 9,
                    s % 9 + 1,
                ) != 2 by {
                    if s < t {
                        assert(self@.no_pair_before(t));
                    }
                }
            }
            g += 1;
        }
        proof {
            lemma_pair_slot(self@, 0, 243);
        }
        None
    }
}

} // verus!
