//! The state of a grid as plain mathematics: the cells, the candidate bitmaps,
//! the three counter tables and the two work queues, together with the
//! propagation steps as functions from state to state.

use crate::candidates::{cleared, count, least, marked, nine_bit, unit};
use crate::text::{decimal, digit_char};
use vstd::prelude::*;

verus! {

/// A queued move: a digit and the cell `(x, y)` that it concerns.
pub type Move = (usize, (usize, usize));

/// A nine by nine table.
pub open spec fn square<T>(t: Seq<Seq<T>>) -> bool {
    t.len() == 9 && forall|i: int| 0 <= i < 9 ==> (#[trigger] t[i]).len() == 9
}

/// Column `x` and row `y` name a cell.
pub open spec fn in_grid(x: int, y: int) -> bool {
    0 <= x < 9 && 0 <= y < 9
}

/// A move names a digit from 1 to 9 and a cell of the grid.
pub open spec fn valid_move(m: Move) -> bool {
    1 <= m.0 <= 9 && m.1.0 < 9 && m.1.1 < 9
}

/// The move of `digit` at column `x`, row `y`.
pub open spec fn move_of(digit: int, x: int, y: int) -> Move {
    (digit as usize, (x as usize, y as usize))
}

/// The twenty-seven groups are numbered: rows 0 to 8 by `y`, columns 9 to 17
/// by `x`, blocks 18 to 26 left to right and top to bottom. This is the
/// `i`-th cell of group `g`, as `(x, y)`.
#[verifier::opaque]
pub open spec fn group_cell(g: int, i: int) -> (int, int) {
    if g < 9 {
        (i, g)
    } else if g < 18 {
        (g - 9, i)
    } else {
        ((g - 18) % 3 * 3 + i % 3, (g - 18) / 3 * 3 + i / 3)
    }
}

/// The number of the row through `(x, y)`.
pub open spec fn row_group(x: int, y: int) -> int {
    y
}

/// The number of the column through `(x, y)`.
pub open spec fn col_group(x: int, y: int) -> int {
    9 + x
}

/// The number of the block around `(x, y)`.
pub open spec fn blk_group(x: int, y: int) -> int {
    18 + x / 3 + y / 3 * 3
}

/// Two different cells that share a row, a column or a block.
pub open spec fn peers(x: int, y: int, u: int, v: int) -> bool {
    (x != u || y != v) && (y == v || x == u || (x / 3 == u / 3 && y / 3 == v / 3))
}

/// The entry for group `g` and `digit` in three counter tables.
pub open spec fn entry(
    rows: Seq<Seq<int>>,
    cols: Seq<Seq<int>>,
    blks: Seq<Seq<int>>,
    g: int,
    digit: int,
) -> int {
    if g < 9 {
        rows[g][digit - 1]
    } else if g < 18 {
        cols[g - 9][digit - 1]
    } else {
        blks[g - 18][digit - 1]
    }
}

/// Whether the `i`-th cell of group `g` lists `digit`.
pub open spec fn listed(maybe: Seq<Seq<u16>>, g: int, i: int, digit: int) -> bool {
    marked(maybe[group_cell(g, i).0][group_cell(g, i).1], digit)
}

/// Among the first `n` cells of group `g`, how many list `digit`.
#[verifier::opaque]
pub open spec fn tally_upto(maybe: Seq<Seq<u16>>, g: int, digit: int, n: int) -> int {
    unit(0 < n && listed(maybe, g, 0, digit)) + unit(1 < n && listed(maybe, g, 1, digit)) + unit(
        2 < n && listed(maybe, g, 2, digit),
    ) + unit(3 < n && listed(maybe, g, 3, digit)) + unit(4 < n && listed(maybe, g, 4, digit))
        + unit(5 < n && listed(maybe, g, 5, digit)) + unit(6 < n && listed(maybe, g, 6, digit))
        + unit(7 < n && listed(maybe, g, 7, digit)) + unit(8 < n && listed(maybe, g, 8, digit))
}

/// How many cells of group `g` list `digit`.
pub open spec fn tally(maybe: Seq<Seq<u16>>, g: int, digit: int) -> int {
    tally_upto(maybe, g, digit, 9)
}

/// The moves of `digit` at those of the first `n` cells of group `g` that
/// list it, in the order of the group.
pub open spec fn hits_upto(maybe: Seq<Seq<u16>>, g: int, digit: int, n: int) -> Seq<Move>
    decreases n,
{
    if n <= 0 {
        Seq::empty()
    } else {
        let before = hits_upto(maybe, g, digit, n - 1);
        if listed(maybe, g, n - 1, digit) {
            before.push(move_of(digit, group_cell(g, n - 1).0, group_cell(g, n - 1).1))
        } else {
            before
        }
    }
}

/// The moves of `digit` at the cells of group `g` that list it.
pub open spec fn hits(maybe: Seq<Seq<u16>>, g: int, digit: int) -> Seq<Move> {
    hits_upto(maybe, g, digit, 9)
}

/// Whether the `i`-th cell of group `g` holds `digit` and comes before
/// position `k` when the cells are read row by row.
pub open spec fn placed(cells: Seq<Seq<int>>, g: int, i: int, digit: int, k: int) -> bool {
    group_cell(g, i).1 * 9 + group_cell(g, i).0 < k && cells[group_cell(g, i).0][group_cell(
        g,
        i,
    ).1] == digit
}

/// How many cells of group `g` hold `digit`, counting only the first `k`
/// cells of the grid read row by row.
#[verifier::opaque]
pub open spec fn placed_upto(cells: Seq<Seq<int>>, g: int, digit: int, k: int) -> int {
    unit(placed(cells, g, 0, digit, k)) + unit(placed(cells, g, 1, digit, k)) + unit(
        placed(cells, g, 2, digit, k),
    ) + unit(placed(cells, g, 3, digit, k)) + unit(placed(cells, g, 4, digit, k)) + unit(
        placed(cells, g, 5, digit, k),
    ) + unit(placed(cells, g, 6, digit, k)) + unit(placed(cells, g, 7, digit, k)) + unit(
        placed(cells, g, 8, digit, k),
    )
}

/// How many cells of group `g` hold `digit`.
pub open spec fn occurrences(cells: Seq<Seq<int>>, g: int, digit: int) -> int {
    placed_upto(cells, g, digit, 81)
}

/// A counter table with the entry at `[i][k]` lowered by one.
pub open spec fn lowered(t: Seq<Seq<int>>, i: int, k: int) -> Seq<Seq<int>> {
    t.update(i, t[i].update(k, t[i][k] - 1))
}

/// A counter table with the entry at `[i][k]` raised by one.
pub open spec fn raised(t: Seq<Seq<int>>, i: int, k: int) -> Seq<Seq<int>> {
    t.update(i, t[i].update(k, t[i][k] + 1))
}

/// A counter table with row `i` lowered by one for every digit that is
/// marked in `mask` and not in `left`.
pub open spec fn drained_but(t: Seq<Seq<int>>, i: int, mask: u16, left: u16) -> Seq<Seq<int>> {
    t.update(i, Seq::new(9, |k: int| t[i][k] - unit(marked(mask, k + 1) && !marked(left, k + 1))))
}

/// A counter table with row `i` lowered by one for every digit marked in `mask`.
pub open spec fn drained(t: Seq<Seq<int>>, i: int, mask: u16) -> Seq<Seq<int>> {
    t.update(i, Seq::new(9, |k: int| t[i][k] - unit(marked(mask, k + 1))))
}

/// The sum of nine counters.
#[verifier::opaque]
pub open spec fn line(r: Seq<int>) -> int {
    r[0] + r[1] + r[2] + r[3] + r[4] + r[5] + r[6] + r[7] + r[8]
}

/// The assignments that the first `n` characters of a grid in notation ask
/// for: one for each digit other than `0`, at column `i % 9` and row `i / 9`
/// for the character at `i`.
pub open spec fn clues_upto(t: Seq<char>, n: int) -> Seq<Move>
    decreases n,
{
    if n <= 0 {
        Seq::empty()
    } else if decimal(t[n - 1]) != 0 {
        clues_upto(t, n - 1).push(move_of(decimal(t[n - 1]), (n - 1) % 9, (n - 1) / 9))
    } else {
        clues_upto(t, n - 1)
    }
}

/// The cells in notation: 81 digits, row by row.
pub open spec fn notation(cells: Seq<Seq<int>>) -> Seq<char> {
    Seq::new(81, |k: int| digit_char(cells[k % 9][k / 9]))
}

/// A filled grid that obeys the rules: a digit from 1 to 9 in every cell,
/// and each digit exactly once in every row, column and block.
pub open spec fn is_solution(f: Seq<Seq<int>>) -> bool {
    &&& square(f)
    &&& forall|x: int, y: int| in_grid(x, y) ==> 1 <= #[trigger] f[x][y] <= 9
    &&& forall|g: int, d: int| 0 <= g < 27 && 1 <= d <= 9 ==> #[trigger] occurrences(f, g, d) == 1
}

/// The state of a grid.
pub struct Board {
    /// The digit of each cell, indexed `[x][y]`; zero for a blank.
    pub cells: Seq<Seq<int>>,
    /// The candidate bitmap of each cell, indexed `[x][y]`.
    pub maybe: Seq<Seq<u16>>,
    /// Per row and digit, how many cells of the row list the digit.
    pub row_counts: Seq<Seq<int>>,
    /// Per column and digit, how many cells of the column list the digit.
    pub col_counts: Seq<Seq<int>>,
    /// Per block and digit, how many cells of the block list the digit.
    pub blk_counts: Seq<Seq<int>>,
    /// Candidate removals not yet applied; the last is taken first.
    pub removals: Seq<Move>,
    /// Assignments not yet applied; the last is taken first.
    pub assignments: Seq<Move>,
}

impl Board {
    /// The blank grid: every digit possible everywhere, nothing queued.
    pub open spec fn blank() -> Board {
        Board {
            cells: Seq::new(9, |x: int| Seq::new(9, |y: int| 0int)),
            maybe: Seq::new(9, |x: int| Seq::new(9, |y: int| 0x1ffu16)),
            row_counts: Seq::new(9, |x: int| Seq::new(9, |y: int| 9int)),
            col_counts: Seq::new(9, |x: int| Seq::new(9, |y: int| 9int)),
            blk_counts: Seq::new(9, |x: int| Seq::new(9, |y: int| 9int)),
            removals: Seq::empty(),
            assignments: Seq::empty(),
        }
    }

    /// The blank grid with the clues of a grid in notation queued as
    /// assignments.
    pub open spec fn from_clues(t: Seq<char>) -> Board {
        Board { assignments: clues_upto(t, 81), ..Board::blank() }
    }

    /// The counter for group `g` and `digit`.
    pub open spec fn counter(self, g: int, digit: int) -> int {
        entry(self.row_counts, self.col_counts, self.blk_counts, g, digit)
    }

    /// The tables have their sizes and every value is in its range.
    pub open spec fn wf(self) -> bool {
        &&& square(self.cells)
        &&& square(self.maybe)
        &&& square(self.row_counts)
        &&& square(self.col_counts)
        &&& square(self.blk_counts)
        &&& forall|x: int, y: int| in_grid(x, y) ==> 0 <= #[trigger] self.cells[x][y] <= 9
        &&& forall|x: int, y: int| in_grid(x, y) ==> nine_bit(#[trigger] self.maybe[x][y])
        &&& forall|i: int, k: int| in_grid(i, k) ==> 0 <= #[trigger] self.row_counts[i][k] <= 9
        &&& forall|i: int, k: int| in_grid(i, k) ==> 0 <= #[trigger] self.col_counts[i][k] <= 9
        &&& forall|i: int, k: int| in_grid(i, k) ==> 0 <= #[trigger] self.blk_counts[i][k] <= 9
        &&& forall|i: int| 0 <= i < self.removals.len() ==> valid_move(#[trigger] self.removals[i])
        &&& forall|i: int|
            0 <= i < self.assignments.len() ==> valid_move(#[trigger] self.assignments[i])
    }

    /// Every counter equals the number of cells of its group that list its digit.
    pub open spec fn counts_match(self) -> bool {
        forall|g: int, d: int|
            0 <= g < 27 && 1 <= d <= 9 ==> #[trigger] self.counter(g, d) == tally(self.maybe, g, d)
    }

    /// A cell that holds a digit lists no candidate.
    pub open spec fn filled_are_clear(self) -> bool {
        forall|x: int, y: int|
            in_grid(x, y) && #[trigger] self.cells[x][y] != 0 ==> self.maybe[x][y] == 0
    }

    /// Some assignment is queued for the cell `(x, y)`.
    pub open spec fn assignment_queued_at(self, x: int, y: int) -> bool {
        exists|i: int|
            0 <= i < self.assignments.len() && (#[trigger] self.assignments[i]).1 == (
                x as usize,
                y as usize,
            )
    }

    /// The removal of `digit` at `(x, y)` is queued.
    pub open spec fn removal_queued(self, digit: int, x: int, y: int) -> bool {
        exists|i: int|
            0 <= i < self.removals.len() && #[trigger] self.removals[i] == move_of(digit, x, y)
    }

    /// A blank cell that is down to one candidate or to none has an
    /// assignment waiting in the queue.
    pub open spec fn singles_are_queued(self) -> bool {
        forall|x: int, y: int|
            in_grid(x, y) && #[trigger] self.cells[x][y] == 0 && count(self.maybe[x][y]) <= 1
                ==> self.assignment_queued_at(x, y)
    }

    /// Where a cell holds a digit, each of its peers has either lost that
    /// candidate or has its removal waiting in the queue.
    pub open spec fn placements_are_spread(self) -> bool {
        forall|x: int, y: int, u: int, v: int|
            in_grid(x, y) && in_grid(u, v) && #[trigger] peers(x, y, u, v) && self.cells[x][y] != 0
                && marked(self.maybe[u][v], self.cells[x][y]) ==> self.removal_queued(
                self.cells[x][y],
                u,
                v,
            )
    }

    /// No two peers hold the same digit.
    pub open spec fn no_conflict(self) -> bool {
        forall|x: int, y: int, u: int, v: int|
            in_grid(x, y) && in_grid(u, v) && #[trigger] peers(x, y, u, v) && self.cells[x][y] != 0
                ==> self.cells[u][v] != self.cells[x][y]
    }

    /// The bookkeeping is sound: the counters count, filled cells list
    /// nothing, forced cells and the consequences of every placement are
    /// either applied or queued, and no rule of the game is broken.
    pub open spec fn consistent(self) -> bool {
        &&& self.counts_match()
        &&& self.filled_are_clear()
        &&& self.singles_are_queued()
        &&& self.placements_are_spread()
        &&& self.no_conflict()
    }

    /// Whether the `i`-th cell of group `g` is blank and lists `digit`.
    pub open spec fn open_place(self, g: int, i: int, digit: int) -> bool {
        self.cells[group_cell(g, i).0][group_cell(g, i).1] == 0 && listed(self.maybe, g, i, digit)
    }

    /// How many cells of group `g` are blank and still list `digit`.
    pub open spec fn open_places(self, g: int, digit: int) -> int {
        unit(self.open_place(g, 0, digit)) + unit(self.open_place(g, 1, digit)) + unit(
            self.open_place(g, 2, digit),
        ) + unit(self.open_place(g, 3, digit)) + unit(self.open_place(g, 4, digit)) + unit(
            self.open_place(g, 5, digit),
        ) + unit(self.open_place(g, 6, digit)) + unit(self.open_place(g, 7, digit)) + unit(
            self.open_place(g, 8, digit),
        )
    }

    /// Whether some cell of group `g` holds `digit`.
    pub open spec fn holds(self, g: int, digit: int) -> bool {
        exists|i: int|
            0 <= i < 9 && self.cells[(#[trigger] group_cell(g, i)).0][group_cell(g, i).1] == digit
    }

    /// Both queues are empty.
    pub open spec fn idle(self) -> bool {
        self.removals.len() == 0 && self.assignments.len() == 0
    }

    /// No cell lists a candidate any more.
    pub open spec fn exhausted(self) -> bool {
        forall|x: int, y: int| in_grid(x, y) ==> #[trigger] self.maybe[x][y] == 0
    }

    /// The grid is a finished Sudoku and the bookkeeping has run dry: no
    /// candidates, all counters at zero, every cell filled, and each digit
    /// exactly once in every row, column and block.
    pub open spec fn solved(self) -> bool {
        &&& self.exhausted()
        &&& forall|g: int, d: int| 0 <= g < 27 && 1 <= d <= 9 ==> #[trigger] self.counter(g, d) == 0
        &&& forall|x: int, y: int| in_grid(x, y) ==> 1 <= #[trigger] self.cells[x][y] <= 9
        &&& forall|g: int, d: int|
            0 <= g < 27 && 1 <= d <= 9 ==> #[trigger] occurrences(self.cells, g, d) == 1
    }

    /// Whether the filled grid `f` is still open to the state: it has the
    /// digits of the filled cells, a listed candidate in every blank cell,
    /// the digit of every queued assignment, and not the digit of a queued
    /// removal at a blank cell.
    pub open spec fn admits(self, f: Seq<Seq<int>>) -> bool {
        &&& forall|x: int, y: int|
            in_grid(x, y) && self.cells[x][y] != 0 ==> #[trigger] f[x][y] == self.cells[x][y]
        &&& forall|x: int, y: int|
            in_grid(x, y) && self.cells[x][y] == 0 ==> marked(self.maybe[x][y], #[trigger] f[x][y])
        &&& forall|i: int|
            0 <= i < self.removals.len() ==> {
                let m = #[trigger] self.removals[i];
                self.cells[m.1.0 as int][m.1.1 as int] != 0 || f[m.1.0 as int][m.1.1 as int] != m.0
            }
        &&& forall|i: int|
            0 <= i < self.assignments.len() ==> {
                let m = #[trigger] self.assignments[i];
                f[m.1.0 as int][m.1.1 as int] == m.0
            }
    }

    /// Whether `later` admits every filled grid that obeys the rules and
    /// that this state admits.
    pub open spec fn solutions_kept_by(self, later: Board) -> bool {
        forall|f: Seq<Seq<int>>| is_solution(f) && #[trigger] self.admits(f) ==> later.admits(f)
    }

    /// Whether the state admits no filled grid that obeys the rules.
    pub open spec fn has_no_solution(self) -> bool {
        forall|f: Seq<Seq<int>>| is_solution(f) ==> !#[trigger] self.admits(f)
    }

    /// Whether the cell of the move `m` holds its digit, or `m` waits at
    /// place `i` among the assignments.
    pub open spec fn holds_or_queues(self, i: int, m: Move) -> bool {
        (i < self.assignments.len() && self.assignments[i] == m) || self.cells[m.1.0 as int][m.1.1 as int]
            == m.0
    }

    /// Whether `later` has kept what this state had settled and asked for:
    /// every filled cell has its digit still, and every queued assignment is
    /// either still waiting at its place or has been carried out.
    pub open spec fn kept_by(self, later: Board) -> bool {
        &&& forall|x: int, y: int|
            in_grid(x, y) && self.cells[x][y] != 0 ==> #[trigger] later.cells[x][y]
                == self.cells[x][y]
        &&& forall|i: int|
            0 <= i < self.assignments.len() ==> later.holds_or_queues(
                i,
                #[trigger] self.assignments[i],
            )
    }

    /// The state with one more assignment queued.
    pub open spec fn with_assignment(self, m: Move) -> Board {
        Board { assignments: self.assignments.push(m), ..self }
    }

    /// The state with the newest removal taken off its queue.
    pub open spec fn without_last_removal(self) -> Board {
        Board { removals: self.removals.drop_last(), ..self }
    }

    /// The state with the newest assignment taken off its queue.
    pub open spec fn without_last_assignment(self) -> Board {
        Board { assignments: self.assignments.drop_last(), ..self }
    }

    /// The state after `digit` has been struck from the candidates of
    /// `(x, y)`. Where the cell does not list the digit nothing changes.
    /// Otherwise the bit goes, the three counters of the cell's groups drop
    /// by one, and a cell left with a single candidate has that candidate
    /// queued as an assignment.
    pub open spec fn after_removal(self, digit: int, x: int, y: int) -> Board {
        let rest = cleared(self.maybe[x][y], digit);
        if !marked(self.maybe[x][y], digit) {
            self
        } else {
            Board {
                maybe: self.maybe.update(x, self.maybe[x].update(y, rest)),
                row_counts: lowered(self.row_counts, y, digit - 1),
                col_counts: lowered(self.col_counts, x, digit - 1),
                blk_counts: lowered(self.blk_counts, x / 3 + y / 3 * 3, digit - 1),
                assignments: if count(rest) == 1 {
                    self.assignments.push(move_of(least(rest), x, y))
                } else {
                    self.assignments
                },
                ..self
            }
        }
    }

    /// Whether assigning `digit` to `(x, y)` contradicts the state: the cell
    /// holds another digit, or it is blank and no longer lists this one.
    pub open spec fn refuses(self, digit: int, x: int, y: int) -> bool {
        if self.cells[x][y] != 0 {
            self.cells[x][y] != digit
        } else {
            !marked(self.maybe[x][y], digit)
        }
    }

    /// The state after `digit` has been assigned to `(x, y)`, where the
    /// state does not refuse it. A cell that holds the digit already stays
    /// as it is. Otherwise a removal is queued for every cell of the row,
    /// the column and the block that lists the digit, the cell takes the
    /// digit, and for each candidate it still listed the counters of its
    /// three groups drop by one.
    pub open spec fn after_assignment(self, digit: int, x: int, y: int) -> Board {
        if self.cells[x][y] != 0 {
            self
        } else {
            Board {
                cells: self.cells.update(x, self.cells[x].update(y, digit)),
                maybe: self.maybe.update(x, self.maybe[x].update(y, 0u16)),
                row_counts: drained(self.row_counts, y, self.maybe[x][y]),
                col_counts: drained(self.col_counts, x, self.maybe[x][y]),
                blk_counts: drained(self.blk_counts, x / 3 + y / 3 * 3, self.maybe[x][y]),
                removals: self.removals + hits(self.maybe, row_group(x, y), digit) + hits(
                    self.maybe,
                    col_group(x, y),
                    digit,
                ) + hits(self.maybe, blk_group(x, y), digit),
                ..self
            }
        }
    }

    /// The state after the newest removal has been taken off its queue and
    /// applied.
    #[verifier::inline]
    pub open spec fn after_next_removal(self) -> Board {
        self.without_last_removal().after_removal(
            self.removals.last().0 as int,
            self.removals.last().1.0 as int,
            self.removals.last().1.1 as int,
        )
    }

    /// Whether the state refuses the newest assignment in its queue.
    #[verifier::inline]
    pub open spec fn refuses_next_assignment(self) -> bool {
        self.refuses(
            self.assignments.last().0 as int,
            self.assignments.last().1.0 as int,
            self.assignments.last().1.1 as int,
        )
    }

    /// The state after the newest assignment has been taken off its queue
    /// and applied.
    #[verifier::inline]
    pub open spec fn after_next_assignment(self) -> Board {
        self.without_last_assignment().after_assignment(
            self.assignments.last().0 as int,
            self.assignments.last().1.0 as int,
            self.assignments.last().1.1 as int,
        )
    }

    /// The assignments that hidden singles call for among the first `t` of
    /// the 243 pairs of a group and a digit, taken group by group and digit
    /// by digit: where a counter stands at one, the cells of the group that
    /// list the digit.
    pub open spec fn singles_upto(self, t: int) -> Seq<Move>
        decreases t,
    {
        if t <= 0 {
            Seq::empty()
        } else if self.counter((t - 1) / 9, (t - 1) % 9 + 1) == 1 {
            self.singles_upto(t - 1) + hits(self.maybe, (t - 1) / 9, (t - 1) % 9 + 1)
        } else {
            self.singles_upto(t - 1)
        }
    }

    /// The state with every hidden single queued as an assignment.
    pub open spec fn with_hidden_singles(self) -> Board {
        Board { assignments: self.assignments + self.singles_upto(243), ..self }
    }

    /// Whether none of the first `t` pairs of a group and a digit has its
    /// counter at two.
    pub open spec fn no_pair_before(self, t: int) -> bool {
        forall|s: int| 0 <= s < t ==> #[trigger] self.counter(s / 9, s % 9 + 1) != 2
    }

    /// The first of the 243 pairs of a group and a digit, counted from `k`,
    /// whose counter stands at two; 243 where there is none.
    pub open spec fn pair_slot_from(self, k: int) -> int
        decreases 243 - k,
    {
        if k >= 243 {
            243
        } else if self.counter(k / 9, k % 9 + 1) == 2 {
            k
        } else {
            self.pair_slot_from(k + 1)
        }
    }

    /// The first pair of a group and a digit whose counter stands at two,
    /// taken group by group and digit by digit; 243 where there is none.
    pub open spec fn pair_slot(self) -> int {
        self.pair_slot_from(0)
    }

    /// The two moves to guess between: the digit of the first counter that
    /// stands at two, at the first and at the second cell of its group that
    /// list the digit.
    pub open spec fn first_pair(self) -> (Move, Move) {
        (
            hits(self.maybe, self.pair_slot() / 9, self.pair_slot() % 9 + 1)[0],
            hits(self.maybe, self.pair_slot() / 9, self.pair_slot() % 9 + 1)[1],
        )
    }

    /// The sum of all row counters: the number of candidates still listed.
    pub open spec fn weight(self) -> int {
        line(self.row_counts[0]) + line(self.row_counts[1]) + line(self.row_counts[2]) + line(
            self.row_counts[3],
        ) + line(self.row_counts[4]) + line(self.row_counts[5]) + line(self.row_counts[6]) + line(
            self.row_counts[7],
        ) + line(self.row_counts[8])
    }

    /// The removals are done and the newest assignment is for a blank cell
    /// that lists its digit, so that taking it will strike candidates.
    pub open spec fn primed(self) -> bool {
        &&& self.removals.len() == 0
        &&& self.assignments.len() > 0
        &&& self.cells[self.assignments.last().1.0 as int][self.assignments.last().1.1 as int] == 0
        &&& marked(
            self.maybe[self.assignments.last().1.0 as int][self.assignments.last().1.1 as int],
            self.assignments.last().0 as int,
        )
    }

    /// A number that falls with every step that strikes a candidate and
    /// never rises while the queues are worked off.
    pub open spec fn potential(self) -> int {
        2 * self.weight() + if self.primed() {
            0int
        } else {
            1int
        }
    }

    /// The number of moves waiting in the two queues.
    pub open spec fn backlog(self) -> int {
        (self.removals.len() + self.assignments.len()) as int
    }
}

} // verus!
