//! What holds of the solver as a whole.

use crate::board::{
    clues_upto, group_cell, in_grid, is_solution, listed, move_of, peers, tally, tally_upto, Board,
    Move,
};
use crate::candidates::{cleared, lemma_all_marked, lemma_cleared, lemma_none_marked, marked};
use crate::error::SolveError;
use crate::propagation::{lemma_from_clues, lemma_group_cells_are_peers, lemma_groups};
use crate::search::{lemma_search, lemma_settle, search, settle};
use crate::text::{decimal, is_clue_text, is_decimal};
use vstd::prelude::*;

verus! {

/// Whatever state solving ends in is a finished Sudoku, the one thing that
/// `verify_solution` answers with `true`.
pub proof fn solved_grids_verify(s: Board)
    requires
        s.wf(),
        s.consistent(),
    ensures
        search(s) matches Ok(t) ==> t.wf() && t.solved(),
{
    lemma_search(s);
}

/// A solved grid is an answer to the puzzle it came from: every cell that
/// was filled has kept its digit, and every assignment that was queued, as
/// the clues of a grid in notation are, has been carried out.
pub proof fn solved_grids_keep_the_clues(s: Board)
    requires
        s.wf(),
        s.consistent(),
    ensures
        search(s) matches Ok(t) ==> {
            &&& forall|x: int, y: int|
                in_grid(x, y) && s.cells[x][y] != 0 ==> #[trigger] t.cells[x][y] == s.cells[x][y]
            &&& forall|i: int|
                0 <= i < s.assignments.len() ==> t.cells[(
                #[trigger] s.assignments[i]).1.0 as int][s.assignments[i].1.1 as int]
                    == s.assignments[i].0
        },
{
    lemma_search(s);
    match search(s) {
        Ok(t) => {
            assert forall|i: int| 0 <= i < s.assignments.len() implies t.cells[(
            #[trigger] s.assignments[i]).1.0 as int][s.assignments[i].1.1 as int]
                == s.assignments[i].0 by {
                assert(t.holds_or_queues(i, s.assignments[i]));
            }
        },
        Err(_) => {},
    }
}

/// Where solving ends in a contradiction, no filled grid that obeys the
/// rules was open to the state.
pub proof fn contradictions_leave_no_solution(s: Board)
    requires
        s.wf(),
        s.consistent(),
    ensures
        search(s) == Err::<Board, SolveError>(SolveError::Contradiction) ==> s.has_no_solution(),
{
    lemma_search(s);
}

/// Once a candidate has been struck, striking it again changes nothing.
pub proof fn removal_is_idempotent(s: Board, digit: int, x: int, y: int)
    requires
        s.wf(),
        1 <= digit <= 9,
        in_grid(x, y),
    ensures
        s.after_removal(digit, x, y).after_removal(digit, x, y) == s.after_removal(digit, x, y),
{
    lemma_cleared(s.maybe[x][y], digit);
    let t = s.after_removal(digit, x, y);
    assert(t.maybe[x][y] == if marked(s.maybe[x][y], digit) {
        cleared(s.maybe[x][y], digit)
    } else {
        s.maybe[x][y]
    });
}

/// In a state with sound bookkeeping every counter equals the number of
/// blank cells of its group that still list its digit; and with no removal
/// waiting, the counter of a digit that the group holds stands at zero.
pub proof fn counters_are_exact(s: Board, g: int, d: int)
    requires
        s.wf(),
        s.consistent(),
        0 <= g < 27,
        1 <= d <= 9,
    ensures
        s.counter(g, d) == s.open_places(g, d),
        s.removals.len() == 0 && s.holds(g, d) ==> s.counter(g, d) == 0,
{
    lemma_groups(g, 0, 0);
    lemma_none_marked(0u16);
    assert(s.counter(g, d) == tally(s.maybe, g, d));
    assert forall|i: int| 0 <= i < 9 implies s.open_place(g, i, d) == #[trigger] listed(
        s.maybe,
        g,
        i,
        d,
    ) by {
        let c = group_cell(g, i);
        assert(in_grid(c.0, c.1));
        assert(s.cells[c.0][c.1] != 0 ==> s.maybe[c.0][c.1] == 0);
    }
    if s.removals.len() == 0 && s.holds(g, d) {
        let i = choose|i: int|
            0 <= i < 9 && s.cells[(#[trigger] group_cell(g, i)).0][group_cell(g, i).1] == d;
        let r = group_cell(g, i);
        assert(in_grid(r.0, r.1));
        assert forall|j: int| 0 <= j < 9 implies !#[trigger] listed(s.maybe, g, j, d) by {
            let q = group_cell(g, j);
            assert(in_grid(q.0, q.1));
            if j == i {
                assert(s.maybe[r.0][r.1] == 0);
            } else {
                lemma_group_cells_are_peers(g, i, j);
                assert(peers(r.0, r.1, q.0, q.1));
                if marked(s.maybe[q.0][q.1], d) {
                    assert(s.removal_queued(d, q.0, q.1));
                }
            }
        }
    }
    reveal(tally_upto);
}

/// When propagation has come to rest, every counter equals the number of
/// blank cells of its group that still list its digit, and the counter of a
/// digit that the group holds stands at zero.
pub proof fn counters_are_exact_at_rest(s: Board)
    requires
        s.wf(),
        s.consistent(),
    ensures
        settle(s) matches Some(t) ==> forall|g: int, d: int|
            0 <= g < 27 && 1 <= d <= 9 ==> #[trigger] t.counter(g, d) == t.open_places(g, d) && (
            t.holds(g, d) ==> t.counter(g, d) == 0),
{
    lemma_settle(s);
    match settle(s) {
        Some(t) => {
            assert forall|g: int, d: int| 0 <= g < 27 && 1 <= d <= 9 implies #[trigger] t.counter(
                g,
                d,
            ) == t.open_places(g, d) && (t.holds(g, d) ==> t.counter(g, d) == 0) by {
                counters_are_exact(t, g, d);
            }
        },
        None => {},
    }
}

/// Whether the filled grid `f` has the digit of every clue of the grid in
/// notation `text` at the cell of the clue.
pub open spec fn fits(f: Seq<Seq<int>>, text: Seq<char>) -> bool {
    forall|i: int|
        0 <= i < 81 && decimal(#[trigger] text[i]) != 0 ==> f[i % 9][i / 9] == decimal(text[i])
}

/// Whether `m` is the move that one of the first `n` characters of `text`
/// asks for.
spec fn is_clue(text: Seq<char>, n: int, m: Move) -> bool {
    exists|i: int|
        0 <= i < n && decimal(#[trigger] text[i]) != 0 && m == move_of(
            decimal(text[i]),
            i % 9,
            i / 9,
        )
}

/// The assignments that a grid in notation asks for are the moves of its
/// clues, all of them and no others.
proof fn lemma_clue_moves(text: Seq<char>, n: int)
    requires
        is_clue_text(text),
        0 <= n <= 81,
    ensures
        forall|i: int|
            0 <= i < n && decimal(#[trigger] text[i]) != 0 ==> clues_upto(text, n).contains(
                move_of(decimal(text[i]), i % 9, i / 9),
            ),
        forall|j: int|
            0 <= j < clues_upto(text, n).len() ==> is_clue(text, n, #[trigger] clues_upto(text, n)[j]),
    decreases n,
{
    let now = clues_upto(text, n);
    if n > 0 {
        lemma_clue_moves(text, n - 1);
        let before = clues_upto(text, n - 1);
        let m = move_of(decimal(text[n - 1]), (n - 1) % 9, (n - 1) / 9);
        assert forall|i: int| 0 <= i < n && decimal(#[trigger] text[i]) != 0 implies now.contains(
            move_of(decimal(text[i]), i % 9, i / 9),
        ) by {
            let w = move_of(decimal(text[i]), i % 9, i / 9);
            if i < n - 1 {
                assert(before.contains(w));
                let j = choose|j: int| 0 <= j < before.len() && before[j] == w;
                assert(now[j] == w);
            } else {
                assert(now[now.len() - 1] == w);
            }
        }
        assert forall|j: int| 0 <= j < now.len() implies is_clue(text, n, #[trigger] now[j]) by {
            if j < before.len() {
                assert(now[j] == before[j]);
                assert(is_clue(text, n - 1, before[j]));
                let i = choose|i: int|
                    0 <= i < n - 1 && decimal(#[trigger] text[i]) != 0 && before[j] == move_of(
                        decimal(text[i]),
                        i % 9,
                        i / 9,
                    );
                assert(0 <= i < n && decimal(text[i]) != 0 && now[j] == move_of(
                    decimal(text[i]),
                    i % 9,
                    i / 9,
                ));
            } else {
                assert(now[j] == m);
                assert(0 <= n - 1 < n && decimal(text[n - 1]) != 0 && now[j] == move_of(
                    decimal(text[n - 1]),
                    (n - 1) % 9,
                    (n - 1) / 9,
                ));
            }
        }
    }
}

/// Where solving a grid in notation ends in a state, its cells are a filled
/// grid that obeys the rules and that has every clue of the text at its
/// cell.
pub proof fn solved_puzzles_fit_their_clues(text: Seq<char>)
    requires
        is_clue_text(text),
    ensures
        search(Board::from_clues(text)) matches Ok(t) ==> is_solution(t.cells) && fits(
            t.cells,
            text,
        ),
{
    let s = Board::from_clues(text);
    lemma_from_clues(text);
    lemma_search(s);
    lemma_clue_moves(text, 81);
    match search(s) {
        Ok(t) => {
            assert forall|i: int| 0 <= i < 81 && decimal(#[trigger] text[i]) != 0 implies t.cells[i
                % 9][i / 9] == decimal(text[i]) by {
                assert(is_decimal(text[i]));
                let m = move_of(decimal(text[i]), i % 9, i / 9);
                assert(s.assignments.contains(m));
                let j = choose|j: int| 0 <= j < s.assignments.len() && s.assignments[j] == m;
                assert(t.holds_or_queues(j, s.assignments[j]));
            }
        },
        Err(_) => {},
    }
}

/// Where solving a grid in notation ends in a contradiction, no filled grid
/// that obeys the rules has every clue of the text at its cell.
pub proof fn contradictory_puzzles_have_no_answer(text: Seq<char>)
    requires
        is_clue_text(text),
    ensures
        search(Board::from_clues(text)) == Err::<Board, SolveError>(SolveError::Contradiction)
            ==> forall|f: Seq<Seq<int>>| is_solution(f) ==> !#[trigger] fits(f, text),
{
    let s = Board::from_clues(text);
    lemma_from_clues(text);
    lemma_search(s);
    lemma_clue_moves(text, 81);
    lemma_all_marked();
    if search(s) == Err::<Board, SolveError>(SolveError::Contradiction) {
        assert forall|f: Seq<Seq<int>>| is_solution(f) implies !#[trigger] fits(f, text) by {
            if fits(f, text) {
                assert forall|j: int| 0 <= j < s.assignments.len() implies {
                    let m = #[trigger] s.assignments[j];
                    f[m.1.0 as int][m.1.1 as int] == m.0
                } by {
                    let m = s.assignments[j];
                    assert(is_clue(text, 81, m));
                    let i = choose|i: int|
                        0 <= i < 81 && decimal(#[trigger] text[i]) != 0 && m == move_of(
                            decimal(text[i]),
                            i % 9,
                            i / 9,
                        );
                    assert(is_decimal(text[i]));
                }
                assert forall|x: int, y: int| in_grid(x, y) && s.cells[x][y] == 0 implies marked(
                    s.maybe[x][y],
                    #[trigger] f[x][y],
                ) by {
                    assert(1 <= f[x][y] <= 9);
                }
                assert(s.admits(f));
            }
        }
    }
}

} // verus!
