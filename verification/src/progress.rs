//! Why solving ends: every step of propagation lowers a number that cannot
//! fall below zero.

use crate::board::{
    drained, group_cell, hits, in_grid, line, listed, lowered, square, valid_move, Board, Move,
};
use crate::candidates::{cleared, count, lemma_cleared, lemma_none_marked, marked, unit};
use crate::propagation::{is_hit, lemma_groups, lemma_hits};
use vstd::prelude::*;

verus! {

/// Replacing one of nine counters changes their sum by the difference.
proof fn lemma_line_update(r: Seq<int>, k: int, v: int)
    requires
        r.len() == 9,
        0 <= k < 9,
    ensures
        line(r.update(k, v)) == line(r) - r[k] + v,
{
    reveal(line);
}

/// Lowering nine counters by the marks of a bitmap lowers their sum by the
/// number of marks.
proof fn lemma_line_drained(r: Seq<int>, mask: u16)
    requires
        r.len() == 9,
    ensures
        line(Seq::new(9, |k: int| r[k] - unit(marked(mask, k + 1)))) == line(r) - count(mask),
{
    reveal(line);
}

/// The number of listed candidates is the sum of counters that are not
/// negative.
pub proof fn lemma_weight_bounds(s: Board)
    requires
        s.wf(),
    ensures
        0 <= s.weight(),
        0 <= s.potential(),
        0 <= s.backlog(),
{
    reveal(line);
    assert forall|i: int| 0 <= i < 9 implies 0 <= line(#[trigger] s.row_counts[i]) by {
        assert(0 <= s.row_counts[i][0] && 0 <= s.row_counts[i][1] && 0 <= s.row_counts[i][2]);
        assert(0 <= s.row_counts[i][3] && 0 <= s.row_counts[i][4] && 0 <= s.row_counts[i][5]);
        assert(0 <= s.row_counts[i][6] && 0 <= s.row_counts[i][7] && 0 <= s.row_counts[i][8]);
    }
}

/// Striking a listed candidate lowers the weight by one; striking one that
/// is not listed changes nothing.
pub proof fn lemma_removal_weight(s: Board, digit: int, x: int, y: int)
    requires
        s.wf(),
        1 <= digit <= 9,
        in_grid(x, y),
    ensures
        s.after_removal(digit, x, y).weight() == s.weight() - unit(marked(s.maybe[x][y], digit)),
{
    if marked(s.maybe[x][y], digit) {
        lemma_line_update(s.row_counts[y], digit - 1, s.row_counts[y][digit - 1] - 1);
    }
}

/// An assignment to a blank cell lowers the weight by the number of
/// candidates that the cell listed.
pub proof fn lemma_assignment_weight(s: Board, digit: int, x: int, y: int)
    requires
        s.wf(),
        1 <= digit <= 9,
        in_grid(x, y),
        s.cells[x][y] == 0,
    ensures
        s.after_assignment(digit, x, y).weight() == s.weight() - count(s.maybe[x][y]),
{
    lemma_line_drained(s.row_counts[y], s.maybe[x][y]);
}

/// Taking the newest removal off its queue and striking its candidate
/// lowers the potential, or leaves it and shortens the queues.
pub proof fn lemma_removal_step_progress(s: Board)
    requires
        s.wf(),
        s.removals.len() > 0,
    ensures
        ({
            let m = s.removals.last();
            let t = s.without_last_removal().after_removal(m.0 as int, m.1.0 as int, m.1.1 as int);
            t.potential() < s.potential() || (t.potential() == s.potential() && t.backlog()
                < s.backlog())
        }),
{
    let m = s.removals.last();
    assert(valid_move(s.removals[s.removals.len() - 1]));
    let u = s.without_last_removal();
    lemma_removal_weight(u, m.0 as int, m.1.0 as int, m.1.1 as int);
}

/// With no removal waiting, taking the newest assignment off its queue and
/// applying it lowers the potential, or leaves it and shortens the queues.
pub proof fn lemma_assignment_step_progress(s: Board)
    requires
        s.wf(),
        s.removals.len() == 0,
        s.assignments.len() > 0,
        !s.refuses_next_assignment(),
    ensures
        ({
            let m = s.assignments.last();
            let t = s.without_last_assignment().after_assignment(
                m.0 as int,
                m.1.0 as int,
                m.1.1 as int,
            );
            t.potential() < s.potential() || (t.potential() == s.potential() && t.backlog()
                < s.backlog())
        }),
{
    let m = s.assignments.last();
    assert(valid_move(s.assignments[s.assignments.len() - 1]));
    let u = s.without_last_assignment();
    let x = m.1.0 as int;
    let y = m.1.1 as int;
    if s.cells[x][y] == 0 {
        lemma_assignment_weight(u, m.0 as int, x, y);
    }
}

/// The hidden singles are moves of the grid at cells that list their digit.
pub proof fn lemma_singles(s: Board, n: int)
    requires
        s.wf(),
        0 <= n <= 243,
    ensures
        forall|j: int|
            0 <= j < s.singles_upto(n).len() ==> {
                let m = #[trigger] s.singles_upto(n)[j];
                &&& valid_move(m)
                &&& marked(s.maybe[m.1.0 as int][m.1.1 as int], m.0 as int)
            },
    decreases n,
{
    if n > 0 {
        lemma_singles(s, n - 1);
        let g = (n - 1) / 9;
        let d = (n - 1) % 9 + 1;
        let before = s.singles_upto(n - 1);
        let now = s.singles_upto(n);
        let h = hits(s.maybe, g, d);
        lemma_hits(s.maybe, g, d, 9);
        lemma_groups(g, 0, 0);
        assert forall|j: int| 0 <= j < now.len() implies {
            let m = #[trigger] now[j];
            &&& valid_move(m)
            &&& marked(s.maybe[m.1.0 as int][m.1.1 as int], m.0 as int)
        } by {
            if j < before.len() {
                assert(now[j] == before[j]);
            } else {
                assert(now[j] == h[j - before.len()]);
                assert(is_hit(s.maybe, g, d, 9, h[j - before.len()]));
                let i = choose|i: int|
                    0 <= i < 9 && #[trigger] listed(s.maybe, g, i, d) && h[j - before.len()]
                        == crate::board::move_of(d, group_cell(g, i).0, group_cell(g, i).1);
                let c = group_cell(g, i);
                assert(in_grid(c.0, c.1));
            }
        }
    }
}

/// One more assignment on an idle state, for a cell that lists the digit,
/// keeps the state in shape and lowers the potential.
pub proof fn lemma_fresh_assignment(s: Board, t: Board)
    requires
        s.wf(),
        s.filled_are_clear(),
        s.removals.len() == 0,
        !s.primed(),
        t.cells == s.cells,
        t.maybe == s.maybe,
        t.row_counts == s.row_counts,
        t.col_counts == s.col_counts,
        t.blk_counts == s.blk_counts,
        t.removals == s.removals,
        t.assignments.len() > 0,
        forall|j: int| 0 <= j < t.assignments.len() ==> valid_move(#[trigger] t.assignments[j]),
        marked(
            s.maybe[t.assignments.last().1.0 as int][t.assignments.last().1.1 as int],
            t.assignments.last().0 as int,
        ),
    ensures
        t.wf(),
        t.primed(),
        t.potential() < s.potential(),
{
    let m = t.assignments.last();
    assert(valid_move(t.assignments[t.assignments.len() - 1]));
    lemma_none_marked(0u16);
    assert(s.cells[m.1.0 as int][m.1.1 as int] != 0 ==> s.maybe[m.1.0 as int][m.1.1 as int] == 0);
}

} // verus!
