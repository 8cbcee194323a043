//! The bookkeeping stays sound through every propagation step, and a state
//! with sound bookkeeping that has run dry is a finished Sudoku.

use crate::board::{
    blk_group, col_group, group_cell, hits, in_grid, listed, move_of, occurrences, peers, placed,
    placed_upto, row_group, tally, tally_upto, valid_move, Board, Move,
};
use crate::candidates::{cleared, count, lemma_cleared, lemma_none_marked, marked, unit};
use crate::propagation::{
    lemma_assignment_keeps_counts, lemma_group_cells_are_peers, lemma_groups, lemma_hits,
    lemma_removal_keeps_counts, slot,
};
use vstd::prelude::*;

verus! {

/// The counters and the tallies do not depend on the queues.
pub proof fn lemma_counts_ignore_queues(s: Board, t: Board)
    requires
        s.counts_match(),
        t.maybe == s.maybe,
        t.row_counts == s.row_counts,
        t.col_counts == s.col_counts,
        t.blk_counts == s.blk_counts,
    ensures
        t.counts_match(),
{
    assert forall|g: int, d: int| 0 <= g < 27 && 1 <= d <= 9 implies #[trigger] t.counter(g, d)
        == tally(t.maybe, g, d) by {
        assert(s.counter(g, d) == tally(s.maybe, g, d));
    }
}

/// Taking the newest removal off its queue and striking its candidate keeps
/// the bookkeeping sound.
pub proof fn lemma_removal_step_is_sound(s: Board)
    requires
        s.wf(),
        s.consistent(),
        s.removals.len() > 0,
    ensures
        s.after_next_removal().consistent(),
{
    let m = s.removals.last();
    let d = m.0 as int;
    let x = m.1.0 as int;
    let y = m.1.1 as int;
    let last = s.removals.len() - 1;
    assert(valid_move(s.removals[last]));
    let u = s.without_last_removal();
    let t = u.after_removal(d, x, y);
    let mask = s.maybe[x][y];
    let rest = cleared(mask, d);
    lemma_cleared(mask, d);
    lemma_none_marked(0u16);
    lemma_counts_ignore_queues(s, u);
    lemma_removal_keeps_counts(u, d, x, y);
    assert(s.cells[x][y] != 0 ==> mask == 0);
    assert forall|a: int, b: int|
        in_grid(a, b) && #[trigger] t.cells[a][b] == 0 && count(t.maybe[a][b])
            <= 1 implies t.assignment_queued_at(a, b) by {
        if a == x && b == y && marked(mask, d) {
            if count(rest) == 1 {
                assert(t.assignments[t.assignments.len() - 1].1 == (x as usize, y as usize));
            } else {
                assert(s.assignment_queued_at(a, b));
                let i = choose|i: int|
                    0 <= i < s.assignments.len() && (#[trigger] s.assignments[i]).1 == (
                        a as usize,
                        b as usize,
                    );
                assert(t.assignments[i] == s.assignments[i]);
            }
        } else {
            assert(s.cells[a][b] == 0 && count(s.maybe[a][b]) <= 1);
            assert(s.assignment_queued_at(a, b));
            let i = choose|i: int|
                0 <= i < s.assignments.len() && (#[trigger] s.assignments[i]).1 == (
                    a as usize,
                    b as usize,
                );
            assert(t.assignments[i] == s.assignments[i]);
        }
    }
    assert forall|a: int, b: int, p: int, q: int|
        in_grid(a, b) && in_grid(p, q) && #[trigger] peers(a, b, p, q) && t.cells[a][b] != 0
            && marked(t.maybe[p][q], t.cells[a][b]) implies t.removal_queued(
        t.cells[a][b],
        p,
        q,
    ) by {
        let c = s.cells[a][b];
        assert(marked(s.maybe[p][q], c));
        assert(s.removal_queued(c, p, q));
        let i = choose|i: int|
            0 <= i < s.removals.len() && #[trigger] s.removals[i] == move_of(c, p, q);
        if i == last {
            assert(c == d && p == x && q == y);
            assert(!marked(t.maybe[p][q], c));
        }
        assert(t.removals[i] == move_of(c, p, q));
    }
    assert forall|a: int, b: int, p: int, q: int|
        in_grid(a, b) && in_grid(p, q) && #[trigger] peers(a, b, p, q) && t.cells[a][b]
            != 0 implies t.cells[p][q] != t.cells[a][b] by {
        assert(s.cells[p][q] != s.cells[a][b]);
    }
    assert forall|a: int, b: int| in_grid(a, b) && #[trigger] t.cells[a][b] != 0 implies t.maybe[a][b]
        == 0 by {
        assert(s.cells[a][b] != 0);
    }
}

/// A cell of the row, the column or the block of `(x, y)` that lists the
/// digit has its removal among those that an assignment at `(x, y)` queues.
proof fn lemma_peer_is_hit(s: Board, d: int, x: int, y: int, p: int, q: int)
    requires
        s.wf(),
        1 <= d <= 9,
        in_grid(x, y),
        in_grid(p, q),
        peers(x, y, p, q),
        marked(s.maybe[p][q], d),
        s.cells[x][y] == 0,
    ensures
        s.after_assignment(d, x, y).removal_queued(d, p, q),
{
    let t = s.after_assignment(d, x, y);
    let g = if q == y {
        row_group(x, y)
    } else if p == x {
        col_group(x, y)
    } else {
        blk_group(x, y)
    };
    lemma_groups(g, x, y);
    lemma_groups(g, p, q);
    let i = slot(g, p, q);
    assert(group_cell(g, i) == (p, q));
    assert(listed(s.maybe, g, i, d));
    lemma_hits(s.maybe, g, d, 9);
    let h = hits(s.maybe, g, d);
    assert(h.contains(move_of(d, p, q)));
    let j = choose|j: int| 0 <= j < h.len() && h[j] == move_of(d, p, q);
    let h1 = hits(s.maybe, row_group(x, y), d);
    let h2 = hits(s.maybe, col_group(x, y), d);
    let n0 = s.removals.len() as int;
    if q == y {
        assert(t.removals[n0 + j] == h[j]);
    } else if p == x {
        assert(t.removals[n0 + h1.len() + j] == h[j]);
    } else {
        assert(t.removals[n0 + h1.len() + h2.len() + j] == h[j]);
    }
}

/// With no removal waiting, taking the newest assignment off its queue and
/// applying it keeps the bookkeeping sound, unless the state refuses it.
pub proof fn lemma_assignment_step_is_sound(s: Board)
    requires
        s.wf(),
        s.consistent(),
        s.removals.len() == 0,
        s.assignments.len() > 0,
        !s.refuses_next_assignment(),
    ensures
        s.after_next_assignment().consistent(),
{
    let m = s.assignments.last();
    let d = m.0 as int;
    let x = m.1.0 as int;
    let y = m.1.1 as int;
    let last = s.assignments.len() - 1;
    assert(valid_move(s.assignments[last]));
    let u = s.without_last_assignment();
    let t = u.after_assignment(d, x, y);
    lemma_none_marked(0u16);
    lemma_counts_ignore_queues(s, u);
    lemma_assignment_keeps_counts(u, d, x, y);
    assert forall|a: int, b: int|
        in_grid(a, b) && #[trigger] t.cells[a][b] == 0 && count(t.maybe[a][b])
            <= 1 implies t.assignment_queued_at(a, b) by {
        assert(s.cells[a][b] == 0 && count(s.maybe[a][b]) <= 1);
        assert(s.assignment_queued_at(a, b));
        let i = choose|i: int|
            0 <= i < s.assignments.len() && (#[trigger] s.assignments[i]).1 == (
                a as usize,
                b as usize,
            );
        assert(i != last);
        assert(t.assignments[i] == s.assignments[i]);
    }
    assert forall|a: int, b: int, p: int, q: int|
        in_grid(a, b) && in_grid(p, q) && #[trigger] peers(a, b, p, q) && t.cells[a][b] != 0
            && marked(t.maybe[p][q], t.cells[a][b]) implies t.removal_queued(
        t.cells[a][b],
        p,
        q,
    ) by {
        if s.cells[a][b] != 0 {
            assert(marked(s.maybe[p][q], s.cells[a][b]));
            assert(s.removal_queued(s.cells[a][b], p, q));
        } else {
            assert(a == x && b == y);
            lemma_peer_is_hit(u, d, x, y, p, q);
        }
    }
    assert forall|a: int, b: int, p: int, q: int|
        in_grid(a, b) && in_grid(p, q) && #[trigger] peers(a, b, p, q) && t.cells[a][b]
            != 0 implies t.cells[p][q] != t.cells[a][b] by {
        if s.cells[x][y] == 0 {
            if a == x && b == y {
                if s.cells[p][q] == d {
                    assert(peers(p, q, a, b));
                    assert(s.removal_queued(d, a, b));
                }
            } else if p == x && q == y {
                if s.cells[a][b] == d {
                    assert(s.removal_queued(d, p, q));
                }
            } else {
                assert(s.cells[p][q] != s.cells[a][b]);
            }
        } else {
            assert(s.cells[p][q] != s.cells[a][b]);
        }
    }
    assert forall|a: int, b: int| in_grid(a, b) && #[trigger] t.cells[a][b] != 0 implies t.maybe[a][b]
        == 0 by {
        if !(a == x && b == y) {
            assert(s.cells[a][b] != 0);
        }
    }
}

/// Queueing more assignments keeps the bookkeeping sound.
pub proof fn lemma_more_assignments_are_sound(s: Board, t: Board)
    requires
        s.wf(),
        s.consistent(),
        t.cells == s.cells,
        t.maybe == s.maybe,
        t.row_counts == s.row_counts,
        t.col_counts == s.col_counts,
        t.blk_counts == s.blk_counts,
        t.removals == s.removals,
        s.assignments.len() <= t.assignments.len(),
        forall|i: int| 0 <= i < s.assignments.len() ==> t.assignments[i] == s.assignments[i],
    ensures
        t.consistent(),
{
    assert forall|a: int, b: int|
        in_grid(a, b) && #[trigger] t.cells[a][b] == 0 && count(t.maybe[a][b])
            <= 1 implies t.assignment_queued_at(a, b) by {
        assert(s.cells[a][b] == 0);
        assert(s.assignment_queued_at(a, b));
        let i = choose|i: int|
            0 <= i < s.assignments.len() && (#[trigger] s.assignments[i]).1 == (
                a as usize,
                b as usize,
            );
        assert(t.assignments[i] == s.assignments[i]);
    }
    assert forall|a: int, b: int, p: int, q: int|
        in_grid(a, b) && in_grid(p, q) && #[trigger] peers(a, b, p, q) && t.cells[a][b] != 0
            && marked(t.maybe[p][q], t.cells[a][b]) implies t.removal_queued(
        t.cells[a][b],
        p,
        q,
    ) by {
        let c = s.cells[a][b];
        assert(s.removal_queued(c, p, q));
        let i = choose|i: int|
            0 <= i < s.removals.len() && #[trigger] s.removals[i] == move_of(c, p, q);
        assert(t.removals[i] == move_of(c, p, q));
    }
    lemma_counts_ignore_queues(s, t);
}

/// `1` where the two numbers are equal, `0` where they differ.
#[verifier::opaque]
spec fn same(a: int, b: int) -> int {
    unit(a == b)
}

/// How many of nine numbers equal `d`.
spec fn matches(c: Seq<int>, d: int) -> int {
    same(c[0], d) + same(c[1], d) + same(c[2], d) + same(c[3], d) + same(c[4], d) + same(c[5], d)
        + same(c[6], d) + same(c[7], d) + same(c[8], d)
}

/// A number from 1 to 9 equals exactly one of the numbers from 1 to 9.
proof fn lemma_one_of_nine(v: int)
    requires
        1 <= v <= 9,
    ensures
        same(v, 1) + same(v, 2) + same(v, 3) + same(v, 4) + same(v, 5) + same(v, 6) + same(v, 7)
            + same(v, 8) + same(v, 9) == 1,
{
    reveal(same);
}

/// Among nine different numbers at most one equals `d`.
proof fn lemma_at_most_once(c: Seq<int>, d: int)
    requires
        c.len() == 9,
        forall|i: int, j: int| 0 <= i < j < 9 ==> c[i] != c[j],
    ensures
        matches(c, d) <= 1,
{
    reveal(same);
}

/// Nine different numbers from 1 to 9 hold each of them exactly once.
proof fn lemma_pigeonhole(c: Seq<int>)
    requires
        c.len() == 9,
        forall|i: int| 0 <= i < 9 ==> 1 <= #[trigger] c[i] <= 9,
        forall|i: int, j: int| 0 <= i < j < 9 ==> c[i] != c[j],
    ensures
        forall|d: int| 1 <= d <= 9 ==> #[trigger] matches(c, d) == 1,
{
    lemma_one_of_nine(c[0]);
    lemma_one_of_nine(c[1]);
    lemma_one_of_nine(c[2]);
    lemma_one_of_nine(c[3]);
    lemma_one_of_nine(c[4]);
    lemma_one_of_nine(c[5]);
    lemma_one_of_nine(c[6]);
    lemma_one_of_nine(c[7]);
    lemma_one_of_nine(c[8]);
    lemma_at_most_once(c, 1);
    lemma_at_most_once(c, 2);
    lemma_at_most_once(c, 3);
    lemma_at_most_once(c, 4);
    lemma_at_most_once(c, 5);
    lemma_at_most_once(c, 6);
    lemma_at_most_once(c, 7);
    lemma_at_most_once(c, 8);
    lemma_at_most_once(c, 9);
}

/// A state with sound bookkeeping, empty queues and no candidate left is a
/// finished Sudoku.
pub proof fn lemma_dry_is_solved(s: Board)
    requires
        s.wf(),
        s.consistent(),
        s.idle(),
        s.exhausted(),
    ensures
        s.solved(),
{
    lemma_none_marked(0u16);
    assert forall|g: int, d: int| 0 <= g < 27 && 1 <= d <= 9 implies #[trigger] s.counter(g, d)
        == 0 by {
        reveal(tally_upto);
        lemma_groups(g, 0, 0);
        assert forall|i: int| 0 <= i < 9 implies !#[trigger] listed(s.maybe, g, i, d) by {
            let c = group_cell(g, i);
            assert(in_grid(c.0, c.1));
            assert(s.maybe[c.0][c.1] == 0);
        }
        assert(s.counter(g, d) == tally(s.maybe, g, d));
    }
    assert forall|x: int, y: int| in_grid(x, y) implies 1 <= #[trigger] s.cells[x][y] <= 9 by {
        if s.cells[x][y] == 0 {
            assert(s.maybe[x][y] == 0);
            assert(s.assignment_queued_at(x, y));
        }
    }
    assert forall|g: int, d: int| 0 <= g < 27 && 1 <= d <= 9 implies #[trigger] occurrences(
        s.cells,
        g,
        d,
    ) == 1 by {
        reveal(placed_upto);
        lemma_groups(g, 0, 0);
        let c = Seq::new(9, |i: int| s.cells[group_cell(g, i).0][group_cell(g, i).1]);
        assert forall|i: int| 0 <= i < 9 implies 1 <= #[trigger] c[i] <= 9 by {
            let p = group_cell(g, i);
            assert(in_grid(p.0, p.1));
        }
        assert forall|i: int, j: int| 0 <= i < j < 9 implies c[i] != c[j] by {
            let p = group_cell(g, i);
            let q = group_cell(g, j);
            assert(in_grid(p.0, p.1) && in_grid(q.0, q.1));
            lemma_group_cells_are_peers(g, i, j);
        }
        lemma_pigeonhole(c);
        assert(matches(c, d) == 1);
        reveal(same);
        assert forall|i: int| 0 <= i < 9 implies #[trigger] placed(s.cells, g, i, d, 81) == (c[i]
            == d) by {
            let p = group_cell(g, i);
            assert(in_grid(p.0, p.1));
        }
    }
}

} // verus!
