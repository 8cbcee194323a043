//! What solving keeps of the puzzle: the clues that were given, and every
//! filled grid that was still open.

use crate::board::{
    blk_group, col_group, group_cell, hits, in_grid, is_solution, listed, move_of, occurrences,
    peers, placed, placed_upto, row_group, square, tally, tally_upto, valid_move, Board, Move,
};
use crate::candidates::{cleared, count, least, lemma_cleared, lemma_none_marked, marked};
use crate::propagation::{is_hit, lemma_groups, lemma_hits, lemma_tally_step, slot};
use vstd::prelude::*;

verus! {

/// Every state keeps itself.
pub proof fn lemma_kept_by_itself(s: Board)
    ensures
        s.kept_by(s),
{
}

/// What a state keeps of another, a third that keeps the second keeps too.
pub proof fn lemma_kept_on(a: Board, b: Board, c: Board)
    requires
        a.wf(),
        a.kept_by(b),
        b.kept_by(c),
    ensures
        a.kept_by(c),
{
    assert forall|x: int, y: int| in_grid(x, y) && a.cells[x][y] != 0 implies #[trigger] c.cells[x][y]
        == a.cells[x][y] by {
        assert(b.cells[x][y] == a.cells[x][y]);
    }
    assert forall|i: int| 0 <= i < a.assignments.len() implies c.holds_or_queues(
        i,
        #[trigger] a.assignments[i],
    ) by {
        let m = a.assignments[i];
        assert(valid_move(m));
        assert(b.holds_or_queues(i, m));
        if i < b.assignments.len() && b.assignments[i] == m {
            assert(c.holds_or_queues(i, b.assignments[i]));
        } else {
            assert(in_grid(m.1.0 as int, m.1.1 as int));
            assert(c.cells[m.1.0 as int][m.1.1 as int] == b.cells[m.1.0 as int][m.1.1 as int]);
        }
    }
}

/// The state after the newest removal has been taken and applied keeps the
/// state before.
pub proof fn lemma_removal_step_keeps(s: Board)
    requires
        s.wf(),
        s.removals.len() > 0,
    ensures
        s.kept_by(s.after_next_removal()),
{
    let m = s.removals.last();
    let t = s.without_last_removal().after_removal(m.0 as int, m.1.0 as int, m.1.1 as int);
    assert forall|i: int| 0 <= i < s.assignments.len() implies t.holds_or_queues(
        i,
        #[trigger] s.assignments[i],
    ) by {
        assert(t.assignments[i] == s.assignments[i]);
    }
}

/// The state after the newest assignment has been taken and applied keeps
/// the state before.
pub proof fn lemma_assignment_step_keeps(s: Board)
    requires
        s.wf(),
        s.assignments.len() > 0,
        !s.refuses_next_assignment(),
    ensures
        s.kept_by(s.after_next_assignment()),
{
    let m = s.assignments.last();
    let last = s.assignments.len() - 1;
    assert(valid_move(s.assignments[last]));
    let t = s.without_last_assignment().after_assignment(m.0 as int, m.1.0 as int, m.1.1 as int);
    assert forall|i: int| 0 <= i < s.assignments.len() implies t.holds_or_queues(
        i,
        #[trigger] s.assignments[i],
    ) by {
        if i < last {
            assert(t.assignments[i] == s.assignments[i]);
        }
    }
}

/// A state with more assignments queued, and nothing else changed, keeps
/// the state before.
pub proof fn lemma_more_assignments_keep(s: Board, t: Board)
    requires
        t.cells == s.cells,
        s.assignments.len() <= t.assignments.len(),
        forall|i: int| 0 <= i < s.assignments.len() ==> t.assignments[i] == s.assignments[i],
    ensures
        s.kept_by(t),
{
}

/// In a filled grid that obeys the rules two peers differ.
pub proof fn lemma_solution_peers(f: Seq<Seq<int>>, x: int, y: int, u: int, v: int)
    requires
        is_solution(f),
        in_grid(x, y),
        in_grid(u, v),
        peers(x, y, u, v),
    ensures
        f[x][y] != f[u][v],
{
    let g = if y == v {
        row_group(x, y)
    } else if x == u {
        col_group(x, y)
    } else {
        blk_group(x, y)
    };
    lemma_groups(g, x, y);
    lemma_groups(g, u, v);
    let i = slot(g, x, y);
    let j = slot(g, u, v);
    assert(group_cell(g, i) == (x, y));
    assert(group_cell(g, j) == (u, v));
    let d = f[x][y];
    if f[u][v] == d {
        reveal(placed_upto);
        assert(placed(f, g, i, d, 81));
        assert(placed(f, g, j, d, 81));
        assert(occurrences(f, g, d) == 1);
    }
}

/// Where a state with sound bookkeeping and no removal waiting admits a
/// filled grid, and some cell of a group lists a digit, the cell where the
/// filled grid has that digit in the group lists it.
pub proof fn lemma_place_is_listed(s: Board, f: Seq<Seq<int>>, g: int, d: int) -> (i: int)
    requires
        s.wf(),
        s.consistent(),
        s.removals.len() == 0,
        is_solution(f),
        s.admits(f),
        0 <= g < 27,
        1 <= d <= 9,
        tally(s.maybe, g, d) > 0,
    ensures
        0 <= i < 9,
        listed(s.maybe, g, i, d),
        f[group_cell(g, i).0][group_cell(g, i).1] == d,
{
    lemma_groups(g, 0, 0);
    assert(occurrences_at_least_one(f, g, d)) by {
        reveal(placed_upto);
        assert(occurrences(f, g, d) == 1);
    }
    let i = choose|i: int| 0 <= i < 9 && #[trigger] placed(f, g, i, d, 81);
    let r = group_cell(g, i);
    assert(in_grid(r.0, r.1));
    if s.cells[r.0][r.1] != 0 {
        lemma_none_marked(0u16);
        assert(s.cells[r.0][r.1] == d);
        assert forall|j: int| 0 <= j < 9 implies !#[trigger] listed(s.maybe, g, j, d) by {
            let q = group_cell(g, j);
            assert(in_grid(q.0, q.1));
            if j == i {
                assert(s.maybe[r.0][r.1] == 0);
            } else {
                lemma_groups(g, r.0, r.1);
                lemma_groups(g, q.0, q.1);
                assert(peers(r.0, r.1, q.0, q.1));
                if marked(s.maybe[q.0][q.1], d) {
                    assert(s.removal_queued(d, q.0, q.1));
                }
            }
        }
        reveal(tally_upto);
    }
    i
}

/// Some cell of group `g` holds `d` in `f`.
pub open spec fn occurrences_at_least_one(f: Seq<Seq<int>>, g: int, d: int) -> bool {
    exists|i: int| 0 <= i < 9 && #[trigger] placed(f, g, i, d, 81)
}

/// A filled grid that the state admits is admitted still after the newest
/// removal has been taken and applied.
pub proof fn lemma_removal_step_admits(s: Board, f: Seq<Seq<int>>)
    requires
        s.wf(),
        s.consistent(),
        s.removals.len() > 0,
        s.admits(f),
        is_solution(f),
    ensures
        s.after_next_removal().admits(f),
{
    let m = s.removals.last();
    let d = m.0 as int;
    let x = m.1.0 as int;
    let y = m.1.1 as int;
    let last = s.removals.len() - 1;
    assert(valid_move(s.removals[last]));
    let t = s.without_last_removal().after_removal(d, x, y);
    let mask = s.maybe[x][y];
    let rest = cleared(mask, d);
    lemma_cleared(mask, d);
    lemma_none_marked(0u16);
    assert(s.cells[x][y] != 0 ==> mask == 0);
    assert forall|a: int, b: int| in_grid(a, b) && t.cells[a][b] == 0 implies marked(
        t.maybe[a][b],
        #[trigger] f[a][b],
    ) by {
        assert(marked(s.maybe[a][b], f[a][b]));
    }
    assert forall|i: int| 0 <= i < t.removals.len() implies {
        let n = #[trigger] t.removals[i];
        t.cells[n.1.0 as int][n.1.1 as int] != 0 || f[n.1.0 as int][n.1.1 as int] != n.0
    } by {
        assert(t.removals[i] == s.removals[i]);
    }
    assert forall|i: int| 0 <= i < t.assignments.len() implies {
        let n = #[trigger] t.assignments[i];
        f[n.1.0 as int][n.1.1 as int] == n.0
    } by {
        if i < s.assignments.len() {
            assert(t.assignments[i] == s.assignments[i]);
        } else {
            assert(marked(rest, f[x][y]));
            assert(f[x][y] == least(rest));
        }
    }
}

/// No filled grid that obeys the rules is admitted by a state that refuses
/// its newest assignment; and one that the state admits is admitted still
/// after the assignment has been taken and applied.
pub proof fn lemma_assignment_step_admits(s: Board, f: Seq<Seq<int>>)
    requires
        s.wf(),
        s.consistent(),
        s.assignments.len() > 0,
        s.admits(f),
        is_solution(f),
    ensures
        !s.refuses_next_assignment(),
        s.after_next_assignment().admits(f),
{
    let m = s.assignments.last();
    let d = m.0 as int;
    let x = m.1.0 as int;
    let y = m.1.1 as int;
    let last = s.assignments.len() - 1;
    assert(valid_move(s.assignments[last]));
    assert(f[x][y] == d);
    let u = s.without_last_assignment();
    let t = u.after_assignment(d, x, y);
    assert forall|i: int| 0 <= i < t.assignments.len() implies {
        let n = #[trigger] t.assignments[i];
        f[n.1.0 as int][n.1.1 as int] == n.0
    } by {
        assert(t.assignments[i] == s.assignments[i]);
    }
    if s.cells[x][y] == 0 {
        assert(marked(s.maybe[x][y], f[x][y]));
        let h1 = hits(s.maybe, row_group(x, y), d);
        let h2 = hits(s.maybe, col_group(x, y), d);
        let h3 = hits(s.maybe, blk_group(x, y), d);
        lemma_groups(0, x, y);
        lemma_hits(s.maybe, row_group(x, y), d, 9);
        lemma_hits(s.maybe, col_group(x, y), d, 9);
        lemma_hits(s.maybe, blk_group(x, y), d, 9);
        let n0 = s.removals.len() as int;
        assert forall|i: int| 0 <= i < t.removals.len() implies {
            let n = #[trigger] t.removals[i];
            t.cells[n.1.0 as int][n.1.1 as int] != 0 || f[n.1.0 as int][n.1.1 as int] != n.0
        } by {
            let n = t.removals[i];
            if i < n0 {
                assert(n == s.removals[i]);
            } else {
                let g = if i < n0 + h1.len() {
                    row_group(x, y)
                } else if i < n0 + h1.len() + h2.len() {
                    col_group(x, y)
                } else {
                    blk_group(x, y)
                };
                let h = hits(s.maybe, g, d);
                let j = if i < n0 + h1.len() {
                    i - n0
                } else if i < n0 + h1.len() + h2.len() {
                    i - n0 - h1.len()
                } else {
                    i - n0 - h1.len() - h2.len()
                };
                assert(n == h[j]);
                assert(is_hit(s.maybe, g, d, 9, h[j]));
                let k = choose|k: int|
                    0 <= k < 9 && #[trigger] listed(s.maybe, g, k, d) && h[j] == move_of(
                        d,
                        group_cell(g, k).0,
                        group_cell(g, k).1,
                    );
                let q = group_cell(g, k);
                lemma_groups(g, x, y);
                assert(in_grid(q.0, q.1));
                lemma_groups(g, q.0, q.1);
                if q != (x, y) {
                    assert(peers(x, y, q.0, q.1));
                    lemma_solution_peers(f, x, y, q.0, q.1);
                }
            }
        }
    } else {
        assert forall|i: int| 0 <= i < t.removals.len() implies {
            let n = #[trigger] t.removals[i];
            t.cells[n.1.0 as int][n.1.1 as int] != 0 || f[n.1.0 as int][n.1.1 as int] != n.0
        } by {
            assert(t.removals[i] == s.removals[i]);
        }
    }
}

/// In a state with sound bookkeeping and no removal waiting, a filled grid
/// that the state admits has the digit of every hit of a group at the cell
/// of the hit, where the counter of the group stands at one.
proof fn lemma_single_hits_admitted(s: Board, f: Seq<Seq<int>>, g: int, d: int)
    requires
        s.wf(),
        s.consistent(),
        s.removals.len() == 0,
        is_solution(f),
        s.admits(f),
        0 <= g < 27,
        1 <= d <= 9,
        s.counter(g, d) == 1,
    ensures
        forall|j: int|
            0 <= j < hits(s.maybe, g, d).len() ==> {
                let m = #[trigger] hits(s.maybe, g, d)[j];
                f[m.1.0 as int][m.1.1 as int] == m.0
            },
{
    assert(s.counter(g, d) == tally(s.maybe, g, d));
    let i = lemma_place_is_listed(s, f, g, d);
    lemma_hits(s.maybe, g, d, 9);
    lemma_tally_step(s.maybe, g, d, 9);
    lemma_groups(g, 0, 0);
    let h = hits(s.maybe, g, d);
    let c = group_cell(g, i);
    assert(in_grid(c.0, c.1));
    assert(h.contains(move_of(d, c.0, c.1)));
    assert(h.len() == 1);
    assert(h[0] == move_of(d, c.0, c.1));
}

/// In a state with sound bookkeeping and no removal waiting, a filled grid
/// that the state admits has the digit of every hidden single at its cell.
pub proof fn lemma_singles_admitted(s: Board, f: Seq<Seq<int>>, n: int)
    requires
        s.wf(),
        s.consistent(),
        s.removals.len() == 0,
        is_solution(f),
        s.admits(f),
        0 <= n <= 243,
    ensures
        forall|j: int|
            0 <= j < s.singles_upto(n).len() ==> {
                let m = #[trigger] s.singles_upto(n)[j];
                f[m.1.0 as int][m.1.1 as int] == m.0
            },
    decreases n,
{
    if n > 0 {
        lemma_singles_admitted(s, f, n - 1);
        let g = (n - 1) / 9;
        let d = (n - 1) % 9 + 1;
        let before = s.singles_upto(n - 1);
        let now = s.singles_upto(n);
        if s.counter(g, d) == 1 {
            lemma_single_hits_admitted(s, f, g, d);
            let h = hits(s.maybe, g, d);
            assert forall|j: int| 0 <= j < now.len() implies {
                let m = #[trigger] now[j];
                f[m.1.0 as int][m.1.1 as int] == m.0
            } by {
                if j < before.len() {
                    assert(now[j] == before[j]);
                } else {
                    assert(now[j] == h[j - before.len()]);
                }
            }
        }
    }
}

/// A filled grid that an idle state with sound bookkeeping admits is
/// admitted still when the hidden singles have been queued.
pub proof fn lemma_hidden_singles_admit(s: Board, f: Seq<Seq<int>>)
    requires
        s.wf(),
        s.consistent(),
        s.idle(),
        is_solution(f),
        s.admits(f),
    ensures
        s.with_hidden_singles().admits(f),
{
    lemma_singles_admitted(s, f, 243);
    let t = s.with_hidden_singles();
    assert forall|i: int| 0 <= i < t.assignments.len() implies {
        let n = #[trigger] t.assignments[i];
        f[n.1.0 as int][n.1.1 as int] == n.0
    } by {
        assert(t.assignments[i] == s.singles_upto(243)[i]);
    }
}

/// Where the counter of a group and a digit stands at two in an idle state
/// with sound bookkeeping, a filled grid that the state admits has the digit
/// at one of the two cells that list it.
pub proof fn lemma_pair_admits(s: Board, f: Seq<Seq<int>>, g: int, d: int, first: Move, second: Move)
    requires
        s.wf(),
        s.consistent(),
        s.idle(),
        is_solution(f),
        s.admits(f),
        0 <= g < 27,
        1 <= d <= 9,
        s.counter(g, d) == 2,
        hits(s.maybe, g, d) == seq![first, second],
    ensures
        s.with_assignment(first).admits(f) || s.with_assignment(second).admits(f),
{
    assert(s.counter(g, d) == tally(s.maybe, g, d));
    let i = lemma_place_is_listed(s, f, g, d);
    lemma_hits(s.maybe, g, d, 9);
    lemma_groups(g, 0, 0);
    let h = hits(s.maybe, g, d);
    let c = group_cell(g, i);
    assert(in_grid(c.0, c.1));
    let m = move_of(d, c.0, c.1);
    assert(h.contains(m));
    assert(h[0] == first && h[1] == second);
    assert(m == first || m == second);
    let t = s.with_assignment(m);
    assert forall|j: int| 0 <= j < t.assignments.len() implies {
        let n = #[trigger] t.assignments[j];
        f[n.1.0 as int][n.1.1 as int] == n.0
    } by {
        if j < s.assignments.len() {
            assert(t.assignments[j] == s.assignments[j]);
        }
    }
}

} // verus!
