//! What the propagation steps keep and change, proved on the model.

use crate::board::{
    blk_group, clues_upto, col_group, drained, entry, group_cell, hits, hits_upto, in_grid, listed,
    lowered, move_of, peers, placed, placed_upto, raised, row_group, square, tally, tally_upto,
    valid_move, Board, Move,
};
use crate::text::{is_clue_text, is_decimal};
use crate::candidates::{
    cleared, count, least, lemma_all_marked, lemma_cleared, lemma_none_marked, marked, unit,
};
use vstd::prelude::*;

verus! {

/// The place of the cell `(x, y)` in group `g`, or -1 where the group does
/// not hold it.
#[verifier::opaque]
pub open spec fn slot(g: int, x: int, y: int) -> int {
    if g < 9 {
        if y == g {
            x
        } else {
            -1
        }
    } else if g < 18 {
        if x == g - 9 {
            y
        } else {
            -1
        }
    } else if x / 3 == (g - 18) % 3 && y / 3 == (g - 18) / 3 {
        x % 3 + y % 3 * 3
    } else {
        -1
    }
}

/// Every group has nine cells of the grid, each at one place, and a cell
/// lies in exactly three groups: its row, its column and its block.
pub proof fn lemma_groups(g: int, x: int, y: int)
    requires
        0 <= g < 27,
        in_grid(x, y),
    ensures
        forall|i: int|
            0 <= i < 9 ==> in_grid((#[trigger] group_cell(g, i)).0, group_cell(g, i).1),
        forall|i: int| 0 <= i < 9 ==> ((#[trigger] group_cell(g, i)) == (x, y)) == (i == slot(g, x, y)),
        -1 <= slot(g, x, y) < 9,
        slot(g, x, y) >= 0 <==> (g == row_group(x, y) || g == col_group(x, y) || g == blk_group(
            x,
            y,
        )),
        0 <= row_group(x, y) < 9 <= col_group(x, y) < 18 <= blk_group(x, y) < 27,
{
    reveal(group_cell);
    reveal(slot);
}

/// Two different cells of one group are peers.
pub proof fn lemma_group_cells_are_peers(g: int, i: int, j: int)
    requires
        0 <= g < 27,
        0 <= i < 9,
        0 <= j < 9,
        i != j,
    ensures
        peers(group_cell(g, i).0, group_cell(g, i).1, group_cell(g, j).0, group_cell(g, j).1),
{
    reveal(group_cell);
}

/// The tally over no cells is zero, and one more cell adds one where it
/// lists the digit.
pub proof fn lemma_tally_step(maybe: Seq<Seq<u16>>, g: int, e: int, n: int)
    ensures
        tally_upto(maybe, g, e, 0) == 0,
        0 <= n < 9 ==> tally_upto(maybe, g, e, n + 1) == tally_upto(maybe, g, e, n) + unit(
            listed(maybe, g, n, e),
        ),
        0 <= tally_upto(maybe, g, e, n) <= 9,
        n >= 9 ==> tally_upto(maybe, g, e, n) == tally(maybe, g, e),
        tally_upto(maybe, g, e, n) <= tally(maybe, g, e),
{
    reveal(tally_upto);
}

/// Changing the bitmap of one cell changes what the cells of a group list
/// only at the place of that cell.
proof fn lemma_listed_change(maybe: Seq<Seq<u16>>, x: int, y: int, to: u16, g: int, e: int, i: int)
    requires
        square(maybe),
        in_grid(x, y),
        0 <= g < 27,
        0 <= i < 9,
    ensures
        listed(maybe.update(x, maybe[x].update(y, to)), g, i, e) == if i == slot(g, x, y) {
            marked(to, e)
        } else {
            listed(maybe, g, i, e)
        },
{
    lemma_groups(g, x, y);
    let c = group_cell(g, i);
    assert(in_grid(c.0, c.1));
    assert((c == (x, y)) == (i == slot(g, x, y)));
}

/// Changing the bitmap of one cell changes the tally of a group only where
/// the cell lies in the group, and then by the change of that one mark.
pub proof fn lemma_tally_change(maybe: Seq<Seq<u16>>, x: int, y: int, to: u16, g: int, e: int, n: int)
    requires
        square(maybe),
        in_grid(x, y),
        0 <= g < 27,
    ensures
        tally_upto(maybe.update(x, maybe[x].update(y, to)), g, e, n) == tally_upto(maybe, g, e, n)
            + if 0 <= slot(g, x, y) < n {
            unit(marked(to, e)) - unit(marked(maybe[x][y], e))
        } else {
            0
        },
{
    lemma_groups(g, x, y);
    let s = slot(g, x, y);
    if 0 <= s < 9 {
        assert(group_cell(g, s) == (x, y));
        assert(listed(maybe, g, s, e) == marked(maybe[x][y], e));
    }
    lemma_listed_change(maybe, x, y, to, g, e, 0);
    lemma_listed_change(maybe, x, y, to, g, e, 1);
    lemma_listed_change(maybe, x, y, to, g, e, 2);
    lemma_listed_change(maybe, x, y, to, g, e, 3);
    lemma_listed_change(maybe, x, y, to, g, e, 4);
    lemma_listed_change(maybe, x, y, to, g, e, 5);
    lemma_listed_change(maybe, x, y, to, g, e, 6);
    lemma_listed_change(maybe, x, y, to, g, e, 7);
    lemma_listed_change(maybe, x, y, to, g, e, 8);
    reveal(tally_upto);
}

/// Lowering the counters of a cell's three groups for one digit changes
/// exactly those three entries.
pub proof fn lemma_lowered_entries(
    rows: Seq<Seq<int>>,
    cols: Seq<Seq<int>>,
    blks: Seq<Seq<int>>,
    digit: int,
    x: int,
    y: int,
    g: int,
    e: int,
)
    requires
        square(rows),
        square(cols),
        square(blks),
        in_grid(x, y),
        1 <= digit <= 9,
        0 <= g < 27,
        1 <= e <= 9,
    ensures
        entry(
            lowered(rows, y, digit - 1),
            lowered(cols, x, digit - 1),
            lowered(blks, x / 3 + y / 3 * 3, digit - 1),
            g,
            e,
        ) == entry(rows, cols, blks, g, e) - unit(e == digit && slot(g, x, y) >= 0),
{
    lemma_groups(g, x, y);
}

/// The entries of three well-shaped tables are the counters, group by group.
pub proof fn lemma_table_entries(rows: Seq<Seq<int>>, cols: Seq<Seq<int>>, blks: Seq<Seq<int>>)
    requires
        square(rows),
        square(cols),
        square(blks),
        forall|g: int, e: int|
            0 <= g < 27 && 1 <= e <= 9 ==> 0 <= #[trigger] entry(rows, cols, blks, g, e) <= 9,
    ensures
        forall|i: int, k: int| in_grid(i, k) ==> 0 <= #[trigger] rows[i][k] <= 9,
        forall|i: int, k: int| in_grid(i, k) ==> 0 <= #[trigger] cols[i][k] <= 9,
        forall|i: int, k: int| in_grid(i, k) ==> 0 <= #[trigger] blks[i][k] <= 9,
{
    assert forall|i: int, k: int| in_grid(i, k) implies 0 <= #[trigger] rows[i][k] <= 9 by {
        assert(entry(rows, cols, blks, i, k + 1) == rows[i][k]);
    }
    assert forall|i: int, k: int| in_grid(i, k) implies 0 <= #[trigger] cols[i][k] <= 9 by {
        assert(entry(rows, cols, blks, 9 + i, k + 1) == cols[i][k]);
    }
    assert forall|i: int, k: int| in_grid(i, k) implies 0 <= #[trigger] blks[i][k] <= 9 by {
        assert(entry(rows, cols, blks, 18 + i, k + 1) == blks[i][k]);
    }
}

/// Where a cell lists a digit, the counters of its three groups for that
/// digit are above zero.
pub proof fn lemma_listed_is_counted(s: Board, digit: int, x: int, y: int, g: int)
    requires
        s.wf(),
        s.counts_match(),
        1 <= digit <= 9,
        in_grid(x, y),
        marked(s.maybe[x][y], digit),
        0 <= g < 27,
        slot(g, x, y) >= 0,
    ensures
        s.counter(g, digit) > 0,
{
    lemma_groups(g, x, y);
    lemma_tally_change(s.maybe, x, y, 0u16, g, digit, 9);
    lemma_none_marked(0u16);
    lemma_tally_step(s.maybe.update(x, s.maybe[x].update(y, 0u16)), g, digit, 9);
    assert(s.counter(g, digit) == tally(s.maybe, g, digit));
}

/// Striking a candidate keeps the tables in shape and the counters right.
pub proof fn lemma_removal_keeps_counts(s: Board, digit: int, x: int, y: int)
    requires
        s.wf(),
        s.counts_match(),
        1 <= digit <= 9,
        in_grid(x, y),
    ensures
        s.after_removal(digit, x, y).wf(),
        s.after_removal(digit, x, y).counts_match(),
{
    let t = s.after_removal(digit, x, y);
    let m = s.maybe[x][y];
    let rest = cleared(m, digit);
    lemma_cleared(m, digit);
    if marked(m, digit) {
        assert forall|g: int, e: int| 0 <= g < 27 && 1 <= e <= 9 implies #[trigger] t.counter(g, e)
            == tally(t.maybe, g, e) && 0 <= t.counter(g, e) <= 9 by {
            lemma_groups(g, x, y);
            lemma_tally_change(s.maybe, x, y, rest, g, e, 9);
            lemma_lowered_entries(s.row_counts, s.col_counts, s.blk_counts, digit, x, y, g, e);
            lemma_tally_step(t.maybe, g, e, 9);
            assert(s.counter(g, e) == tally(s.maybe, g, e));
        }
        assert forall|g: int, e: int| 0 <= g < 27 && 1 <= e <= 9 implies 0 <= #[trigger] entry(
            t.row_counts,
            t.col_counts,
            t.blk_counts,
            g,
            e,
        ) <= 9 by {
            assert(0 <= t.counter(g, e) <= 9);
        }
        lemma_table_entries(t.row_counts, t.col_counts, t.blk_counts);
        if count(rest) == 1 {
            assert(1 <= least(rest) <= 9);
        }
    }
}

/// Whether `m` is the move of `digit` at one of the first `n` cells of
/// group `g` that list the digit.
pub open spec fn is_hit(maybe: Seq<Seq<u16>>, g: int, digit: int, n: int, m: Move) -> bool {
    exists|i: int|
        0 <= i < n && #[trigger] listed(maybe, g, i, digit) && m == move_of(
            digit,
            group_cell(g, i).0,
            group_cell(g, i).1,
        )
}

/// The hits of a group are moves of the digit at cells of the group that
/// list it; every such cell has its move among them; and there are as many
/// as the tally says.
pub proof fn lemma_hits(maybe: Seq<Seq<u16>>, g: int, digit: int, n: int)
    requires
        0 <= g < 27,
        1 <= digit <= 9,
        0 <= n <= 9,
    ensures
        hits_upto(maybe, g, digit, n).len() == tally_upto(maybe, g, digit, n),
        forall|j: int|
            0 <= j < hits_upto(maybe, g, digit, n).len() ==> valid_move(
                #[trigger] hits_upto(maybe, g, digit, n)[j],
            ),
        forall|j: int|
            0 <= j < hits_upto(maybe, g, digit, n).len() ==> is_hit(
                maybe,
                g,
                digit,
                n,
                #[trigger] hits_upto(maybe, g, digit, n)[j],
            ),
        forall|i: int|
            0 <= i < n && #[trigger] listed(maybe, g, i, digit) ==> hits_upto(
                maybe,
                g,
                digit,
                n,
            ).contains(move_of(digit, group_cell(g, i).0, group_cell(g, i).1)),
    decreases n,
{
    let now = hits_upto(maybe, g, digit, n);
    if n == 0 {
        lemma_tally_step(maybe, g, digit, 0);
        assert(now =~= Seq::<Move>::empty());
    } else {
        lemma_tally_step(maybe, g, digit, n - 1);
        lemma_hits(maybe, g, digit, n - 1);
        lemma_groups(g, 0, 0);
        let before = hits_upto(maybe, g, digit, n - 1);
        let c = group_cell(g, n - 1);
        let m = move_of(digit, c.0, c.1);
        assert(in_grid(c.0, c.1));
        assert(valid_move(m));
        assert(now == if listed(maybe, g, n - 1, digit) {
            before.push(m)
        } else {
            before
        });
        assert(now.len() == tally_upto(maybe, g, digit, n));
        assert forall|j: int| 0 <= j < now.len() implies valid_move(#[trigger] now[j]) by {
            if j < before.len() {
                assert(now[j] == before[j]);
            } else {
                assert(now[j] == m);
            }
        }
        assert forall|j: int| 0 <= j < now.len() implies is_hit(
            maybe,
            g,
            digit,
            n,
            #[trigger] now[j],
        ) by {
            if j < before.len() {
                assert(now[j] == before[j]);
                assert(is_hit(maybe, g, digit, n - 1, before[j]));
                let i = choose|i: int|
                    0 <= i < n - 1 && #[trigger] listed(maybe, g, i, digit) && before[j] == move_of(
                        digit,
                        group_cell(g, i).0,
                        group_cell(g, i).1,
                    );
                assert(0 <= i < n && listed(maybe, g, i, digit) && now[j] == move_of(
                    digit,
                    group_cell(g, i).0,
                    group_cell(g, i).1,
                ));
            } else {
                assert(now[j] == m);
                assert(0 <= n - 1 < n && listed(maybe, g, n - 1, digit) && now[j] == move_of(
                    digit,
                    group_cell(g, n - 1).0,
                    group_cell(g, n - 1).1,
                ));
            }
        }
        assert forall|i: int| 0 <= i < n && #[trigger] listed(maybe, g, i, digit) implies now.contains(
            move_of(digit, group_cell(g, i).0, group_cell(g, i).1),
        ) by {
            let w = move_of(digit, group_cell(g, i).0, group_cell(g, i).1);
            if i < n - 1 {
                assert(before.contains(w));
                let j = choose|j: int| 0 <= j < before.len() && before[j] == w;
                assert(now[j] == w);
            } else {
                assert(now[now.len() - 1] == w);
            }
        }
    }
}

/// Draining the counters of a cell's three groups by a bitmap lowers
/// exactly the entries of those groups, each by one for a marked digit.
pub proof fn lemma_drained_entries(
    rows: Seq<Seq<int>>,
    cols: Seq<Seq<int>>,
    blks: Seq<Seq<int>>,
    mask: u16,
    x: int,
    y: int,
    g: int,
    e: int,
)
    requires
        square(rows),
        square(cols),
        square(blks),
        in_grid(x, y),
        0 <= g < 27,
        1 <= e <= 9,
    ensures
        entry(
            drained(rows, y, mask),
            drained(cols, x, mask),
            drained(blks, x / 3 + y / 3 * 3, mask),
            g,
            e,
        ) == entry(rows, cols, blks, g, e) - unit(marked(mask, e) && slot(g, x, y) >= 0),
        square(drained(rows, y, mask)),
        square(drained(cols, x, mask)),
        square(drained(blks, x / 3 + y / 3 * 3, mask)),
{
    lemma_groups(g, x, y);
}

/// An assignment that the state does not refuse keeps the tables in shape
/// and the counters right.
pub proof fn lemma_assignment_keeps_counts(s: Board, digit: int, x: int, y: int)
    requires
        s.wf(),
        s.counts_match(),
        1 <= digit <= 9,
        in_grid(x, y),
        !s.refuses(digit, x, y),
    ensures
        s.after_assignment(digit, x, y).wf(),
        s.after_assignment(digit, x, y).counts_match(),
{
    let t = s.after_assignment(digit, x, y);
    let m = s.maybe[x][y];
    if s.cells[x][y] == 0 {
        lemma_none_marked(0u16);
        assert forall|g: int, e: int| 0 <= g < 27 && 1 <= e <= 9 implies #[trigger] t.counter(g, e)
            == tally(t.maybe, g, e) && 0 <= t.counter(g, e) <= 9 by {
            lemma_groups(g, x, y);
            lemma_tally_change(s.maybe, x, y, 0u16, g, e, 9);
            lemma_drained_entries(s.row_counts, s.col_counts, s.blk_counts, m, x, y, g, e);
            lemma_tally_step(t.maybe, g, e, 9);
            assert(s.counter(g, e) == tally(s.maybe, g, e));
        }
        assert forall|g: int, e: int| 0 <= g < 27 && 1 <= e <= 9 implies 0 <= #[trigger] entry(
            t.row_counts,
            t.col_counts,
            t.blk_counts,
            g,
            e,
        ) <= 9 by {
            assert(0 <= t.counter(g, e) <= 9);
        }
        lemma_drained_entries(s.row_counts, s.col_counts, s.blk_counts, m, x, y, 0, 1);
        lemma_table_entries(t.row_counts, t.col_counts, t.blk_counts);
        lemma_groups(0, x, y);
        lemma_hits(s.maybe, row_group(x, y), digit, 9);
        lemma_hits(s.maybe, col_group(x, y), digit, 9);
        lemma_hits(s.maybe, blk_group(x, y), digit, 9);
        assert forall|i: int| 0 <= i < t.removals.len() implies valid_move(
            #[trigger] t.removals[i],
        ) by {
            let h1 = hits(s.maybe, row_group(x, y), digit);
            let h2 = hits(s.maybe, col_group(x, y), digit);
            let h3 = hits(s.maybe, blk_group(x, y), digit);
            let n0 = s.removals.len();
            if i < n0 {
                assert(t.removals[i] == s.removals[i]);
            } else if i < n0 + h1.len() {
                assert(t.removals[i] == h1[i - n0]);
            } else if i < n0 + h1.len() + h2.len() {
                assert(t.removals[i] == h2[i - n0 - h1.len()]);
            } else {
                assert(t.removals[i] == h3[i - n0 - h1.len() - h2.len()]);
            }
        }
    }
}

/// Raising the counters of a cell's three groups for one digit changes
/// exactly those three entries.
pub proof fn lemma_raised_entries(
    rows: Seq<Seq<int>>,
    cols: Seq<Seq<int>>,
    blks: Seq<Seq<int>>,
    digit: int,
    x: int,
    y: int,
    g: int,
    e: int,
)
    requires
        square(rows),
        square(cols),
        square(blks),
        in_grid(x, y),
        1 <= digit <= 9,
        0 <= g < 27,
        1 <= e <= 9,
    ensures
        entry(
            raised(rows, y, digit - 1),
            raised(cols, x, digit - 1),
            raised(blks, x / 3 + y / 3 * 3, digit - 1),
            g,
            e,
        ) == entry(rows, cols, blks, g, e) + unit(e == digit && slot(g, x, y) >= 0),
{
    lemma_groups(g, x, y);
}

/// Reading one more cell of the grid changes what counts as placed only
/// for that cell.
proof fn lemma_placed_change(cells: Seq<Seq<int>>, x: int, y: int, g: int, i: int, e: int)
    requires
        square(cells),
        in_grid(x, y),
        0 <= g < 27,
        0 <= i < 9,
    ensures
        placed(cells, g, i, e, y * 9 + x + 1) == (placed(cells, g, i, e, y * 9 + x) || (i == slot(
            g,
            x,
            y,
        ) && cells[x][y] == e)),
        !(placed(cells, g, i, e, y * 9 + x) && i == slot(g, x, y)),
        !placed(cells, g, i, e, 0),
{
    lemma_groups(g, x, y);
    let c = group_cell(g, i);
    assert(in_grid(c.0, c.1));
    assert((c == (x, y)) == (i == slot(g, x, y)));
}

/// Reading one more cell of the grid adds one to the count of its digit in
/// each of its three groups, and to no other count.
pub proof fn lemma_placed_step(cells: Seq<Seq<int>>, x: int, y: int, g: int, e: int)
    requires
        square(cells),
        in_grid(x, y),
        0 <= g < 27,
    ensures
        placed_upto(cells, g, e, y * 9 + x + 1) == placed_upto(cells, g, e, y * 9 + x) + unit(
            cells[x][y] == e && slot(g, x, y) >= 0,
        ),
        placed_upto(cells, g, e, 0) == 0,
        0 <= placed_upto(cells, g, e, y * 9 + x) <= 9,
{
    lemma_groups(g, x, y);
    lemma_placed_change(cells, x, y, g, 0, e);
    lemma_placed_change(cells, x, y, g, 1, e);
    lemma_placed_change(cells, x, y, g, 2, e);
    lemma_placed_change(cells, x, y, g, 3, e);
    lemma_placed_change(cells, x, y, g, 4, e);
    lemma_placed_change(cells, x, y, g, 5, e);
    lemma_placed_change(cells, x, y, g, 6, e);
    lemma_placed_change(cells, x, y, g, 7, e);
    lemma_placed_change(cells, x, y, g, 8, e);
    reveal(placed_upto);
}

/// A blank grid with any moves of the grid queued as assignments is in
/// shape and its bookkeeping is sound.
pub proof fn lemma_blank_with(moves: Seq<Move>)
    requires
        forall|i: int| 0 <= i < moves.len() ==> valid_move(#[trigger] moves[i]),
    ensures
        (Board { assignments: moves, ..Board::blank() }).wf(),
        (Board { assignments: moves, ..Board::blank() }).consistent(),
{
    let s = Board { assignments: moves, ..Board::blank() };
    lemma_all_marked();
    assert forall|g: int, d: int| 0 <= g < 27 && 1 <= d <= 9 implies #[trigger] s.counter(g, d)
        == tally(s.maybe, g, d) by {
        reveal(tally_upto);
        lemma_groups(g, 0, 0);
        assert forall|i: int| 0 <= i < 9 implies #[trigger] listed(s.maybe, g, i, d) by {
            let c = group_cell(g, i);
            assert(in_grid(c.0, c.1));
        }
    }
}

/// The blank grid with the clues of a grid in notation queued is in shape
/// and its bookkeeping is sound.
pub proof fn lemma_from_clues(t: Seq<char>)
    requires
        is_clue_text(t),
    ensures
        Board::from_clues(t).wf(),
        Board::from_clues(t).consistent(),
{
    lemma_clues(t, 81);
    lemma_blank_with(clues_upto(t, 81));
}

/// The clues of a grid in notation are moves of the grid.
pub proof fn lemma_clues(t: Seq<char>, n: int)
    requires
        is_clue_text(t),
        0 <= n <= 81,
    ensures
        forall|i: int|
            0 <= i < clues_upto(t, n).len() ==> valid_move(#[trigger] clues_upto(t, n)[i]),
    decreases n,
{
    if n > 0 {
        lemma_clues(t, n - 1);
        assert(is_decimal(t[n - 1]));
        let before = clues_upto(t, n - 1);
        let now = clues_upto(t, n);
        assert forall|i: int| 0 <= i < now.len() implies valid_move(#[trigger] now[i]) by {
            if i < before.len() {
                assert(now[i] == before[i]);
            }
        }
    }
}

/// Where no counter stands at two from `k` up to `t`, and the one at `t`
/// does unless `t` is 243, the first pair from `k` on is at `t`.
pub proof fn lemma_pair_slot(s: Board, k: int, t: int)
    requires
        0 <= k <= t <= 243,
        forall|j: int| k <= j < t ==> #[trigger] s.counter(j / 9, j % 9 + 1) != 2,
        t < 243 ==> s.counter(t / 9, t % 9 + 1) == 2,
    ensures
        s.pair_slot_from(k) == t,
    decreases t - k,
{
    if k < t {
        assert(s.counter(k / 9, k % 9 + 1) != 2);
        lemma_pair_slot(s, k + 1, t);
    }
}

/// The first pair from `k` on lies between `k` and 243; no counter before
/// it stands at two, and its own does unless it is 243.
pub proof fn lemma_pair_slot_found(s: Board, k: int)
    requires
        0 <= k <= 243,
    ensures
        k <= s.pair_slot_from(k) <= 243,
        forall|j: int| k <= j < s.pair_slot_from(k) ==> #[trigger] s.counter(j / 9, j % 9 + 1) != 2,
        s.pair_slot_from(k) < 243 ==> s.counter(
            s.pair_slot_from(k) / 9,
            s.pair_slot_from(k) % 9 + 1,
        ) == 2,
    decreases 243 - k,
{
    if k < 243 && s.counter(k / 9, k % 9 + 1) != 2 {
        lemma_pair_slot_found(s, k + 1);
    }
}

/// Where some counter stands at two, the two moves to guess between are
/// moves of one digit at two cells of the grid that list it: the hits of
/// the group of that counter.
pub proof fn lemma_first_pair(s: Board)
    requires
        s.wf(),
        s.counts_match(),
        s.pair_slot() < 243,
    ensures
        0 <= s.pair_slot() < 243,
        s.counter(s.pair_slot() / 9, s.pair_slot() % 9 + 1) == 2,
        hits(s.maybe, s.pair_slot() / 9, s.pair_slot() % 9 + 1) == seq![
            s.first_pair().0,
            s.first_pair().1,
        ],
        valid_move(s.first_pair().0),
        valid_move(s.first_pair().1),
        s.first_pair().0.0 == s.pair_slot() % 9 + 1,
        s.first_pair().1.0 == s.pair_slot() % 9 + 1,
        marked(
            s.maybe[s.first_pair().0.1.0 as int][s.first_pair().0.1.1 as int],
            s.first_pair().0.0 as int,
        ),
        marked(
            s.maybe[s.first_pair().1.1.0 as int][s.first_pair().1.1.1 as int],
            s.first_pair().1.0 as int,
        ),
{
    lemma_pair_slot_found(s, 0);
    let t = s.pair_slot();
    let g = t / 9;
    let d = t % 9 + 1;
    let h = hits(s.maybe, g, d);
    lemma_hits(s.maybe, g, d, 9);
    lemma_tally_step(s.maybe, g, d, 9);
    lemma_groups(g, 0, 0);
    assert(s.counter(g, d) == tally(s.maybe, g, d));
    assert(h.len() == 2);
    assert(h =~= seq![h[0], h[1]]);
    assert(is_hit(s.maybe, g, d, 9, h[0]) && is_hit(s.maybe, g, d, 9, h[1]));
    let i = choose|i: int|
        0 <= i < 9 && #[trigger] listed(s.maybe, g, i, d) && h[0] == move_of(
            d,
            group_cell(g, i).0,
            group_cell(g, i).1,
        );
    let j = choose|j: int|
        0 <= j < 9 && #[trigger] listed(s.maybe, g, j, d) && h[1] == move_of(
            d,
            group_cell(g, j).0,
            group_cell(g, j).1,
        );
    assert(in_grid(group_cell(g, i).0, group_cell(g, i).1));
    assert(in_grid(group_cell(g, j).0, group_cell(g, j).1));
}

} // verus!
