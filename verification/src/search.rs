//! The outcome of solving as a function of the state: what propagation
//! ends in, and what the search ends in.

use crate::board::{is_solution, valid_move, Board};
use crate::error::SolveError;
use crate::progress::{
    lemma_assignment_step_progress, lemma_fresh_assignment, lemma_removal_step_progress,
    lemma_singles, lemma_weight_bounds,
};
use crate::propagation::{
    lemma_assignment_keeps_counts, lemma_first_pair, lemma_pair_slot_found,
    lemma_removal_keeps_counts,
};
use crate::puzzle::{
    lemma_assignment_step_admits, lemma_assignment_step_keeps, lemma_hidden_singles_admit,
    lemma_kept_by_itself, lemma_kept_on, lemma_more_assignments_keep, lemma_pair_admits,
    lemma_removal_step_admits, lemma_removal_step_keeps,
};
use crate::soundness::{
    lemma_assignment_step_is_sound, lemma_counts_ignore_queues, lemma_dry_is_solved,
    lemma_more_assignments_are_sound, lemma_removal_step_is_sound,
};
use vstd::prelude::*;

verus! {

/// The state that propagation ends in, or `None` where it meets an
/// assignment that the state refuses.
///
/// While a removal waits, the newest is taken and applied. Else, while an
/// assignment waits, the newest is taken and applied. Else the hidden
/// singles are queued; where there is none, the state is the answer.
pub open spec fn settle(s: Board) -> Option<Board>
    decreases s.potential(), s.backlog(),
    when s.wf() && s.consistent()
    via settle_ends
{
    if s.removals.len() > 0 {
        settle(s.after_next_removal())
    } else if s.assignments.len() > 0 {
        if s.refuses_next_assignment() {
            None
        } else {
            settle(s.after_next_assignment())
        }
    } else if s.with_hidden_singles().assignments.len() == 0 {
        Some(s)
    } else {
        settle(s.with_hidden_singles())
    }
}

#[via_fn]
proof fn settle_ends(s: Board) {
    lemma_step(s);
}

/// Whether `t` is a sound next state for `s`: in shape, with sound
/// bookkeeping, nearer to the end, and with the clues and the solutions of
/// `s` kept.
pub open spec fn advances(s: Board, t: Board) -> bool {
    &&& t.wf()
    &&& t.consistent()
    &&& 0 <= t.potential()
    &&& 0 <= t.backlog()
    &&& t.potential() < s.potential() || (t.potential() == s.potential() && t.backlog()
        < s.backlog())
    &&& s.kept_by(t)
    &&& s.solutions_kept_by(t)
}

/// Every step of propagation is a sound one, and an assignment that the
/// state refuses shows that the state has no solution.
pub proof fn lemma_step(s: Board)
    requires
        s.wf(),
        s.consistent(),
    ensures
        0 <= s.potential(),
        0 <= s.backlog(),
        s.removals.len() > 0 ==> advances(s, s.after_next_removal()),
        s.removals.len() == 0 && s.assignments.len() > 0 ==> if s.refuses_next_assignment() {
            s.has_no_solution()
        } else {
            advances(s, s.after_next_assignment())
        },
        s.idle() ==> if s.with_hidden_singles().assignments.len() == 0 {
            s.with_hidden_singles() == s
        } else {
            advances(s, s.with_hidden_singles())
        },
{
    lemma_weight_bounds(s);
    if s.removals.len() > 0 {
        let m = s.removals.last();
        assert(valid_move(s.removals[s.removals.len() - 1]));
        let u = s.without_last_removal();
        let t = u.after_removal(m.0 as int, m.1.0 as int, m.1.1 as int);
        lemma_counts_ignore_queues(s, u);
        lemma_removal_keeps_counts(u, m.0 as int, m.1.0 as int, m.1.1 as int);
        lemma_removal_step_is_sound(s);
        lemma_removal_step_progress(s);
        lemma_removal_step_keeps(s);
        lemma_weight_bounds(t);
        assert forall|f: Seq<Seq<int>>| is_solution(f) && #[trigger] s.admits(f) implies t.admits(
            f,
        ) by {
            lemma_removal_step_admits(s, f);
        }
    } else if s.assignments.len() > 0 {
        let m = s.assignments.last();
        assert(valid_move(s.assignments[s.assignments.len() - 1]));
        let u = s.without_last_assignment();
        let t = u.after_assignment(m.0 as int, m.1.0 as int, m.1.1 as int);
        assert forall|f: Seq<Seq<int>>| is_solution(f) && #[trigger] s.admits(f) implies !s.refuses(
            m.0 as int,
            m.1.0 as int,
            m.1.1 as int,
        ) && t.admits(f) by {
            lemma_assignment_step_admits(s, f);
        }
        if !s.refuses(m.0 as int, m.1.0 as int, m.1.1 as int) {
            lemma_counts_ignore_queues(s, u);
            lemma_assignment_keeps_counts(u, m.0 as int, m.1.0 as int, m.1.1 as int);
            lemma_assignment_step_is_sound(s);
            lemma_assignment_step_progress(s);
            lemma_assignment_step_keeps(s);
            lemma_weight_bounds(t);
        }
    } else {
        let t = s.with_hidden_singles();
        lemma_singles(s, 243);
        assert(t.assignments =~= s.singles_upto(243));
        lemma_more_assignments_are_sound(s, t);
        if t.assignments.len() != 0 {
            lemma_fresh_assignment(s, t);
            lemma_weight_bounds(t);
            lemma_more_assignments_keep(s, t);
            assert forall|f: Seq<Seq<int>>|
                is_solution(f) && #[trigger] s.admits(f) implies t.admits(f) by {
                lemma_hidden_singles_admit(s, f);
            }
        } else {
            assert(t.assignments =~= s.assignments);
        }
    }
}

/// Where propagation ends without a contradiction, it ends in a state in
/// shape, with sound bookkeeping, empty queues and no hidden single left,
/// whose potential is not above the one it began with, and that has kept
/// the clues and the solutions. Where it ends in a contradiction, the state
/// it began with has no solution.
pub proof fn lemma_settle(s: Board)
    requires
        s.wf(),
        s.consistent(),
    ensures
        settle(s) matches Some(t) ==> {
            &&& t.wf()
            &&& t.consistent()
            &&& t.idle()
            &&& t.with_hidden_singles() == t
            &&& t.potential() <= s.potential()
            &&& s.kept_by(t)
            &&& s.solutions_kept_by(t)
        },
        settle(s) is None ==> s.has_no_solution(),
    decreases s.potential(), s.backlog(),
{
    lemma_step(s);
    lemma_kept_by_itself(s);
    if s.removals.len() > 0 {
        let n = s.after_next_removal();
        lemma_settle(n);
        lemma_settle_on(s, n);
    } else if s.assignments.len() > 0 {
        if !s.refuses_next_assignment() {
            let n = s.after_next_assignment();
            lemma_settle(n);
            lemma_settle_on(s, n);
        }
    } else if s.with_hidden_singles().assignments.len() != 0 {
        let n = s.with_hidden_singles();
        lemma_settle(n);
        lemma_settle_on(s, n);
    }
}

/// What propagation keeps from a next state on, it keeps from the state
/// before.
proof fn lemma_settle_on(s: Board, n: Board)
    requires
        s.wf(),
        advances(s, n),
        settle(n) matches Some(t) ==> n.kept_by(t) && n.solutions_kept_by(t),
        settle(n) is None ==> n.has_no_solution(),
    ensures
        settle(n) matches Some(t) ==> s.kept_by(t) && s.solutions_kept_by(t),
        settle(n) is None ==> s.has_no_solution(),
{
    match settle(n) {
        Some(t) => {
            lemma_kept_on(s, n, t);
            assert forall|f: Seq<Seq<int>>|
                is_solution(f) && #[trigger] s.admits(f) implies t.admits(f) by {
                assert(n.admits(f));
            }
        },
        None => {
            assert forall|f: Seq<Seq<int>>| is_solution(f) implies !#[trigger] s.admits(f) by {
                if s.admits(f) {
                    assert(n.admits(f));
                }
            }
        },
    }
}

/// What solving ends in: the solved state, or the reason why there is none.
///
/// Propagation comes first, and its contradiction is the answer where it
/// meets one. A state that it leaves without candidates is the answer. Else
/// the first counter that stands at two names a digit and two cells, and
/// the answer is that of the state with the digit assigned to the first
/// cell; only where that one is a contradiction, it is the answer of the
/// state with the digit assigned to the second cell. Where no counter
/// stands at two there is nothing to guess on.
pub open spec fn search(s: Board) -> Result<Board, SolveError>
    decreases s.potential(),
    when s.wf() && s.consistent()
    via search_ends
{
    match settle(s) {
        None => Err(SolveError::Contradiction),
        Some(t) => if t.exhausted() {
            Ok(t)
        } else if t.pair_slot() == 243 {
            Err(SolveError::InternalInvariantViolation)
        } else {
            match search(t.with_assignment(t.first_pair().0)) {
                Ok(u) => Ok(u),
                Err(SolveError::Contradiction) => search(t.with_assignment(t.first_pair().1)),
                Err(SolveError::InternalInvariantViolation) => Err(
                    SolveError::InternalInvariantViolation,
                ),
            }
        },
    }
}

/// The outcome of solving, one step unfolded.
pub proof fn lemma_search_unfolds(s: Board)
    requires
        s.wf(),
        s.consistent(),
    ensures
        search(s) == match settle(s) {
            None => Err::<Board, SolveError>(SolveError::Contradiction),
            Some(t) => if t.exhausted() {
                Ok(t)
            } else if t.pair_slot() == 243 {
                Err(SolveError::InternalInvariantViolation)
            } else {
                match search(t.with_assignment(t.first_pair().0)) {
                    Ok(u) => Ok(u),
                    Err(SolveError::Contradiction) => search(t.with_assignment(t.first_pair().1)),
                    Err(SolveError::InternalInvariantViolation) => Err(
                        SolveError::InternalInvariantViolation,
                    ),
                }
            },
        },
{
    lemma_guess(s);
}

#[via_fn]
proof fn search_ends(s: Board) {
    lemma_guess(s);
}

/// Where propagation stalls on a state that has a counter at two, the state
/// with either of the two moves queued is in shape, its bookkeeping is
/// sound, and its potential is below the one that solving began with.
pub proof fn lemma_guess(s: Board)
    requires
        s.wf(),
        s.consistent(),
    ensures
        0 <= s.potential(),
        settle(s) matches Some(t) ==> t.pair_slot() != 243 ==> {
            &&& t.with_assignment(t.first_pair().0).wf()
            &&& t.with_assignment(t.first_pair().0).consistent()
            &&& 0 <= t.with_assignment(t.first_pair().0).potential() < s.potential()
            &&& t.with_assignment(t.first_pair().1).wf()
            &&& t.with_assignment(t.first_pair().1).consistent()
            &&& 0 <= t.with_assignment(t.first_pair().1).potential() < s.potential()
        },
{
    lemma_weight_bounds(s);
    lemma_settle(s);
    match settle(s) {
        Some(t) => {
            lemma_pair_slot_found(t, 0);
            if t.pair_slot() < 243 {
                lemma_first_pair(t);
                let a = t.with_assignment(t.first_pair().0);
                let b = t.with_assignment(t.first_pair().1);
                lemma_more_assignments_are_sound(t, a);
                lemma_more_assignments_are_sound(t, b);
                lemma_fresh_assignment(t, a);
                lemma_fresh_assignment(t, b);
                lemma_weight_bounds(a);
                lemma_weight_bounds(b);
            }
        },
        None => {},
    }
}

/// Where solving ends in a state, the state is in shape, a finished Sudoku
/// with empty queues, and it has kept the clues. Where solving ends in a
/// contradiction, the state it began with has no solution.
pub proof fn lemma_search(s: Board)
    requires
        s.wf(),
        s.consistent(),
    ensures
        search(s) matches Ok(t) ==> t.wf() && t.solved() && t.idle() && s.kept_by(t),
        search(s) == Err::<Board, SolveError>(SolveError::Contradiction) ==> s.has_no_solution(),
    decreases s.potential(),
{
    lemma_guess(s);
    lemma_settle(s);
    lemma_search_unfolds(s);
    match settle(s) {
        Some(t) => {
            lemma_pair_slot_found(t, 0);
            if t.exhausted() {
                lemma_dry_is_solved(t);
            } else if t.pair_slot() != 243 {
                lemma_first_pair(t);
                let first = t.first_pair().0;
                let second = t.first_pair().1;
                let a = t.with_assignment(first);
                let b = t.with_assignment(second);
                lemma_more_assignments_keep(t, a);
                lemma_more_assignments_keep(t, b);
                lemma_search(a);
                match search(a) {
                    Ok(u) => {
                        lemma_kept_on(t, a, u);
                        lemma_kept_on(s, t, u);
                    },
                    Err(SolveError::Contradiction) => {
                        lemma_search(b);
                        match search(b) {
                            Ok(u) => {
                                lemma_kept_on(t, b, u);
                                lemma_kept_on(s, t, u);
                            },
                            Err(SolveError::Contradiction) => {
                                assert forall|f: Seq<Seq<int>>| is_solution(f) implies !#[trigger] s.admits(
                                    f,
                                ) by {
                                    if s.admits(f) {
                                        assert(t.admits(f));
                                        lemma_pair_admits(
                                            t,
                                            f,
                                            t.pair_slot() / 9,
                                            t.pair_slot() % 9 + 1,
                                            first,
                                            second,
                                        );
                                    }
                                }
                            },
                            Err(SolveError::InternalInvariantViolation) => {},
                        }
                    },
                    Err(SolveError::InternalInvariantViolation) => {},
                }
            }
        },
        None => {},
    }
}

} // verus!
