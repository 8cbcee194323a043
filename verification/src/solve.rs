//! Solving: propagation to a fixed point, then a guess on a digit that has
//! two places left, tried on a copy of the grid.

use crate::board::{valid_move, Board};
use crate::candidates::marked;
use crate::error::SolveError;
use crate::grid::Grid;
use crate::progress::{lemma_fresh_assignment, lemma_weight_bounds};
use crate::propagation::lemma_first_pair;
use crate::search::{
    lemma_guess, lemma_search, lemma_search_unfolds, lemma_settle, lemma_step, search, settle,
};
use crate::soundness::lemma_counts_ignore_queues;
use vstd::prelude::*;

verus! {

impl Grid {
    /// Works both queues off and looks for hidden singles, again and again,
    /// until the queues are empty and no hidden single is found.
    ///
    /// Removals are taken before assignments. An assignment that the grid
    /// refuses ends the attempt with a contradiction: no filled grid that
    /// obeys the rules was open to the grid. On success the bookkeeping is
    /// sound, the queues are empty, no hidden single is left, what was
    /// settled and asked for has been kept, and so has every solution.
    pub fn propagate(&mut self) -> (r: Result<(), SolveError>)
        requires
            old(self)@.wf(),
            old(self)@.consistent(),
        ensures
            final(self)@.wf(),
            match settle(old(self)@) {
                Some(t) => r is Ok && final(self)@ == t,
                None => r == Err::<(), SolveError>(SolveError::Contradiction),
            },
            r is Ok ==> {
                &&& final(self)@.consistent()
                &&& final(self)@.idle()
                &&& final(self)@.with_hidden_singles() == final(self)@
                &&& final(self)@.potential() <= old(self)@.potential()
                &&& old(self)@.kept_by(final(self)@)
                &&& old(self)@.solutions_kept_by(final(self)@)
            },
            r is Err ==> old(self)@.has_no_solution(),
    {
        loop
            invariant
                old(self)@.wf(),
                old(self)@.consistent(),
                self@.wf(),
                self@.consistent(),
                settle(self@) == settle(old(self)@),
            ensures
                self@.wf(),
                settle(old(self)@) == Some(self@),
            decreases self@.potential(), self@.backlog(),
        {
            let ghost before = self@;
            proof {
                lemma_step(before);
            }
            if let Some((digit, index)) = self.pop_removal() {
                proof {
                    assert(valid_move(before.removals[before.removals.len() - 1]));
                    lemma_counts_ignore_queues(before, self@);
                }
                let _ = self.del_maybe(digit, index);
            } else if let Some((digit, index)) = self.pop_assignment() {
                proof {
                    assert(valid_move(before.assignments[before.assignments.len() - 1]));
                    lemma_counts_ignore_queues(before, self@);
                }
                match self.set_cell(digit, index) {
                    Ok(()) => {},
                    Err(e) => {
                        proof {
                            lemma_settle(old(self)@);
                        }
                        return Err(e);
                    },
                }
            } else {
                // Attempt to detect any cells where it is the only possible option of a
                // row/column/block, even if it itself has multiple possibilities.
                self.find_hidden_singles();
                if self.pending_assignments() == 0 {
                    // Solver has exhausted its capabilities
                    break ;
                }
            }
        }
        proof {
            lemma_settle(old(self)@);
        }
        Ok(())
    }

    /// Tries the first of the two places that are left for `digit` on a copy
    /// of the grid, and solves the copy.
    ///
    /// Where the copy is solved the grid takes its state and `Ok(true)` is
    /// returned. Where the copy ends in a contradiction, no solution has the
    /// digit at the first place; the grid is as it was, but for the
    /// assignment of `digit` to the second place, which is queued, and
    /// `Ok(false)` is returned. Where the copy cannot be finished the grid
    /// is as it was and the error is handed on.
    pub fn try_branch(&mut self, digit: usize, pair: [(usize, usize); 2]) -> (r: Result<
        bool,
        SolveError,
    >)
        requires
            old(self)@.wf(),
            old(self)@.consistent(),
            old(self)@.idle(),
            valid_move((digit, pair[0])),
            valid_move((digit, pair[1])),
            marked(old(self)@.maybe[pair[0].0 as int][pair[0].1 as int], digit as int),
            marked(old(self)@.maybe[pair[1].0 as int][pair[1].1 as int], digit as int),
        ensures
            final(self)@.wf(),
            match search(old(self)@.with_assignment((digit, pair[0]))) {
                Ok(u) => r == Ok::<bool, SolveError>(true) && final(self)@ == u,
                Err(SolveError::Contradiction) => {
                    &&& r == Ok::<bool, SolveError>(false)
                    &&& final(self)@ == old(self)@.with_assignment((digit, pair[1]))
                },
                Err(SolveError::InternalInvariantViolation) => {
                    &&& r == Err::<bool, SolveError>(SolveError::InternalInvariantViolation)
                    &&& final(self)@ == old(self)@
                },
            },
            r == Ok::<bool, SolveError>(true) ==> {
                &&& final(self)@.solved()
                &&& final(self)@.idle()
                &&& old(self)@.with_assignment((digit, pair[0])).kept_by(final(self)@)
            },
            r == Ok::<bool, SolveError>(false) ==> old(self)@.with_assignment(
                (digit, pair[0]),
            ).has_no_solution(),
        decreases old(self)@.potential(), 0int,
    {
        let mut hypothetical = self.clone();
        hypothetical.push_assignment(digit, pair[0]);
        proof {
            lemma_fresh_assignment(self@, hypothetical@);
            lemma_weight_bounds(hypothetical@);
        }
        match hypothetical.solve() {
            Ok(()) => {
                // Guess was correct and a solution was found.
                *self = hypothetical;
                Ok(true)
            },
            Err(SolveError::Contradiction) => {
                // Hypothetical guess failed, thus the other of the binary possibility must be
                // correct.
                self.push_assignment(digit, pair[1]);
                Ok(false)
            },
            Err(SolveError::InternalInvariantViolation) => Err(
                SolveError::InternalInvariantViolation,
            ),
        }
    }

    /// Attempt to solve the grid, returning `Ok(())` on success.
    ///
    /// On success the grid is a finished Sudoku with its bookkeeping run
    /// dry, every cell that was filled has kept its digit, and every
    /// assignment that was queued has been carried out. A contradiction says
    /// that no filled grid that obeys the rules was open to the grid. After
    /// an error the grid is still in shape, so that `to_str` and
    /// `verify_solution` can be called on it, but its contents are not
    /// specified.
    pub fn solve(&mut self) -> (r: Result<(), SolveError>)
        requires
            old(self)@.wf(),
            old(self)@.consistent(),
        ensures
            final(self)@.wf(),
            match search(old(self)@) {
                Ok(u) => r is Ok && final(self)@ == u,
                Err(e) => r == Err::<(), SolveError>(e),
            },
            r is Ok ==> {
                &&& final(self)@.solved()
                &&& final(self)@.idle()
                &&& old(self)@.kept_by(final(self)@)
            },
            r == Err::<(), SolveError>(SolveError::Contradiction) ==> old(self)@.has_no_solution(),
        decreases old(self)@.potential(), 1int,
    {
        loop
            invariant
                old(self)@.wf(),
                old(self)@.consistent(),
                self@.wf(),
                self@.consistent(),
                self@.potential() <= old(self)@.potential(),
                search(self@) == search(old(self)@),
            decreases self@.potential(),
        {
            let ghost begun = self@;
            proof {
                lemma_search(old(self)@);
                lemma_guess(begun);
                lemma_search_unfolds(begun);
            }
            // Begin solving through elimination and hidden singles in a loop.
            match self.propagate() {
                Ok(()) => {},
                Err(e) => {
                    return Err(e);
                },
            }
            if self.is_exhausted() {
                // Grid has been solved, return
                return Ok(());
            }
            // Make a binary guess and use process of elimination to pick the correct one
            // (binary tree nav style)

            match self.find_maybe_pair() {
                None => {
                    return Err(SolveError::InternalInvariantViolation);
                },
                Some((pair_digit, pair_indecies)) => {
                    proof {
                        lemma_first_pair(self@);
                    }
                    match self.try_branch(pair_digit, pair_indecies) {
                        Ok(true) => {
                            return Ok(());
                        },
                        Ok(false) => {},
                        Err(e) => {
                            return Err(e);
                        },
                    }
                },
            }
        }
    }
}

} // verus!
