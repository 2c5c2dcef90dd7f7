//! The interface of a dynamic-programming solver.
use vstd::prelude::*;

verus! {

pub trait DP<Index, Answer> {
    type State;

    /// Whether the solver is in a state its operations rely on.
    spec fn wf(&self) -> bool;

    /// Whether solving `index` completes: every input it reaches is accepted,
    /// the recursion ends, and every operation it takes may be taken.
    spec fn solvable(&self, index: Index) -> bool;

    /// `answer` is an answer to `index` that the problem gives.
    spec fn is_answer(&self, index: Index, answer: Answer) -> bool;

    /// The answers the solver remembers.
    spec fn memo(&self) -> Map<Index, Answer>;

    /// Whether the solver remembers every answer it is given.
    spec fn keeps(&self) -> bool;

    /// Solves `index`. What is solvable and what the answers are stay as
    /// they were, so repeated calls agree; the solver only ever remembers
    /// answers, and forgets none when it keeps them.
    fn dp(&mut self, index: Index) -> (r: Answer)
        requires
            old(self).wf(),
            old(self).solvable(index),
        ensures
            final(self).wf(),
            old(self).is_answer(index, r),
            forall|j: Index| #[trigger] final(self).solvable(j) == old(self).solvable(j),
            forall|j: Index, a: Answer| #[trigger]
                final(self).is_answer(j, a) == old(self).is_answer(j, a),
            forall|k: Index| #[trigger]
                final(self).memo().contains_key(k) ==> old(self).is_answer(k, final(self).memo()[k]),
            final(self).keeps() == old(self).keeps(),
            old(self).keeps() ==> old(self).memo().dom().subset_of(final(self).memo().dom()),
    ;
}

} // verus!
