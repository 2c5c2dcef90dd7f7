# dp_cache

Top-down dynamic programming with pluggable memoisation, verified with Verus.

A problem maps each input to a state: either a base answer, or the list of
sub-problems whose answers make up this one. A runner solves an input by
recursion over the sub-problems, asking its solver for remembered answers
first and storing the ones it computes.

- `src/cache.rs`: cache policies (`CacheAll`, `NoCache`, `CacheVec`,
  `CacheArray`), each specified by the map of entries it holds.
- `src/collecting.rs`: magmas, monoids, `Sum`, and reducers; `ReduceByMagma`
  is the left fold of a non-empty sequence.
- `src/dp/`: solvers (`SolverFactory`, `Function`, `FunctionWithCache`), the
  `DP` interface, and the two runners: `SimpleDPRunner` (one magma for every
  state) and `TopDownDP` (each state carries its own reducer). A problem is
  described by what its closure may return (`call_ensures`); a runner's
  answer is one the problem gives by its recursive definition, whatever the
  cache, and the proof functions there state the recurrence, that answers are
  unique for deterministic problems (so memoising never changes one), and
  that a top-down solver folding with a magma agrees with the simple one.
- `src/wrap_unsafe/`: building a vector slot by slot.
- `app/`: timing helpers, which print.

## Design notes

- Sub-problem lists (`State::Intermediate`'s `dependent`, the argument of
  `Reducer::reduce`, the vector built in `wrap_unsafe`) are plain `Vec`s, and
  the contracts require them non-empty where an empty one would have no
  answer. A `non_empty_vec::NonEmpty` in their place would be opaque to
  Verus: its contents could only be named by a generic, unproved
  specification function, which this project does not admit, while vstd
  specifies what a `Vec` holds.
- Solving and storing take `&mut self` (`DP::dp`, `ProblemProxy::compute`,
  `ProblemProxy::update_cache`): Verus does not support `RefCell`, and a
  mutable borrow lets the contracts say exactly how the memo changes.
- Answers, base answers and cache values are `Copy`: Verus knows nothing of
  what a generic `clone` returns, and the contracts promise that a base answer
  is returned and stored as it is.
- `tap_non_empty_uninit_vec` builds its vector slot by slot from a safe
  generator, `tap(index)`, in place of handing out uninitialised memory.
- `StateExtractor` is implemented for `&S`, `Box<S>`, `Rc<S>` and `Arc<S>`
  by forwarding to `S`; a blanket implementation over `Deref` would rest on
  a `deref` that Verus gives no specification.
- With a cache that keeps what it is given and a problem that gives each
  input one state, a run stores exactly the inputs it reaches without looking
  into one already stored, plus its root when the root has a base answer
  (`stored_by_run`); an intermediate root is never stored by its own run
  (`lemma_root_not_reached`).
