//! A solver whose sub-answers are always reduced by one magma.
use std::marker::PhantomData;
use vstd::prelude::*;
use crate::collecting::folds_to;
use crate::collecting::fold_safe;
use crate::collecting::lemma_folds_to_unique;
use crate::collecting::magma_deterministic;
use crate::collecting::Magma;
use crate::collecting::ReduceByMagma;
use crate::collecting::Reducer;
use crate::dp::get_state::ProblemProxy;
use crate::dp::reach::closed_under;
use crate::dp::reach::edges_deterministic;
use crate::dp::reach::lemma_prefix_full;
use crate::dp::reach::lemma_prefix_held;
use crate::dp::reach::lemma_prefix_run;
use crate::dp::reach::list_reaches;
use crate::dp::reach::prefix_reached;
use crate::dp::reach::reached;
use crate::dp::reach::reaches;
use crate::dp::state::StateExtractor;
use crate::dp::traits::DP;

verus! {

/// What a problem gives for an input: an answer, or the inputs whose answers
/// make up this one.
#[derive(Debug, Eq, PartialEq, Clone)]
pub enum State<I, R> {
    Base { base_result: R },
    /// The sub-problems, a non-empty list; an input whose list is empty has
    /// no answer.
    Intermediate { dependent: Vec<I> },
}

impl<I, R: Copy> StateExtractor<R> for State<I, R> {
    open spec fn spec_value(&self) -> Option<R> {
        match self {
            State::Base { base_result } => Some(*base_result),
            State::Intermediate { .. } => None,
        }
    }

    fn get_value(&self) -> (r: Option<R>) {
        match self {
            State::Base { base_result } => Some(*base_result),
            State::Intermediate { .. } => None,
        }
    }
}

/// `r` is an answer to `i` found within recursion depth `fuel`, when the
/// problem's states are those `yields` allows and answers are stored only for
/// inputs in `dom`: the problem may give `i` a state from which `r` follows.
pub open spec fn produces<I, R, M: Magma<R>>(
    yields: spec_fn(I, State<I, R>) -> bool,
    m: M,
    dom: Set<I>,
    i: I,
    r: R,
    fuel: nat,
) -> bool
    decreases fuel, 2nat,
{
    if fuel == 0 {
        false
    } else {
        exists|s: State<I, R>| #[trigger]
            yields(i, s) && state_produces(yields, m, dom, i, s, r, (fuel - 1) as nat)
    }
}

/// `r` follows from the state `s` of input `i`: it is the base answer (which
/// is stored, so `i` is in `dom`), or a left fold under `m` of answers to the
/// sub-problems, in their order, found within depth `fuel` (each is stored,
/// so in `dom`). The answer of the input asked for is not stored.
pub open spec fn state_produces<I, R, M: Magma<R>>(
    yields: spec_fn(I, State<I, R>) -> bool,
    m: M,
    dom: Set<I>,
    i: I,
    s: State<I, R>,
    r: R,
    fuel: nat,
) -> bool
    decreases fuel + 1, 1nat,
{
    match s {
        State::Base { base_result } => dom.contains(i) && r == base_result,
        State::Intermediate { dependent } => exists|vals: Seq<R>| #[trigger]
            folds_to(m, vals, r) && vals_produced(yields, m, dom, dependent@, vals, fuel),
    }
}

/// `vals` are answers, found within depth `fuel`, to the stored inputs `deps`.
pub open spec fn vals_produced<I, R, M: Magma<R>>(
    yields: spec_fn(I, State<I, R>) -> bool,
    m: M,
    dom: Set<I>,
    deps: Seq<I>,
    vals: Seq<R>,
    fuel: nat,
) -> bool
    decreases fuel + 1, 0nat,
{
    &&& vals.len() == deps.len()
    &&& forall|k: int| #![trigger deps[k]]
        0 <= k < vals.len() ==> dom.contains(deps[k]) && produces(
            yields,
            m,
            dom,
            deps[k],
            vals[k],
            fuel,
        )
}

/// `r` is an answer to `i` (see `produces`), at some depth.
pub open spec fn answers<I, R, M: Magma<R>>(
    yields: spec_fn(I, State<I, R>) -> bool,
    m: M,
    dom: Set<I>,
    i: I,
    r: R,
) -> bool {
    exists|fuel: nat| #[trigger] produces(yields, m, dom, i, r, fuel)
}

/// Solving `i` completes within recursion depth `fuel`, whatever states the
/// problem gives: `i` is accepted, and every state it may be given is safe.
pub open spec fn safe<I, R, M: Magma<R>>(
    accepts: spec_fn(I) -> bool,
    yields: spec_fn(I, State<I, R>) -> bool,
    m: M,
    dom: Set<I>,
    i: I,
    fuel: nat,
) -> bool
    decreases fuel, 1nat,
{
    if fuel == 0 {
        false
    } else {
        &&& accepts(i)
        &&& forall|s: State<I, R>| #[trigger]
            yields(i, s) ==> state_safe(accepts, yields, m, dom, i, s, (fuel - 1) as nat)
    }
}

/// Solving from state `s` of input `i` completes: a base answer may be
/// stored (`i` is in `dom`); a sub-problem list is non-empty, each
/// sub-problem may be stored and is solved safely within depth `fuel`, and
/// the fold of every possible list of their answers may be taken.
pub open spec fn state_safe<I, R, M: Magma<R>>(
    accepts: spec_fn(I) -> bool,
    yields: spec_fn(I, State<I, R>) -> bool,
    m: M,
    dom: Set<I>,
    i: I,
    s: State<I, R>,
    fuel: nat,
) -> bool
    decreases fuel + 1, 0nat,
{
    match s {
        State::Base { .. } => dom.contains(i),
        State::Intermediate { dependent } => {
            &&& dependent@.len() >= 1
            &&& forall|k: int| #![trigger dependent@[k]]
                0 <= k < dependent@.len() ==> dom.contains(dependent@[k]) && safe(
                    accepts,
                    yields,
                    m,
                    dom,
                    dependent@[k],
                    fuel,
                )
            &&& forall|vals: Seq<R>|
                vals.len() == dependent@.len() && (forall|k: int|
                    0 <= k < vals.len() ==> #[trigger] answers(
                        yields,
                        m,
                        dom,
                        dependent@[k],
                        vals[k],
                    )) ==> #[trigger] fold_safe(m, vals)
        },
    }
}

/// Solving `i` completes (see `safe`), at some depth.
pub open spec fn problem_solvable<I, R, M: Magma<R>>(
    accepts: spec_fn(I) -> bool,
    yields: spec_fn(I, State<I, R>) -> bool,
    m: M,
    dom: Set<I>,
    i: I,
) -> bool {
    exists|fuel: nat| #[trigger] safe(accepts, yields, m, dom, i, fuel)
}

/// Every answer the memo holds is an answer the problem gives.
pub open spec fn memo_consistent<I, R, M: Magma<R>>(
    yields: spec_fn(I, State<I, R>) -> bool,
    m: M,
    dom: Set<I>,
    memo: Map<I, R>,
) -> bool {
    forall|k: I| #[trigger] memo.contains_key(k) ==> answers(yields, m, dom, k, memo[k])
}

/// Two states say the same: equal base answers, or sub-problem lists with
/// equal items.
pub open spec fn same_state<I, R>(s1: State<I, R>, s2: State<I, R>) -> bool {
    match (s1, s2) {
        (State::Base { base_result: a }, State::Base { base_result: b }) => a == b,
        (State::Intermediate { dependent: d1 }, State::Intermediate { dependent: d2 }) => d1@
            == d2@,
        _ => false,
    }
}

/// Every state the problem may give for an input says the same.
pub open spec fn yields_deterministic<I, R>(yields: spec_fn(I, State<I, R>) -> bool) -> bool {
    forall|i: I, s1: State<I, R>, s2: State<I, R>| #[trigger]
        yields(i, s1) && #[trigger] yields(i, s2) ==> same_state(s1, s2)
}

/// The sub-problem lists the problem may give each input.
pub open spec fn sub_problems<I, R>(yields: spec_fn(I, State<I, R>) -> bool) -> spec_fn(
    I,
    Seq<I>,
) -> bool {
    |x: I, d: Seq<I>|
        exists|dependent: Vec<I>| #[trigger]
            yields(x, State::Intermediate { dependent }) && dependent@ == d
}

/// The inputs whose answers a run on `i` stores, when answers are already
/// stored for `known`: what `i` reaches without looking into an input whose
/// answer is stored, and `i` itself where its answer is a base answer.
pub open spec fn stored_by_run<I, R>(
    yields: spec_fn(I, State<I, R>) -> bool,
    known: Set<I>,
    i: I,
) -> Set<I> {
    reached(sub_problems(yields), known, i).union(
        Set::new(
            |x: I| x == i && exists|b: R| #[trigger] yields(i, State::Base { base_result: b }),
        ),
    )
}

/// A problem whose states for an input all say the same gives each input at
/// most one sub-problem list.
proof fn lemma_sub_problems_deterministic<I, R>(yields: spec_fn(I, State<I, R>) -> bool)
    requires
        yields_deterministic(yields),
    ensures
        edges_deterministic(sub_problems(yields)),
{
    assert forall|x: I, d1: Seq<I>, d2: Seq<I>| #[trigger]
        sub_problems(yields)(x, d1) && #[trigger] sub_problems(yields)(x, d2) implies d1 == d2 by {
        let v1 = choose|dependent: Vec<I>| #[trigger]
            yields(x, State::Intermediate { dependent }) && dependent@ == d1;
        let v2 = choose|dependent: Vec<I>| #[trigger]
            yields(x, State::Intermediate { dependent }) && dependent@ == d2;
        assert(same_state(
            State::<I, R>::Intermediate { dependent: v1 },
            State::<I, R>::Intermediate { dependent: v2 },
        ));
    }
}

/// A run on an input with a base answer stores that input alone.
proof fn lemma_stored_by_base<I, R>(
    yields: spec_fn(I, State<I, R>) -> bool,
    known: Set<I>,
    i: I,
    b: R,
)
    requires
        yields_deterministic(yields),
        yields(i, State::Base { base_result: b }),
    ensures
        stored_by_run(yields, known, i) == Set::<I>::empty().insert(i),
{
    assert forall|y: I| !#[trigger] reached(sub_problems(yields), known, i).contains(y) by {
        if reached(sub_problems(yields), known, i).contains(y) {
            let f = choose|f: nat| #[trigger] reaches(sub_problems(yields), known, i, y, f);
            let d = choose|d: Seq<I>| #[trigger]
                sub_problems(yields)(i, d) && list_reaches(
                    sub_problems(yields),
                    known,
                    d,
                    y,
                    (f - 1) as nat,
                );
            let v = choose|dependent: Vec<I>| #[trigger]
                yields(i, State::Intermediate { dependent }) && dependent@ == d;
            assert(same_state(
                State::<I, R>::Base { base_result: b },
                State::<I, R>::Intermediate { dependent: v },
            ));
        }
    }
    assert(stored_by_run(yields, known, i) =~= Set::<I>::empty().insert(i));
}

/// A run on an input with sub-problems `dependent` stores what the input
/// reaches, which is what the list and its items reach.
proof fn lemma_stored_by_list<I, R>(
    yields: spec_fn(I, State<I, R>) -> bool,
    known: Set<I>,
    i: I,
    dependent: Vec<I>,
)
    requires
        yields_deterministic(yields),
        yields(i, State::Intermediate { dependent }),
    ensures
        stored_by_run(yields, known, i) == prefix_reached(
            sub_problems(yields),
            known,
            dependent@,
            dependent@.len() as int,
        ),
{
    lemma_sub_problems_deterministic(yields);
    assert(sub_problems(yields)(i, dependent@));
    lemma_prefix_full(sub_problems(yields), known, i, dependent@);
    assert forall|b: R| !#[trigger] yields(i, State::Base { base_result: b }) by {
        if yields(i, State::Base { base_result: b }) {
            assert(same_state(
                State::<I, R>::Base { base_result: b },
                State::<I, R>::Intermediate { dependent },
            ));
        }
    }
    assert(stored_by_run(yields, known, i) =~= reached(sub_problems(yields), known, i));
}

/// A sub-problem not yet stored, run from what is stored and then offered to
/// the cache, leaves stored what the items up to it reach.
proof fn lemma_stored_after_run<I, R>(
    yields: spec_fn(I, State<I, R>) -> bool,
    base: Set<I>,
    c: Set<I>,
    c1: Set<I>,
    c2: Set<I>,
    d: Seq<I>,
    n: int,
)
    requires
        0 <= n < d.len(),
        base.subset_of(c),
        closed_under(sub_problems(yields), base, c),
        c == base.union(prefix_reached(sub_problems(yields), base, d, n)),
        !c.contains(d[n]),
        c1 == c.union(stored_by_run(yields, c, d[n])),
        c2 == c1.insert(d[n]),
    ensures
        c2 == base.union(prefix_reached(sub_problems(yields), base, d, n + 1)),
        closed_under(sub_problems(yields), base, c2),
{
    assert(c2 =~= c.union(reached(sub_problems(yields), c, d[n])).insert(d[n]));
    lemma_prefix_run(sub_problems(yields), base, c, d, n);
}

/// More depth finds the same answers.
proof fn lemma_produces_mono<I, R, M: Magma<R>>(
    yields: spec_fn(I, State<I, R>) -> bool,
    m: M,
    dom: Set<I>,
    i: I,
    r: R,
    f: nat,
    g: nat,
)
    requires
        produces(yields, m, dom, i, r, f),
        f <= g,
    ensures
        produces(yields, m, dom, i, r, g),
    decreases f,
{
    let s = choose|s: State<I, R>| #[trigger]
        yields(i, s) && state_produces(yields, m, dom, i, s, r, (f - 1) as nat);
    match s {
        State::Base { .. } => {
            assert(state_produces(yields, m, dom, i, s, r, (g - 1) as nat));
        },
        State::Intermediate { dependent } => {
            let vals = choose|vals: Seq<R>| #[trigger]
                folds_to(m, vals, r) && vals_produced(yields, m, dom, dependent@, vals, (f - 1) as nat);
            assert forall|k: int| #![trigger dependent@[k]] 0 <= k < vals.len() implies dom.contains(
                dependent@[k],
            ) && produces(yields, m, dom, dependent@[k], vals[k], (g - 1) as nat) by {
                lemma_produces_mono(
                    yields,
                    m,
                    dom,
                    dependent@[k],
                    vals[k],
                    (f - 1) as nat,
                    (g - 1) as nat,
                );
            }
            assert(vals_produced(yields, m, dom, dependent@, vals, (g - 1) as nat));
            assert(state_produces(yields, m, dom, i, s, r, (g - 1) as nat));
        },
    }
}

/// Answers to each of the first `n` items of `deps` are all found within one
/// common depth.
proof fn lemma_common_fuel<I, R, M: Magma<R>>(
    yields: spec_fn(I, State<I, R>) -> bool,
    m: M,
    dom: Set<I>,
    deps: Seq<I>,
    vals: Seq<R>,
    n: int,
) -> (fuel: nat)
    requires
        0 <= n <= vals.len(),
        vals.len() == deps.len(),
        forall|k: int| 0 <= k < n ==> #[trigger] answers(yields, m, dom, deps[k], vals[k]),
    ensures
        forall|k: int| 0 <= k < n ==> #[trigger] produces(yields, m, dom, deps[k], vals[k], fuel),
    decreases n,
{
    if n == 0 {
        0
    } else {
        let f0 = lemma_common_fuel(yields, m, dom, deps, vals, n - 1);
        assert(answers(yields, m, dom, deps[n - 1], vals[n - 1]));
        let f1 = choose|fuel: nat| #[trigger] produces(yields, m, dom, deps[n - 1], vals[n - 1], fuel);
        let g = if f0 <= f1 {
            f1
        } else {
            f0
        };
        assert forall|k: int| 0 <= k < n implies #[trigger] produces(
            yields,
            m,
            dom,
            deps[k],
            vals[k],
            g,
        ) by {
            if k < n - 1 {
                lemma_produces_mono(yields, m, dom, deps[k], vals[k], f0, g);
            } else {
                lemma_produces_mono(yields, m, dom, deps[k], vals[k], f1, g);
            }
        }
        g
    }
}

/// `r` follows from the state `s` of input `i` by answers to its
/// sub-problems: it is the base answer (and `i` may be stored), or the left
/// fold under `m`, in order, of answers to the sub-problems, all of which may
/// be stored.
pub open spec fn state_answers<I, R, M: Magma<R>>(
    yields: spec_fn(I, State<I, R>) -> bool,
    m: M,
    dom: Set<I>,
    i: I,
    s: State<I, R>,
    r: R,
) -> bool {
    match s {
        State::Base { base_result } => dom.contains(i) && r == base_result,
        State::Intermediate { dependent } => exists|vals: Seq<R>| #[trigger]
            folds_to(m, vals, r) && vals.len() == dependent@.len() && forall|k: int|
                #![trigger dependent@[k]]
                0 <= k < vals.len() ==> dom.contains(dependent@[k]) && answers(
                    yields,
                    m,
                    dom,
                    dependent@[k],
                    vals[k],
                ),
    }
}

/// The answers satisfy the recurrence the solver is built on: `r` answers
/// `i` exactly when the problem may give `i` a state from which `r` follows
/// by answers to its sub-problems (see `state_answers`).
pub proof fn lemma_answer_recurrence<I, R, M: Magma<R>>(
    yields: spec_fn(I, State<I, R>) -> bool,
    m: M,
    dom: Set<I>,
    i: I,
    r: R,
)
    ensures
        answers(yields, m, dom, i, r) <==> exists|s: State<I, R>| #[trigger]
            yields(i, s) && state_answers(yields, m, dom, i, s, r),
{
    if answers(yields, m, dom, i, r) {
        let f = choose|fuel: nat| #[trigger] produces(yields, m, dom, i, r, fuel);
        let s = choose|s: State<I, R>| #[trigger]
            yields(i, s) && state_produces(yields, m, dom, i, s, r, (f - 1) as nat);
        match s {
            State::Base { .. } => {},
            State::Intermediate { dependent } => {
                let vals = choose|vals: Seq<R>| #[trigger]
                    folds_to(m, vals, r) && vals_produced(
                        yields,
                        m,
                        dom,
                        dependent@,
                        vals,
                        (f - 1) as nat,
                    );
                assert forall|k: int| #![trigger dependent@[k]] 0 <= k < vals.len() implies dom.contains(
                    dependent@[k],
                ) && answers(yields, m, dom, dependent@[k], vals[k]) by {
                    assert(produces(yields, m, dom, dependent@[k], vals[k], (f - 1) as nat));
                }
            },
        }
        assert(state_answers(yields, m, dom, i, s, r));
    } else {
        if exists|s: State<I, R>| #[trigger] yields(i, s) && state_answers(yields, m, dom, i, s, r) {
            let s = choose|s: State<I, R>| #[trigger]
                yields(i, s) && state_answers(yields, m, dom, i, s, r);
            match s {
                State::Base { .. } => {
                    assert(state_produces(yields, m, dom, i, s, r, 0));
                    assert(produces(yields, m, dom, i, r, 1));
                },
                State::Intermediate { dependent } => {
                    let vals = choose|vals: Seq<R>| #[trigger]
                        folds_to(m, vals, r) && vals.len() == dependent@.len() && forall|k: int|
                            #![trigger dependent@[k]]
                            0 <= k < vals.len() ==> dom.contains(dependent@[k]) && answers(
                                yields,
                                m,
                                dom,
                                dependent@[k],
                                vals[k],
                            );
                    assert forall|k: int| 0 <= k < vals.len() implies #[trigger] answers(
                        yields,
                        m,
                        dom,
                        dependent@[k],
                        vals[k],
                    ) by {
                        assert(dom.contains(dependent@[k]) && answers(
                            yields,
                            m,
                            dom,
                            dependent@[k],
                            vals[k],
                        ));
                    }
                    let g = lemma_common_fuel(yields, m, dom, dependent@, vals, vals.len() as int);
                    assert forall|k: int| #![trigger dependent@[k]] 0 <= k < vals.len() implies dom.contains(
                        dependent@[k],
                    ) && produces(yields, m, dom, dependent@[k], vals[k], g) by {
                        assert(produces(yields, m, dom, dependent@[k], vals[k], g));
                    }
                    assert(vals_produced(yields, m, dom, dependent@, vals, g));
                    assert(state_produces(yields, m, dom, i, s, r, g));
                    assert(produces(yields, m, dom, i, r, g + 1));
                },
            }
        }
    }
}

/// For a problem whose states for an input all say the same, and a
/// deterministic magma, each input has at most one answer, however answers
/// are stored: a solver with a cache, one with another cache, and one
/// without a cache find the same answer.
pub proof fn lemma_answer_unique<I, R, M: Magma<R>>(
    yields: spec_fn(I, State<I, R>) -> bool,
    m: M,
    dom1: Set<I>,
    dom2: Set<I>,
    i: I,
    r1: R,
    r2: R,
)
    requires
        yields_deterministic(yields),
        magma_deterministic(m),
        answers(yields, m, dom1, i, r1),
        answers(yields, m, dom2, i, r2),
    ensures
        r1 == r2,
{
    let f1 = choose|fuel: nat| #[trigger] produces(yields, m, dom1, i, r1, fuel);
    let f2 = choose|fuel: nat| #[trigger] produces(yields, m, dom2, i, r2, fuel);
    lemma_produces_unique(yields, m, dom1, dom2, i, r1, r2, f1, f2);
}

proof fn lemma_produces_unique<I, R, M: Magma<R>>(
    yields: spec_fn(I, State<I, R>) -> bool,
    m: M,
    dom1: Set<I>,
    dom2: Set<I>,
    i: I,
    r1: R,
    r2: R,
    f1: nat,
    f2: nat,
)
    requires
        yields_deterministic(yields),
        magma_deterministic(m),
        produces(yields, m, dom1, i, r1, f1),
        produces(yields, m, dom2, i, r2, f2),
    ensures
        r1 == r2,
    decreases f1,
{
    let s1 = choose|s: State<I, R>| #[trigger]
        yields(i, s) && state_produces(yields, m, dom1, i, s, r1, (f1 - 1) as nat);
    let s2 = choose|s: State<I, R>| #[trigger]
        yields(i, s) && state_produces(yields, m, dom2, i, s, r2, (f2 - 1) as nat);
    assert(same_state(s1, s2));
    match (s1, s2) {
        (State::Intermediate { dependent: d1 }, State::Intermediate { dependent: d2 }) => {
            let v1 = choose|vals: Seq<R>| #[trigger]
                folds_to(m, vals, r1) && vals_produced(yields, m, dom1, d1@, vals, (f1 - 1) as nat);
            let v2 = choose|vals: Seq<R>| #[trigger]
                folds_to(m, vals, r2) && vals_produced(yields, m, dom2, d2@, vals, (f2 - 1) as nat);
            assert forall|k: int| 0 <= k < v1.len() implies v1[k] == v2[k] by {
                assert(produces(yields, m, dom1, d1@[k], v1[k], (f1 - 1) as nat));
                assert(produces(yields, m, dom2, d2@[k], v2[k], (f2 - 1) as nat));
                lemma_produces_unique(
                    yields,
                    m,
                    dom1,
                    dom2,
                    d1@[k],
                    v1[k],
                    v2[k],
                    (f1 - 1) as nat,
                    (f2 - 1) as nat,
                );
            }
            assert(v1 =~= v2);
            lemma_folds_to_unique(m, v1, r1, r2);
        },
        _ => {},
    }
}

/// A simpler DP solver: the answer is always reduced by `compose_by`.
/// It is preferred where this strategy fits, as it may be simpler and faster.
pub struct SimpleDPRunner<I, R, M: Magma<R>, Solver> {
    pub(super) solver: Solver,
    pub(super) compose_by: M,
    pub(super) __phantoms: PhantomData<(I, R)>,
}

impl<I, R, M: Magma<R>, Solver> SimpleDPRunner<I, R, M, Solver> {
    /// The solver that states the problem and keeps the memo.
    pub closed spec fn solver(&self) -> Solver {
        self.solver
    }

    /// The magma the sub-answers are reduced by.
    pub closed spec fn compose_by(&self) -> M {
        self.compose_by
    }
}

/// A solver that reduces the answers of the sub-problems by `compose_by`.
pub fn simple_dp<
    I: Copy,
    R: Copy,
    M: Copy + Magma<R>,
    Solver: ProblemProxy<I, State<I, R>, R>,
>(solver: Solver, compose_by: M) -> (r: SimpleDPRunner<I, R, M, Solver>)
    ensures
        r.solver() == solver,
        r.compose_by() == compose_by,
{
    SimpleDPRunner { solver, compose_by, __phantoms: PhantomData }
}

impl<
    I: Copy,
    R: Copy,
    M: Copy + Magma<R>,
    Solver: ProblemProxy<I, State<I, R>, R>,
> SimpleDPRunner<I, R, M, Solver> {
    fn dp_with_fuel(&mut self, initial_index: I, Ghost(fuel): Ghost<nat>) -> (r: R)
        requires
            old(self).wf(),
            safe(
                old(self).solver().accepts(),
                old(self).solver().yields(),
                old(self).compose_by(),
                old(self).solver().domain(),
                initial_index,
                fuel,
            ),
        ensures
            final(self).wf(),
            final(self).solver().accepts() == old(self).solver().accepts(),
            final(self).solver().yields() == old(self).solver().yields(),
            final(self).solver().domain() == old(self).solver().domain(),
            final(self).solver().keeps() == old(self).solver().keeps(),
            final(self).compose_by() == old(self).compose_by(),
            answers(
                old(self).solver().yields(),
                old(self).compose_by(),
                old(self).solver().domain(),
                initial_index,
                r,
            ),
            old(self).solver().keeps() ==> old(self).solver().memo().dom().subset_of(
                final(self).solver().memo().dom(),
            ),
            old(self).solver().keeps() ==> exists|s: State<I, R>| #[trigger]
                (old(self).solver().yields())(initial_index, s) && match s {
                    State::Base { base_result } => r == base_result
                        && final(self).solver().memo().contains_key(initial_index)
                        && final(self).solver().memo()[initial_index] == base_result,
                    State::Intermediate { dependent } => forall|k: int|
                        0 <= k < dependent@.len() ==> #[trigger] final(self).solver().memo().contains_key(dependent@[k]),
                },
            old(self).solver().keeps() && yields_deterministic(old(self).solver().yields())
                ==> final(self).solver().memo().dom() == old(self).solver().memo().dom().union(
                stored_by_run(
                    old(self).solver().yields(),
                    old(self).solver().memo().dom(),
                    initial_index,
                ),
            ),
        decreases fuel,
    {
        let ghost accepts = self.solver().accepts();
        let ghost yields = self.solver().yields();
        let ghost m = self.compose_by();
        let ghost dom = self.solver().domain();
        let ghost keeps = self.solver().keeps();
        let ghost memo0 = self.solver().memo();
        let solve_result_ref = self.solver.compute(initial_index);
        let ghost st = solve_result_ref;
        proof {
            assert(yields(initial_index, solve_result_ref));
            assert forall|k: I| #[trigger] self.solver().memo().contains_key(k) implies answers(
                yields,
                m,
                dom,
                k,
                self.solver().memo()[k],
            ) by {
                if !(memo0.contains_key(k) && self.solver().memo()[k] == memo0[k]) {
                    assert(produces(yields, m, dom, k, self.solver().memo()[k], 1));
                }
            }
        }
        match solve_result_ref {
            State::Intermediate { dependent } => {
                let ghost deps = dependent@;
                let ghost fuel1 = (fuel - 1) as nat;
                let len = dependent.len();
                let mut collected_values: Vec<R> = Vec::new();
                let ghost mut common: nat = 0;
                let mut i: usize = 0;
                proof {
                    assert(prefix_reached(sub_problems(yields), memo0.dom(), deps, 0)
                        =~= Set::<I>::empty());
                    assert(memo0.dom().union(Set::<I>::empty()) =~= memo0.dom());
                }
                while i < len
                    invariant
                        self.wf(),
                        self.solver().accepts() == accepts,
                        self.solver().yields() == yields,
                        self.solver().domain() == dom,
                        self.solver().keeps() == keeps,
                        self.compose_by() == m,
                        keeps ==> memo0.dom().subset_of(self.solver().memo().dom()),
                        deps == dependent@,
                        len == deps.len(),
                        fuel == fuel1 + 1,
                        i <= len,
                        collected_values@.len() == i,
                        forall|k: int| #![trigger deps[k]]
                            0 <= k < deps.len() ==> dom.contains(deps[k]) && safe(
                                accepts,
                                yields,
                                m,
                                dom,
                                deps[k],
                                fuel1,
                            ),
                        forall|k: int|
                            0 <= k < i ==> #[trigger] produces(
                                yields,
                                m,
                                dom,
                                deps[k],
                                collected_values@[k],
                                common,
                            ),
                        keeps ==> forall|k: int|
                            0 <= k < i ==> #[trigger] self.solver().memo().contains_key(deps[k]),
                        keeps && yields_deterministic(yields) ==> self.solver().memo().dom()
                            == memo0.dom().union(
                            prefix_reached(sub_problems(yields), memo0.dom(), deps, i as int),
                        ),
                        keeps && yields_deterministic(yields) ==> closed_under(
                            sub_problems(yields),
                            memo0.dom(),
                            self.solver().memo().dom(),
                        ),
                    decreases len - i,
                {
                    let x = dependent[i];
                    assert(safe(accepts, yields, m, dom, deps[i as int], fuel1));
                    let ghost c = self.solver().memo().dom();
                    let lp = match self.solver.get(x) {
                        Some(v) => {
                            proof {
                                if keeps && yields_deterministic(yields) {
                                    lemma_prefix_held(
                                        sub_problems(yields),
                                        memo0.dom(),
                                        c,
                                        deps,
                                        i as int,
                                    );
                                }
                            }
                            v
                        },
                        None => {
                            let lm = self.dp_with_fuel(x, Ghost(fuel1));
                            let ghost memo1 = self.solver().memo();
                            self.solver.update_cache(x, lm);
                            proof {
                                if keeps && yields_deterministic(yields) {
                                    lemma_stored_after_run(
                                        yields,
                                        memo0.dom(),
                                        c,
                                        memo1.dom(),
                                        self.solver().memo().dom(),
                                        deps,
                                        i as int,
                                    );
                                }
                                assert forall|k: I| #[trigger]
                                    self.solver().memo().contains_key(k) implies answers(
                                    yields,
                                    m,
                                    dom,
                                    k,
                                    self.solver().memo()[k],
                                ) by {
                                    assert(memo1.insert(x, lm).contains_key(k));
                                }
                            }
                            lm
                        },
                    };
                    proof {
                        assert(answers(yields, m, dom, x, lp));
                        let f = choose|f: nat| #[trigger] produces(yields, m, dom, x, lp, f);
                        let g = if f <= common {
                            common
                        } else {
                            f
                        };
                        assert forall|k: int| 0 <= k < i implies #[trigger] produces(
                            yields,
                            m,
                            dom,
                            deps[k],
                            collected_values@[k],
                            g,
                        ) by {
                            lemma_produces_mono(
                                yields,
                                m,
                                dom,
                                deps[k],
                                collected_values@[k],
                                common,
                                g,
                            );
                        }
                        lemma_produces_mono(yields, m, dom, x, lp, f, g);
                        common = g;
                    }
                    collected_values.push(lp);
                    i = i + 1;
                }
                let ghost vals = collected_values@;
                proof {
                    if keeps && yields_deterministic(yields) {
                        lemma_stored_by_list(yields, memo0.dom(), initial_index, dependent);
                    }
                    assert forall|k: int| 0 <= k < vals.len() implies #[trigger] answers(
                        yields,
                        m,
                        dom,
                        deps[k],
                        vals[k],
                    ) by {
                        assert(produces(yields, m, dom, deps[k], vals[k], common));
                    }
                    assert(fold_safe(m, vals));
                }
                let reducer = ReduceByMagma::new(self.compose_by);
                let r = reducer.reduce(collected_values);
                proof {
                    assert(folds_to(m, vals, r));
                    assert forall|k: int| #![trigger deps[k]] 0 <= k < vals.len() implies dom.contains(
                        deps[k],
                    ) && produces(yields, m, dom, deps[k], vals[k], common) by {
                        assert(produces(yields, m, dom, deps[k], vals[k], common));
                    }
                    assert(vals_produced(yields, m, dom, deps, vals, common));
                    assert(state_produces(yields, m, dom, initial_index, st, r, common));
                    assert(produces(yields, m, dom, initial_index, r, common + 1));
                }
                r
            },
            State::Base { base_result } => {
                proof {
                    assert(produces(yields, m, dom, initial_index, base_result, 1));
                    if keeps && yields_deterministic(yields) {
                        lemma_stored_by_base(yields, memo0.dom(), initial_index, base_result);
                        assert(self.solver().memo().dom() =~= memo0.dom().union(
                            Set::<I>::empty().insert(initial_index),
                        ));
                    }
                }
                base_result
            },
        }
    }
}

impl<
    I: Copy,
    R: Copy,
    M: Copy + Magma<R>,
    Solver: ProblemProxy<I, State<I, R>, R>,
> DP<I, R> for SimpleDPRunner<I, R, M, Solver> {
    type State = State<I, R>;

    open spec fn wf(&self) -> bool {
        &&& self.solver().wf()
        &&& memo_consistent(
            self.solver().yields(),
            self.compose_by(),
            self.solver().domain(),
            self.solver().memo(),
        )
    }

    open spec fn solvable(&self, index: I) -> bool {
        problem_solvable(
            self.solver().accepts(),
            self.solver().yields(),
            self.compose_by(),
            self.solver().domain(),
            index,
        )
    }

    open spec fn is_answer(&self, index: I, answer: R) -> bool {
        answers(self.solver().yields(), self.compose_by(), self.solver().domain(), index, answer)
    }

    open spec fn memo(&self) -> Map<I, R> {
        self.solver().memo()
    }

    open spec fn keeps(&self) -> bool {
        self.solver().keeps()
    }

    /// Asks the solver for the state of `initial_index`; a base answer is the
    /// answer. Otherwise each sub-problem, in order, is looked up in the
    /// solver, or else solved and offered to it; the answers are then folded
    /// from the left with `compose_by`. A solver that keeps answers, for a
    /// problem whose states for an input all say the same, ends up holding
    /// in addition exactly the inputs of `stored_by_run`.
    fn dp(&mut self, initial_index: I) -> (r: R)
        ensures
            old(self).solver().keeps() ==> exists|s: State<I, R>| #[trigger]
                (old(self).solver().yields())(initial_index, s) && match s {
                    State::Base { base_result } => r == base_result
                        && final(self).solver().memo().contains_key(initial_index)
                        && final(self).solver().memo()[initial_index] == base_result,
                    State::Intermediate { dependent } => forall|k: int|
                        0 <= k < dependent@.len() ==> #[trigger] final(self).solver().memo().contains_key(dependent@[k]),
                },
            old(self).solver().keeps() && yields_deterministic(old(self).solver().yields())
                ==> final(self).solver().memo().dom() == old(self).solver().memo().dom().union(
                stored_by_run(
                    old(self).solver().yields(),
                    old(self).solver().memo().dom(),
                    initial_index,
                ),
            ),
    {
        let ghost fuel = choose|fuel: nat| #[trigger]
            safe(
                self.solver().accepts(),
                self.solver().yields(),
                self.compose_by(),
                self.solver().domain(),
                initial_index,
                fuel,
            );
        self.dp_with_fuel(initial_index, Ghost(fuel))
    }
}

/// Each input that a safely solved input reaches is solved safely within
/// less depth.
proof fn lemma_safe_descends<I, R, M: Magma<R>>(
    accepts: spec_fn(I) -> bool,
    yields: spec_fn(I, State<I, R>) -> bool,
    m: M,
    dom: Set<I>,
    known: Set<I>,
    x: I,
    y: I,
    n: nat,
    f: nat,
) -> (n2: nat)
    requires
        safe(accepts, yields, m, dom, x, n),
        reaches(sub_problems(yields), known, x, y, f),
    ensures
        n2 < n,
        safe(accepts, yields, m, dom, y, n2),
    decreases f,
{
    let d = choose|d: Seq<I>| #[trigger]
        sub_problems(yields)(x, d) && list_reaches(sub_problems(yields), known, d, y, (f - 1) as nat);
    let v = choose|dependent: Vec<I>| #[trigger]
        yields(x, State::Intermediate { dependent }) && dependent@ == d;
    assert(state_safe(accepts, yields, m, dom, x, State::Intermediate { dependent: v }, (n - 1) as nat));
    let k = choose|k: int| #![trigger d[k]]
        0 <= k < d.len() && (d[k] == y || (!known.contains(d[k]) && reaches(
            sub_problems(yields),
            known,
            d[k],
            y,
            (f - 1) as nat,
        )));
    assert(safe(accepts, yields, m, dom, v@[k], (n - 1) as nat));
    if d[k] == y {
        (n - 1) as nat
    } else {
        lemma_safe_descends(accepts, yields, m, dom, known, d[k], y, (n - 1) as nat, (f - 1) as nat)
    }
}

/// A safely solved input does not reach itself.
proof fn lemma_safe_acyclic<I, R, M: Magma<R>>(
    accepts: spec_fn(I) -> bool,
    yields: spec_fn(I, State<I, R>) -> bool,
    m: M,
    dom: Set<I>,
    known: Set<I>,
    x: I,
    n: nat,
    f: nat,
)
    requires
        safe(accepts, yields, m, dom, x, n),
    ensures
        !reaches(sub_problems(yields), known, x, x, f),
    decreases n,
{
    if reaches(sub_problems(yields), known, x, x, f) {
        let n2 = lemma_safe_descends(accepts, yields, m, dom, known, x, x, n, f);
        lemma_safe_acyclic(accepts, yields, m, dom, known, x, n2, f);
    }
}

/// The recursion from a solvable input ends, so the input is not among what
/// it reaches: a run on it stores its own answer only where that is a base
/// answer (see `stored_by_run`).
pub proof fn lemma_root_not_reached<I, R, M: Magma<R>>(
    accepts: spec_fn(I) -> bool,
    yields: spec_fn(I, State<I, R>) -> bool,
    m: M,
    dom: Set<I>,
    known: Set<I>,
    i: I,
)
    requires
        problem_solvable(accepts, yields, m, dom, i),
    ensures
        !reached(sub_problems(yields), known, i).contains(i),
{
    let n = choose|fuel: nat| #[trigger] safe(accepts, yields, m, dom, i, fuel);
    assert forall|f: nat| !#[trigger] reaches(sub_problems(yields), known, i, i, f) by {
        lemma_safe_acyclic(accepts, yields, m, dom, known, i, n, f);
    }
}

/// What the runner's `DP` interface means, spelled out over its solver and
/// magma; useful where the solver's type (say, one holding a closure) keeps
/// Verus from unfolding the interface by itself.
pub proof fn lemma_runner_spec<
    I: Copy,
    R: Copy,
    M: Copy + Magma<R>,
    Solver: ProblemProxy<I, State<I, R>, R>,
>(r: SimpleDPRunner<I, R, M, Solver>)
    ensures
        r.wf() == (r.solver().wf() && memo_consistent(
            r.solver().yields(),
            r.compose_by(),
            r.solver().domain(),
            r.solver().memo(),
        )),
        forall|i: I| #[trigger]
            r.solvable(i) == problem_solvable(
                r.solver().accepts(),
                r.solver().yields(),
                r.compose_by(),
                r.solver().domain(),
                i,
            ),
        forall|i: I, a: R| #[trigger]
            r.is_answer(i, a) == answers(r.solver().yields(), r.compose_by(), r.solver().domain(), i, a),
        r.memo() == r.solver().memo(),
        r.keeps() == r.solver().keeps(),
{
}

/// Two runners for the same deterministic problem and magma find the same
/// answer, whatever caches their solvers keep (or none): memoising does not
/// change an answer.
pub proof fn lemma_runners_agree<
    I: Copy,
    R: Copy,
    M: Copy + Magma<R>,
    S1: ProblemProxy<I, State<I, R>, R>,
    S2: ProblemProxy<I, State<I, R>, R>,
>(a: SimpleDPRunner<I, R, M, S1>, b: SimpleDPRunner<I, R, M, S2>, i: I, ra: R, rb: R)
    requires
        a.solver().yields() == b.solver().yields(),
        a.compose_by() == b.compose_by(),
        yields_deterministic(a.solver().yields()),
        magma_deterministic(a.compose_by()),
        a.is_answer(i, ra),
        b.is_answer(i, rb),
    ensures
        ra == rb,
{
    lemma_answer_unique(
        a.solver().yields(),
        a.compose_by(),
        a.solver().domain(),
        b.solver().domain(),
        i,
        ra,
        rb,
    );
}

} // verus!
