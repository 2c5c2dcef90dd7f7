//! A solver where each state carries the reducer for its sub-answers.
use std::marker::PhantomData;
use vstd::prelude::*;
use crate::collecting::lemma_reduce_by_magma;
use crate::collecting::Magma;
use crate::collecting::ReduceByMagma;
use crate::collecting::Reducer;
use crate::dp::simple;
use crate::dp::get_state::ProblemProxy;
use crate::dp::reach::closed_under;
use crate::dp::reach::edges_deterministic;
use crate::dp::reach::lemma_prefix_full;
use crate::dp::reach::lemma_prefix_held;
use crate::dp::reach::lemma_prefix_run;
use crate::dp::reach::list_reaches;
use crate::dp::reach::prefix_reached;
use crate::dp::reach::reached;
use crate::dp::reach::reaches;
use crate::dp::state::StateExtractor;
use crate::dp::traits::DP;

verus! {

/// What a problem gives for an input: the inputs whose answers make up this
/// one together with how to reduce them, or an answer.
#[derive(Clone)]
pub enum State<A, F, I> {
    /// The sub-problems, a non-empty list; an input whose list is empty has
    /// no answer.
    Intermediate { composer: F, dependent: Vec<I> },
    Base { base_result: A },
}

impl<A: Copy, F, I> StateExtractor<A> for State<A, F, I> {
    open spec fn spec_value(&self) -> Option<A> {
        match self {
            State::Intermediate { .. } => None,
            State::Base { base_result } => Some(*base_result),
        }
    }

    fn get_value(&self) -> (r: Option<A>) {
        match self {
            State::Intermediate { .. } => None,
            State::Base { base_result } => Some(*base_result),
        }
    }
}

/// `r` is an answer to `i` found within recursion depth `fuel`, when the
/// problem's states are those `yields` allows and answers are stored only for
/// inputs in `dom`: the problem may give `i` a state from which `r` follows.
pub open spec fn produces<I, R, C: Reducer<R>>(
    yields: spec_fn(I, State<R, C, I>) -> bool,
    dom: Set<I>,
    i: I,
    r: R,
    fuel: nat,
) -> bool
    decreases fuel, 2nat,
{
    if fuel == 0 {
        false
    } else {
        exists|s: State<R, C, I>| #[trigger]
            yields(i, s) && state_produces(yields, dom, i, s, r, (fuel - 1) as nat)
    }
}

/// `r` follows from the state `s` of input `i`: it is the base answer (which
/// is stored, so `i` is in `dom`), or the composer's reduction of answers to the
/// sub-problems, in their order, found within depth `fuel` (each is stored,
/// so in `dom`). The answer of the input asked for is not stored.
pub open spec fn state_produces<I, R, C: Reducer<R>>(
    yields: spec_fn(I, State<R, C, I>) -> bool,
    dom: Set<I>,
    i: I,
    s: State<R, C, I>,
    r: R,
    fuel: nat,
) -> bool
    decreases fuel + 1, 1nat,
{
    match s {
        State::Base { base_result } => dom.contains(i) && r == base_result,
        State::Intermediate { composer, dependent } => dependent@.len() >= 1 && exists|vals: Seq<R>|
            #[trigger] composer.reduce_ensures(vals, r) && vals_produced(
                yields,
                dom,
                dependent@,
                vals,
                fuel,
            ),
    }
}

/// `vals` are answers, found within depth `fuel`, to the stored inputs `deps`.
pub open spec fn vals_produced<I, R, C: Reducer<R>>(
    yields: spec_fn(I, State<R, C, I>) -> bool,
    dom: Set<I>,
    deps: Seq<I>,
    vals: Seq<R>,
    fuel: nat,
) -> bool
    decreases fuel + 1, 0nat,
{
    &&& vals.len() == deps.len()
    &&& forall|k: int| #![trigger deps[k]]
        0 <= k < vals.len() ==> dom.contains(deps[k]) && produces(
            yields,
            dom,
            deps[k],
            vals[k],
            fuel,
        )
}

/// `r` is an answer to `i` (see `produces`), at some depth.
pub open spec fn answers<I, R, C: Reducer<R>>(
    yields: spec_fn(I, State<R, C, I>) -> bool,
    dom: Set<I>,
    i: I,
    r: R,
) -> bool {
    exists|fuel: nat| #[trigger] produces(yields, dom, i, r, fuel)
}

/// Solving `i` completes within recursion depth `fuel`, whatever states the
/// problem gives: `i` is accepted, and every state it may be given is safe.
pub open spec fn safe<I, R, C: Reducer<R>>(
    accepts: spec_fn(I) -> bool,
    yields: spec_fn(I, State<R, C, I>) -> bool,
    dom: Set<I>,
    i: I,
    fuel: nat,
) -> bool
    decreases fuel, 1nat,
{
    if fuel == 0 {
        false
    } else {
        &&& accepts(i)
        &&& forall|s: State<R, C, I>| #[trigger]
            yields(i, s) ==> state_safe(accepts, yields, dom, i, s, (fuel - 1) as nat)
    }
}

/// Solving from state `s` of input `i` completes: a base answer may be
/// stored (`i` is in `dom`); a sub-problem list is non-empty, each
/// sub-problem may be stored and is solved safely within depth `fuel`, and
/// the composer may reduce every possible list of their answers.
pub open spec fn state_safe<I, R, C: Reducer<R>>(
    accepts: spec_fn(I) -> bool,
    yields: spec_fn(I, State<R, C, I>) -> bool,
    dom: Set<I>,
    i: I,
    s: State<R, C, I>,
    fuel: nat,
) -> bool
    decreases fuel + 1, 0nat,
{
    match s {
        State::Base { .. } => dom.contains(i),
        State::Intermediate { composer, dependent } => {
            &&& dependent@.len() >= 1
            &&& forall|k: int| #![trigger dependent@[k]]
                0 <= k < dependent@.len() ==> dom.contains(dependent@[k]) && safe(
                    accepts,
                    yields,
                    dom,
                    dependent@[k],
                    fuel,
                )
            &&& forall|vals: Seq<R>|
                vals.len() == dependent@.len() && (forall|k: int|
                    0 <= k < vals.len() ==> #[trigger] answers(
                        yields,
                        dom,
                        dependent@[k],
                        vals[k],
                    )) ==> #[trigger] composer.reduce_requires(vals)
        },
    }
}

/// Solving `i` completes (see `safe`), at some depth.
pub open spec fn problem_solvable<I, R, C: Reducer<R>>(
    accepts: spec_fn(I) -> bool,
    yields: spec_fn(I, State<R, C, I>) -> bool,
    dom: Set<I>,
    i: I,
) -> bool {
    exists|fuel: nat| #[trigger] safe(accepts, yields, dom, i, fuel)
}

/// Every answer the memo holds is an answer the problem gives.
pub open spec fn memo_consistent<I, R, C: Reducer<R>>(
    yields: spec_fn(I, State<R, C, I>) -> bool,
    dom: Set<I>,
    memo: Map<I, R>,
) -> bool {
    forall|k: I| #[trigger] memo.contains_key(k) ==> answers(yields, dom, k, memo[k])
}

/// Two states say the same: equal base answers, or equal composers and
/// sub-problem lists with equal items.
pub open spec fn same_state<I, R, C>(s1: State<R, C, I>, s2: State<R, C, I>) -> bool {
    match (s1, s2) {
        (State::Base { base_result: a }, State::Base { base_result: b }) => a == b,
        (
            State::Intermediate { composer: c1, dependent: d1 },
            State::Intermediate { composer: c2, dependent: d2 },
        ) => c1 == c2 && d1@ == d2@,
        _ => false,
    }
}

/// Every state the problem may give for an input says the same, and every
/// composer it gives reduces each list to one result.
pub open spec fn yields_deterministic<I, R, C: Reducer<R>>(
    yields: spec_fn(I, State<R, C, I>) -> bool,
) -> bool {
    &&& forall|i: I, s1: State<R, C, I>, s2: State<R, C, I>| #[trigger]
        yields(i, s1) && #[trigger] yields(i, s2) ==> same_state(s1, s2)
    &&& forall|i: I, s: State<R, C, I>| #[trigger]
        yields(i, s) ==> match s {
            State::Intermediate { composer, .. } => reducer_deterministic(composer),
            _ => true,
        }
}

/// The reducer gives one result for each list of items.
pub open spec fn reducer_deterministic<R, C: Reducer<R>>(c: C) -> bool {
    forall|items: Seq<R>, x: R, y: R|
        #[trigger] c.reduce_ensures(items, x) && #[trigger] c.reduce_ensures(items, y) ==> x == y
}

/// The sub-problem lists the problem may give each input.
pub open spec fn sub_problems<I, R, C>(yields: spec_fn(I, State<R, C, I>) -> bool) -> spec_fn(
    I,
    Seq<I>,
) -> bool {
    |x: I, d: Seq<I>|
        exists|composer: C, dependent: Vec<I>| #[trigger]
            yields(x, State::Intermediate { composer, dependent }) && dependent@ == d
}

/// The inputs whose answers a run on `i` stores, when answers are already
/// stored for `known`: what `i` reaches without looking into an input whose
/// answer is stored, and `i` itself where its answer is a base answer.
pub open spec fn stored_by_run<I, R, C>(
    yields: spec_fn(I, State<R, C, I>) -> bool,
    known: Set<I>,
    i: I,
) -> Set<I> {
    reached(sub_problems(yields), known, i).union(
        Set::new(
            |x: I| x == i && exists|b: R| #[trigger] yields(i, State::Base { base_result: b }),
        ),
    )
}

/// A problem whose states for an input all say the same gives each input at
/// most one sub-problem list.
proof fn lemma_sub_problems_deterministic<I, R, C: Reducer<R>>(
    yields: spec_fn(I, State<R, C, I>) -> bool,
)
    requires
        yields_deterministic(yields),
    ensures
        edges_deterministic(sub_problems(yields)),
{
    assert forall|x: I, d1: Seq<I>, d2: Seq<I>| #[trigger]
        sub_problems(yields)(x, d1) && #[trigger] sub_problems(yields)(x, d2) implies d1 == d2 by {
        let (c1, v1) = choose|composer: C, dependent: Vec<I>| #[trigger]
            yields(x, State::Intermediate { composer, dependent }) && dependent@ == d1;
        let (c2, v2) = choose|composer: C, dependent: Vec<I>| #[trigger]
            yields(x, State::Intermediate { composer, dependent }) && dependent@ == d2;
        assert(same_state(
            State::<R, C, I>::Intermediate { composer: c1, dependent: v1 },
            State::<R, C, I>::Intermediate { composer: c2, dependent: v2 },
        ));
    }
}

/// A run on an input with a base answer stores that input alone.
proof fn lemma_stored_by_base<I, R, C: Reducer<R>>(
    yields: spec_fn(I, State<R, C, I>) -> bool,
    known: Set<I>,
    i: I,
    b: R,
)
    requires
        yields_deterministic(yields),
        yields(i, State::Base { base_result: b }),
    ensures
        stored_by_run(yields, known, i) == Set::<I>::empty().insert(i),
{
    assert forall|y: I| !#[trigger] reached(sub_problems(yields), known, i).contains(y) by {
        if reached(sub_problems(yields), known, i).contains(y) {
            let f = choose|f: nat| #[trigger] reaches(sub_problems(yields), known, i, y, f);
            let d = choose|d: Seq<I>| #[trigger]
                sub_problems(yields)(i, d) && list_reaches(
                    sub_problems(yields),
                    known,
                    d,
                    y,
                    (f - 1) as nat,
                );
            let (c, v) = choose|composer: C, dependent: Vec<I>| #[trigger]
                yields(i, State::Intermediate { composer, dependent }) && dependent@ == d;
            assert(same_state(
                State::<R, C, I>::Base { base_result: b },
                State::<R, C, I>::Intermediate { composer: c, dependent: v },
            ));
        }
    }
    assert(stored_by_run(yields, known, i) =~= Set::<I>::empty().insert(i));
}

/// A run on an input with sub-problems `dependent` stores what the input
/// reaches, which is what the list and its items reach.
proof fn lemma_stored_by_list<I, R, C: Reducer<R>>(
    yields: spec_fn(I, State<R, C, I>) -> bool,
    known: Set<I>,
    i: I,
    composer: C,
    dependent: Vec<I>,
)
    requires
        yields_deterministic(yields),
        yields(i, State::Intermediate { composer, dependent }),
    ensures
        stored_by_run(yields, known, i) == prefix_reached(
            sub_problems(yields),
            known,
            dependent@,
            dependent@.len() as int,
        ),
{
    lemma_sub_problems_deterministic(yields);
    assert(sub_problems(yields)(i, dependent@));
    lemma_prefix_full(sub_problems(yields), known, i, dependent@);
    assert forall|b: R| !#[trigger] yields(i, State::Base { base_result: b }) by {
        if yields(i, State::Base { base_result: b }) {
            assert(same_state(
                State::<R, C, I>::Base { base_result: b },
                State::<R, C, I>::Intermediate { composer, dependent },
            ));
        }
    }
    assert(stored_by_run(yields, known, i) =~= reached(sub_problems(yields), known, i));
}

/// A sub-problem not yet stored, run from what is stored and then offered to
/// the cache, leaves stored what the items up to it reach.
proof fn lemma_stored_after_run<I, R, C>(
    yields: spec_fn(I, State<R, C, I>) -> bool,
    base: Set<I>,
    c: Set<I>,
    c1: Set<I>,
    c2: Set<I>,
    d: Seq<I>,
    n: int,
)
    requires
        0 <= n < d.len(),
        base.subset_of(c),
        closed_under(sub_problems(yields), base, c),
        c == base.union(prefix_reached(sub_problems(yields), base, d, n)),
        !c.contains(d[n]),
        c1 == c.union(stored_by_run(yields, c, d[n])),
        c2 == c1.insert(d[n]),
    ensures
        c2 == base.union(prefix_reached(sub_problems(yields), base, d, n + 1)),
        closed_under(sub_problems(yields), base, c2),
{
    assert(c2 =~= c.union(reached(sub_problems(yields), c, d[n])).insert(d[n]));
    lemma_prefix_run(sub_problems(yields), base, c, d, n);
}

/// More depth finds the same answers.
proof fn lemma_produces_mono<I, R, C: Reducer<R>>(
    yields: spec_fn(I, State<R, C, I>) -> bool,
    dom: Set<I>,
    i: I,
    r: R,
    f: nat,
    g: nat,
)
    requires
        produces(yields, dom, i, r, f),
        f <= g,
    ensures
        produces(yields, dom, i, r, g),
    decreases f,
{
    let s = choose|s: State<R, C, I>| #[trigger]
        yields(i, s) && state_produces(yields, dom, i, s, r, (f - 1) as nat);
    match s {
        State::Base { .. } => {
            assert(state_produces(yields, dom, i, s, r, (g - 1) as nat));
        },
        State::Intermediate { composer, dependent } => {
            let vals = choose|vals: Seq<R>| #[trigger]
                composer.reduce_ensures(vals, r) && vals_produced(yields, dom, dependent@, vals, (f - 1) as nat);
            assert forall|k: int| #![trigger dependent@[k]] 0 <= k < vals.len() implies dom.contains(
                dependent@[k],
            ) && produces(yields, dom, dependent@[k], vals[k], (g - 1) as nat) by {
                lemma_produces_mono(
                    yields,
                    dom,
                    dependent@[k],
                    vals[k],
                    (f - 1) as nat,
                    (g - 1) as nat,
                );
            }
            assert(vals_produced(yields, dom, dependent@, vals, (g - 1) as nat));
            assert(state_produces(yields, dom, i, s, r, (g - 1) as nat));
        },
    }
}

/// Answers to each of the first `n` items of `deps` are all found within one
/// common depth.
proof fn lemma_common_fuel<I, R, C: Reducer<R>>(
    yields: spec_fn(I, State<R, C, I>) -> bool,
    dom: Set<I>,
    deps: Seq<I>,
    vals: Seq<R>,
    n: int,
) -> (fuel: nat)
    requires
        0 <= n <= vals.len(),
        vals.len() == deps.len(),
        forall|k: int| 0 <= k < n ==> #[trigger] answers(yields, dom, deps[k], vals[k]),
    ensures
        forall|k: int| 0 <= k < n ==> #[trigger] produces(yields, dom, deps[k], vals[k], fuel),
    decreases n,
{
    if n == 0 {
        0
    } else {
        let f0 = lemma_common_fuel(yields, dom, deps, vals, n - 1);
        assert(answers(yields, dom, deps[n - 1], vals[n - 1]));
        let f1 = choose|fuel: nat| #[trigger] produces(yields, dom, deps[n - 1], vals[n - 1], fuel);
        let g = if f0 <= f1 {
            f1
        } else {
            f0
        };
        assert forall|k: int| 0 <= k < n implies #[trigger] produces(
            yields,
            dom,
            deps[k],
            vals[k],
            g,
        ) by {
            if k < n - 1 {
                lemma_produces_mono(yields, dom, deps[k], vals[k], f0, g);
            } else {
                lemma_produces_mono(yields, dom, deps[k], vals[k], f1, g);
            }
        }
        g
    }
}

/// `r` follows from the state `s` of input `i` by answers to its
/// sub-problems: it is the base answer (and `i` may be stored), or the left
/// reduction by the composer, in order, of answers to the sub-problems, all of
/// be stored.
pub open spec fn state_answers<I, R, C: Reducer<R>>(
    yields: spec_fn(I, State<R, C, I>) -> bool,
    dom: Set<I>,
    i: I,
    s: State<R, C, I>,
    r: R,
) -> bool {
    match s {
        State::Base { base_result } => dom.contains(i) && r == base_result,
        State::Intermediate { composer, dependent } => dependent@.len() >= 1 && exists|vals: Seq<R>|
            #[trigger] composer.reduce_ensures(vals, r) && vals.len() == dependent@.len() && forall|k: int|
                #![trigger dependent@[k]]
                0 <= k < vals.len() ==> dom.contains(dependent@[k]) && answers(
                    yields,
                    dom,
                    dependent@[k],
                    vals[k],
                ),
    }
}

/// The answers satisfy the recurrence the solver is built on: `r` answers
/// `i` exactly when the problem may give `i` a state from which `r` follows
/// by answers to its sub-problems (see `state_answers`).
pub proof fn lemma_answer_recurrence<I, R, C: Reducer<R>>(
    yields: spec_fn(I, State<R, C, I>) -> bool,
    dom: Set<I>,
    i: I,
    r: R,
)
    ensures
        answers(yields, dom, i, r) <==> exists|s: State<R, C, I>| #[trigger]
            yields(i, s) && state_answers(yields, dom, i, s, r),
{
    if answers(yields, dom, i, r) {
        let f = choose|fuel: nat| #[trigger] produces(yields, dom, i, r, fuel);
        let s = choose|s: State<R, C, I>| #[trigger]
            yields(i, s) && state_produces(yields, dom, i, s, r, (f - 1) as nat);
        match s {
            State::Base { .. } => {},
            State::Intermediate { composer, dependent } => {
                let vals = choose|vals: Seq<R>| #[trigger]
                    composer.reduce_ensures(vals, r) && vals_produced(
                        yields,
                        dom,
                        dependent@,
                        vals,
                        (f - 1) as nat,
                    );
                assert forall|k: int| #![trigger dependent@[k]] 0 <= k < vals.len() implies dom.contains(
                    dependent@[k],
                ) && answers(yields, dom, dependent@[k], vals[k]) by {
                    assert(produces(yields, dom, dependent@[k], vals[k], (f - 1) as nat));
                }
            },
        }
        assert(state_answers(yields, dom, i, s, r));
    } else {
        if exists|s: State<R, C, I>| #[trigger] yields(i, s) && state_answers(yields, dom, i, s, r) {
            let s = choose|s: State<R, C, I>| #[trigger]
                yields(i, s) && state_answers(yields, dom, i, s, r);
            match s {
                State::Base { .. } => {
                    assert(state_produces(yields, dom, i, s, r, 0));
                    assert(produces(yields, dom, i, r, 1));
                },
                State::Intermediate { composer, dependent } => {
                    let vals = choose|vals: Seq<R>| #[trigger]
                        composer.reduce_ensures(vals, r) && vals.len() == dependent@.len() && forall|k: int|
                            #![trigger dependent@[k]]
                            0 <= k < vals.len() ==> dom.contains(dependent@[k]) && answers(
                                yields,
                                dom,
                                dependent@[k],
                                vals[k],
                            );
                    assert forall|k: int| 0 <= k < vals.len() implies #[trigger] answers(
                        yields,
                        dom,
                        dependent@[k],
                        vals[k],
                    ) by {
                        assert(dom.contains(dependent@[k]) && answers(
                            yields,
                            dom,
                            dependent@[k],
                            vals[k],
                        ));
                    }
                    let g = lemma_common_fuel(yields, dom, dependent@, vals, vals.len() as int);
                    assert forall|k: int| #![trigger dependent@[k]] 0 <= k < vals.len() implies dom.contains(
                        dependent@[k],
                    ) && produces(yields, dom, dependent@[k], vals[k], g) by {
                        assert(produces(yields, dom, dependent@[k], vals[k], g));
                    }
                    assert(vals_produced(yields, dom, dependent@, vals, g));
                    assert(state_produces(yields, dom, i, s, r, g));
                    assert(produces(yields, dom, i, r, g + 1));
                },
            }
        }
    }
}

/// For a problem whose states for an input all say the same, and a
/// whose composers are deterministic, each input has at most one answer, however answers
/// are stored: a solver with a cache, one with another cache, and one
/// without a cache find the same answer.
pub proof fn lemma_answer_unique<I, R, C: Reducer<R>>(
    yields: spec_fn(I, State<R, C, I>) -> bool,
    dom1: Set<I>,
    dom2: Set<I>,
    i: I,
    r1: R,
    r2: R,
)
    requires
        yields_deterministic(yields),
        answers(yields, dom1, i, r1),
        answers(yields, dom2, i, r2),
    ensures
        r1 == r2,
{
    let f1 = choose|fuel: nat| #[trigger] produces(yields, dom1, i, r1, fuel);
    let f2 = choose|fuel: nat| #[trigger] produces(yields, dom2, i, r2, fuel);
    lemma_produces_unique(yields, dom1, dom2, i, r1, r2, f1, f2);
}

proof fn lemma_produces_unique<I, R, C: Reducer<R>>(
    yields: spec_fn(I, State<R, C, I>) -> bool,
    dom1: Set<I>,
    dom2: Set<I>,
    i: I,
    r1: R,
    r2: R,
    f1: nat,
    f2: nat,
)
    requires
        yields_deterministic(yields),
        produces(yields, dom1, i, r1, f1),
        produces(yields, dom2, i, r2, f2),
    ensures
        r1 == r2,
    decreases f1,
{
    let s1 = choose|s: State<R, C, I>| #[trigger]
        yields(i, s) && state_produces(yields, dom1, i, s, r1, (f1 - 1) as nat);
    let s2 = choose|s: State<R, C, I>| #[trigger]
        yields(i, s) && state_produces(yields, dom2, i, s, r2, (f2 - 1) as nat);
    assert(same_state(s1, s2));
    assert(yields(i, s1));
    match (s1, s2) {
        (
            State::Intermediate { composer: c1, dependent: d1 },
            State::Intermediate { composer: c2, dependent: d2 },
        ) => {
            let v1 = choose|vals: Seq<R>| #[trigger]
                c1.reduce_ensures(vals, r1) && vals_produced(yields, dom1, d1@, vals, (f1 - 1) as nat);
            let v2 = choose|vals: Seq<R>| #[trigger]
                c2.reduce_ensures(vals, r2) && vals_produced(yields, dom2, d2@, vals, (f2 - 1) as nat);
            assert forall|k: int| 0 <= k < v1.len() implies v1[k] == v2[k] by {
                assert(produces(yields, dom1, d1@[k], v1[k], (f1 - 1) as nat));
                assert(produces(yields, dom2, d2@[k], v2[k], (f2 - 1) as nat));
                lemma_produces_unique(
                    yields,
                    dom1,
                    dom2,
                    d1@[k],
                    v1[k],
                    v2[k],
                    (f1 - 1) as nat,
                    (f2 - 1) as nat,
                );
            }
            assert(v1 =~= v2);
            assert(reducer_deterministic(c1));
        },
        _ => {},
    }
}


/// A top-down state stands for a simple state under the magma `m`: the same
/// base answer, or a reduction by `m`'s left fold of the same sub-problems.
pub open spec fn stands_for<I, R, M>(
    t: State<R, ReduceByMagma<R, M>, I>,
    s: simple::State<I, R>,
    m: M,
) -> bool {
    match (t, s) {
        (State::Base { base_result: a }, simple::State::Base { base_result: b }) => a == b,
        (
            State::Intermediate { composer, dependent: d1 },
            simple::State::Intermediate { dependent: d2 },
        ) => composer.magma() == m && d1@ == d2@,
        _ => false,
    }
}

/// The top-down problem `yt` is the simple problem `ys` with every state's
/// sub-answers reduced by `m`: each state one may give, the other may give
/// a state that it stands for.
pub open spec fn problems_match<I, R, M>(
    yt: spec_fn(I, State<R, ReduceByMagma<R, M>, I>) -> bool,
    ys: spec_fn(I, simple::State<I, R>) -> bool,
    m: M,
) -> bool {
    &&& forall|i: I, t: State<R, ReduceByMagma<R, M>, I>| #[trigger]
        yt(i, t) ==> exists|s: simple::State<I, R>| #[trigger] ys(i, s) && stands_for(t, s, m)
    &&& forall|i: I, s: simple::State<I, R>| #[trigger]
        ys(i, s) ==> exists|t: State<R, ReduceByMagma<R, M>, I>| #[trigger] yt(i, t) && stands_for(t, s, m)
}

/// A top-down solver whose composers all fold with the magma `m` finds
/// exactly the answers of the simple solver that reduces by `m`.
pub proof fn lemma_matches_simple<I, R: Copy, M: Magma<R>>(
    yt: spec_fn(I, State<R, ReduceByMagma<R, M>, I>) -> bool,
    ys: spec_fn(I, simple::State<I, R>) -> bool,
    m: M,
    dom: Set<I>,
    i: I,
    r: R,
)
    requires
        problems_match(yt, ys, m),
    ensures
        answers(yt, dom, i, r) == simple::answers(ys, m, dom, i, r),
{
    if answers(yt, dom, i, r) {
        let f = choose|fuel: nat| #[trigger] produces(yt, dom, i, r, fuel);
        lemma_matches_simple_to(yt, ys, m, dom, i, r, f);
    }
    if simple::answers(ys, m, dom, i, r) {
        let f = choose|fuel: nat| #[trigger] simple::produces(ys, m, dom, i, r, fuel);
        lemma_matches_simple_from(yt, ys, m, dom, i, r, f);
    }
}

proof fn lemma_matches_simple_to<I, R: Copy, M: Magma<R>>(
    yt: spec_fn(I, State<R, ReduceByMagma<R, M>, I>) -> bool,
    ys: spec_fn(I, simple::State<I, R>) -> bool,
    m: M,
    dom: Set<I>,
    i: I,
    r: R,
    f: nat,
)
    requires
        problems_match(yt, ys, m),
        produces(yt, dom, i, r, f),
    ensures
        simple::produces(ys, m, dom, i, r, f),
    decreases f,
{
    let t = choose|t: State<R, ReduceByMagma<R, M>, I>| #[trigger]
        yt(i, t) && state_produces(yt, dom, i, t, r, (f - 1) as nat);
    let s = choose|s: simple::State<I, R>| #[trigger] ys(i, s) && stands_for(t, s, m);
    match (t, s) {
        (State::Intermediate { composer, dependent: d1 }, simple::State::Intermediate { dependent: d2 }) => {
            lemma_reduce_by_magma(composer);
            let vals = choose|vals: Seq<R>| #[trigger]
                composer.reduce_ensures(vals, r) && vals_produced(yt, dom, d1@, vals, (f - 1) as nat);
            assert forall|k: int| #![trigger d2@[k]] 0 <= k < vals.len() implies dom.contains(d2@[k])
                && simple::produces(ys, m, dom, d2@[k], vals[k], (f - 1) as nat) by {
                assert(dom.contains(d1@[k]) && produces(yt, dom, d1@[k], vals[k], (f - 1) as nat));
                lemma_matches_simple_to(yt, ys, m, dom, d1@[k], vals[k], (f - 1) as nat);
            }
            assert(simple::vals_produced(ys, m, dom, d2@, vals, (f - 1) as nat));
            assert(simple::state_produces(ys, m, dom, i, s, r, (f - 1) as nat));
        },
        _ => {
            assert(simple::state_produces(ys, m, dom, i, s, r, (f - 1) as nat));
        },
    }
}

proof fn lemma_matches_simple_from<I, R: Copy, M: Magma<R>>(
    yt: spec_fn(I, State<R, ReduceByMagma<R, M>, I>) -> bool,
    ys: spec_fn(I, simple::State<I, R>) -> bool,
    m: M,
    dom: Set<I>,
    i: I,
    r: R,
    f: nat,
)
    requires
        problems_match(yt, ys, m),
        simple::produces(ys, m, dom, i, r, f),
    ensures
        produces(yt, dom, i, r, f),
    decreases f,
{
    let s = choose|s: simple::State<I, R>| #[trigger]
        ys(i, s) && simple::state_produces(ys, m, dom, i, s, r, (f - 1) as nat);
    let t = choose|t: State<R, ReduceByMagma<R, M>, I>| #[trigger] yt(i, t) && stands_for(t, s, m);
    match (t, s) {
        (State::Intermediate { composer, dependent: d1 }, simple::State::Intermediate { dependent: d2 }) => {
            lemma_reduce_by_magma(composer);
            let vals = choose|vals: Seq<R>| #[trigger]
                crate::collecting::folds_to(m, vals, r) && simple::vals_produced(
                    ys,
                    m,
                    dom,
                    d2@,
                    vals,
                    (f - 1) as nat,
                );
            assert forall|k: int| #![trigger d1@[k]] 0 <= k < vals.len() implies dom.contains(d1@[k])
                && produces(yt, dom, d1@[k], vals[k], (f - 1) as nat) by {
                assert(dom.contains(d2@[k]) && simple::produces(ys, m, dom, d2@[k], vals[k], (f - 1) as nat));
                lemma_matches_simple_from(yt, ys, m, dom, d2@[k], vals[k], (f - 1) as nat);
            }
            assert(vals_produced(yt, dom, d1@, vals, (f - 1) as nat));
            assert(composer.reduce_ensures(vals, r));
            assert(state_produces(yt, dom, i, t, r, (f - 1) as nat));
        },
        _ => {
            assert(state_produces(yt, dom, i, t, r, (f - 1) as nat));
        },
    }
}

/// A solver where each intermediate state says how its sub-answers combine.
pub struct TopDownDP<I, ProbAnswer, SRI, PartialProblemAnswerCombiner, Solver> {
    solver: Solver,
    __phantoms: PhantomData<(I, ProbAnswer, SRI, PartialProblemAnswerCombiner)>,
}

impl<I, ProbAnswer, SRI, PartialProblemAnswerCombiner, Solver> TopDownDP<
    I,
    ProbAnswer,
    SRI,
    PartialProblemAnswerCombiner,
    Solver,
> {
    pub fn new(solver: Solver) -> (r: Self)
        ensures
            r.solver() == solver,
    {
        Self { solver, __phantoms: PhantomData }
    }

    /// The solver that states the problem and keeps the memo.
    pub closed spec fn solver(&self) -> Solver {
        self.solver
    }
}

impl<
    I: Copy,
    R: Copy,
    C: Clone + Reducer<R>,
    Solver: ProblemProxy<I, State<R, C, I>, R>,
> TopDownDP<I, R, I, C, Solver> {
    fn dp_with_fuel(&mut self, initial_index: I, Ghost(fuel): Ghost<nat>) -> (r: R)
        requires
            old(self).wf(),
            safe(
                old(self).solver().accepts(),
                old(self).solver().yields(),
                old(self).solver().domain(),
                initial_index,
                fuel,
            ),
        ensures
            final(self).wf(),
            final(self).solver().accepts() == old(self).solver().accepts(),
            final(self).solver().yields() == old(self).solver().yields(),
            final(self).solver().domain() == old(self).solver().domain(),
            final(self).solver().keeps() == old(self).solver().keeps(),
            answers(
                old(self).solver().yields(),
                old(self).solver().domain(),
                initial_index,
                r,
            ),
            old(self).solver().keeps() ==> old(self).solver().memo().dom().subset_of(
                final(self).solver().memo().dom(),
            ),
            old(self).solver().keeps() ==> exists|s: State<R, C, I>| #[trigger]
                (old(self).solver().yields())(initial_index, s) && match s {
                    State::Base { base_result } => r == base_result
                        && final(self).solver().memo().contains_key(initial_index)
                        && final(self).solver().memo()[initial_index] == base_result,
                    State::Intermediate { composer, dependent } => forall|k: int|
                        0 <= k < dependent@.len() ==> #[trigger] final(self).solver().memo().contains_key(dependent@[k]),
                },
            old(self).solver().keeps() && yields_deterministic(old(self).solver().yields())
                ==> final(self).solver().memo().dom() == old(self).solver().memo().dom().union(
                stored_by_run(
                    old(self).solver().yields(),
                    old(self).solver().memo().dom(),
                    initial_index,
                ),
            ),
        decreases fuel,
    {
        let ghost accepts = self.solver().accepts();
        let ghost yields = self.solver().yields();
        let ghost dom = self.solver().domain();
        let ghost keeps = self.solver().keeps();
        let ghost memo0 = self.solver().memo();
        let solve_result_ref = self.solver.compute(initial_index);
        let ghost st = solve_result_ref;
        proof {
            assert(yields(initial_index, solve_result_ref));
            assert forall|k: I| #[trigger] self.solver().memo().contains_key(k) implies answers(
                yields,
                dom,
                k,
                self.solver().memo()[k],
            ) by {
                if !(memo0.contains_key(k) && self.solver().memo()[k] == memo0[k]) {
                    assert(produces(yields, dom, k, self.solver().memo()[k], 1));
                }
            }
        }
        match solve_result_ref {
            State::Intermediate { composer, dependent } => {
                let ghost deps = dependent@;
                let ghost fuel1 = (fuel - 1) as nat;
                let len = dependent.len();
                let mut collected_values: Vec<R> = Vec::new();
                let ghost mut common: nat = 0;
                let mut i: usize = 0;
                proof {
                    assert(prefix_reached(sub_problems(yields), memo0.dom(), deps, 0)
                        =~= Set::<I>::empty());
                    assert(memo0.dom().union(Set::<I>::empty()) =~= memo0.dom());
                }
                while i < len
                    invariant
                        self.wf(),
                        self.solver().accepts() == accepts,
                        self.solver().yields() == yields,
                        self.solver().domain() == dom,
                        self.solver().keeps() == keeps,
                        keeps ==> memo0.dom().subset_of(self.solver().memo().dom()),
                        deps == dependent@,
                        len == deps.len(),
                        fuel == fuel1 + 1,
                        i <= len,
                        collected_values@.len() == i,
                        forall|k: int| #![trigger deps[k]]
                            0 <= k < deps.len() ==> dom.contains(deps[k]) && safe(
                                accepts,
                                yields,
                                dom,
                                deps[k],
                                fuel1,
                            ),
                        forall|k: int|
                            0 <= k < i ==> #[trigger] produces(
                                yields,
                                dom,
                                deps[k],
                                collected_values@[k],
                                common,
                            ),
                        keeps ==> forall|k: int|
                            0 <= k < i ==> #[trigger] self.solver().memo().contains_key(deps[k]),
                        keeps && yields_deterministic(yields) ==> self.solver().memo().dom()
                            == memo0.dom().union(
                            prefix_reached(sub_problems(yields), memo0.dom(), deps, i as int),
                        ),
                        keeps && yields_deterministic(yields) ==> closed_under(
                            sub_problems(yields),
                            memo0.dom(),
                            self.solver().memo().dom(),
                        ),
                    decreases len - i,
                {
                    let x = dependent[i];
                    assert(safe(accepts, yields, dom, deps[i as int], fuel1));
                    let ghost c = self.solver().memo().dom();
                    let lp = match self.solver.get(x) {
                        Some(v) => {
                            proof {
                                if keeps && yields_deterministic(yields) {
                                    lemma_prefix_held(
                                        sub_problems(yields),
                                        memo0.dom(),
                                        c,
                                        deps,
                                        i as int,
                                    );
                                }
                            }
                            v
                        },
                        None => {
                            let lm = self.dp_with_fuel(x, Ghost(fuel1));
                            let ghost memo1 = self.solver().memo();
                            self.solver.update_cache(x, lm);
                            proof {
                                if keeps && yields_deterministic(yields) {
                                    lemma_stored_after_run(
                                        yields,
                                        memo0.dom(),
                                        c,
                                        memo1.dom(),
                                        self.solver().memo().dom(),
                                        deps,
                                        i as int,
                                    );
                                }
                                assert forall|k: I| #[trigger]
                                    self.solver().memo().contains_key(k) implies answers(
                                    yields,
                                    dom,
                                    k,
                                    self.solver().memo()[k],
                                ) by {
                                    assert(memo1.insert(x, lm).contains_key(k));
                                }
                            }
                            lm
                        },
                    };
                    proof {
                        assert(answers(yields, dom, x, lp));
                        let f = choose|f: nat| #[trigger] produces(yields, dom, x, lp, f);
                        let g = if f <= common {
                            common
                        } else {
                            f
                        };
                        assert forall|k: int| 0 <= k < i implies #[trigger] produces(
                            yields,
                            dom,
                            deps[k],
                            collected_values@[k],
                            g,
                        ) by {
                            lemma_produces_mono(
                                yields,
                                dom,
                                deps[k],
                                collected_values@[k],
                                common,
                                g,
                            );
                        }
                        lemma_produces_mono(yields, dom, x, lp, f, g);
                        common = g;
                    }
                    collected_values.push(lp);
                    i = i + 1;
                }
                let ghost vals = collected_values@;
                proof {
                    if keeps && yields_deterministic(yields) {
                        lemma_stored_by_list(yields, memo0.dom(), initial_index, composer, dependent);
                    }
                    assert forall|k: int| 0 <= k < vals.len() implies #[trigger] answers(
                        yields,
                        dom,
                        deps[k],
                        vals[k],
                    ) by {
                        assert(produces(yields, dom, deps[k], vals[k], common));
                    }
                    assert(composer.reduce_requires(vals));
                }
                let r = composer.reduce(collected_values);
                proof {
                    assert(composer.reduce_ensures(vals, r));
                    assert forall|k: int| #![trigger deps[k]] 0 <= k < vals.len() implies dom.contains(
                        deps[k],
                    ) && produces(yields, dom, deps[k], vals[k], common) by {
                        assert(produces(yields, dom, deps[k], vals[k], common));
                    }
                    assert(vals_produced(yields, dom, deps, vals, common));
                    assert(state_produces(yields, dom, initial_index, st, r, common));
                    assert(produces(yields, dom, initial_index, r, common + 1));
                }
                r
            },
            State::Base { base_result } => {
                proof {
                    assert(produces(yields, dom, initial_index, base_result, 1));
                    if keeps && yields_deterministic(yields) {
                        lemma_stored_by_base(yields, memo0.dom(), initial_index, base_result);
                        assert(self.solver().memo().dom() =~= memo0.dom().union(
                            Set::<I>::empty().insert(initial_index),
                        ));
                    }
                }
                base_result
            },
        }
    }
}

impl<
    I: Copy,
    R: Copy,
    C: Clone + Reducer<R>,
    Solver: ProblemProxy<I, State<R, C, I>, R>,
> DP<I, R> for TopDownDP<I, R, I, C, Solver> {
    type State = State<R, C, I>;

    open spec fn wf(&self) -> bool {
        &&& self.solver().wf()
        &&& memo_consistent(self.solver().yields(), self.solver().domain(), self.solver().memo())
    }

    open spec fn solvable(&self, index: I) -> bool {
        problem_solvable(
            self.solver().accepts(),
            self.solver().yields(),
            self.solver().domain(),
            index,
        )
    }

    open spec fn is_answer(&self, index: I, answer: R) -> bool {
        answers(self.solver().yields(), self.solver().domain(), index, answer)
    }

    open spec fn memo(&self) -> Map<I, R> {
        self.solver().memo()
    }

    open spec fn keeps(&self) -> bool {
        self.solver().keeps()
    }

    /// Asks the solver for the state of `initial_index`; a base answer is the
    /// answer. Otherwise each sub-problem, in order, is looked up in the
    /// solver, or else solved and offered to it; the state's composer then
    /// reduces the answers, once. A solver that keeps answers, for a problem
    /// whose states for an input all say the same, ends up holding in
    /// addition exactly the inputs of `stored_by_run`.
    fn dp(&mut self, initial_index: I) -> (r: R)
        ensures
            old(self).solver().keeps() ==> exists|s: State<R, C, I>| #[trigger]
                (old(self).solver().yields())(initial_index, s) && match s {
                    State::Base { base_result } => r == base_result
                        && final(self).solver().memo().contains_key(initial_index)
                        && final(self).solver().memo()[initial_index] == base_result,
                    State::Intermediate { dependent, .. } => forall|k: int|
                        0 <= k < dependent@.len() ==> #[trigger] final(self).solver().memo().contains_key(dependent@[k]),
                },
            old(self).solver().keeps() && yields_deterministic(old(self).solver().yields())
                ==> final(self).solver().memo().dom() == old(self).solver().memo().dom().union(
                stored_by_run(
                    old(self).solver().yields(),
                    old(self).solver().memo().dom(),
                    initial_index,
                ),
            ),
    {
        let ghost fuel = choose|fuel: nat| #[trigger]
            safe(
                self.solver().accepts(),
                self.solver().yields(),
                self.solver().domain(),
                initial_index,
                fuel,
            );
        self.dp_with_fuel(initial_index, Ghost(fuel))
    }
}

/// Each input that a safely solved input reaches is solved safely within
/// less depth.
proof fn lemma_safe_descends<I, R, C: Reducer<R>>(
    accepts: spec_fn(I) -> bool,
    yields: spec_fn(I, State<R, C, I>) -> bool,
    dom: Set<I>,
    known: Set<I>,
    x: I,
    y: I,
    n: nat,
    f: nat,
) -> (n2: nat)
    requires
        safe(accepts, yields, dom, x, n),
        reaches(sub_problems(yields), known, x, y, f),
    ensures
        n2 < n,
        safe(accepts, yields, dom, y, n2),
    decreases f,
{
    let d = choose|d: Seq<I>| #[trigger]
        sub_problems(yields)(x, d) && list_reaches(sub_problems(yields), known, d, y, (f - 1) as nat);
    let (c, v) = choose|composer: C, dependent: Vec<I>| #[trigger]
        yields(x, State::Intermediate { composer, dependent }) && dependent@ == d;
    assert(state_safe(
        accepts,
        yields,
        dom,
        x,
        State::Intermediate { composer: c, dependent: v },
        (n - 1) as nat,
    ));
    let k = choose|k: int| #![trigger d[k]]
        0 <= k < d.len() && (d[k] == y || (!known.contains(d[k]) && reaches(
            sub_problems(yields),
            known,
            d[k],
            y,
            (f - 1) as nat,
        )));
    assert(safe(accepts, yields, dom, v@[k], (n - 1) as nat));
    if d[k] == y {
        (n - 1) as nat
    } else {
        lemma_safe_descends(accepts, yields, dom, known, d[k], y, (n - 1) as nat, (f - 1) as nat)
    }
}

/// A safely solved input does not reach itself.
proof fn lemma_safe_acyclic<I, R, C: Reducer<R>>(
    accepts: spec_fn(I) -> bool,
    yields: spec_fn(I, State<R, C, I>) -> bool,
    dom: Set<I>,
    known: Set<I>,
    x: I,
    n: nat,
    f: nat,
)
    requires
        safe(accepts, yields, dom, x, n),
    ensures
        !reaches(sub_problems(yields), known, x, x, f),
    decreases n,
{
    if reaches(sub_problems(yields), known, x, x, f) {
        let n2 = lemma_safe_descends(accepts, yields, dom, known, x, x, n, f);
        lemma_safe_acyclic(accepts, yields, dom, known, x, n2, f);
    }
}

/// The recursion from a solvable input ends, so the input is not among what
/// it reaches: a run on it stores its own answer only where that is a base
/// answer (see `stored_by_run`).
pub proof fn lemma_root_not_reached<I, R, C: Reducer<R>>(
    accepts: spec_fn(I) -> bool,
    yields: spec_fn(I, State<R, C, I>) -> bool,
    dom: Set<I>,
    known: Set<I>,
    i: I,
)
    requires
        problem_solvable(accepts, yields, dom, i),
    ensures
        !reached(sub_problems(yields), known, i).contains(i),
{
    let n = choose|fuel: nat| #[trigger] safe(accepts, yields, dom, i, fuel);
    assert forall|f: nat| !#[trigger] reaches(sub_problems(yields), known, i, i, f) by {
        lemma_safe_acyclic(accepts, yields, dom, known, i, n, f);
    }
}

/// What the runner's `DP` interface means, spelled out over its solver;
/// useful where the solver's type (say, one holding a closure) keeps Verus
/// from unfolding the interface by itself.
pub proof fn lemma_runner_spec<
    I: Copy,
    R: Copy,
    C: Clone + Reducer<R>,
    Solver: ProblemProxy<I, State<R, C, I>, R>,
>(r: TopDownDP<I, R, I, C, Solver>)
    ensures
        r.wf() == (r.solver().wf() && memo_consistent(
            r.solver().yields(),
            r.solver().domain(),
            r.solver().memo(),
        )),
        forall|i: I| #[trigger]
            r.solvable(i) == problem_solvable(
                r.solver().accepts(),
                r.solver().yields(),
                r.solver().domain(),
                i,
            ),
        forall|i: I, a: R| #[trigger]
            r.is_answer(i, a) == answers(r.solver().yields(), r.solver().domain(), i, a),
        r.memo() == r.solver().memo(),
        r.keeps() == r.solver().keeps(),
{
}

/// Two runners for the same deterministic problem find the same answer,
/// whatever caches their solvers keep (or none): memoising does not change
/// an answer.
pub proof fn lemma_runners_agree<
    I: Copy,
    R: Copy,
    C: Clone + Reducer<R>,
    S1: ProblemProxy<I, State<R, C, I>, R>,
    S2: ProblemProxy<I, State<R, C, I>, R>,
>(a: TopDownDP<I, R, I, C, S1>, b: TopDownDP<I, R, I, C, S2>, i: I, ra: R, rb: R)
    requires
        a.solver().yields() == b.solver().yields(),
        yields_deterministic(a.solver().yields()),
        a.is_answer(i, ra),
        b.is_answer(i, rb),
    ensures
        ra == rb,
{
    lemma_answer_unique(a.solver().yields(), a.solver().domain(), b.solver().domain(), i, ra, rb);
}

} // verus!
