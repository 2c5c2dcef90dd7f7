//! Solvers: what a problem gives for an input, and where answers are kept.
use std::marker::PhantomData;
use vstd::prelude::*;
use crate::cache::ArbitraryScopeCachePolicy;
use crate::cache::ScopedCachePolicy;
use crate::dp::state::StateExtractor;

verus! {

/// Computes the state of a problem for an input, and may remember answers.
pub trait ProblemProxy<Input, State: StateExtractor<Answer>, Answer> {
    /// The inputs `compute` accepts.
    spec fn accepts(&self) -> spec_fn(Input) -> bool;

    /// `compute(input)` may return this state.
    spec fn yields(&self) -> spec_fn(Input, State) -> bool;

    /// The answers the proxy remembers: what `get` returns.
    spec fn memo(&self) -> Map<Input, Answer>;

    /// The inputs whose answers may be stored.
    spec fn domain(&self) -> Set<Input>;

    /// Whether the proxy stores every answer it is given.
    spec fn keeps(&self) -> bool;

    /// Whether the proxy is in a state its operations rely on.
    spec fn wf(&self) -> bool;

    /// Always solves the problem. An answer computed directly is remembered
    /// for `input` when the proxy keeps answers; nothing else is stored.
    fn compute(&mut self, input: Input) -> (s: State)
        requires
            old(self).wf(),
            (old(self).accepts())(input),
            forall|t: State| #[trigger]
                (old(self).yields())(input, t) && t.spec_value() is Some ==> old(self).domain().contains(input),
        ensures
            final(self).wf(),
            final(self).accepts() == old(self).accepts(),
            final(self).yields() == old(self).yields(),
            final(self).domain() == old(self).domain(),
            final(self).keeps() == old(self).keeps(),
            (old(self).yields())(input, s),
            forall|k: Input| #[trigger]
                final(self).memo().contains_key(k) ==> (old(self).memo().contains_key(k)
                    && final(self).memo()[k] == old(self).memo()[k]) || (k == input
                    && s.spec_value() == Some(final(self).memo()[k])),
            s.spec_value() is None ==> final(self).memo() == old(self).memo(),
            old(self).keeps() && s.spec_value() is Some ==> final(self).memo() == old(self).memo().insert(input, s.spec_value()->Some_0),
    ;

    /// Updates the cache if supported; if not, this is a no-op.
    fn update_cache(&mut self, input: Input, answer: Answer)
        requires
            old(self).wf(),
            old(self).domain().contains(input),
        ensures
            final(self).wf(),
            final(self).accepts() == old(self).accepts(),
            final(self).yields() == old(self).yields(),
            final(self).domain() == old(self).domain(),
            final(self).keeps() == old(self).keeps(),
            final(self).memo().submap_of(old(self).memo().insert(input, answer)),
            old(self).keeps() ==> final(self).memo() == old(self).memo().insert(input, answer),
    ;

    /// Gets an answer without solving: the remembered one, or `None` if the
    /// cache does not hold one (always, for a proxy without a cache).
    fn get(&self, input: Input) -> (r: Option<Answer>)
        requires
            self.wf(),
        ensures
            r == (if self.memo().contains_key(input) {
                Some(self.memo()[input])
            } else {
                None
            }),
    ;
}

/// The inputs a closure accepts.
pub open spec fn closure_accepts<I, S, F: Fn(I) -> S>(f: F) -> spec_fn(I) -> bool {
    |i: I| call_requires(f, (i,))
}

/// The states a closure may return for each input.
pub open spec fn closure_yields<I, S, F: Fn(I) -> S>(f: F) -> spec_fn(I, S) -> bool {
    |i: I, s: S| call_ensures(f, (i,), s)
}

pub struct SolverFactory;

impl SolverFactory {
    /// A solver that calls `f` and remembers nothing.
    pub fn function<Input, State: StateExtractor<PartialAnswer>, PartialAnswer, F: Fn(Input) -> State>(
        f: F,
    ) -> (r: Function<F, Input, State, PartialAnswer>)
        ensures
            r.closure() == f,
            r.accepts() == closure_accepts(f),
            r.yields() == closure_yields(f),
            r.memo() == Map::<Input, PartialAnswer>::empty(),
            r.domain() == Set::<Input>::full(),
            !r.keeps(),
            r.wf(),
    {
        Function(f, PhantomData)
    }

    /// A solver that calls `f` and remembers answers in `cache`.
    pub fn function_with_cache<
        Input: Copy,
        State: StateExtractor<PartialAnswer>,
        PartialAnswer: Copy,
        F: Fn(Input) -> State,
        CP: ArbitraryScopeCachePolicy<Input, PartialAnswer>,
    >(f: F, cache: CP) -> (r: FunctionWithCache<F, CP, Input, State, PartialAnswer>)
        ensures
            r.closure() == f,
            r.cache() == cache,
            r.accepts() == closure_accepts(f),
            r.yields() == closure_yields(f),
            r.memo() == cache.entries(),
            r.domain() == cache.domain(),
            r.keeps() == cache.keeps(),
            r.wf() == cache.wf(),
    {
        FunctionWithCache { f, cache_repo: cache, _p: PhantomData }
    }
}

/// Solves by calling a closure; remembers nothing.
#[verifier::reject_recursive_types(Input)]
#[verifier::reject_recursive_types(State)]
#[verifier::reject_recursive_types(PA)]
pub struct Function<F: Fn(Input) -> State, Input, State: StateExtractor<PA>, PA>(
    F,
    PhantomData<(Input, State, PA)>,
);

impl<F: Fn(I) -> S, I, S: StateExtractor<PA>, PA> Function<F, I, S, PA> {
    /// The closure the solver calls.
    pub closed spec fn closure(&self) -> F {
        self.0
    }
}

impl<F: Fn(I) -> S, I, S: StateExtractor<PA>, PA> ProblemProxy<I, S, PA> for Function<F, I, S, PA> {
    open spec fn accepts(&self) -> spec_fn(I) -> bool {
        closure_accepts(self.closure())
    }

    open spec fn yields(&self) -> spec_fn(I, S) -> bool {
        closure_yields(self.closure())
    }

    open spec fn memo(&self) -> Map<I, PA> {
        Map::empty()
    }

    open spec fn domain(&self) -> Set<I> {
        Set::full()
    }

    open spec fn keeps(&self) -> bool {
        false
    }

    open spec fn wf(&self) -> bool {
        true
    }

    /// Calls the closure once on `input`.
    fn compute(&mut self, input: I) -> (s: S)
        ensures
            call_ensures(old(self).closure(), (input,), s),
            final(self).closure() == old(self).closure(),
    {
        (self.0)(input)
    }

    fn update_cache(&mut self, _input: I, _get: PA) {
    }

    fn get(&self, _input: I) -> (r: Option<PA>) {
        None
    }
}

/// Solves by calling a closure, and remembers answers in a cache.
#[verifier::reject_recursive_types(Input)]
#[verifier::reject_recursive_types(State)]
#[verifier::reject_recursive_types(PartialAnswer)]
pub struct FunctionWithCache<
    F: Fn(Input) -> State,
    CP: ArbitraryScopeCachePolicy<Input, PartialAnswer>,
    Input,
    State,
    PartialAnswer,
> {
    f: F,
    cache_repo: CP,
    _p: PhantomData<(Input, State, PartialAnswer)>,
}

impl<
    F: Fn(I) -> S,
    CP: ArbitraryScopeCachePolicy<I, PA>,
    I,
    S,
    PA,
> FunctionWithCache<F, CP, I, S, PA> {
    /// The closure the solver calls.
    pub closed spec fn closure(&self) -> F {
        self.f
    }

    /// The cache the solver remembers answers in.
    pub closed spec fn cache(&self) -> CP {
        self.cache_repo
    }
}

impl<
    F: Fn(I) -> S,
    CP: ArbitraryScopeCachePolicy<I, PA>,
    I: Copy,
    S: StateExtractor<PA>,
    PA: Copy,
> ProblemProxy<I, S, PA> for FunctionWithCache<F, CP, I, S, PA> {
    open spec fn accepts(&self) -> spec_fn(I) -> bool {
        closure_accepts(self.closure())
    }

    open spec fn yields(&self) -> spec_fn(I, S) -> bool {
        closure_yields(self.closure())
    }

    open spec fn memo(&self) -> Map<I, PA> {
        self.cache().entries()
    }

    open spec fn domain(&self) -> Set<I> {
        self.cache().domain()
    }

    open spec fn keeps(&self) -> bool {
        self.cache().keeps()
    }

    open spec fn wf(&self) -> bool {
        self.cache().wf()
    }

    /// Calls the closure once on `input`, and offers the answer to the cache
    /// when the state holds one.
    fn compute(&mut self, input: I) -> (s: S)
        ensures
            call_ensures(old(self).closure(), (input,), s),
            final(self).closure() == old(self).closure(),
    {
        let v = (self.f)(input);
        assert((old(self).yields())(input, v));
        match v.get_value() {
            Some(pa) => {
                self.update_cache(input, pa);
                assert forall|k: I| #[trigger] self.memo().contains_key(k) implies (old(self).memo().contains_key(k) && self.memo()[k] == old(self).memo()[k]) || (k == input
                    && v.spec_value() == Some(self.memo()[k])) by {
                    assert(old(self).memo().insert(input, pa).contains_key(k));
                }
            },
            None => {},
        }
        v
    }

    /// Offers the answer to the cache.
    fn update_cache(&mut self, input: I, get: PA)
        ensures
            final(self).closure() == old(self).closure(),
    {
        self.cache_repo.set(input, get);
    }

    fn get(&self, input: I) -> (r: Option<PA>) {
        match self.cache_repo.get(&input) {
            Some(v) => Some(*v),
            None => None,
        }
    }
}

} // verus!
