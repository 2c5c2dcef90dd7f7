use dp_cache::cache::{CacheAll, CacheArray, CacheVec, NoCache};
use dp_cache::collecting::{ReduceByMagma, Sum};
use dp_cache::dp::get_state::{ProblemProxy, SolverFactory};
use dp_cache::dp::simple::State;
use dp_cache::dp::simple_dp;
use dp_cache::dp::state::StateExtractor;
use dp_cache::dp::topdown::State as TopDownState;
use dp_cache::dp::topdown::TopDownDP;
use dp_cache::dp::traits::DP;

fn fib_state(k: u64) -> State<u64, u64> {
    if k < 2 {
        State::Base { base_result: k }
    } else {
        State::Intermediate { dependent: vec![k - 1, k - 2] }
    }
}

#[test]
fn simple_state_exposes_base_answers_only() {
    let b: State<u32, u64> = State::Base { base_result: 9 };
    assert_eq!(b.get_value(), Some(9));
    let i: State<u32, u64> = State::Intermediate { dependent: vec![1] };
    assert_eq!(i.get_value(), None);
}

#[test]
fn top_down_state_exposes_base_answers_only() {
    let b: TopDownState<u64, fn(Vec<u64>) -> u64, u32> = TopDownState::Base { base_result: 4 };
    assert_eq!(b.get_value(), Some(4));
    let i: TopDownState<u64, ReduceByMagma<u64, Sum<u64>>, u32> =
        TopDownState::Intermediate { composer: ReduceByMagma::new(Sum::new()), dependent: vec![0] };
    assert_eq!(i.get_value(), None);
}

#[test]
fn function_solver_computes_and_remembers_nothing() {
    let mut s = SolverFactory::function(fib_state);
    assert_eq!(s.compute(1), State::Base { base_result: 1 });
    assert_eq!(s.compute(5), State::Intermediate { dependent: vec![4, 3] });
    s.update_cache(5, 5);
    assert_eq!(s.get(5), None);
    assert_eq!(s.get(1), None);
}

#[test]
fn cached_solver_stores_base_answers_and_updates() {
    let mut s = SolverFactory::function_with_cache(fib_state, CacheAll::new());
    assert_eq!(s.get(1), None);
    assert_eq!(s.compute(1), State::Base { base_result: 1 });
    assert_eq!(s.get(1), Some(1));
    assert_eq!(s.compute(6), State::Intermediate { dependent: vec![5, 4] });
    assert_eq!(s.get(6), None);
    s.update_cache(6, 8);
    assert_eq!(s.get(6), Some(8));
}

#[test]
fn simple_dp_solves_the_recurrence() {
    let mut dp = simple_dp(SolverFactory::function(fib_state), Sum::new());
    assert_eq!(dp.dp(0), 0);
    assert_eq!(dp.dp(1), 1);
    assert_eq!(dp.dp(10), 55);
    assert_eq!(dp.dp(20), 6765);
}

#[test]
fn caching_does_not_change_answers() {
    let mut plain = simple_dp(SolverFactory::function(fib_state), Sum::new());
    let mut all = simple_dp(SolverFactory::function_with_cache(fib_state, CacheAll::new()), Sum::new());
    let mut none = simple_dp(SolverFactory::function_with_cache(fib_state, NoCache), Sum::new());
    for k in 0..25u64 {
        let expected = plain.dp(k);
        assert_eq!(all.dp(k), expected);
        assert_eq!(none.dp(k), expected);
    }
    assert_eq!(all.dp(90), 2880067194370816120);
}

#[test]
fn repeated_calls_agree() {
    let mut dp = simple_dp(
        SolverFactory::function_with_cache(
            |k: usize| {
                if k < 2 {
                    State::Base { base_result: 1u64 }
                } else {
                    State::Intermediate { dependent: vec![k - 1, k - 2] }
                }
            },
            CacheVec::new(),
        ),
        Sum::new(),
    );
    let first = dp.dp(40);
    assert_eq!(first, 165580141);
    assert_eq!(dp.dp(40), first);
    assert_eq!(dp.dp(39), 102334155);
}

#[test]
fn root_need_not_fit_the_cache() {
    let mut dp = simple_dp(
        SolverFactory::function_with_cache(
            |k: usize| {
                if k < 2 {
                    State::Base { base_result: k as u64 }
                } else {
                    State::Intermediate { dependent: vec![k - 1, k - 2] }
                }
            },
            CacheArray::<_, 10>::new(),
        ),
        Sum::new(),
    );
    assert_eq!(dp.dp(10), 55);
}

#[test]
fn single_dependency_and_repeated_dependencies() {
    let mut dp = simple_dp(
        SolverFactory::function(|k: u32| {
            if k == 0 {
                State::Base { base_result: 1u64 }
            } else {
                State::Intermediate { dependent: vec![k - 1, k - 1, k - 1] }
            }
        }),
        |a: u64, b: u64| a + b,
    );
    assert_eq!(dp.dp(0), 1);
    assert_eq!(dp.dp(4), 81);
}

#[test]
fn reduction_order_is_left_to_right() {
    let mut dp = simple_dp(
        SolverFactory::function(|k: u32| {
            if k < 10 {
                State::Base { base_result: k as u64 }
            } else {
                State::Intermediate { dependent: vec![1, 2, 3] }
            }
        }),
        |a: u64, b: u64| a * 10 + b,
    );
    assert_eq!(dp.dp(10), 123);
}

fn sum_all(v: Vec<u64>) -> u64 {
    v.iter().sum()
}

fn product_all(v: Vec<u64>) -> u64 {
    v.iter().product()
}

#[test]
fn top_down_uses_each_states_composer() {
    let f = |k: u32| {
        if k < 2 {
            TopDownState::Base { base_result: 1u64 }
        } else if k % 2 == 0 {
            TopDownState::Intermediate {
                composer: sum_all as fn(Vec<u64>) -> u64,
                dependent: vec![k - 1, k - 2],
            }
        } else {
            TopDownState::Intermediate {
                composer: product_all as fn(Vec<u64>) -> u64,
                dependent: vec![k - 1, k - 2],
            }
        }
    };
    let mut plain = TopDownDP::<u32, u64, u32, _, _>::new(SolverFactory::function(f));
    let mut cached =
        TopDownDP::<u32, u64, u32, _, _>::new(SolverFactory::function_with_cache(f, CacheAll::new()));
    // 2 -> 2, 3 -> 2, 4 -> 4, 5 -> 8, 6 -> 12
    assert_eq!(plain.dp(6), 12);
    assert_eq!(cached.dp(6), 12);
    assert_eq!(cached.dp(1), 1);
}

#[test]
fn top_down_with_a_magma_reducer() {
    let mut dp = TopDownDP::<u64, u64, u64, _, _>::new(SolverFactory::function_with_cache(
        |k: u64| {
            if k < 2 {
                TopDownState::Base { base_result: k }
            } else {
                TopDownState::Intermediate {
                    composer: ReduceByMagma::new(Sum::<u64>::new()),
                    dependent: vec![k - 1, k - 2],
                }
            }
        },
        CacheAll::new(),
    ));
    assert_eq!(dp.dp(30), 832040);
}

#[test]
fn top_down_with_magma_composers_matches_simple() {
    let mut top = TopDownDP::<u64, u64, u64, _, _>::new(SolverFactory::function(|k: u64| {
        if k < 2 {
            TopDownState::Base { base_result: k + 1 }
        } else {
            TopDownState::Intermediate {
                composer: ReduceByMagma::new(Sum::<u64>::new()),
                dependent: vec![k - 1, k - 2, 0],
            }
        }
    }));
    let mut simple = simple_dp(
        SolverFactory::function(|k: u64| {
            if k < 2 {
                State::Base { base_result: k + 1 }
            } else {
                State::Intermediate { dependent: vec![k - 1, k - 2, 0] }
            }
        }),
        Sum::new(),
    );
    for k in 0..20u64 {
        assert_eq!(top.dp(k), simple.dp(k));
    }
    assert_eq!(simple.dp(4), 12);
}

#[test]
fn solver_without_a_keeping_cache_stores_nothing() {
    let mut s = SolverFactory::function_with_cache(fib_state, NoCache);
    assert_eq!(s.compute(0), State::Base { base_result: 0 });
    assert_eq!(s.get(0), None);
    s.update_cache(7, 13);
    assert_eq!(s.get(7), None);
    let mut v = SolverFactory::function_with_cache(fib_state, CacheAll::new());
    v.update_cache(7, 13);
    assert_eq!(v.get(7), Some(13));
    assert_eq!(v.compute(1), State::Base { base_result: 1 });
    assert_eq!(v.get(1), Some(1));
}

#[test]
fn a_run_stores_what_it_reaches_and_not_its_intermediate_root() {
    let calls = std::cell::Cell::new(0u32);
    let mut dp = simple_dp(
        SolverFactory::function_with_cache(
            |k: u64| {
                calls.set(calls.get() + 1);
                fib_state(k)
            },
            CacheAll::new(),
        ),
        Sum::new(),
    );
    // Every input below 5 is reached, each computed once.
    assert_eq!(dp.dp(5), 5);
    assert_eq!(calls.get(), 6);
    // 4 and 3 are stored: only the root is computed again.
    calls.set(0);
    assert_eq!(dp.dp(5), 5);
    assert_eq!(calls.get(), 1);
    // 5 was not stored (an intermediate root): running 6 computes it once more.
    calls.set(0);
    assert_eq!(dp.dp(6), 8);
    assert_eq!(calls.get(), 2);
    // Now 5 is stored, as a sub-problem of 6.
    calls.set(0);
    assert_eq!(dp.dp(6), 8);
    assert_eq!(calls.get(), 1);
}

#[test]
fn pointers_to_states_answer_as_the_state_does() {
    let b: State<u32, u64> = State::Base { base_result: 3 };
    let i: State<u32, u64> = State::Intermediate { dependent: vec![2] };
    assert_eq!(<&State<u32, u64> as StateExtractor<u64>>::get_value(&&b), Some(3));
    assert_eq!(Box::new(b.clone()).get_value(), Some(3));
    assert_eq!(std::rc::Rc::new(b.clone()).get_value(), Some(3));
    assert_eq!(std::sync::Arc::new(b).get_value(), Some(3));
    assert_eq!(Box::new(i.clone()).get_value(), None);
    assert_eq!(std::rc::Rc::new(i).get_value(), None);
}

#[test]
fn a_top_down_run_stores_what_it_reaches_and_not_its_intermediate_root() {
    let calls = std::cell::Cell::new(0u32);
    let mut dp = TopDownDP::<usize, u64, usize, _, _>::new(SolverFactory::function_with_cache(
        |k: usize| {
            calls.set(calls.get() + 1);
            if k < 2 {
                TopDownState::Base { base_result: k as u64 }
            } else {
                TopDownState::Intermediate {
                    composer: ReduceByMagma::new(Sum::<u64>::new()),
                    dependent: vec![k - 1, k - 2],
                }
            }
        },
        CacheVec::new(),
    ));
    assert_eq!(dp.dp(5), 5);
    assert_eq!(calls.get(), 6);
    calls.set(0);
    assert_eq!(dp.dp(5), 5);
    assert_eq!(calls.get(), 1);
    calls.set(0);
    assert_eq!(dp.dp(6), 8);
    assert_eq!(calls.get(), 2);
    // A base root is stored by its own run.
    calls.set(0);
    assert_eq!(dp.dp(1), 1);
    assert_eq!(calls.get(), 1);
}
