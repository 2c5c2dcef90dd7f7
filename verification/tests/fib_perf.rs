use dp_cache::cache::{CacheAll, CacheArray, CacheVec};
use dp_cache::collecting::Sum;
use dp_cache::dp::get_state::SolverFactory;
use dp_cache::dp::simple::State;
use dp_cache::dp::simple_dp;
use dp_cache::dp::topdown::State as TopDownState;
use dp_cache::dp::topdown::TopDownDP;
use dp_cache::dp::traits::DP;

const FIB_30: i32 = 1346269;

#[test]
fn run() {
    let f = |k: i32| {
        if k == 0 || k == 1 {
            TopDownState::Base { base_result: 1 }
        } else {
            TopDownState::Intermediate {
                composer: |a: Vec<i32>| a.iter().sum(),
                dependent: vec![k - 1, k - 2],
            }
        }
    };

    let mut dp = TopDownDP::<i32, i32, i32, _, _>::new(SolverFactory::function(f));
    assert_eq!(dp.dp(30), FIB_30);
    let mut dp = TopDownDP::<i32, i32, i32, _, _>::new(SolverFactory::function_with_cache(
        f,
        CacheAll::new(),
    ));
    assert_eq!(dp.dp(30), FIB_30);

    {
        let mut dp = simple_dp(
            SolverFactory::function(|k: i32| {
                if k == 0 || k == 1 {
                    State::Base { base_result: 1 }
                } else {
                    State::Intermediate { dependent: vec![k - 1, k - 2] }
                }
            }),
            Sum::new(),
        );
        assert_eq!(dp.dp(30), FIB_30);
    }

    {
        let mut dp = simple_dp(
            SolverFactory::function(|k: i32| {
                if k == 0 || k == 1 {
                    State::Base { base_result: 1 }
                } else {
                    State::Intermediate { dependent: vec![k - 1, k - 2] }
                }
            }),
            |a: i32, b: i32| a + b,
        );
        assert_eq!(dp.dp(30), FIB_30);
    }

    {
        let mut dp = simple_dp(
            SolverFactory::function_with_cache(
                |k: i32| {
                    if k == 0 || k == 1 {
                        State::Base { base_result: 1 }
                    } else {
                        State::Intermediate { dependent: vec![k - 1, k - 2] }
                    }
                },
                CacheAll::new(),
            ),
            Sum::new(),
        );
        assert_eq!(dp.dp(30), FIB_30);
    }

    {
        let mut dp = simple_dp(
            SolverFactory::function_with_cache(
                |k: usize| {
                    if k == 0 || k == 1 {
                        State::Base { base_result: 1 }
                    } else {
                        State::Intermediate { dependent: vec![k - 1, k - 2] }
                    }
                },
                CacheVec::new(),
            ),
            Sum::new(),
        );
        assert_eq!(dp.dp(30), FIB_30);
    }

    {
        let mut dp = simple_dp(
            SolverFactory::function_with_cache(
                |k: usize| {
                    if k == 0 || k == 1 {
                        State::Base { base_result: 1 }
                    } else {
                        State::Intermediate { dependent: vec![k - 1, k - 2] }
                    }
                },
                CacheArray::<_, 31>::new(),
            ),
            Sum::new(),
        );
        assert_eq!(dp.dp(30), FIB_30);
    }

    {
        let mut dp_cache = [0u64; 31];
        dp_cache[0] = 1;
        dp_cache[1] = 1;
        for i in 2..31 {
            dp_cache[i] = dp_cache[i - 1] + dp_cache[i - 2];
        }
        assert_eq!(dp_cache[30], FIB_30 as u64);
    }
}
