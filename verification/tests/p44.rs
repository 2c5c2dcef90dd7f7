use dp_cache::cache::CacheArray;
use dp_cache::collecting::Sum;
use dp_cache::dp::get_state::SolverFactory;
use dp_cache::dp::simple::State::{Base, Intermediate};
use dp_cache::dp::simple_dp;
use dp_cache::dp::traits::DP;

#[test]
fn test() {
    assert_eq!(inner_test(2), 2);
    assert_eq!(inner_test(3), 3);
    assert_eq!(inner_test(5), 8);
}

fn inner_test(index: usize) -> u64 {
    simple_dp(
        SolverFactory::function_with_cache(
            |i: usize| {
                if i == 1 {
                    Base { base_result: 1 }
                } else if i == 2 {
                    Base { base_result: 2 }
                } else {
                    Intermediate { dependent: vec![i - 1, i - 2] }
                }
            },
            CacheArray::<_, 51>::new(),
        ),
        Sum::new(),
    )
    .dp(index)
}
