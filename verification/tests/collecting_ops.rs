use dp_cache::collecting::{Magma, ReduceByMagma, Reducer, Sum};

#[test]
fn sum_adds() {
    let s: Sum<u64> = Sum::new();
    assert_eq!(s.combine(2, 40), 42);
    let t: Sum<i32> = Sum::new();
    assert_eq!(t.combine(-5, 3), -2);
    assert_eq!(t.combine(3, -5), t.combine(-5, 3));
}

#[test]
fn closure_is_a_magma() {
    let f = |a: u32, b: u32| a * 10 + b;
    assert_eq!(f.combine(1, 2), 12);
}

#[test]
fn reduce_by_magma_folds_from_the_left() {
    let r = ReduceByMagma::new(|a: u32, b: u32| a * 10 + b);
    assert_eq!(r.reduce(vec![1, 2, 3]), 123);
    assert_eq!(r.reduce(vec![7]), 7);
    let sum = ReduceByMagma::new(Sum::<i64>::new());
    assert_eq!(sum.reduce(vec![1, -2, 30]), 29);
    let copied = sum;
    assert_eq!(copied.reduce(vec![4, 4]), 8);
    let cloned = sum.clone();
    assert_eq!(cloned.reduce(vec![4, 5]), 9);
}

#[test]
fn closure_is_a_reducer() {
    let longest = |v: Vec<u8>| v.len() as u8;
    assert_eq!(longest.reduce(vec![9, 9, 9]), 3);
}
