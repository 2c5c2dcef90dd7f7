use dp_cache::wrap_unsafe::maybe_garbage_vec::tap_non_empty_uninit_vec;

#[test]
fn tap_fills_each_slot_from_its_index() {
    let v = tap_non_empty_uninit_vec(4, |i: usize| i * i);
    assert_eq!(v, vec![0, 1, 4, 9]);
    let one = tap_non_empty_uninit_vec(1, |_i: usize| "x");
    assert_eq!(one, vec!["x"]);
}
