//! A vector of a given non-zero length whose slots are filled one by one.
use vstd::prelude::*;

verus! {

/// Builds a vector of `len` elements whose element `i` is `tap(i)`, filling
/// the slots in order. `len` must be at least 1.
pub fn tap_non_empty_uninit_vec<R, F: Fn(usize) -> R>(len: usize, tap: F) -> (r: Vec<R>)
    requires
        len >= 1,
        forall|i: usize| i < len ==> call_requires(tap, (i,)),
    ensures
        r.len() == len,
        forall|i: int| 0 <= i < len ==> call_ensures(tap, (i as usize,), #[trigger] r[i]),
{
    let mut temp: Vec<R> = Vec::with_capacity(len);
    let mut i: usize = 0;
    while i < len
        invariant
            i <= len,
            temp.len() == i,
            forall|i: usize| i < len ==> call_requires(tap, (i,)),
            forall|j: int| 0 <= j < i ==> call_ensures(tap, (j as usize,), #[trigger] temp[j]),
        decreases len - i,
    {
        temp.push(tap(i));
        i = i + 1;
    }
    temp
}

} // verus!
