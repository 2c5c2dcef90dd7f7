//! Binary operations and the reductions of non-empty sequences built on them.
use std::marker::PhantomData;
use std::ops::Add;
use vstd::prelude::*;

verus! {

/// A binary operation on `A`.
pub trait Magma<A> {
    /// Whether `combine(lhs, rhs)` may be called (for instance: does not overflow).
    spec fn combine_requires(&self, lhs: A, rhs: A) -> bool;

    /// Whether `combine(lhs, rhs)` may return `out`.
    spec fn combine_ensures(&self, lhs: A, rhs: A, out: A) -> bool;

    fn combine(&self, lhs: A, rhs: A) -> (r: A)
        requires
            self.combine_requires(lhs, rhs),
        ensures
            self.combine_ensures(lhs, rhs, r),
    ;
}

/// Every call of the operation on the same operands gives the same result.
pub open spec fn magma_deterministic<A, M: Magma<A>>(m: M) -> bool {
    forall|a: A, b: A, x: A, y: A|
        #[trigger] m.combine_ensures(a, b, x) && #[trigger] m.combine_ensures(a, b, y) ==> x == y
}

/// A marker: the operation is commutative. An implementation must follow
/// `f(a, b) == f(b, a)`, where `f` is `Magma::combine`, `a: A` and `b: A`.
/// It is useful when combining in parallel.
pub trait Commutative {

}

/// A closure combines its operands by being called on them once.
impl<F: Copy + FnOnce(A, A) -> A, A: Copy> Magma<A> for F {
    open spec fn combine_requires(&self, lhs: A, rhs: A) -> bool {
        call_requires(*self, (lhs, rhs))
    }

    open spec fn combine_ensures(&self, lhs: A, rhs: A, out: A) -> bool {
        call_ensures(*self, (lhs, rhs), out)
    }

    fn combine(&self, lhs: A, rhs: A) -> (r: A)
        ensures
            call_ensures(*self, (lhs, rhs), r),
    {
        let f = *self;
        f(lhs, rhs)
    }
}

/// What a closure's `Magma` operations mean; useful where the closure's type
/// keeps Verus from unfolding them by itself.
pub proof fn lemma_closure_magma<F: Copy + FnOnce(A, A) -> A, A: Copy>(f: F)
    ensures
        forall|lhs: A, rhs: A| #[trigger]
            f.combine_requires(lhs, rhs) == call_requires(f, (lhs, rhs)),
        forall|lhs: A, rhs: A, out: A| #[trigger]
            f.combine_ensures(lhs, rhs, out) == call_ensures(f, (lhs, rhs), out),
{
}

/// A magma with an identity element.
pub trait Monoid<A>: Magma<A> {
    /// The identity element.
    fn empty_element() -> A;
}

/// Addition.
pub struct Sum<T>(PhantomData<T>);

impl<T> Clone for Sum<T> {
    fn clone(&self) -> (r: Self)
        ensures
            r == *self,
    {
        Sum(PhantomData)
    }
}

impl<T> Copy for Sum<T> {

}

impl<T> Sum<T> {
    /// The (only) addition operator on `T`; `Sum` carries no data.
    pub fn new() -> Self {
        Self(PhantomData)
    }
}

impl<T: Add<Output = T>> Magma<T> for Sum<T> {
    /// The addition must be one that vstd models, and must not overflow.
    open spec fn combine_requires(&self, lhs: T, rhs: T) -> bool {
        <T as vstd::std_specs::ops::AddSpec>::obeys_add_spec()
            && <T as vstd::std_specs::ops::AddSpec>::add_req(lhs, rhs)
    }

    open spec fn combine_ensures(&self, lhs: T, rhs: T, out: T) -> bool {
        out == <T as vstd::std_specs::ops::AddSpec>::add_spec(lhs, rhs)
    }

    fn combine(&self, lhs: T, rhs: T) -> (r: T) {
        lhs + rhs
    }
}

/// Addition gives one result for each pair of operands.
pub proof fn lemma_sum_deterministic<T: Add<Output = T>>(m: Sum<T>)
    ensures
        magma_deterministic(m),
{
}

/// `out` is a result of the left fold of the non-empty sequence `s` under
/// `m`: `((s[0] * s[1]) * s[2]) * ...`, where `*` is `m`'s operation; the
/// fold starts from the first element, with no seed.
pub open spec fn folds_to<A, M: Magma<A>>(m: M, s: Seq<A>, out: A) -> bool
    decreases s.len(),
{
    if s.len() == 0 {
        false
    } else if s.len() == 1 {
        out == s[0]
    } else {
        exists|acc: A|
            folds_to(m, s.drop_last(), acc) && #[trigger] m.combine_ensures(acc, s.last(), out)
    }
}

/// Every step of the left fold of `s` under `m` may be taken, whatever the
/// earlier steps gave; false for the empty sequence.
pub open spec fn fold_safe<A, M: Magma<A>>(m: M, s: Seq<A>) -> bool
    decreases s.len(),
{
    if s.len() == 0 {
        false
    } else if s.len() == 1 {
        true
    } else {
        &&& fold_safe(m, s.drop_last())
        &&& forall|acc: A| #[trigger]
            folds_to(m, s.drop_last(), acc) ==> m.combine_requires(acc, s.last())
    }
}

/// One step of the left fold, spelled out; useful where the magma's type
/// (say, a closure) keeps Verus from unfolding `folds_to` and `fold_safe`
/// by itself.
pub proof fn lemma_fold_step<A, M: Magma<A>>(m: M, s: Seq<A>, out: A)
    ensures
        folds_to(m, s, out) == if s.len() == 0 {
            false
        } else if s.len() == 1 {
            out == s[0]
        } else {
            exists|acc: A|
                folds_to(m, s.drop_last(), acc) && #[trigger] m.combine_ensures(acc, s.last(), out)
        },
        fold_safe(m, s) == if s.len() == 0 {
            false
        } else if s.len() == 1 {
            true
        } else {
            &&& fold_safe(m, s.drop_last())
            &&& forall|acc: A| #[trigger]
                folds_to(m, s.drop_last(), acc) ==> m.combine_requires(acc, s.last())
        },
{
}

/// A fold that may be taken may be taken on each non-empty prefix.
proof fn lemma_fold_safe_prefix<A, M: Magma<A>>(m: M, s: Seq<A>, k: int)
    requires
        fold_safe(m, s),
        1 <= k <= s.len(),
    ensures
        fold_safe(m, s.take(k)),
    decreases s.len(),
{
    if k < s.len() {
        assert(s.drop_last().take(k) =~= s.take(k));
        lemma_fold_safe_prefix(m, s.drop_last(), k);
    } else {
        assert(s.take(k) =~= s);
    }
}

/// Under a deterministic operation, the fold has one result.
pub proof fn lemma_folds_to_unique<A, M: Magma<A>>(m: M, s: Seq<A>, x: A, y: A)
    requires
        magma_deterministic(m),
        folds_to(m, s, x),
        folds_to(m, s, y),
    ensures
        x == y,
    decreases s.len(),
{
    if s.len() > 1 {
        let ax = choose|acc: A|
            folds_to(m, s.drop_last(), acc) && #[trigger] m.combine_ensures(acc, s.last(), x);
        let ay = choose|acc: A|
            folds_to(m, s.drop_last(), acc) && #[trigger] m.combine_ensures(acc, s.last(), y);
        lemma_folds_to_unique(m, s.drop_last(), ax, ay);
    }
}

/// Two operations that may be called on the same operands and may give the
/// same results.
pub open spec fn combine_alike<A, M1: Magma<A>, M2: Magma<A>>(m1: M1, m2: M2) -> bool {
    &&& forall|a: A, b: A| #[trigger] m1.combine_requires(a, b) == m2.combine_requires(a, b)
    &&& forall|a: A, b: A, out: A| #[trigger]
        m1.combine_ensures(a, b, out) == m2.combine_ensures(a, b, out)
}

/// Operations that combine alike fold alike.
pub proof fn lemma_fold_alike<A, M1: Magma<A>, M2: Magma<A>>(m1: M1, m2: M2, s: Seq<A>)
    requires
        combine_alike(m1, m2),
    ensures
        fold_safe(m1, s) == fold_safe(m2, s),
        forall|out: A| #[trigger] folds_to(m1, s, out) == folds_to(m2, s, out),
    decreases s.len(),
{
    if s.len() > 1 {
        lemma_fold_alike(m1, m2, s.drop_last());
        assert forall|out: A| #[trigger] folds_to(m1, s, out) == folds_to(m2, s, out) by {
            if folds_to(m1, s, out) {
                let acc = choose|acc: A|
                    folds_to(m1, s.drop_last(), acc) && #[trigger] m1.combine_ensures(acc, s.last(), out);
                assert(folds_to(m2, s.drop_last(), acc));
                assert(m2.combine_ensures(acc, s.last(), out));
            }
            if folds_to(m2, s, out) {
                let acc = choose|acc: A|
                    folds_to(m2, s.drop_last(), acc) && #[trigger] m2.combine_ensures(acc, s.last(), out);
                assert(folds_to(m1, s.drop_last(), acc));
                assert(m1.combine_ensures(acc, s.last(), out));
            }
        }
        assert(fold_safe(m1, s) == fold_safe(m2, s)) by {
            if fold_safe(m1, s) {
                assert forall|acc: A| #[trigger] folds_to(m2, s.drop_last(), acc) implies m2.combine_requires(
                    acc,
                    s.last(),
                ) by {
                    assert(folds_to(m1, s.drop_last(), acc));
                }
            }
            if fold_safe(m2, s) {
                assert forall|acc: A| #[trigger] folds_to(m1, s.drop_last(), acc) implies m1.combine_requires(
                    acc,
                    s.last(),
                ) by {
                    assert(folds_to(m2, s.drop_last(), acc));
                }
            }
        }
    }
}

/// Reduces a non-empty sequence to one value.
pub trait Reducer<T> {
    /// Whether `reduce` may be called on these items.
    spec fn reduce_requires(&self, items: Seq<T>) -> bool;

    /// Whether `reduce` may return `r` for these items.
    spec fn reduce_ensures(&self, items: Seq<T>, r: T) -> bool;

    fn reduce(&self, reduce_source: Vec<T>) -> (r: T)
        requires
            reduce_source@.len() >= 1,
            self.reduce_requires(reduce_source@),
        ensures
            self.reduce_ensures(reduce_source@, r),
    ;
}

/// Reduces by folding from the left with a magma.
pub struct ReduceByMagma<T, M>(M, PhantomData<T>);

impl<T, M> ReduceByMagma<T, M> {
    pub fn new(magma: M) -> (r: Self)
        ensures
            r.magma() == magma,
    {
        Self(magma, PhantomData)
    }

    /// The magma the reduction folds with.
    pub closed spec fn magma(&self) -> M {
        self.0
    }
}

impl<T, M: Clone> Clone for ReduceByMagma<T, M> {
    fn clone(&self) -> (r: Self)
        ensures
            cloned::<M>(self.magma(), r.magma()),
    {
        Self::new(self.0.clone())
    }
}

impl<T, M: Copy> Copy for ReduceByMagma<T, M> {

}

impl<T: Copy, M: Magma<T>> Reducer<T> for ReduceByMagma<T, M> {
    open spec fn reduce_requires(&self, items: Seq<T>) -> bool {
        fold_safe(self.magma(), items)
    }

    open spec fn reduce_ensures(&self, items: Seq<T>, r: T) -> bool {
        folds_to(self.magma(), items, r)
    }

    /// Folds from the first element: it is not combined with any seed.
    fn reduce(&self, reduce_source: Vec<T>) -> (r: T) {
        let ghost s = reduce_source@;
        let mut acc = reduce_source[0];
        let mut k: usize = 1;
        assert(s.take(1) =~= seq![s[0]]);
        while k < reduce_source.len()
            invariant
                s == reduce_source@,
                1 <= k <= s.len(),
                fold_safe(self.magma(), s),
                folds_to(self.magma(), s.take(k as int), acc),
            decreases s.len() - k,
        {
            proof {
                lemma_fold_safe_prefix(self.magma(), s, k + 1);
                assert(s.take(k + 1).drop_last() =~= s.take(k as int));
            }
            let prev = acc;
            acc = self.0.combine(acc, reduce_source[k]);
            proof {
                assert(folds_to(self.magma(), s.take(k + 1).drop_last(), prev));
                assert(s.take(k + 1).last() == s[k as int]);
                assert(self.magma().combine_ensures(prev, s.take(k + 1).last(), acc));
            }
            k = k + 1;
        }
        assert(s.take(k as int) =~= s);
        acc
    }
}

/// A clone reduces alike: when the cloned magma combines like the first
/// (as `clone` gives for a magma whose clone is faithful), both reducers may
/// be called on the same items and may give the same results.
pub proof fn lemma_clone_reduces_alike<T: Copy, M: Magma<T>>(
    r: ReduceByMagma<T, M>,
    c: ReduceByMagma<T, M>,
)
    requires
        combine_alike(r.magma(), c.magma()),
    ensures
        forall|items: Seq<T>| #[trigger] r.reduce_requires(items) == c.reduce_requires(items),
        forall|items: Seq<T>, out: T| #[trigger]
            r.reduce_ensures(items, out) == c.reduce_ensures(items, out),
{
    assert forall|items: Seq<T>| #[trigger] r.reduce_requires(items) == c.reduce_requires(items) by {
        lemma_fold_alike(r.magma(), c.magma(), items);
    }
    assert forall|items: Seq<T>, out: T| #[trigger]
        r.reduce_ensures(items, out) == c.reduce_ensures(items, out) by {
        lemma_fold_alike(r.magma(), c.magma(), items);
    }
}

/// What `ReduceByMagma`'s `Reducer` operations mean; useful where the
/// magma's type (say, a closure) keeps Verus from unfolding them by itself.
pub proof fn lemma_reduce_by_magma<T: Copy, M: Magma<T>>(r: ReduceByMagma<T, M>)
    ensures
        forall|items: Seq<T>| #[trigger]
            r.reduce_requires(items) == fold_safe(r.magma(), items),
        forall|items: Seq<T>, out: T| #[trigger]
            r.reduce_ensures(items, out) == folds_to(r.magma(), items, out),
{
}

/// What a closure's `Reducer` operations mean; useful where the closure's
/// type keeps Verus from unfolding them by itself.
pub proof fn lemma_closure_reducer<T, F: Copy + FnOnce(Vec<T>) -> T>(f: F)
    ensures
        forall|items: Seq<T>| #[trigger]
            f.reduce_requires(items) == forall|v: Vec<T>| v@ == items ==> #[trigger] call_requires(
                f,
                (v,),
            ),
        forall|items: Seq<T>, r: T| #[trigger]
            f.reduce_ensures(items, r) == exists|v: Vec<T>| v@ == items && #[trigger] call_ensures(
                f,
                (v,),
                r,
            ),
{
}

/// A closure reduces the items by being called once on a vector that holds
/// them.
impl<T, F: Copy + FnOnce(Vec<T>) -> T> Reducer<T> for F {
    open spec fn reduce_requires(&self, items: Seq<T>) -> bool {
        forall|v: Vec<T>| v@ == items ==> #[trigger] call_requires(*self, (v,))
    }

    open spec fn reduce_ensures(&self, items: Seq<T>, r: T) -> bool {
        exists|v: Vec<T>| v@ == items && #[trigger] call_ensures(*self, (v,), r)
    }

    fn reduce(&self, reduce_source: Vec<T>) -> (r: T)
        ensures
            call_ensures(*self, (reduce_source,), r),
    {
        let f = *self;
        f(reduce_source)
    }
}

} // verus!
