//! Reading the directly computed answer out of a solver state.
use std::rc::Rc;
use std::sync::Arc;
use vstd::prelude::*;

verus! {

pub trait StateExtractor<T> {
    /// The answer the state holds, if it was computed directly.
    spec fn spec_value(&self) -> Option<T>;

    /// Returns `Some(result)` if the state holds a computed result, and
    /// `None` if not.
    fn get_value(&self) -> (r: Option<T>)
        ensures
            r == self.spec_value(),
    ;
}

/// A reference to a state answers as the state does.
impl<'a, S: StateExtractor<A>, A> StateExtractor<A> for &'a S {
    open spec fn spec_value(&self) -> Option<A> {
        (**self).spec_value()
    }

    fn get_value(&self) -> (r: Option<A>) {
        (**self).get_value()
    }
}

/// A boxed state answers as the state does.
impl<S: StateExtractor<A>, A> StateExtractor<A> for Box<S> {
    open spec fn spec_value(&self) -> Option<A> {
        (**self).spec_value()
    }

    fn get_value(&self) -> (r: Option<A>) {
        (**self).get_value()
    }
}

/// A shared state answers as the state does.
impl<S: StateExtractor<A>, A> StateExtractor<A> for Rc<S> {
    open spec fn spec_value(&self) -> Option<A> {
        (**self).spec_value()
    }

    fn get_value(&self) -> (r: Option<A>) {
        (**self).get_value()
    }
}

/// A state shared across threads answers as the state does.
impl<S: StateExtractor<A>, A> StateExtractor<A> for Arc<S> {
    open spec fn spec_value(&self) -> Option<A> {
        (**self).spec_value()
    }

    fn get_value(&self) -> (r: Option<A>) {
        (**self).get_value()
    }
}

} // verus!
