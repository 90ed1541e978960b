//! One-shot memoization of a zero-argument computation.
use vstd::prelude::*;

verus! {

/// A computation that runs at most once and caches its result.
///
/// Later calls return a clone of the cached value without running the
/// computation again. This matches the lazy-then-cached behavior the readers
/// rely on when a fork replays a step.
pub struct Once<T, F> {
    /// The computation, until it has run.
    pub f: Option<F>,
    /// The cached result, once it has run.
    pub value: Option<T>,
}

impl<T: Clone, F: FnOnce() -> T> Once<T, F> {
    /// Exactly one of the computation and the cached result is present.
    pub open spec fn wf(&self) -> bool {
        self.f is Some <==> self.value is None
    }

    /// `after` and `res` are what a call on `before` leaves and returns: the
    /// computation is gone, a cached value stays, a first call caches what
    /// the computation gave, and the result is a clone of the cached value.
    pub open spec fn called(before: Self, after: Self, res: T) -> bool {
        &&& after.wf()
        &&& after.f is None
        &&& before.value matches Some(v) ==> after.value == Some(v)
        &&& before.f matches Some(f) ==> f.ensures((), after.value.unwrap())
        &&& cloned::<T>(after.value.unwrap(), res)
    }

    /// Returns the cached value, running the computation on the first call.
    pub fn call(&mut self) -> (res: T)
        requires
            old(self).wf(),
            old(self).f matches Some(f) ==> f.requires(()),
        ensures
            Self::called(*old(self), *final(self), res),
    {
        match self.f.take() {
            Some(f) => {
                let v = f();
                let r = v.clone();
                self.value = Some(v);
                r
            },
            None => {
                let r = self.value.as_ref().unwrap().clone();
                r
            },
        }
    }
}

/// The computation runs once: after the first call it is gone and its
/// value stays cached, and every call returns a clone of that value.
pub proof fn lemma_runs_once<T: Clone, F: FnOnce() -> T>(o0: Once<T, F>, o1: Once<T, F>, o2: Once<T, F>, r1: T, r2: T)
    requires
        o0.wf(),
        Once::called(o0, o1, r1),
        Once::called(o1, o2, r2),
    ensures
        o1.f is None && o2.f is None,
        o1.value is Some && o2.value == o1.value,
        cloned::<T>(o1.value.unwrap(), r1),
        cloned::<T>(o1.value.unwrap(), r2),
        o0.f matches Some(f) ==> f.ensures((), o1.value.unwrap()),
{
}

/// Wraps `f` so it runs at most once and caches its result.
pub fn once<T: Clone, F: FnOnce() -> T>(f: F) -> (res: Once<T, F>)
    ensures
        res.wf(),
        res.f == Some(f),
{
    Once { f: Some(f), value: None }
}

} // verus!
