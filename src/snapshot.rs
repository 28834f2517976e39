use crate::error::Error;
use vstd::prelude::*;

verus! {

/// A managed instance that hands out copies of itself; the instance itself never changes.
#[derive(Debug)]
pub struct Snapshot<T> {
    inner: T,
}

impl<T> Snapshot<T> {
    pub closed spec fn inner(&self) -> T {
        self.inner
    }

    /// Create a new snapshot.
    pub fn new(inner: T) -> (r: Self)
        ensures
            r.inner() == inner,
    {
        Self { inner }
    }

    /// A fresh copy of the underlying value, owned by the caller.
    pub fn get(&self) -> (r: Result<T, Error>)
        where
            T: Clone,
        ensures
            r matches Ok(v) && vstd::pervasive::cloned(self.inner(), v),
    {
        Ok(self.inner.clone())
    }
}

} // verus!
