//! The record of a resolution that lets a later run skip the search for a
//! construction order.
use vstd::prelude::*;

verus! {

/// The version tag of the one layout that this library writes and reads.
pub const CACHE_VERSION: u32 = 1;

/// Which pending slot was constructed at each step of a resolution.
///
/// Callers treat the content as opaque: a cache is taken from an
/// [`InitializedTree`](crate::InitializedTree), kept, and loaded into a later
/// [`InitTree`](crate::InitTree). To store it, take it apart with
/// [`Cache::into_parts`] and put it together again with [`Cache::from_parts`].
#[derive(Debug)]
pub struct Cache {
    inner: CacheVersion,
}

#[derive(Debug)]
enum CacheVersion {
    V1(Vec<usize>),
}

impl View for Cache {
    type V = Seq<usize>;

    /// The recorded slots, in the order of the steps.
    closed spec fn view(&self) -> Seq<usize> {
        match self.inner {
            CacheVersion::V1(steps) => steps@,
        }
    }
}

impl Clone for Cache {
    /// A cache with the same steps.
    fn clone(&self) -> (copy: Self)
        ensures
            copy@ == self@,
    {
        match &self.inner {
            CacheVersion::V1(steps) => Cache { inner: CacheVersion::V1(steps.clone()) },
        }
    }
}

impl Default for Cache {
    /// A cache with no step recorded.
    fn default() -> (cache: Self)
        ensures
            cache@ == Seq::<usize>::empty(),
    {
        Cache { inner: CacheVersion::V1(Vec::new()) }
    }
}

impl Cache {
    /// A cache that records `steps`.
    pub fn from_steps(steps: Vec<usize>) -> (cache: Self)
        ensures
            cache@ == steps@,
    {
        Cache { inner: CacheVersion::V1(steps) }
    }

    /// The recorded steps.
    pub(crate) fn into_steps(self) -> (steps: Vec<usize>)
        ensures
            steps@ == self@,
    {
        match self.inner {
            CacheVersion::V1(steps) => steps,
        }
    }

    /// The number of recorded steps.
    pub(crate) fn len(&self) -> (n: usize)
        ensures
            n == self@.len(),
    {
        match &self.inner {
            CacheVersion::V1(steps) => steps.len(),
        }
    }

    /// The slot recorded for step `k`.
    pub(crate) fn step(&self, k: usize) -> (slot: usize)
        requires
            k < self@.len(),
        ensures
            slot == self@[k as int],
    {
        match &self.inner {
            CacheVersion::V1(steps) => steps[k],
        }
    }

    /// Takes the cache apart into its version tag and its steps, the form in
    /// which it is stored.
    pub fn into_parts(self) -> (parts: (u32, Vec<usize>))
        ensures
            parts.0 == CACHE_VERSION,
            parts.1@ == self@,
    {
        (CACHE_VERSION, self.into_steps())
    }

    /// Puts a stored cache together again. A version tag that this library
    /// does not know gives no cache: the caller goes on as if none had been
    /// stored.
    pub fn from_parts(version: u32, steps: Vec<usize>) -> (cache: Option<Self>)
        ensures
            version == CACHE_VERSION ==> (cache matches Some(c) && c@ == steps@),
            version != CACHE_VERSION ==> cache is None,
    {
        if version == CACHE_VERSION {
            Some(Cache::from_steps(steps))
        } else {
            None
        }
    }
}

} // verus!
