//! This module provides the `ArcSwap` type, which holds an `Arc<T>` that can be loaded
//! and swapped.
use std::sync::Arc;
use vstd::prelude::*;

verus! {

/// Calls `Arc::clone`, which makes another pointer to the same allocation and so to the
/// same value.
#[verifier::external_body]
pub(crate) fn share<T>(value: &Arc<T>) -> (shared: Arc<T>)
    ensures
        shared == *value,
{
    Arc::clone(value)
}

/// A storage for an `Arc<T>` that can be loaded and swapped.
pub struct ArcSwap<T> {
    value: Arc<T>,
}

impl<T> ArcSwap<T> {
    /// The `Arc<T>` that is stored.
    pub closed spec fn current(&self) -> Arc<T> {
        self.value
    }

    /// Creates a new `ArcSwap` instance holding the given `Arc<T>`.
    pub fn new(data: Arc<T>) -> (swap: Self)
        ensures
            swap.current() == data,
    {
        Self { value: data }
    }

    /// Loads an `Arc<T>` to the current value.
    ///
    /// This method hands out another share of the value, and keeps its own.
    pub fn load(&self) -> (value: Arc<T>)
        ensures
            value == self.current(),
    {
        share(&self.value)
    }

    /// Swaps the current value with a new `Arc<T>`, returning the old `Arc<T>`.
    pub fn swap(&mut self, new: Arc<T>) -> (previous: Arc<T>)
        ensures
            previous == old(self).current(),
            final(self).current() == new,
    {
        let mut value = new;
        std::mem::swap(&mut self.value, &mut value);
        value
    }
}

} // verus!
