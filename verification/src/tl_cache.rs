//! A place for a value that is computed once and copied out ever after.
//!
//! Interning the same literal in a hot loop costs a lookup each time. A
//! [`Cache`] next to the place of use pays for the first lookup only: the
//! first call computes the value, and every later call hands out the value
//! that the first one stored.
use vstd::prelude::*;

verus! {

/// A value that is computed on first use.
pub struct Cache<T> {
    slot: Option<T>,
}

impl<T> Cache<T> {
    /// What the cache holds: nothing before the first use, and from then on
    /// the value that the first use computed.
    pub closed spec fn held(&self) -> Option<T> {
        self.slot
    }

    /// An empty cache.
    pub fn new() -> (cache: Self)
        ensures
            cache.held() is None,
    {
        Cache { slot: None }
    }

    /// The cached value. An empty cache is first filled with what `make`
    /// computes; a filled one keeps what it has, and `make` is not called.
    pub fn get_or_init<F: FnOnce() -> T>(&mut self, make: F) -> (value: &T)
        requires
            make.requires(()),
        ensures
            final(self).held() == Some(*value),
            old(self).held() is Some ==> final(self).held() == old(self).held(),
            old(self).held() is None ==> make.ensures((), *value),
    {
        if self.slot.is_none() {
            self.slot = Some(make());
        }
        self.slot.as_ref().unwrap()
    }
}

} // verus!
