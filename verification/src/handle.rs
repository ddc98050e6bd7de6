//! Shared ownership of stored values.
//!
//! A value lives in one reference-counted allocation. Tokens hold it strongly
//! and at its own type; a table holds it weakly and with the type erased, so
//! that tables of every value type have the same shape. Verus does not look
//! inside these handles: everything this module says about them is taken from
//! the documentation of `std::sync::Arc`, `std::sync::Weak` and `std::any::Any`.
use crate::key::Internable;
use std::any::Any;
use std::sync::Arc;
use std::sync::Weak;
use vstd::prelude::*;

verus! {

/// A strong handle whose value type has been erased.
#[verifier::external_body]
pub struct Stored {
    inner: Arc<dyn Any + Send + Sync>,
}

/// A weak handle whose value type has been erased. It never keeps the value
/// alive.
#[verifier::external_body]
pub struct WeakHandle {
    inner: Weak<dyn Any + Send + Sync>,
}

/// The key of the value that a strong handle points to.
pub uninterp spec fn stored_key(s: Stored) -> Seq<u8>;

/// The key of the value that a weak handle was made for. The allocation is
/// never reused for another value while the handle exists, so this does not
/// change when the value dies.
pub uninterp spec fn weak_key(w: WeakHandle) -> Seq<u8>;

/// Erases the value type of an `Arc` (an unsizing coercion to
/// `Arc<dyn Any + Send + Sync>`). The handle points to the same value, hence
/// to the same key.
#[verifier::external_body]
pub(crate) fn store<T: Internable>(a: Arc<T>) -> (s: Stored)
    ensures
        stored_key(s) == a.key(),
{
    Stored { inner: a }
}

/// `Arc::downcast`: gives the handle back at type `T` if that is the type of
/// the value behind it, and nothing otherwise. On success it is the same
/// value, hence the same key.
#[verifier::external_body]
pub(crate) fn recover<T: Internable>(s: Stored) -> (r: Option<Arc<T>>)
    ensures
        r matches Some(a) ==> a.key() == stored_key(s),
{
    s.inner.downcast::<T>().ok()
}

/// `Arc::downgrade`: a weak handle to the same allocation.
#[verifier::external_body]
pub(crate) fn weaken(s: &Stored) -> (w: WeakHandle)
    ensures
        weak_key(w) == stored_key(*s),
{
    WeakHandle { inner: Arc::downgrade(&s.inner) }
}

/// `Weak::upgrade`: a strong handle to the same allocation if some strong
/// handle to it still exists, nothing otherwise. Whether one exists depends on
/// what the rest of the program has dropped, so nothing is promised about
/// which of the two comes back.
#[verifier::external_body]
pub(crate) fn revive(w: &WeakHandle) -> (r: Option<Stored>)
    ensures
        r matches Some(s) ==> stored_key(s) == weak_key(*w),
{
    w.inner.upgrade().map(|inner| Stored { inner })
}

/// `Arc::clone`: another strong handle to the same value.
#[verifier::external_body]
pub(crate) fn share<T>(a: &Arc<T>) -> (r: Arc<T>)
    ensures
        r == *a,
{
    Arc::clone(a)
}

/// `Arc::as_ptr`, as an integer: the address of the allocation. An `Arc` is
/// never null. Two allocations that are alive at the same time have different
/// addresses; Verus is told nothing about that.
#[verifier::external_body]
pub(crate) fn address_of<T>(a: &Arc<T>) -> (n: usize)
    ensures
        n != 0,
{
    Arc::as_ptr(a) as usize
}

} // verus!
