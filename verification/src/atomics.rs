//! Atomic words reached through an exclusive reference.
//!
//! Every operation here takes `&mut AtomicUsize`. While such a reference is
//! alive nothing else can touch the word, so the word holds one definite
//! integer, and each operation is a function of that integer alone.

use std::sync::atomic::AtomicUsize;
use std::sync::atomic::Ordering;
use vstd::prelude::*;

verus! {

/// The integer that an atomic word holds.
pub uninterp spec fn atomic_value(a: AtomicUsize) -> usize;

/// `AtomicUsize::new`: the fresh word holds `v`.
#[verifier::external_body]
pub(crate) fn atomic_new(v: usize) -> (a: AtomicUsize)
    ensures
        atomic_value(a) == v,
{
    AtomicUsize::new(v)
}

/// `AtomicUsize::load`, sequentially consistent: returns the integer held and
/// leaves it in place.
#[verifier::external_body]
pub(crate) fn atomic_load(a: &mut AtomicUsize) -> (v: usize)
    ensures
        v == atomic_value(*old(a)),
        atomic_value(*final(a)) == atomic_value(*old(a)),
{
    a.load(Ordering::SeqCst)
}

/// `AtomicUsize::compare_exchange`, sequentially consistent on both sides:
/// returns the integer held before the call, and stores `new` exactly when
/// that integer was `current`.
#[verifier::external_body]
pub(crate) fn atomic_compare_and_swap(a: &mut AtomicUsize, current: usize, new: usize) -> (prev:
    usize)
    ensures
        prev == atomic_value(*old(a)),
        atomic_value(*final(a)) == (if prev == current {
            new
        } else {
            prev
        }),
{
    match a.compare_exchange(current, new, Ordering::SeqCst, Ordering::SeqCst) {
        Ok(v) => v,
        Err(v) => v,
    }
}

/// `AtomicUsize::fetch_add`, sequentially consistent: returns the integer held
/// before the call and leaves the sum in place. Sums that would wrap are left
/// out.
#[verifier::external_body]
pub(crate) fn atomic_fetch_add(a: &mut AtomicUsize, val: usize) -> (prev: usize)
    requires
        atomic_value(*old(a)) + val <= usize::MAX,
    ensures
        prev == atomic_value(*old(a)),
        atomic_value(*final(a)) == prev + val,
{
    a.fetch_add(val, Ordering::SeqCst)
}

} // verus!
