//! The trusted boundary around the outside arena: the store keeps its stream
//! objects in a `slab::Slab`, a dense container with stable integer keys and
//! O(1) insert and indexed access. Verified code sees the slab only through
//! `slab_view`, a map from occupied keys to their values, and through the
//! wrappers below, whose contracts restate what the slab's source shows.

use vstd::prelude::*;

use crate::stream::Stream;

verus! {

#[verifier::external_type_specification]
#[verifier::external_body]
#[verifier::reject_recursive_types(T)]
pub struct ExSlab<T>(slab::Slab<T>);

/// What the slab holds: each occupied key, mapped to the value stored there.
pub uninterp spec fn slab_view(s: slab::Slab<Stream>) -> Map<usize, Stream>;

/// Relies on `slab::Slab::new`: constructs a slab with no occupied entries.
#[verifier::external_body]
pub(crate) fn slab_new() -> (r: slab::Slab<Stream>)
    ensures
        slab_view(r).dom() == Set::<usize>::empty(),
{
    slab::Slab::new()
}

/// Relies on `slab::Slab::insert`: stores `val` in a vacant slot and returns
/// that slot's key; every other slot keeps its value. (Growth beyond the
/// address-space limit aborts, as with `Vec`.)
#[verifier::external_body]
pub(crate) fn slab_insert(s: &mut slab::Slab<Stream>, val: Stream) -> (key: usize)
    ensures
        !slab_view(*old(s)).dom().contains(key),
        slab_view(*final(s)) == slab_view(*old(s)).insert(key, val),
{
    s.insert(val)
}

/// Relies on the slab's `Index` impl: returns a borrow of the value at an
/// occupied key. It panics on a vacant key, which the precondition excludes.
#[verifier::external_body]
pub(crate) fn slab_get(s: &slab::Slab<Stream>, key: usize) -> (r: &Stream)
    requires
        slab_view(*s).dom().contains(key),
    ensures
        *r == slab_view(*s)[key],
{
    &s[key]
}

/// Relies on the slab's `IndexMut` impl: overwrites the value at an occupied
/// key. It panics on a vacant key, which the precondition excludes.
#[verifier::external_body]
pub(crate) fn slab_set(s: &mut slab::Slab<Stream>, key: usize, val: Stream)
    requires
        slab_view(*old(s)).dom().contains(key),
    ensures
        slab_view(*final(s)) == slab_view(*old(s)).insert(key, val),
{
    s[key] = val;
}

/// Relies on the slab's `IndexMut` impl: yields a mutable borrow of the value
/// at an occupied key; the slab afterwards holds whatever the caller left
/// behind the borrow. It panics on a vacant key, which the precondition
/// excludes.
#[verifier::external_body]
pub(crate) fn slab_get_mut<'a>(s: &'a mut slab::Slab<Stream>, key: usize) -> (r: &'a mut Stream)
    requires
        slab_view(*old(s)).dom().contains(key),
    ensures
        *r == slab_view(*old(s))[key],
        slab_view(*final(s)) == slab_view(*old(s)).insert(key, *final(r)),
{
    &mut s[key]
}

} // verus!
