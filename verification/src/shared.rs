use std::rc::Rc;
use vstd::prelude::*;

verus! {

/// Another handle to the value that `handle` points to.
///
/// Trusted: this is `Rc::clone` of std, which copies the pointer and leaves the
/// value alone; the new handle therefore denotes the same value.
#[verifier::external_body]
pub(crate) fn share<T>(handle: &Rc<T>) -> (other: Rc<T>)
    ensures
        other == *handle,
{
    Rc::clone(handle)
}

} // verus!
