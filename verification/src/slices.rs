use vstd::prelude::*;

verus! {

/// `dest.copy_from_slice(src)` of std, which copies every element of `src`
/// into `dest` and panics when the two lengths differ (left out by
/// `requires`). Trusted: the result is `src` element for element.
#[verifier::external_body]
pub fn copy_slice<T: Copy>(src: &[T], dest: &mut [T])
    requires
        old(dest)@.len() == src@.len(),
    ensures
        final(dest)@ == src@,
{
    dest.copy_from_slice(src)
}

} // verus!
