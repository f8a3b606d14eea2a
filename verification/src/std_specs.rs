//! Contracts for the parts of `std` that the library calls and `vstd` does not
//! specify.  Verus takes them on trust.

use vstd::prelude::*;
use vstd::std_specs::iter::IteratorSpec;

verus! {

/// `core::slice::IterMut`, the iterator that `<[T]>::iter_mut` returns.
/// Verus sees nothing inside it; what it will yield is said where it is made.
#[verifier::external_type_specification]
#[verifier::external_body]
#[verifier::reject_recursive_types(Elem)]
pub struct ExIterMut<'a, Elem: 'a>(core::slice::IterMut<'a, Elem>);

/// Calls `Vec::capacity`, the number of elements the vector can hold without
/// reallocating: never less than it holds.
#[verifier::external_body]
pub(crate) fn vec_capacity<T>(vec: &Vec<T>) -> (capacity: usize)
    ensures
        capacity >= vec@.len(),
{
    vec.capacity()
}

/// Calls `<[T]>::iter_mut`, which returns an iterator that yields a mutable
/// reference to each element of the slice, from the first to the last.
///
/// The references that the iterator will yield are as many as the slice has
/// elements.  The one at place `i` holds the element at place `i`, and what it
/// holds in the end is what the slice holds there in the end.  Through them
/// the elements can change, their number cannot.
#[verifier::external_body]
pub(crate) fn slice_iter_mut<'a, T>(slice: &'a mut [T]) -> (iter: core::slice::IterMut<'a, T>)
    ensures
        final(slice)@.len() == old(slice)@.len(),
        IteratorSpec::remaining(&iter).len() == old(slice)@.len(),
        forall|i: int|
            0 <= i < old(slice)@.len() ==> {
                &&& *(#[trigger] IteratorSpec::remaining(&iter)[i]) == old(slice)@[i]
                &&& *final(IteratorSpec::remaining(&iter)[i]) == final(slice)@[i]
            },
{
    slice.iter_mut()
}

} // verus!
