//! The outside collections that a stream keeps its bytes in.
use slice_deque::SliceDeque;
use tinyvec::ArrayVec;
use vstd::prelude::*;

verus! {

/// The growable ring buffer of the `slice_deque` crate, whose elements are one slice.
#[verifier::external_type_specification]
#[verifier::external_body]
#[verifier::reject_recursive_types(T)]
pub struct ExSliceDeque<T>(SliceDeque<T>);

/// The vector of the `tinyvec` crate that is stored in an array.
#[verifier::external_type_specification]
#[verifier::external_body]
#[verifier::reject_recursive_types(A)]
pub struct ExArrayVec<A>(ArrayVec<A>);

/// The elements of a deque, from front to back.
pub uninterp spec fn deque_bytes(deque: SliceDeque<u8>) -> Seq<u8>;

/// The elements of an array vector, in order.
pub uninterp spec fn array_bytes(array: ArrayVec<[u8; 3]>) -> Seq<u8>;

/// The length up to which a deque can be asked to grow: the deque doubles its capacity, and maps it
/// twice, so that up to this length what it maps is no larger than the largest object of Rust, and
/// no computation of its sizes overflows.
pub const MAX_DEQUE_LEN: usize = usize::MAX / 8;

/// Calls `SliceDeque::with_capacity`, which makes an empty deque. It panics if the memory cannot be
/// allocated.
#[verifier::external_body]
pub(crate) fn deque_with_capacity(capacity: usize) -> (deque: SliceDeque<u8>)
    requires
        capacity <= MAX_DEQUE_LEN,
    ensures
        deque_bytes(deque) == Seq::<u8>::empty(),
{
    SliceDeque::with_capacity(capacity)
}

/// Calls `SliceDeque::len`, the number of elements.
#[verifier::external_body]
pub(crate) fn deque_len(deque: &SliceDeque<u8>) -> (len: usize)
    ensures
        len == deque_bytes(*deque).len(),
{
    deque.len()
}

/// Calls `SliceDeque::as_slice`, all elements as a slice.
#[verifier::external_body]
pub(crate) fn deque_slice(deque: &SliceDeque<u8>) -> (slice: &[u8])
    ensures
        slice@ == deque_bytes(*deque),
{
    deque.as_slice()
}

/// Calls `SliceDeque::as_mut_slice`, all elements as a slice which can be written to.
#[verifier::external_body]
pub(crate) fn deque_slice_mut(deque: &mut SliceDeque<u8>) -> (slice: &mut [u8])
    ensures
        slice@ == deque_bytes(*old(deque)),
        deque_bytes(*final(deque)) == final(slice)@,
{
    deque.as_mut_slice()
}

/// Calls `SliceDeque::extend_from_slice`, which appends the elements of a slice. It panics if the
/// memory cannot be allocated.
#[verifier::external_body]
pub(crate) fn deque_extend(deque: &mut SliceDeque<u8>, bytes: &[u8])
    requires
        deque_bytes(*old(deque)).len() + bytes@.len() <= MAX_DEQUE_LEN,
    ensures
        deque_bytes(*final(deque)) == deque_bytes(*old(deque)) + bytes@,
{
    deque.extend_from_slice(bytes)
}

/// Calls `SliceDeque::resize`, which cuts the deque off at the given length, or appends copies of
/// the given byte up to it. It panics if the memory cannot be allocated.
#[verifier::external_body]
pub(crate) fn deque_resize(deque: &mut SliceDeque<u8>, len: usize, byte: u8)
    requires
        len <= MAX_DEQUE_LEN,
    ensures
        deque_bytes(*final(deque)) == Seq::new(
            len as nat,
            |i: int|
                if i < deque_bytes(*old(deque)).len() {
                    deque_bytes(*old(deque))[i]
                } else {
                    byte
                },
        ),
{
    deque.resize(len, byte)
}

/// Calls `SliceDeque::truncate`, which cuts the deque off at the given length, if it is longer.
#[verifier::external_body]
pub(crate) fn deque_truncate(deque: &mut SliceDeque<u8>, len: usize)
    ensures
        deque_bytes(*final(deque)) == if len < deque_bytes(*old(deque)).len() {
            deque_bytes(*old(deque)).take(len as int)
        } else {
            deque_bytes(*old(deque))
        },
{
    deque.truncate(len)
}

/// Calls `SliceDeque::drain` on the first `count` elements and drops the iterator, which removes
/// them.
#[verifier::external_body]
pub(crate) fn deque_drain_front(deque: &mut SliceDeque<u8>, count: usize)
    requires
        count <= deque_bytes(*old(deque)).len(),
    ensures
        deque_bytes(*final(deque)) == deque_bytes(*old(deque)).skip(count as int),
{
    deque.drain(..count);
}

/// Calls `ArrayVec::new`, which makes an empty array vector.
#[verifier::external_body]
pub(crate) fn array_new() -> (array: ArrayVec<[u8; 3]>)
    ensures
        array_bytes(array) == Seq::<u8>::empty(),
{
    ArrayVec::new()
}

/// Calls `ArrayVec::as_slice`, all elements as a slice.
#[verifier::external_body]
pub(crate) fn array_slice(array: &ArrayVec<[u8; 3]>) -> (slice: &[u8])
    ensures
        slice@ == array_bytes(*array),
{
    array.as_slice()
}

/// Calls `ArrayVec::clear`, which removes all elements.
#[verifier::external_body]
pub(crate) fn array_clear(array: &mut ArrayVec<[u8; 3]>)
    ensures
        array_bytes(*final(array)) == Seq::<u8>::empty(),
{
    array.clear()
}

/// Calls `ArrayVec::extend_from_slice`, which appends the elements of a slice. It panics if there
/// is no room for them in the array.
#[verifier::external_body]
pub(crate) fn array_extend(array: &mut ArrayVec<[u8; 3]>, bytes: &[u8])
    requires
        array_bytes(*old(array)).len() + bytes@.len() <= 3,
    ensures
        array_bytes(*final(array)) == array_bytes(*old(array)) + bytes@,
{
    array.extend_from_slice(bytes)
}

} // verus!
