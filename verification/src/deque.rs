//! The operations of std's `VecDeque<u8>` that the ring buffer is built on.
//!
//! A deque keeps its items in one circular allocation, so their sequence lies in
//! at most two contiguous pieces. None of what stands here is proved: each
//! contract says what std documents of the method that its function calls.
use std::collections::VecDeque;
use vstd::prelude::*;

verus! {

/// How many items of the deque lie in the first of its two contiguous pieces.
///
/// It is a property of the deque's own state, as its contents are: two looks at
/// an unchanged deque see the same two pieces, and so does one after its items
/// were overwritten in place. Nothing is said of its value after items were added
/// or removed.
pub uninterp spec fn first_piece_len(deque: VecDeque<u8>) -> nat;

/// `VecDeque::as_slices`: the two pieces hold the deque's contents, in order.
#[verifier::external_body]
pub(crate) fn as_slices(deque: &VecDeque<u8>) -> (pieces: (&[u8], &[u8]))
    ensures
        pieces.0@ + pieces.1@ == deque@,
        pieces.0@.len() == first_piece_len(*deque),
{
    deque.as_slices()
}

/// `VecDeque::as_mut_slices`: the same two pieces, for writing. What is written
/// to a piece is what the deque then holds there. A slice keeps its length, and
/// where the pieces meet stays as it is.
#[verifier::external_body]
pub(crate) fn as_mut_slices(deque: &mut VecDeque<u8>) -> (pieces: (&mut [u8], &mut [u8]))
    ensures
        pieces.0@ + pieces.1@ == old(deque)@,
        pieces.0@.len() == first_piece_len(*old(deque)),
        final(pieces.0)@.len() == pieces.0@.len(),
        final(pieces.1)@.len() == pieces.1@.len(),
        final(deque)@ == final(pieces.0)@ + final(pieces.1)@,
        first_piece_len(*final(deque)) == first_piece_len(*old(deque)),
{
    deque.as_mut_slices()
}

/// `VecDeque::drain` on the range `..n`: the first `n` items are removed. It
/// panics where there are fewer.
#[verifier::external_body]
pub(crate) fn drain_front(deque: &mut VecDeque<u8>, n: usize)
    requires
        n <= old(deque)@.len(),
    ensures
        final(deque)@ == old(deque)@.skip(n as int),
{
    deque.drain(..n);
}

} // verus!
