//! The sliding byte buffer: a `SliceDeque` of bytes, seen as a sequence.

use slice_deque::SliceDeque;
use vstd::prelude::*;

verus! {

/// `SliceDeque`, a double-ended queue whose contents lie in one slice. Its
/// inside is not looked at; what it holds goes by `deque_bytes`.
#[verifier::external_type_specification]
#[verifier::external_body]
#[verifier::reject_recursive_types(T)]
pub struct ExSliceDeque<T>(SliceDeque<T>);

/// The bytes that a deque holds, front first.
pub uninterp spec fn deque_bytes(d: SliceDeque<u8>) -> Seq<u8>;

/// `SliceDeque::new`: the deque starts empty.
#[verifier::external_body]
pub(crate) fn deque_new() -> (d: SliceDeque<u8>)
    ensures
        deque_bytes(d) == Seq::<u8>::empty(),
{
    SliceDeque::new()
}

/// `SliceDeque::len`: the number of bytes held.
#[verifier::external_body]
pub(crate) fn deque_len(d: &SliceDeque<u8>) -> (len: usize)
    ensures
        len == deque_bytes(*d).len(),
{
    d.len()
}

/// `SliceDeque::push_back`: the byte is appended behind the others.
#[verifier::external_body]
pub(crate) fn deque_push_back(d: &mut SliceDeque<u8>, byte: u8)
    ensures
        deque_bytes(*final(d)) == deque_bytes(*old(d)).push(byte),
{
    d.push_back(byte)
}

/// `SliceDeque::pop_front`: the front byte leaves and is handed out; an empty
/// deque stays as it is.
#[verifier::external_body]
pub(crate) fn deque_pop_front(d: &mut SliceDeque<u8>) -> (front: Option<u8>)
    ensures
        deque_bytes(*old(d)).len() == 0 ==> front.is_none() && deque_bytes(*final(d))
            == deque_bytes(*old(d)),
        deque_bytes(*old(d)).len() > 0 ==> front == Some(deque_bytes(*old(d))[0]) && deque_bytes(
            *final(d),
        ) == deque_bytes(*old(d)).skip(1),
{
    d.pop_front()
}

/// `SliceDeque::as_slice`: all the bytes held, front first, as one slice.
#[verifier::external_body]
pub(crate) fn deque_as_slice(d: &SliceDeque<u8>) -> (bytes: &[u8])
    ensures
        bytes@ == deque_bytes(*d),
{
    d.as_slice()
}

} // verus!
