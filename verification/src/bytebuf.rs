//! Trusted boundary around the outside byte buffer.
//!
//! The parser keeps its unconsumed input in a `bytes::BytesMut`. The type
//! is opaque here; `bytes_view` names the byte sequence it holds, and each
//! wrapper states over that name what the `bytes` crate's source shows of
//! the one call its body makes. `memchr` gets a specification directly.

use vstd::prelude::*;

verus! {

#[verifier::external_type_specification]
#[verifier::external_body]
pub struct ExBytesMut(bytes::BytesMut);

/// The bytes held by a `BytesMut`, in order.
pub uninterp spec fn bytes_view(b: bytes::BytesMut) -> Seq<u8>;

/// Relies on `bytes::BytesMut::with_capacity`: a freshly created buffer
/// holds no bytes.
#[verifier::external_body]
pub(crate) fn buf_with_capacity(capacity: usize) -> (b: bytes::BytesMut)
    ensures
        bytes_view(b) == Seq::<u8>::empty(),
{
    bytes::BytesMut::with_capacity(capacity)
}

/// Relies on `bytes::BytesMut::len`: the number of bytes held.
#[verifier::external_body]
pub(crate) fn buf_len(b: &bytes::BytesMut) -> (n: usize)
    ensures
        n == bytes_view(*b).len(),
{
    b.len()
}

/// Relies on `BytesMut`'s `Deref` to `[u8]`: the byte at index `i`.
#[verifier::external_body]
pub(crate) fn buf_byte(b: &bytes::BytesMut, i: usize) -> (r: u8)
    requires
        i < bytes_view(*b).len(),
    ensures
        r == bytes_view(*b)[i as int],
{
    b[i]
}

/// Relies on `BytesMut`'s `Deref` to `[u8]` and range indexing: the bytes
/// from `from` (inclusive) to `to` (exclusive).
#[verifier::external_body]
pub(crate) fn buf_slice<'a>(b: &'a bytes::BytesMut, from: usize, to: usize) -> (r: &'a [u8])
    requires
        from <= to <= bytes_view(*b).len(),
    ensures
        r@ == bytes_view(*b).subrange(from as int, to as int),
{
    &b[from..to]
}

/// Relies on `bytes::BytesMut::extend_from_slice`: appends a copy of `s`.
#[verifier::external_body]
pub(crate) fn buf_extend(b: &mut bytes::BytesMut, s: &[u8])
    ensures
        bytes_view(*final(b)) == bytes_view(*old(b)) + s@,
{
    b.extend_from_slice(s)
}

/// Relies on `bytes::BytesMut::split_to`: splits off and discards the
/// first `n` bytes, leaving the rest.
#[verifier::external_body]
pub(crate) fn buf_drop_prefix(b: &mut bytes::BytesMut, n: usize)
    requires
        n <= bytes_view(*old(b)).len(),
    ensures
        bytes_view(*final(b)) == bytes_view(*old(b)).skip(n as int),
{
    let _ = b.split_to(n);
}

/// Relies on `memchr::memchr`: the index of the first occurrence of
/// `needle` in `haystack`, or `None` when it does not occur.
pub assume_specification [ memchr::memchr ](needle: u8, haystack: &[u8]) -> (r: Option<usize>)
    ensures
        match r {
            Some(i) => i < haystack@.len() && haystack@[i as int] == needle && forall|j: int|
                0 <= j < i ==> haystack@[j] != needle,
            None => forall|j: int| 0 <= j < haystack@.len() ==> haystack@[j] != needle,
        },
;

} // verus!
