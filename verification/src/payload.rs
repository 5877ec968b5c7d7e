//! Payloads: externally owned, immutable byte buffers.
//!
//! A payload is a `bytes::Bytes`. The verifier does not look inside one; the
//! items of this module say what the batching logic relies on.

use bytes::Bytes;
use vstd::prelude::*;

verus! {

/// `bytes::Bytes`, made known to the verifier as an opaque type: a handle to
/// an immutable run of bytes. Nothing is claimed of its fields.
#[verifier::external_type_specification]
#[verifier::external_body]
pub struct ExBytes(bytes::Bytes);

/// The bytes that a payload holds, in order: what `Bytes::len` counts and
/// `Bytes::deref` hands out. A `Bytes` never changes what it holds.
pub uninterp spec fn contents(payload: Bytes) -> Seq<u8>;

/// The contents of each payload of a sequence of borrowed payloads.
pub open spec fn views(payloads: Seq<&Bytes>) -> Seq<Seq<u8>> {
    payloads.map_values(|p: &Bytes| contents(*p))
}

/// `Bytes::len`: the number of bytes that the payload holds.
#[verifier::external_body]
pub(crate) fn payload_len(payload: &Bytes) -> (n: usize)
    ensures
        n == contents(*payload).len(),
{
    payload.len()
}

/// `Bytes::deref`: the payload's bytes as a slice that borrows from the
/// payload; nothing is copied.
#[verifier::external_body]
pub(crate) fn payload_slice<'a>(payload: &'a Bytes) -> (s: &'a [u8])
    ensures
        s@ == contents(*payload),
{
    payload
}

} // verus!
