//! Byte strings: copies, comparison, and where they lie in memory.
use vstd::prelude::*;

verus! {

/// Copies a slice of known length into an array.
pub fn to_array<const L: usize>(bytes: &[u8]) -> (r: [u8; L])
    requires
        bytes@.len() == L,
    ensures
        r@ == bytes@,
{
    let mut out: [u8; L] = vstd::array::array_fill_for_copy_types(0u8);
    let mut i: usize = 0;
    while i < L
        invariant
            i <= L,
            bytes@.len() == L,
            forall|j: int| 0 <= j < i ==> #[trigger] out@[j] == bytes@[j],
        decreases L - i,
    {
        out[i] = bytes[i];
        i += 1;
    }
    assert(out@ =~= bytes@);
    out
}

/// Whether two byte strings are the same.
pub fn same_bytes(a: &[u8], b: &[u8]) -> (r: bool)
    ensures
        r == (a@ == b@),
{
    if a.len() != b.len() {
        return false;
    }
    let mut i: usize = 0;
    while i < a.len()
        invariant
            i <= a@.len() == b@.len(),
            forall|j: int| 0 <= j < i ==> #[trigger] a@[j] == b@[j],
        decreases a@.len() - i,
    {
        if a[i] != b[i] {
            assert(a@[i as int] != b@[i as int]);
            return false;
        }
        i += 1;
    }
    assert(a@ =~= b@);
    true
}

/// The address of the first byte of `bytes`, from `slice::as_ptr`. Where a
/// slice lies is up to the allocator, so nothing is claimed of the result.
#[verifier::external_body]
pub(crate) fn address_of(bytes: &[u8]) -> (r: usize)
{
    bytes.as_ptr() as usize
}

/// `address` is one that reading the address of `bytes` can give.
pub closed spec fn lies_at(bytes: &[u8], address: usize) -> bool {
    call_ensures(address_of, (bytes,), address)
}

/// Where a slice lies is what `address_of` says, and nothing else.
pub(crate) proof fn law_lies_at(bytes: &[u8], address: usize)
    ensures
        lies_at(bytes, address) <==> call_ensures(address_of, (bytes,), address),
{
}

/// Reads where `bytes` lie.
pub(crate) fn locate(bytes: &[u8]) -> (r: usize)
    ensures
        lies_at(bytes, r),
{
    let read = address_of;
    read(bytes)
}

} // verus!
