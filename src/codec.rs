//! The canonical byte encoding of protocol messages: integers as
//! little-endian base-128 varints, byte strings prefixed by their length,
//! digests as their raw 32 bytes, struct fields one after another.

use vstd::prelude::*;

verus! {

/// Base-128 varint of `x`: seven bits per byte, least significant group
/// first, the high bit set on every byte but the last.
pub open spec fn varint(x: u64) -> Seq<u8>
    decreases x,
{
    if x < 128 {
        seq![x as u8]
    } else {
        seq![((x % 128) + 128) as u8] + varint(x / 128)
    }
}

/// A byte string preceded by its length as a varint.
pub open spec fn length_prefixed(s: Seq<u8>) -> Seq<u8> {
    varint(s.len() as u64) + s
}

/// Relies on postcard::to_allocvec for a `u64`: the varint of the value,
/// written into a fresh vector, which cannot fail for a plain integer.
#[verifier::external_body]
fn postcard_u64(x: u64) -> (r: Vec<u8>)
    ensures
        r@ == varint(x),
{
    match postcard::to_allocvec(&x) {
        Ok(v) => v,
        Err(_) => Vec::new(),
    }
}

/// Appends `bytes` to `out`.
pub fn append_bytes(out: &mut Vec<u8>, bytes: &[u8])
    ensures
        final(out)@ == old(out)@ + bytes@,
{
    let mut i: usize = 0;
    while i < bytes.len()
        invariant
            0 <= i <= bytes@.len(),
            out@ == old(out)@ + bytes@.subrange(0, i as int),
        decreases bytes@.len() - i,
    {
        out.push(bytes[i]);
        i = i + 1;
        assert(bytes@.subrange(0, i as int) == bytes@.subrange(0, i - 1).push(bytes@[i - 1]));
    }
    assert(bytes@.subrange(0, i as int) == bytes@);
}

/// Appends the varint of `x` to `out`.
pub fn put_varint(out: &mut Vec<u8>, x: u64)
    ensures
        final(out)@ == old(out)@ + varint(x),
{
    let enc = postcard_u64(x);
    append_bytes(out, enc.as_slice());
}

/// Appends `bytes` preceded by their length to `out`.
pub fn put_length_prefixed(out: &mut Vec<u8>, bytes: &[u8])
    ensures
        final(out)@ == old(out)@ + length_prefixed(bytes@),
{
    put_varint(out, bytes.len() as u64);
    append_bytes(out, bytes);
    assert(old(out)@ + varint(bytes@.len() as u64) + bytes@ == old(out)@ + length_prefixed(bytes@));
}


/// Whether two byte strings are equal.
pub fn bytes_equal(a: &[u8], b: &[u8]) -> (r: bool)
    ensures
        r == (a@ == b@),
{
    if a.len() != b.len() {
        return false;
    }
    let mut i: usize = 0;
    while i < a.len()
        invariant
            a@.len() == b@.len(),
            i <= a@.len(),
            forall|j: int| 0 <= j < i ==> a@[j] == b@[j],
        decreases a@.len() - i,
    {
        if a[i] != b[i] {
            return false;
        }
        i = i + 1;
    }
    assert(a@ =~= b@);
    true
}

} // verus!
