//! Little-endian integers inside byte buffers.

use vstd::prelude::*;
use vstd::bytes::*;

verus! {

/// `s` with the bytes from `at` on replaced by `b`.
pub open spec fn put(s: Seq<u8>, at: int, b: Seq<u8>) -> Seq<u8> {
    s.take(at) + b + s.skip(at + b.len())
}

/// Relies on byteorder's `LittleEndian::read_u32`: the first four bytes of
/// its argument, read little-endian.
#[verifier::external_body]
pub(crate) fn read_u32_le(buf: &[u8], at: usize) -> (r: u32)
    requires
        at + 4 <= buf@.len(),
    ensures
        r == spec_u32_from_le_bytes(buf@.subrange(at as int, at + 4)),
{
    <byteorder::LittleEndian as byteorder::ByteOrder>::read_u32(&buf[at..])
}

/// Relies on byteorder's `LittleEndian::read_u64`: the first eight bytes of
/// its argument, read little-endian.
#[verifier::external_body]
pub(crate) fn read_u64_le(buf: &[u8], at: usize) -> (r: u64)
    requires
        at + 8 <= buf@.len(),
    ensures
        r == spec_u64_from_le_bytes(buf@.subrange(at as int, at + 8)),
{
    <byteorder::LittleEndian as byteorder::ByteOrder>::read_u64(&buf[at..])
}

/// Relies on byteorder's `LittleEndian::write_u32`: it overwrites the first
/// four bytes of its argument with `n`, little-endian, and nothing else.
#[verifier::external_body]
pub(crate) fn write_u32_le(buf: &mut Vec<u8>, at: usize, n: u32)
    requires
        at + 4 <= old(buf)@.len(),
    ensures
        final(buf)@ == put(old(buf)@, at as int, spec_u32_to_le_bytes(n)),
{
    <byteorder::LittleEndian as byteorder::ByteOrder>::write_u32(&mut buf[at..], n)
}

/// Relies on byteorder's `LittleEndian::write_u64`: it overwrites the first
/// eight bytes of its argument with `n`, little-endian, and nothing else.
#[verifier::external_body]
pub(crate) fn write_u64_le(buf: &mut Vec<u8>, at: usize, n: u64)
    requires
        at + 8 <= old(buf)@.len(),
    ensures
        final(buf)@ == put(old(buf)@, at as int, spec_u64_to_le_bytes(n)),
{
    <byteorder::LittleEndian as byteorder::ByteOrder>::write_u64(&mut buf[at..], n)
}

/// A buffer of `n` zero bytes.
pub(crate) fn zeros(n: usize) -> (r: Vec<u8>)
    ensures
        r@ == Seq::new(n as nat, |_i: int| 0u8),
{
    let mut r: Vec<u8> = Vec::with_capacity(n);
    let mut i: usize = 0;
    while i < n
        invariant
            i <= n,
            r@ == Seq::new(i as nat, |_i: int| 0u8),
        decreases n - i,
    {
        r.push(0);
        i = i + 1;
    }
    r
}

/// Appends the bytes of `b` to `v`.
pub(crate) fn append_bytes(v: &mut Vec<u8>, b: &[u8])
    ensures
        final(v)@ == old(v)@ + b@,
{
    let ghost start = v@;
    let mut i: usize = 0;
    while i < b.len()
        invariant
            i <= b@.len(),
            v@ == start + b@.take(i as int),
        decreases b@.len() - i,
    {
        v.push(b[i]);
        i = i + 1;
        assert(b@.take(i as int) == b@.take(i - 1).push(b@[i - 1]));
    }
    assert(b@.take(b@.len() as int) == b@);
}

/// Length and round trip of the little-endian encodings.
pub proof fn lemma_le_round_trip()
    ensures
        forall|x: u32|
            #![trigger spec_u32_to_le_bytes(x)]
            spec_u32_to_le_bytes(x).len() == 4 && spec_u32_from_le_bytes(spec_u32_to_le_bytes(x))
                == x,
        forall|x: u64|
            #![trigger spec_u64_to_le_bytes(x)]
            spec_u64_to_le_bytes(x).len() == 8 && spec_u64_from_le_bytes(spec_u64_to_le_bytes(x))
                == x,
{
    lemma_auto_spec_u32_to_from_le_bytes();
    lemma_auto_spec_u64_to_from_le_bytes();
    assert forall|x: u32| #[trigger] spec_u32_to_le_bytes(x).len() == 4 by {}
    assert forall|x: u64| #[trigger] spec_u64_to_le_bytes(x).len() == 8 by {}
}

} // verus!
