use vstd::bytes::*;
use vstd::prelude::*;
use crate::hlc::Hlc;
use vstd::slice::slice_subrange;

verus! {

/// A snapshot or a counter map could not be encoded or decoded.
#[derive(Clone, Copy, Debug, PartialEq, Eq, Structural)]
pub struct CorruptedState;

/// Appends `b` to `buf`.
pub(crate) fn put_bytes(buf: &mut Vec<u8>, b: &[u8])
    ensures
        final(buf)@ == old(buf)@ + b@,
{
    let mut i: usize = 0;
    while i < b.len()
        invariant
            0 <= i <= b@.len(),
            buf@ == old(buf)@ + b@.subrange(0, i as int),
        decreases b@.len() - i,
    {
        buf.push(b[i]);
        i = i + 1;
        assert(b@.subrange(0, i as int) == b@.subrange(0, i - 1) + seq![b@[i - 1]]);
    }
    assert(b@.subrange(0, b@.len() as int) == b@);
}

/// Appends the little-endian bytes of `x`.
pub(crate) fn put_u64(buf: &mut Vec<u8>, x: u64)
    ensures
        final(buf)@ == old(buf)@ + spec_u64_to_le_bytes(x),
{
    let b = u64_to_le_bytes(x);
    put_bytes(buf, b.as_slice());
}

/// Appends the little-endian bytes of `x`.
pub(crate) fn put_u32(buf: &mut Vec<u8>, x: u32)
    ensures
        final(buf)@ == old(buf)@ + spec_u32_to_le_bytes(x),
{
    let b = u32_to_le_bytes(x);
    put_bytes(buf, b.as_slice());
}

/// Reads a little-endian `u64` at `pos`, if eight bytes are there.
pub(crate) fn get_u64(buf: &[u8], pos: usize) -> (r: Option<u64>)
    ensures
        pos + 8 <= buf@.len() ==> r == Some(
            spec_u64_from_le_bytes(buf@.subrange(pos as int, pos + 8)),
        ),
        pos + 8 > buf@.len() ==> r is None,
{
    if pos > buf.len() || buf.len() - pos < 8 {
        None
    } else {
        Some(u64_from_le_bytes(slice_subrange(buf, pos, pos + 8)))
    }
}

/// Reads a little-endian `u32` at `pos`, if four bytes are there.
pub(crate) fn get_u32(buf: &[u8], pos: usize) -> (r: Option<u32>)
    ensures
        pos + 4 <= buf@.len() ==> r == Some(
            spec_u32_from_le_bytes(buf@.subrange(pos as int, pos + 4)),
        ),
        pos + 4 > buf@.len() ==> r is None,
{
    if pos > buf.len() || buf.len() - pos < 4 {
        None
    } else {
        Some(u32_from_le_bytes(slice_subrange(buf, pos, pos + 4)))
    }
}

/// The 16 bytes of a timestamp: milliseconds, counter and node, little-endian.
pub open spec fn hlc_bytes(h: Hlc) -> Seq<u8> {
    spec_u64_to_le_bytes(h.millis) + spec_u32_to_le_bytes(h.counter) + spec_u32_to_le_bytes(h.node)
}

/// The timestamp that 16 bytes stand for.
pub open spec fn hlc_from(b: Seq<u8>) -> Hlc {
    Hlc {
        millis: spec_u64_from_le_bytes(b.subrange(0, 8)),
        counter: spec_u32_from_le_bytes(b.subrange(8, 12)),
        node: spec_u32_from_le_bytes(b.subrange(12, 16)),
    }
}

pub proof fn lemma_hlc_bytes(h: Hlc)
    ensures
        hlc_bytes(h).len() == 16,
        hlc_from(hlc_bytes(h)) == h,
{
    lemma_auto_spec_u64_to_from_le_bytes();
    lemma_auto_spec_u32_to_from_le_bytes();
    let b = hlc_bytes(h);
    assert(b.subrange(0, 8) =~= spec_u64_to_le_bytes(h.millis));
    assert(b.subrange(8, 12) =~= spec_u32_to_le_bytes(h.counter));
    assert(b.subrange(12, 16) =~= spec_u32_to_le_bytes(h.node));
}

/// Appends the bytes of a timestamp.
pub(crate) fn put_hlc(buf: &mut Vec<u8>, h: Hlc)
    ensures
        final(buf)@ == old(buf)@ + hlc_bytes(h),
{
    put_u64(buf, h.millis);
    put_u32(buf, h.counter);
    put_u32(buf, h.node);
    assert(final(buf)@ =~= old(buf)@ + hlc_bytes(h));
}

/// Reads a timestamp at `pos`, if sixteen bytes are there.
pub(crate) fn get_hlc(buf: &[u8], pos: usize) -> (r: Option<Hlc>)
    ensures
        pos + 16 <= buf@.len() ==> r == Some(hlc_from(buf@.subrange(pos as int, pos + 16))),
        pos + 16 > buf@.len() ==> r is None,
{
    if pos > buf.len() || buf.len() - pos < 16 {
        return None;
    }
    let m = get_u64(buf, pos).unwrap();
    let c = get_u32(buf, pos + 8).unwrap();
    let n = get_u32(buf, pos + 12).unwrap();
    let ghost b = buf@.subrange(pos as int, pos + 16);
    assert(b.subrange(0, 8) =~= buf@.subrange(pos as int, pos + 8));
    assert(b.subrange(8, 12) =~= buf@.subrange(pos + 8, pos + 12));
    assert(b.subrange(12, 16) =~= buf@.subrange(pos + 12, pos + 16));
    Some(Hlc { millis: m, counter: c, node: n })
}

} // verus!
