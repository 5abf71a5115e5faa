//! Little-endian integers inside byte buffers.

use vstd::prelude::*;

verus! {

/// The value of the little-endian `u16` that starts at `pos` in `s`.
pub open spec fn le_u16_at(s: Seq<u8>, pos: int) -> int {
    s[pos] + 256 * s[pos + 1]
}

/// The value of the little-endian `u32` that starts at `pos` in `s`.
pub open spec fn le_u32_at(s: Seq<u8>, pos: int) -> int {
    s[pos] + 256 * s[pos + 1] + 65536 * s[pos + 2] + 16777216 * s[pos + 3]
}

/// The little-endian encoding of `n`.
pub open spec fn u16_le(n: u16) -> Seq<u8> {
    seq![(n % 256) as u8, (n / 256) as u8]
}

/// The little-endian encoding of `n`.
pub open spec fn u32_le(n: u32) -> Seq<u8> {
    seq![
        (n % 256) as u8,
        ((n / 256) % 256) as u8,
        ((n / 65536) % 256) as u8,
        (n / 16777216) as u8,
    ]
}

/// Reading back an encoded `u16` gives the value that was written.
pub proof fn lemma_u16_le_round_trip(n: u16)
    ensures
        u16_le(n).len() == 2,
        le_u16_at(u16_le(n), 0) == n,
{
    assert((n % 256) + 256 * (n / 256) == n) by (nonlinear_arith);
}

/// Reading back an encoded `u32` gives the value that was written.
pub proof fn lemma_u32_le_round_trip(n: u32)
    ensures
        u32_le(n).len() == 4,
        le_u32_at(u32_le(n), 0) == n,
{
    let a = n % 256;
    let q1 = n / 256;
    let b = q1 % 256;
    let q2 = q1 / 256;
    let c = q2 % 256;
    let d = q2 / 256;
    assert(n == a + 256 * q1);
    assert(q1 == b + 256 * q2);
    assert(q2 == c + 256 * d);
    assert(q2 == n / 65536) by (nonlinear_arith)
        requires q1 == n / 256, q2 == q1 / 256;
    assert(d == n / 16777216) by (nonlinear_arith)
        requires q1 == n / 256, q2 == q1 / 256, d == q2 / 256;
    assert(d < 256) by (nonlinear_arith)
        requires d == n / 16777216, n < 0x1_0000_0000;
}

/// Reads the little-endian `u16` at `pos`; `None` when it would run past the end.
pub fn read_u16(bytes: &[u8], pos: usize) -> (r: Option<u16>)
    ensures
        r is Some <==> pos + 2 <= bytes@.len(),
        r matches Some(v) ==> v == le_u16_at(bytes@, pos as int),
{
    if pos > bytes.len() || bytes.len() - pos < 2 {
        return None;
    }
    let b0 = bytes[pos] as u16;
    let b1 = bytes[pos + 1] as u16;
    Some(b0 + b1 * 256)
}

/// Reads the little-endian `u32` at `pos`; `None` when it would run past the end.
pub fn read_u32(bytes: &[u8], pos: usize) -> (r: Option<u32>)
    ensures
        r is Some <==> pos + 4 <= bytes@.len(),
        r matches Some(v) ==> v == le_u32_at(bytes@, pos as int),
{
    if pos > bytes.len() || bytes.len() - pos < 4 {
        return None;
    }
    let b0 = bytes[pos] as u32;
    let b1 = bytes[pos + 1] as u32;
    let b2 = bytes[pos + 2] as u32;
    let b3 = bytes[pos + 3] as u32;
    Some(b0 + b1 * 256 + b2 * 65536 + b3 * 16777216)
}

/// Appends the little-endian encoding of `n`.
pub fn write_u16(out: &mut Vec<u8>, n: u16)
    ensures
        final(out)@ == old(out)@ + u16_le(n),
{
    out.push((n % 256) as u8);
    out.push((n / 256) as u8);
    assert(final(out)@ =~= old(out)@ + u16_le(n));
}

/// Appends the little-endian encoding of `n`.
pub fn write_u32(out: &mut Vec<u8>, n: u32)
    ensures
        final(out)@ == old(out)@ + u32_le(n),
{
    proof {
        lemma_u32_le_round_trip(n);
    }
    out.push((n % 256) as u8);
    out.push(((n / 256) % 256) as u8);
    out.push(((n / 65536) % 256) as u8);
    out.push((n / 16777216) as u8);
    assert(final(out)@ =~= old(out)@ + u32_le(n));
}

/// Appends the bytes of `b`.
pub fn push_bytes(out: &mut Vec<u8>, b: &[u8])
    ensures
        final(out)@ == old(out)@ + b@,
{
    let ghost start = out@;
    let mut i: usize = 0;
    while i < b.len()
        invariant
            i <= b@.len(),
            out@ == start + b@.take(i as int),
        decreases b@.len() - i,
    {
        out.push(b[i]);
        i = i + 1;
        assert(out@ =~= start + b@.take(i as int));
    }
    assert(b@.take(b@.len() as int) =~= b@);
}

/// The little-endian `u32` read where `u32_le(n)` was written.
pub proof fn lemma_read_u32_written(b: Seq<u8>, pos: int, n: u32)
    requires
        0 <= pos,
        pos + 4 <= b.len(),
        b.subrange(pos, pos + 4) == u32_le(n),
    ensures
        le_u32_at(b, pos) == n,
{
    lemma_u32_le_round_trip(n);
    assert(b[pos] == u32_le(n)[0]);
    assert(b[pos + 1] == u32_le(n)[1]);
    assert(b[pos + 2] == u32_le(n)[2]);
    assert(b[pos + 3] == u32_le(n)[3]);
}

/// The little-endian `u16` read where `u16_le(n)` was written.
pub proof fn lemma_read_u16_written(b: Seq<u8>, pos: int, n: u16)
    requires
        0 <= pos,
        pos + 2 <= b.len(),
        b.subrange(pos, pos + 2) == u16_le(n),
    ensures
        le_u16_at(b, pos) == n,
{
    lemma_u16_le_round_trip(n);
    assert(b[pos] == u16_le(n)[0]);
    assert(b[pos + 1] == u16_le(n)[1]);
}

} // verus!
