//! Little-endian decoding and encoding of fixed-width integers.

use vstd::prelude::*;

verus! {

/// Value of two little-endian bytes.
pub open spec fn le_u16(b: Seq<u8>) -> u16 {
    (b[0] + 256 * b[1]) as u16
}

/// Value of four little-endian bytes.
pub open spec fn le_u32(b: Seq<u8>) -> u32 {
    (b[0] + 256 * b[1] + 65536 * b[2] + 16777216 * b[3]) as u32
}

/// Value of eight little-endian bytes.
pub open spec fn le_u64(b: Seq<u8>) -> u64 {
    (le_u32(b) + 4294967296 * le_u32(b.subrange(4, 8))) as u64
}

/// The two little-endian bytes of `n`.
pub open spec fn le_bytes_u16(n: u16) -> Seq<u8> {
    seq![(n % 256) as u8, (n / 256) as u8]
}

/// The four little-endian bytes of `n`.
pub open spec fn le_bytes_u32(n: u32) -> Seq<u8> {
    seq![(n % 256) as u8, ((n / 256) % 256) as u8, ((n / 65536) % 256) as u8, (n / 16777216) as u8]
}

/// Reads two little-endian bytes at `off`.
pub fn get_u16(s: &[u8], off: usize) -> (r: u16)
    requires
        off + 2 <= s.len(),
    ensures
        r == le_u16(s@.subrange(off as int, off + 2)),
{
    s[off] as u16 + (s[off + 1] as u16) * 256
}

/// Reads four little-endian bytes at `off`.
pub fn get_u32(s: &[u8], off: usize) -> (r: u32)
    requires
        off + 4 <= s.len(),
    ensures
        r == le_u32(s@.subrange(off as int, off + 4)),
{
    s[off] as u32 + (s[off + 1] as u32) * 256 + (s[off + 2] as u32) * 65536 + (s[off + 3] as u32)
        * 16777216
}

/// Reads eight little-endian bytes at `off`.
pub fn get_u64(s: &[u8], off: usize) -> (r: u64)
    requires
        off + 8 <= s.len(),
    ensures
        r == le_u64(s@.subrange(off as int, off + 8)),
{
    let lo = get_u32(s, off);
    let hi = get_u32(s, off + 4);
    proof {
        assert(s@.subrange(off as int, off + 8).subrange(4, 8) =~= s@.subrange(off + 4, off + 8));
    }
    lo as u64 + (hi as u64) * 4294967296
}

/// Writes the four little-endian bytes of `n` at `off`.
pub fn put_u32(buf: &mut Vec<u8>, off: usize, n: u32)
    requires
        off + 4 <= old(buf).len(),
    ensures
        final(buf)@ == old(buf)@.subrange(0, off as int) + le_bytes_u32(n) + old(buf)@.subrange(
            off + 4,
            old(buf)@.len() as int,
        ),
        final(buf)@.len() == old(buf)@.len(),
{
    buf.set(off, (n % 256) as u8);
    buf.set(off + 1, ((n / 256) % 256) as u8);
    buf.set(off + 2, ((n / 65536) % 256) as u8);
    buf.set(off + 3, (n / 16777216) as u8);
    assert(buf@ =~= old(buf)@.subrange(0, off as int) + le_bytes_u32(n) + old(buf)@.subrange(
        off + 4,
        old(buf)@.len() as int,
    ));
}

/// Decoding the encoding of `n` gives back `n`.
pub proof fn lemma_le_u32_roundtrip(n: u32)
    ensures
        le_u32(le_bytes_u32(n)) == n,
{
    let b = le_bytes_u32(n);
    assert(b[0] + 256 * b[1] + 65536 * b[2] + 16777216 * b[3] == n) by (nonlinear_arith)
        requires
            b[0] == n % 256,
            b[1] == (n / 256) % 256,
            b[2] == (n / 65536) % 256,
            b[3] == n / 16777216,
            n < 4294967296,
    {}
}

/// Encoding the value of four bytes gives back those bytes.
pub proof fn lemma_le_bytes_of_word(b: Seq<u8>)
    requires
        b.len() == 4,
    ensures
        le_bytes_u32(le_u32(b)) == b,
{
    let (b0, b1, b2, b3) = (b[0] as int, b[1] as int, b[2] as int, b[3] as int);
    let n = b0 + 256 * b1 + 65536 * b2 + 16777216 * b3;
    assert(0 <= n < 0x1_0000_0000);
    assert(le_u32(b) == n);
    assert(n % 256 == b0 && (n / 256) % 256 == b1 && (n / 65536) % 256 == b2 && n / 16777216 == b3)
        by (nonlinear_arith)
        requires
            n == b0 + 256 * b1 + 65536 * b2 + 16777216 * b3,
            0 <= b0 < 256,
            0 <= b1 < 256,
            0 <= b2 < 256,
            0 <= b3 < 256,
    {}
    assert(le_bytes_u32(le_u32(b)) =~= b);
}

} // verus!
