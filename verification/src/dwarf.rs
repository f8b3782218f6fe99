//! Reading DWARF call-frame information out of a memory image and writing an
//! `.eh_frame_hdr` lookup table.
//!
//! Addresses are those of the 32-bit little-endian target: a pointer or a
//! `usize` there is four bytes wide. A memory image is a byte sequence `mem`
//! whose first byte lies at address `base`.
#![allow(non_upper_case_globals)]
#![allow(non_camel_case_types)]

use vstd::prelude::*;
use vstd::arithmetic::power2::pow2;
use crate::bytes::{get_u16, get_u32, get_u64, le_bytes_u32, le_u16, le_u32, le_u64, put_u32, lemma_le_u32_roundtrip};

verus! {

pub const DW_EH_PE_omit: u8 = 0xFF;
pub const DW_EH_PE_absptr: u8 = 0x00;

pub const DW_EH_PE_uleb128: u8 = 0x01;
pub const DW_EH_PE_udata2: u8 = 0x02;
pub const DW_EH_PE_udata4: u8 = 0x03;
pub const DW_EH_PE_udata8: u8 = 0x04;
pub const DW_EH_PE_sleb128: u8 = 0x09;
pub const DW_EH_PE_sdata2: u8 = 0x0A;
pub const DW_EH_PE_sdata4: u8 = 0x0B;
pub const DW_EH_PE_sdata8: u8 = 0x0C;

pub const DW_EH_PE_pcrel: u8 = 0x10;
pub const DW_EH_PE_textrel: u8 = 0x20;
pub const DW_EH_PE_datarel: u8 = 0x30;
pub const DW_EH_PE_funcrel: u8 = 0x40;
pub const DW_EH_PE_aligned: u8 = 0x50;

pub const DW_EH_PE_indirect: u8 = 0x80;

/// Size in bytes of a target pointer (`usize` on the 32-bit target).
pub const WORD_SIZE: u32 = 4;

/// The `n` bytes at address `p` of the image `m` based at `base`, when they lie inside it.
pub open spec fn image_bytes(m: Seq<u8>, base: int, p: int, n: int) -> Option<Seq<u8>> {
    if base <= p && 0 <= n && p - base + n <= m.len() {
        Some(m.subrange(p - base, p - base + n))
    } else {
        None
    }
}

/// The bytes of the image from address `p` to its end (empty when `p` lies outside).
pub open spec fn image_tail(m: Seq<u8>, base: int, p: int) -> Seq<u8> {
    if base <= p && p - base <= m.len() {
        m.subrange(p - base, m.len() as int)
    } else {
        Seq::empty()
    }
}

/// Length of the LEB128 number that starts at index `i` of `s` and ends at the
/// first byte without its high bit, counted from index 0; `None` when no such
/// byte lies in `s`.
pub open spec fn leb_end(s: Seq<u8>, i: nat) -> Option<nat>
    decreases s.len() - i,
{
    if i >= s.len() {
        None
    } else if s[i as int] < 0x80 {
        Some(i + 1)
    } else {
        leb_end(s, i + 1)
    }
}

/// The 64-bit value made of the low seven bits of the first `n` bytes of `s`,
/// least significant group first (DWARF 4, section 7.6), group `j` shifted
/// left by `7 * j` modulo 64 as the target's shift does: groups past the
/// ninth wrap around.
pub open spec fn leb_bits(s: Seq<u8>, n: nat) -> u64
    decreases n,
{
    if n == 0 {
        0
    } else {
        leb_bits(s, (n - 1) as nat) | (((s[n - 1] & 0x7f) as u64) << (((7 * (n - 1)) % 64) as u64))
    }
}

/// The unsigned LEB128 number at the start of `s` and its length in bytes.
pub open spec fn uleb128(s: Seq<u8>) -> Option<(u64, nat)> {
    match leb_end(s, 0) {
        Some(n) => Some((leb_bits(s, n), n)),
        None => None,
    }
}

/// The signed LEB128 number at the start of `s` and its length in bytes: the
/// unsigned value sign-extended from bit `7 * n - 1` when that lies below
/// bit 64 (`7 * n` taken modulo 2^32, the width of the target's counter).
pub open spec fn sleb128(s: Seq<u8>) -> Option<(i64, nat)> {
    match leb_end(s, 0) {
        Some(n) => {
            let r = leb_bits(s, n);
            let shift = (7 * n) % 0x1_0000_0000;
            let v = if shift < 64 && s[n - 1] & 0x40 != 0 {
                r | (0xFFFF_FFFF_FFFF_FFFFu64 << (shift as u64))
            } else {
                r
            };
            Some((v as i64, n))
        },
        None => None,
    }
}

/// `a` is a power of two, 2^k for some k below 32.
pub open spec fn is_pow2(a: u32) -> bool {
    exists|k: nat| k < 32 && a == #[trigger] pow2(k)
}

/// Whether `x` is a power of two, 2^k for some k below 32 (what std's
/// `u32::is_power_of_two` answers).
fn is_power_of_two(x: u32) -> (b: bool)
    ensures
        b == is_pow2(x),
{
    let mut k: u32 = 0;
    while k < 32
        invariant
            k <= 32,
            forall|j: nat| j < k ==> x != #[trigger] pow2(j),
        decreases 32 - k,
    {
        proof {
            vstd::bits::lemma_u32_pow2_no_overflow(k as nat);
            vstd::bits::lemma_u32_shl_is_mul(1, k);
        }
        if x == (1u32 << k) {
            assert(x == pow2(k as nat));
            return true;
        }
        k = k + 1;
    }
    false
}

/// Rounds `unrounded` up to a multiple of `align`, which must be a power of two.
pub fn round_up(unrounded: u32, align: u32) -> (r: Result<u32, ()>)
    requires
        is_pow2(align) ==> unrounded + align - 1 <= u32::MAX,
    ensures
        r is Ok <==> is_pow2(align),
        r matches Ok(v) ==> v % align == 0 && unrounded <= v < unrounded + align,
{
    if is_power_of_two(align) {
        proof {
            let k = choose|k: nat| k < 32 && align == #[trigger] pow2(k);
            vstd::arithmetic::power2::lemma_pow2_pos(k);
        }
        let x = unrounded + (align - 1);
        let m = align - 1;
        let r = x & !m;
        proof {
            let k = choose|k: nat| k < 32 && align == #[trigger] pow2(k);
            vstd::bits::lemma_u32_low_bits_mask_is_mod(x, k);
            assert(vstd::bits::low_bits_mask(k) as u32 == m);
            assert((x & !m) + (x & m) == x) by (bit_vector);
            let a = align as int;
            assert(a > 0);
            vstd::arithmetic::div_mod::lemma_fundamental_div_mod(x as int, a);
            assert(r == a * (x as int / a));
            vstd::arithmetic::div_mod::lemma_mod_multiples_basic(x as int / a, a);
            assert((x as int / a) * a == a * (x as int / a)) by (nonlinear_arith);
            assert(r as int % a == 0);
            assert(0 <= x as int % a < a);
            assert(r as int == x as int - x as int % a);
            assert(unrounded <= r);
            assert(r < unrounded + align);
        }
        Ok(r)
    } else {
        Err(())
    }
}

/// Group `j` of `u`: its seven bits from bit `7 * j` on.
pub open spec fn leb_group(u: u64, j: int) -> u8 {
    ((u >> ((7 * j) as u64)) & 0x7fu64) as u8
}

/// The `n` LEB128 bytes of the groups of `u`: each but the last with its
/// high bit set.
pub open spec fn leb_bytes(u: u64, n: nat) -> Seq<u8> {
    Seq::new(n, |j: int| if j + 1 < n { leb_group(u, j) | 0x80u8 } else { leb_group(u, j) })
}

/// Number of groups of the unsigned LEB128 encoding of `v`, counting from
/// group `j`: up to the last group with a bit of `v` set (at least one, at
/// most ten).
pub open spec fn uleb_len_from(v: u64, j: nat) -> nat
    decreases 10 - j,
{
    if j >= 9 || v >> ((7 * j + 7) as u64) == 0 {
        j + 1
    } else {
        uleb_len_from(v, j + 1)
    }
}

/// The shortest unsigned LEB128 encoding of `v`.
pub open spec fn uleb_encode(v: u64) -> Seq<u8> {
    leb_bytes(v, uleb_len_from(v, 0))
}

/// The bits of `u` from bit `s + 6` on are all equal: a signed number whose
/// groups from `s` on fit in one group.
pub open spec fn sleb_fits(u: u64, s: int) -> bool {
    let t = (s + 6) as u64;
    u >> t == 0 || u >> t == 0xFFFF_FFFF_FFFF_FFFFu64 >> t
}

/// Number of groups of the signed LEB128 encoding of the bits `u`, counting
/// from group `j`: up to the first group after which only sign bits remain.
pub open spec fn sleb_len_from(u: u64, j: nat) -> nat
    decreases 10 - j,
{
    if j >= 9 || sleb_fits(u, (7 * j) as int) {
        j + 1
    } else {
        sleb_len_from(u, j + 1)
    }
}

/// The shortest signed LEB128 encoding of `v`.
pub open spec fn sleb_encode(v: i64) -> Seq<u8> {
    leb_bytes(v as u64, sleb_len_from(v as u64, 0))
}

/// The bits of `u` below bit `t` (all of them from bit 64 on).
pub open spec fn low_bits(u: u64, t: u64) -> u64 {
    if t >= 64 {
        u
    } else {
        u & (((1u64 << t) - 1) as u64)
    }
}

proof fn lemma_uleb_len(v: u64, j: nat)
    requires
        j <= 9,
    ensures
        j + 1 <= uleb_len_from(v, j) <= 10,
        uleb_len_from(v, j) == 10 || v >> ((7 * uleb_len_from(v, j)) as u64) == 0,
    decreases 10 - j,
{
    if !(j >= 9 || v >> ((7 * j + 7) as u64) == 0) {
        lemma_uleb_len(v, j + 1);
    }
}

proof fn lemma_sleb_len(u: u64, j: nat)
    requires
        j <= 9,
    ensures
        j + 1 <= sleb_len_from(u, j) <= 10,
        sleb_len_from(u, j) == 10 || sleb_fits(u, (7 * (sleb_len_from(u, j) - 1)) as int),
    decreases 10 - j,
{
    if !(j >= 9 || sleb_fits(u, (7 * j) as int)) {
        lemma_sleb_len(u, j + 1);
    }
}

/// The bytes of `leb_bytes` end, for `leb_end`, at their last byte.
proof fn lemma_leb_bytes_end(u: u64, n: nat, rest: Seq<u8>, i: nat)
    requires
        1 <= n,
        i < n,
    ensures
        leb_end(leb_bytes(u, n) + rest, i) == Some(n),
    decreases n - i,
{
    let s = leb_bytes(u, n) + rest;
    let g = leb_group(u, i as int);
    if i + 1 < n {
        assert(s[i as int] == g | 0x80u8);
        assert(g | 0x80u8 >= 0x80u8) by (bit_vector);
        lemma_leb_bytes_end(u, n, rest, i + 1);
    } else {
        assert(s[i as int] == g);
        let y = u >> ((7 * i) as u64);
        assert(((y & 0x7fu64) as u8) < 0x80u8) by (bit_vector);
    }
}

/// One more group of `u` extends the low bits by seven.
proof fn lemma_group_step(u: u64, sh: u64)
    requires
        sh <= 63,
    ensures
        low_bits(u, sh) | (((u >> sh) & 0x7fu64) << sh) == low_bits(u, (sh + 7) as u64),
{
    let t = (sh + 7) as u64;
    if t >= 64 {
        assert((u & (((1u64 << sh) - 1) as u64)) | (((u >> sh) & 0x7fu64) << sh) == u) by (bit_vector)
            requires
                sh <= 63,
                sh + 7 >= 64,
        ;
    } else if sh == 0 {
        assert((u & (((1u64 << 0u64) - 1) as u64)) | (((u >> 0u64) & 0x7fu64) << 0u64) == u & (((1u64 << 7u64) - 1) as u64))
            by (bit_vector);
    } else {
        assert((u & (((1u64 << sh) - 1) as u64)) | (((u >> sh) & 0x7fu64) << sh) == u & (((1u64 << t) - 1) as u64))
            by (bit_vector)
            requires
                sh < 57,
                t == sh + 7,
        ;
    }
}

/// The low bits that `leb_bits` gathers from the groups of `u`.
proof fn lemma_leb_bytes_bits(u: u64, n: nat, rest: Seq<u8>, k: nat)
    requires
        k <= n <= 10,
    ensures
        leb_bits(leb_bytes(u, n) + rest, k) == low_bits(u, (7 * k) as u64),
    decreases k,
{
    let s = leb_bytes(u, n) + rest;
    if k == 0 {
        assert(u & (((1u64 << 0u64) - 1) as u64) == 0) by (bit_vector);
    } else {
        lemma_leb_bytes_bits(u, n, rest, (k - 1) as nat);
        let j = k - 1;
        let sh = (7 * j) as u64;
        let y = u >> sh;
        let g = leb_group(u, j as int);
        assert(g == ((y & 0x7fu64) as u8));
        assert((s[j as int] & 0x7fu8) == g) by {
            if j + 1 < n {
                assert(s[j as int] == g | 0x80u8);
                assert(((((y & 0x7fu64) as u8) | 0x80u8) & 0x7fu8) == ((y & 0x7fu64) as u8)) by (bit_vector);
            } else {
                assert(s[j as int] == g);
                assert((((y & 0x7fu64) as u8) & 0x7fu8) == ((y & 0x7fu64) as u8)) by (bit_vector);
            }
        }
        assert(((((y & 0x7fu64) as u8) as u64)) == (y & 0x7fu64)) by (bit_vector);
        assert((7 * j) % 64 == 7 * j);
        lemma_group_step(u, sh);
    }
}

/// Decoding the shortest unsigned LEB128 encoding of `v`, followed by any
/// bytes, gives back `v` and stops after the encoding, which is at most ten
/// bytes long.
pub proof fn law_uleb128_round_trip(v: u64, rest: Seq<u8>)
    ensures
        uleb_encode(v).len() <= 10,
        uleb128(uleb_encode(v) + rest) == Some((v, uleb_encode(v).len())),
{
    let n = uleb_len_from(v, 0);
    lemma_uleb_len(v, 0);
    lemma_leb_bytes_end(v, n, rest, 0);
    lemma_leb_bytes_bits(v, n, rest, n);
    let t = (7 * n) as u64;
    if n < 10 {
        assert(v & (((1u64 << t) - 1) as u64) == v) by (bit_vector)
            requires
                t < 64,
                v >> t == 0,
        ;
    }
}

/// Decoding the shortest signed LEB128 encoding of `v`, followed by any
/// bytes, gives back `v` and stops after the encoding, which is at most ten
/// bytes long.
pub proof fn law_sleb128_round_trip(v: i64, rest: Seq<u8>)
    ensures
        sleb_encode(v).len() <= 10,
        sleb128(sleb_encode(v) + rest) == Some((v, sleb_encode(v).len())),
{
    let u = v as u64;
    let n = sleb_len_from(u, 0);
    let s = sleb_encode(v) + rest;
    lemma_sleb_len(u, 0);
    lemma_leb_bytes_end(u, n, rest, 0);
    lemma_leb_bytes_bits(u, n, rest, n);
    let t = (7 * n) as u64;
    assert((7 * n) % 0x1_0000_0000 == 7 * n);
    let sh = (t - 7) as u64;
    let g = leb_group(u, n - 1);
    assert(s[n - 1] == g);
    if n < 10 {
        let y = u >> sh;
        assert(g == ((y & 0x7fu64) as u8));
        assert((if ((y & 0x7fu64) as u8) & 0x40u8 != 0 {
            (u & (((1u64 << t) - 1) as u64)) | (0xFFFF_FFFF_FFFF_FFFFu64 << t)
        } else {
            u & (((1u64 << t) - 1) as u64)
        }) == u) by (bit_vector)
            requires
                7 <= t < 64,
                sh == t - 7,
                y == u >> sh,
                u >> ((sh + 6) as u64) == 0 || u >> ((sh + 6) as u64) == 0xFFFF_FFFF_FFFF_FFFFu64 >> ((sh
                    + 6) as u64),
        ;
    }
    assert(((v as u64) as i64) == v) by (bit_vector);
}

/// A fixed-size field of `n` bytes at `p`: its bytes and the address after it.
pub open spec fn field(m: Seq<u8>, base: int, p: int, n: int) -> Option<(Seq<u8>, int)> {
    match image_bytes(m, base, p, n) {
        Some(b) => Some((b, p + n)),
        None => None,
    }
}

/// The pointer encoded with `enc` at address `p` of the image, as the target
/// reads it (a 32-bit value), and the address after it; `None` when `enc` is
/// `DW_EH_PE_omit`, names no value format, or the field lies outside the image.
pub open spec fn encoded_pointer(m: Seq<u8>, base: int, p: int, enc: u8) -> Option<(u32, int)> {
    if enc == DW_EH_PE_omit {
        None
    } else if enc == DW_EH_PE_aligned {
        // rounded up to the word size, then an absolute pointer
        let a = (p + 3) / 4 * 4;
        match field(m, base, a, 4) {
            Some((b, q)) => Some((le_u32(b), q)),
            None => None,
        }
    } else {
        let f = enc & 0x0F;
        if f == DW_EH_PE_absptr || f == DW_EH_PE_udata4 || f == DW_EH_PE_sdata4 {
            match field(m, base, p, 4) {
                Some((b, q)) => Some((le_u32(b), q)),
                None => None,
            }
        } else if f == DW_EH_PE_udata2 {
            match field(m, base, p, 2) {
                Some((b, q)) => Some((le_u16(b) as u32, q)),
                None => None,
            }
        } else if f == DW_EH_PE_sdata2 {
            match field(m, base, p, 2) {
                Some((b, q)) => Some(((le_u16(b) as i16) as u32, q)),
                None => None,
            }
        } else if f == DW_EH_PE_udata8 || f == DW_EH_PE_sdata8 {
            match field(m, base, p, 8) {
                Some((b, q)) => Some((le_u64(b) as u32, q)),
                None => None,
            }
        } else if f == DW_EH_PE_uleb128 {
            match uleb128(image_tail(m, base, p)) {
                Some((v, n)) => Some((v as u32, p + n)),
                None => None,
            }
        } else if f == DW_EH_PE_sleb128 {
            match sleb128(image_tail(m, base, p)) {
                Some((v, n)) => Some((v as u32, p + n)),
                None => None,
            }
        } else {
            None
        }
    }
}

/// `f` names one of the value formats that `read_encoded_pointer` reads.
pub open spec fn is_value_format(f: u8) -> bool {
    f == DW_EH_PE_absptr || f == DW_EH_PE_uleb128 || f == DW_EH_PE_udata2 || f == DW_EH_PE_udata4
        || f == DW_EH_PE_udata8 || f == DW_EH_PE_sleb128 || f == DW_EH_PE_sdata2 || f
        == DW_EH_PE_sdata4 || f == DW_EH_PE_sdata8
}

/// Encodings that `read_encoded_pointer_with_pc` applies: the absolute
/// `DW_EH_PE_aligned` and the pc-relative ones; the others it either rejects
/// (`DW_EH_PE_omit`, no value format) or does not implement.
pub open spec fn pc_encoding_supported(enc: u8) -> bool {
    enc == DW_EH_PE_omit || enc == DW_EH_PE_aligned || enc & 0x70 == DW_EH_PE_pcrel
        || !is_value_format(enc & 0x0F)
}

/// The pointer that `read_encoded_pointer_with_pc` gives for the field at
/// `p`: the encoded value, plus `p` (modulo 2^32) for a pc-relative
/// encoding, then loaded from the image when `DW_EH_PE_indirect` is set; and
/// the address after the field.
pub open spec fn pc_pointer(m: Seq<u8>, base: int, p: int, enc: u8) -> Option<(u32, int)> {
    match encoded_pointer(m, base, p, enc) {
        None => None,
        Some((v, q)) => if enc == DW_EH_PE_aligned {
            Some((v, q))
        } else {
            let w = ((v + p) % 0x1_0000_0000) as u32;
            if enc & DW_EH_PE_indirect != 0 {
                match image_bytes(m, base, w as int, 4) {
                    Some(b) => Some((le_u32(b), q)),
                    None => None,
                }
            } else {
                Some((w, q))
            }
        },
    }
}

/// Index of the first NUL byte of `t` at or after `i`.
pub open spec fn nul_index(t: Seq<u8>, i: nat) -> Option<nat>
    decreases t.len() - i,
{
    if i >= t.len() {
        None
    } else if t[i as int] == 0 {
        Some(i)
    } else {
        nul_index(t, i + 1)
    }
}

/// Walks `left` augmentation characters at address `s` together with their
/// augmentation data at `d`; `enc` is the FDE pointer encoding found so far.
/// `'L'` carries one byte, `'P'` an encoding byte and a pointer in that
/// encoding (skipped when it cannot be read), `'R'` the FDE pointer
/// encoding. `None` for any other character or a field outside the image.
pub open spec fn cie_augmentation(m: Seq<u8>, base: int, s: int, d: int, left: nat, enc: u8) -> Option<u8>
    decreases left,
{
    if left == 0 {
        Some(enc)
    } else {
        match (image_bytes(m, base, s, 1), field(m, base, d, 1)) {
            (Some(c), Some((x, d2))) => {
                if c[0] == 76 {
                    // 'L'
                    cie_augmentation(m, base, s + 1, d2, (left - 1) as nat, enc)
                } else if c[0] == 80 {
                    // 'P'
                    if x[0] == DW_EH_PE_aligned && d2 + 4 > u32::MAX {
                        None
                    } else {
                        let d3 = match encoded_pointer(m, base, d2, x[0]) {
                            Some((_, q)) => q,
                            None => d2,
                        };
                        cie_augmentation(m, base, s + 1, d3, (left - 1) as nat, enc)
                    }
                } else if c[0] == 82 {
                    // 'R'
                    cie_augmentation(m, base, s + 1, d2, (left - 1) as nat, x[0])
                } else {
                    None
                }
            },
            _ => None,
        }
    }
}

/// The code and data alignment factors, the return address register and the
/// augmentation data length, four LEB128 numbers at `d`: the address after
/// them, when the length is 7.
pub open spec fn cie_factors(m: Seq<u8>, base: int, d: int) -> Option<int> {
    match uleb128(image_tail(m, base, d)) {
        None => None,
        Some((_, k1)) => match sleb128(image_tail(m, base, d + k1)) {
            None => None,
            Some((_, k2)) => match uleb128(image_tail(m, base, d + k1 + k2)) {
                None => None,
                Some((_, k3)) => match uleb128(image_tail(m, base, d + k1 + k2 + k3)) {
                    Some((len, k4)) => if len == 7 {
                        Some(d + k1 + k2 + k3 + k4)
                    } else {
                        None
                    },
                    None => None,
                },
            },
        },
    }
}

/// The augmentation string of a CIE at `s`, after its `'z'`: the FDE pointer
/// encoding that its characters give, when there is at least one character
/// and the encoding is not `DW_EH_PE_omit`.
pub open spec fn cie_encoding(m: Seq<u8>, base: int, s: int) -> Option<u8> {
    match nul_index(image_tail(m, base, s), 0) {
        None => None,
        Some(n) => if n == 0 {
            None
        } else {
            match cie_factors(m, base, s + n + 1) {
                None => None,
                Some(d) => match cie_augmentation(m, base, s, d, n, DW_EH_PE_omit) {
                    Some(enc) => if enc == DW_EH_PE_omit {
                        None
                    } else {
                        Some(enc)
                    },
                    None => None,
                },
            }
        },
    }
}

/// The CIE at the start of an `.eh_frame` section at address `e` of `size`
/// bytes, as this parser supports it: a 32-bit length other than 0 and
/// 0xFFFFFFFF (below 2^31, ending inside the address space and the section),
/// CIE id 0, version 1, and an augmentation that `cie_encoding` accepts.
/// Gives the FDE pointer encoding, the address after the CIE (where the FDEs
/// begin) and the number of bytes the FDEs take.
pub open spec fn cie_frame(m: Seq<u8>, base: int, e: int, size: int) -> Option<(u8, u32, u32)> {
    match field(m, base, e, 4) {
        None => None,
        Some((lb, p1)) => {
            let length = le_u32(lb);
            if length == 0 || length == 0xFFFF_FFFF || length > 0x7FFF_FFFF || p1 + length > u32::MAX
                || size < 4 + length {
                None
            } else {
                match (field(m, base, p1, 4), field(m, base, p1 + 4, 1), field(m, base, p1 + 5, 1)) {
                    (Some((id, _)), Some((ver, _)), Some((z, s))) => {
                        if le_u32(id) != 0 || ver[0] != 1 || z[0] != 122 {
                            None
                        } else {
                            match cie_encoding(m, base, s) {
                                Some(enc) => Some((enc, (p1 + length) as u32, (size - 4 - length) as u32)),
                                None => None,
                            }
                        }
                    },
                    _ => None,
                }
            }
        },
    }
}

/// The FDEs of a section from address `p` on, `rem` bytes of them, each a
/// 32-bit length, a CIE pointer and an initial location read with `enc` as
/// `read_encoded_pointer_with_pc` reads it. Gives, for each FDE in order, its
/// initial location and its address, and whether the walk reached the end
/// (`false` when an initial location could not be read, which ends the walk).
/// `None` where the walk cannot go on: a length of 0 or 0xFFFFFFFF, or one that
/// overruns the remaining bytes or the address space, a field outside the
/// image, or an encoding that `read_encoded_pointer_with_pc` does not apply.
pub open spec fn fde_walk(m: Seq<u8>, base: int, enc: u8, p: int, rem: int) -> Option<(Seq<(u32, u32)>, bool)>
    decreases rem,
{
    if rem <= 0 {
        if rem == 0 { Some((Seq::empty(), true)) } else { None }
    } else {
        match field(m, base, p, 4) {
            None => None,
            Some((lb, p1)) => {
                let length = le_u32(lb);
                if length == 0 || length == 0xFFFF_FFFF || length > 0x7FFF_FFFF || length + 4 > rem
                    || p1 + length > u32::MAX {
                    None
                } else {
                    match field(m, base, p1, 4) {
                        None => None,
                        Some((_, p2)) => {
                            if !(pc_encoding_supported(enc) || encoded_pointer(m, base, p2, enc) is None)
                                || (enc == DW_EH_PE_aligned && p2 + 4 > u32::MAX) {
                                None
                            } else {
                                match pc_pointer(m, base, p2, enc) {
                                    None => Some((Seq::empty(), false)),
                                    Some((pc, _)) => match fde_walk(m, base, enc, p1 + length, rem - length - 4) {
                                        None => None,
                                        Some((rest, done)) => Some((seq![(pc, p as u32)] + rest, done)),
                                    },
                                }
                            }
                        },
                    }
                }
            },
        }
    }
}

/// `w` with `prefix` put before its entries.
pub open spec fn walk_after(prefix: Seq<(u32, u32)>, w: Option<(Seq<(u32, u32)>, bool)>) -> Option<(Seq<(u32, u32)>, bool)> {
    match w {
        Some((es, done)) => Some((prefix + es, done)),
        None => None,
    }
}

/// The concatenated little-endian bytes of the pairs of `es`.
pub open spec fn pair_bytes(es: Seq<(u32, u32)>) -> Seq<u8>
    decreases es.len(),
{
    if es.len() == 0 {
        Seq::empty()
    } else {
        pair_bytes(es.drop_last()) + le_bytes_u32(es.last().0) + le_bytes_u32(es.last().1)
    }
}

/// An `.eh_frame_hdr` section: version 1, three encodings of 0x03 (absolute
/// 4-byte values), the `.eh_frame` address, the number of table entries, then
/// the table of (initial location, FDE address) pairs.
pub open spec fn hdr_bytes(eh_frame_ptr: u32, es: Seq<(u32, u32)>) -> Seq<u8> {
    seq![1u8, 0x03u8, 0x03u8, 0x03u8] + le_bytes_u32(eh_frame_ptr) + le_bytes_u32(es.len() as u32)
        + pair_bytes(es)
}

/// The byte length of `hdr_bytes(_, es)`.
pub proof fn lemma_hdr_bytes_len(p: u32, es: Seq<(u32, u32)>)
    ensures
        hdr_bytes(p, es).len() == 12 + 8 * es.len(),
    decreases es.len(),
{
    if es.len() > 0 {
        lemma_hdr_bytes_len(p, es.drop_last());
    }
}

/// `pair_bytes(es)` holds eight bytes per pair.
pub proof fn lemma_pair_bytes_len(es: Seq<(u32, u32)>)
    ensures
        pair_bytes(es).len() == 8 * es.len(),
    decreases es.len(),
{
    if es.len() > 0 {
        lemma_pair_bytes_len(es.drop_last());
    }
}

/// Pair `i` of `es` lies at byte `8 * i` of `pair_bytes(es)`.
pub proof fn lemma_pair_bytes_at(es: Seq<(u32, u32)>, i: int)
    requires
        0 <= i < es.len(),
    ensures
        pair_bytes(es).subrange(8 * i, 8 * i + 8) == le_bytes_u32(es[i].0) + le_bytes_u32(es[i].1),
    decreases es.len(),
{
    let pre = es.drop_last();
    lemma_pair_bytes_len(pre);
    if i < es.len() - 1 {
        lemma_pair_bytes_at(pre, i);
        assert(pair_bytes(es).subrange(8 * i, 8 * i + 8) =~= pair_bytes(pre).subrange(8 * i, 8 * i + 8));
    } else {
        assert(pair_bytes(es).subrange(8 * i, 8 * i + 8) =~= le_bytes_u32(es[i].0) + le_bytes_u32(es[i].1));
    }
}

/// An `.eh_frame_hdr` reads back as it was written: version 1 and the three
/// 0x03 encodings, the `.eh_frame` address at byte 4, the number of entries
/// at byte 8, and entry `i` as its initial location at byte `12 + 8 * i` and
/// its FDE address at byte `16 + 8 * i`, all little-endian words.
pub proof fn law_hdr_reads_back(p: u32, es: Seq<(u32, u32)>)
    requires
        es.len() <= u32::MAX,
    ensures
        hdr_bytes(p, es).len() == 12 + 8 * es.len(),
        hdr_bytes(p, es).subrange(0, 4) == seq![1u8, 0x03u8, 0x03u8, 0x03u8],
        le_u32(hdr_bytes(p, es).subrange(4, 8)) == p,
        le_u32(hdr_bytes(p, es).subrange(8, 12)) == es.len(),
        forall|i: int|
            0 <= i < es.len() ==> le_u32(hdr_bytes(p, es).subrange(12 + 8 * i, 16 + 8 * i)) == (
            #[trigger] es[i]).0 && le_u32(hdr_bytes(p, es).subrange(16 + 8 * i, 20 + 8 * i)) == es[i].1,
{
    let b = hdr_bytes(p, es);
    lemma_hdr_bytes_len(p, es);
    lemma_pair_bytes_len(es);
    assert(b.subrange(0, 4) =~= seq![1u8, 0x03u8, 0x03u8, 0x03u8]);
    assert(b.subrange(4, 8) =~= le_bytes_u32(p));
    lemma_le_u32_roundtrip(p);
    assert(b.subrange(8, 12) =~= le_bytes_u32(es.len() as u32));
    lemma_le_u32_roundtrip(es.len() as u32);
    assert forall|i: int| 0 <= i < es.len() implies le_u32(b.subrange(12 + 8 * i, 16 + 8 * i)) == (
    #[trigger] es[i]).0 && le_u32(b.subrange(16 + 8 * i, 20 + 8 * i)) == es[i].1 by {
        lemma_pair_bytes_at(es, i);
        let pb = pair_bytes(es);
        assert(b.subrange(12 + 8 * i, 16 + 8 * i) =~= pb.subrange(8 * i, 8 * i + 8).subrange(0, 4));
        assert(b.subrange(16 + 8 * i, 20 + 8 * i) =~= pb.subrange(8 * i, 8 * i + 8).subrange(4, 8));
        assert((le_bytes_u32(es[i].0) + le_bytes_u32(es[i].1)).subrange(0, 4) =~= le_bytes_u32(es[i].0));
        assert((le_bytes_u32(es[i].0) + le_bytes_u32(es[i].1)).subrange(4, 8) =~= le_bytes_u32(es[i].1));
        lemma_le_u32_roundtrip(es[i].0);
        lemma_le_u32_roundtrip(es[i].1);
    }
}

/// Adding one more entry to an `.eh_frame_hdr` rewrites only its count
/// (the word at byte 8, now one more) and appends the entry's initial
/// location and FDE address, as two little-endian words.
pub proof fn law_hdr_one_more_entry(p: u32, es: Seq<(u32, u32)>, e: (u32, u32))
    requires
        es.len() < u32::MAX,
    ensures
        hdr_bytes(p, es.push(e)) == hdr_bytes(p, es).subrange(0, 8) + le_bytes_u32((es.len() + 1) as u32)
            + hdr_bytes(p, es).subrange(12, hdr_bytes(p, es).len() as int) + le_bytes_u32(e.0) + le_bytes_u32(e.1),
{
    let es2 = es.push(e);
    assert(es2.drop_last() =~= es);
    lemma_hdr_bytes_len(p, es);
    lemma_pair_bytes_len(es);
    let h = hdr_bytes(p, es);
    assert(h.subrange(0, 8) =~= seq![1u8, 0x03u8, 0x03u8, 0x03u8] + le_bytes_u32(p));
    assert(h.subrange(12, h.len() as int) =~= pair_bytes(es));
    assert(pair_bytes(es2) == pair_bytes(es) + le_bytes_u32(e.0) + le_bytes_u32(e.1));
    assert(hdr_bytes(p, es2) =~= h.subrange(0, 8) + le_bytes_u32((es.len() + 1) as u32) + h.subrange(
        12,
        h.len() as int,
    ) + le_bytes_u32(e.0) + le_bytes_u32(e.1));
}

/// A cursor over a memory image, at address `ptr`.
#[derive(Clone, Copy)]
pub struct DwarfReader<'a> {
    pub mem: &'a [u8],
    pub base: u32,
    pub ptr: u32,
}

impl<'a> DwarfReader<'a> {
    /// The image lies inside the 32-bit address space.
    pub open spec fn wf(&self) -> bool {
        self.base + self.mem@.len() <= u32::MAX
    }

    /// The `n` bytes at the cursor, when they lie inside the image.
    pub open spec fn peek(&self, n: int) -> Option<Seq<u8>> {
        image_bytes(self.mem@, self.base as int, self.ptr as int, n)
    }

    /// The bytes from the cursor to the end of the image.
    pub open spec fn tail(&self) -> Seq<u8> {
        image_tail(self.mem@, self.base as int, self.ptr as int)
    }

    /// Same image, cursor moved to `p`.
    pub open spec fn same_image(&self, other: &Self) -> bool {
        self.mem@ == other.mem@ && self.base == other.base
    }

    pub fn new(mem: &'a [u8], base: u32, ptr: u32) -> (r: Self)
        requires
            base + mem@.len() <= u32::MAX,
        ensures
            r.mem@ == mem@,
            r.base == base,
            r.ptr == ptr,
            r.wf(),
    {
        DwarfReader { mem, base, ptr }
    }

    /// Moves the cursor by `offset` bytes.
    pub fn offset(&mut self, offset: i32)
        requires
            0 <= old(self).ptr + offset <= u32::MAX,
        ensures
            final(self).same_image(old(self)),
            final(self).ptr == old(self).ptr + offset,
    {
        if offset >= 0 {
            self.ptr = self.ptr + offset as u32;
        } else {
            self.ptr = self.ptr - (0 - (offset as i64)) as u32;
        }
    }

    /// Advances the cursor over `n` bytes when they lie inside the image and
    /// returns their index in `mem`; otherwise leaves it and returns `None`.
    fn take(&mut self, n: u32) -> (r: Option<usize>)
        requires
            old(self).wf(),
        ensures
            final(self).same_image(old(self)),
            match old(self).peek(n as int) {
                Some(_) => r == Some((old(self).ptr - old(self).base) as usize) && final(self).ptr
                    == old(self).ptr + n,
                None => r is None && final(self).ptr == old(self).ptr,
            },
    {
        if self.ptr < self.base {
            return None;
        }
        let off = (self.ptr - self.base) as usize;
        if off > self.mem.len() || self.mem.len() - off < n as usize {
            return None;
        }
        self.ptr = self.ptr + n;
        Some(off)
    }

    pub fn read_u8(&mut self) -> (r: Option<u8>)
        requires
            old(self).wf(),
        ensures
            final(self).same_image(old(self)),
            match old(self).peek(1) {
                Some(b) => r == Some(b[0]) && final(self).ptr == old(self).ptr + 1,
                None => r is None && final(self).ptr == old(self).ptr,
            },
    {
        match self.take(1) {
            Some(off) => Some(self.mem[off]),
            None => None,
        }
    }

    pub fn read_u16(&mut self) -> (r: Option<u16>)
        requires
            old(self).wf(),
        ensures
            final(self).same_image(old(self)),
            match old(self).peek(2) {
                Some(b) => r == Some(le_u16(b)) && final(self).ptr == old(self).ptr + 2,
                None => r is None && final(self).ptr == old(self).ptr,
            },
    {
        match self.take(2) {
            Some(off) => Some(get_u16(self.mem, off)),
            None => None,
        }
    }

    pub fn read_u32(&mut self) -> (r: Option<u32>)
        requires
            old(self).wf(),
        ensures
            final(self).same_image(old(self)),
            match old(self).peek(4) {
                Some(b) => r == Some(le_u32(b)) && final(self).ptr == old(self).ptr + 4,
                None => r is None && final(self).ptr == old(self).ptr,
            },
    {
        match self.take(4) {
            Some(off) => Some(get_u32(self.mem, off)),
            None => None,
        }
    }

    pub fn read_u64(&mut self) -> (r: Option<u64>)
        requires
            old(self).wf(),
        ensures
            final(self).same_image(old(self)),
            match old(self).peek(8) {
                Some(b) => r == Some(le_u64(b)) && final(self).ptr == old(self).ptr + 8,
                None => r is None && final(self).ptr == old(self).ptr,
            },
    {
        match self.take(8) {
            Some(off) => Some(get_u64(self.mem, off)),
            None => None,
        }
    }

    /// Reads an unsigned LEB128 number. `None`, with the cursor left where it
    /// was, when the number runs past the image.
    pub fn read_uleb128(&mut self) -> (r: Option<u64>)
        requires
            old(self).wf(),
        ensures
            final(self).same_image(old(self)),
            match uleb128(old(self).tail()) {
                Some((v, n)) => r == Some(v) && final(self).ptr == old(self).ptr + n,
                None => r is None && final(self).ptr == old(self).ptr,
            },
    {
        match self.read_leb() {
            Some((v, _)) => Some(v),
            None => None,
        }
    }

    /// Reads a signed LEB128 number. `None`, with the cursor left where it
    /// was, when the number runs past the image.
    pub fn read_sleb128(&mut self) -> (r: Option<i64>)
        requires
            old(self).wf(),
        ensures
            final(self).same_image(old(self)),
            match sleb128(old(self).tail()) {
                Some((v, n)) => r == Some(v) && final(self).ptr == old(self).ptr + n,
                None => r is None && final(self).ptr == old(self).ptr,
            },
    {
        let start = self.ptr;
        match self.read_leb() {
            Some((result, last)) => {
                // the target counts the shift in 32 bits
                let shift: u64 = (7 * (self.ptr - start) as u64) % 0x1_0000_0000;
                // sign-extend
                if shift < 64 && (last & 0x40) != 0 {
                    Some((result | (0xFFFF_FFFF_FFFF_FFFFu64 << shift)) as i64)
                } else {
                    Some(result as i64)
                }
            },
            None => None,
        }
    }

    /// Common loop of the LEB128 readers: the accumulated low bits and the
    /// last byte read.
    fn read_leb(&mut self) -> (r: Option<(u64, u8)>)
        requires
            old(self).wf(),
        ensures
            final(self).same_image(old(self)),
            match leb_end(old(self).tail(), 0) {
                Some(n) => r == Some((leb_bits(old(self).tail(), n), old(self).tail()[n - 1]))
                    && final(self).ptr == old(self).ptr + n,
                None => r is None && final(self).ptr == old(self).ptr,
            },
    {
        let ghost t = self.tail();
        let start = self.ptr;
        let mut i: u32 = 0;
        let mut result: u64 = 0;
        loop
            invariant
                self.wf(),
                self.same_image(old(self)),
                start == old(self).ptr,
                t == old(self).tail(),
                self.ptr == start + i,
                i <= t.len(),
                self.tail() == t.subrange(i as int, t.len() as int),
                leb_end(t, 0) == leb_end(t, i as nat),
                result == leb_bits(t, i as nat),
            decreases t.len() - i,
        {
            let b = match self.read_u8() {
                Some(b) => b,
                None => {
                    self.ptr = start;
                    return None;
                },
            };
            assert(b == t[i as int]);
            result = result | (((b & 0x7f) as u64) << ((7 * (i as u64)) % 64));
            i = i + 1;
            assert(b & 0x80 == 0 <==> b < 0x80) by (bit_vector);
            if b & 0x80 == 0 {
                return Some((result, b));
            }
            assert(self.tail() =~= t.subrange(i as int, t.len() as int));
        }
    }
}

/// A byte that `DwarfWriter::write_u8` appended reads back: a
/// `DwarfReader` over the written bytes, at that byte, sees it.
pub proof fn law_written_u8_reads_back(r: DwarfReader, before: Seq<u8>, v: u8, after: Seq<u8>)
    requires
        r.mem@ == before.push(v) + after,
        r.ptr == r.base + before.len(),
    ensures
        r.peek(1) matches Some(b) && b[0] == v,
{
    assert(r.mem@.subrange(before.len() as int, before.len() + 1int) =~= seq![v]);
}

/// A word that `DwarfWriter::write_u32` appended reads back: a
/// `DwarfReader` over the written bytes, at that word, sees its four bytes,
/// whose value is the word.
pub proof fn law_written_u32_reads_back(r: DwarfReader, before: Seq<u8>, v: u32, after: Seq<u8>)
    requires
        r.mem@ == before + le_bytes_u32(v) + after,
        r.ptr == r.base + before.len(),
    ensures
        r.peek(4) matches Some(b) && le_u32(b) == v,
{
    assert(r.mem@.subrange(before.len() as int, before.len() + 4int) =~= le_bytes_u32(v));
    lemma_le_u32_roundtrip(v);
}

/// Reads a pointer encoded with `encoding` (the value format, the low four
/// bits, or `DW_EH_PE_aligned`). On `Err` the cursor stays where it was.
pub fn read_encoded_pointer(reader: &mut DwarfReader, encoding: u8) -> (r: Result<u32, ()>)
    requires
        old(reader).wf(),
        encoding == DW_EH_PE_aligned ==> old(reader).ptr + WORD_SIZE <= u32::MAX,
    ensures
        final(reader).same_image(old(reader)),
        match encoded_pointer(old(reader).mem@, old(reader).base as int, old(reader).ptr as int, encoding) {
            Some((v, q)) => r == Ok::<u32, ()>(v) && final(reader).ptr == q,
            None => r is Err && final(reader).ptr == old(reader).ptr,
        },
{
    if encoding == DW_EH_PE_omit {
        return Err(());
    }
    let start = reader.ptr;
    // DW_EH_PE_aligned implies it's an absolute pointer value
    if encoding == DW_EH_PE_aligned {
        let a = match round_up(reader.ptr, WORD_SIZE) {
            Ok(a) => a,
            Err(()) => {
                proof {
                    vstd::arithmetic::power2::lemma2_to64();
                    assert(is_pow2(WORD_SIZE));
                }
                return Err(());
            },
        };
        proof {
            let p = start as int;
            assert(a % 4 == 0 && p <= a < p + 4);
            assert(a as int == (p + 3) / 4 * 4);
        }
        reader.ptr = a;
        return match reader.read_u32() {
            Some(v) => Ok(v),
            None => {
                reader.ptr = start;
                Err(())
            },
        };
    }
    let f = encoding & 0x0F;
    let r = if f == DW_EH_PE_absptr || f == DW_EH_PE_udata4 || f == DW_EH_PE_sdata4 {
        match reader.read_u32() {
            Some(v) => Ok(v),
            None => Err(()),
        }
    } else if f == DW_EH_PE_uleb128 {
        match reader.read_uleb128() {
            Some(v) => Ok(v as u32),
            None => Err(()),
        }
    } else if f == DW_EH_PE_udata2 {
        match reader.read_u16() {
            Some(v) => Ok(v as u32),
            None => Err(()),
        }
    } else if f == DW_EH_PE_udata8 || f == DW_EH_PE_sdata8 {
        match reader.read_u64() {
            Some(v) => Ok(v as u32),
            None => Err(()),
        }
    } else if f == DW_EH_PE_sleb128 {
        match reader.read_sleb128() {
            Some(v) => Ok(v as u32),
            None => Err(()),
        }
    } else if f == DW_EH_PE_sdata2 {
        match reader.read_u16() {
            Some(v) => Ok((v as i16) as u32),
            None => Err(()),
        }
    } else {
        Err(())
    };
    r
}

/// Reads a pointer encoded with `encoding` and applies it: a pc-relative
/// value is taken relative to the field's own address (modulo 2^32), and an
/// indirect one is loaded from the image. On `Err` the cursor stays where it was.
#[verifier::spinoff_prover]
#[verifier::rlimit(30)]
pub fn read_encoded_pointer_with_pc(reader: &mut DwarfReader, encoding: u8) -> (r: Result<u32, ()>)
    requires
        old(reader).wf(),
        encoding == DW_EH_PE_aligned ==> old(reader).ptr + WORD_SIZE <= u32::MAX,
        pc_encoding_supported(encoding) || encoded_pointer(
            old(reader).mem@,
            old(reader).base as int,
            old(reader).ptr as int,
            encoding,
        ) is None,
    ensures
        final(reader).same_image(old(reader)),
        match pc_pointer(old(reader).mem@, old(reader).base as int, old(reader).ptr as int, encoding) {
            Some((v, q)) => r == Ok::<u32, ()>(v) && final(reader).ptr == q,
            None => r is Err && final(reader).ptr == old(reader).ptr,
        },
{
    let original_ptr = reader.ptr;
    let mut result = match read_encoded_pointer(reader, encoding) {
        Ok(v) => v,
        Err(()) => return Err(()),
    };
    // DW_EH_PE_aligned implies it's an absolute pointer value
    if encoding == DW_EH_PE_aligned {
        return Ok(result);
    }
    assert(encoding & 0x70 == DW_EH_PE_pcrel);
    result = result.wrapping_add(original_ptr);
    if encoding & DW_EH_PE_indirect != 0 {
        let mut target = DwarfReader { mem: reader.mem, base: reader.base, ptr: result };
        result = match target.read_u32() {
            Some(v) => v,
            None => {
                reader.ptr = original_ptr;
                return Err(());
            },
        };
    }
    Ok(result)
}

/// What is needed of the single CIE of an object's `.eh_frame` to list its
/// FDEs: the encoding of their initial locations (from the `'R'`
/// augmentation), the address of the first FDE and the bytes the FDEs take.
pub struct EH_Frame {
    pub fde_pointer_encoding: u8,
    pub fde_base: u32,
    pub fde_sz: u32,
}

impl EH_Frame {
    /// Parses the CIE at `eh_frame_base`, the start of an `.eh_frame` section
    /// of `size` bytes; `None` when it is not one that `cie_frame` accepts.
    pub fn parse(mem: &[u8], base: u32, eh_frame_base: u32, size: u32) -> (r: Option<EH_Frame>)
        requires
            base + mem@.len() <= u32::MAX,
        ensures
            match cie_frame(mem@, base as int, eh_frame_base as int, size as int) {
                Some((enc, fb, fs)) => r matches Some(f) && f.fde_pointer_encoding == enc
                    && f.fde_base == fb && f.fde_sz == fs,
                None => r is None,
            },
    {
        let mut cie_reader = DwarfReader::new(mem, base, eh_frame_base);
        let length = match cie_reader.read_u32() {
            Some(v) => v,
            None => return None,
        };
        // eh_frame with 0 lengths means the CIE is terminated
        // while length == u32::MAX means that the length is only representable with 64 bits,
        // which does not make sense in a system with 32-bit address.
        if length == 0 || length == 0xFFFF_FFFF || length > 0x7FFF_FFFF {
            return None;
        }
        if cie_reader.ptr as u64 + length as u64 > u32::MAX as u64 {
            return None;
        }
        let fde_base = cie_reader.ptr + length;
        if size < 4 || size - 4 < length {
            return None;
        }
        let fde_sz = size - 4 - length;

        // Routine check on the .eh_frame well-formness, in terms of CIE ID & Version args.
        let id = match cie_reader.read_u32() {
            Some(v) => v,
            None => return None,
        };
        let version = match cie_reader.read_u8() {
            Some(v) => v,
            None => return None,
        };
        // The first character must be 'z', there is no way to proceed otherwise
        let z = match cie_reader.read_u8() {
            Some(v) => v,
            None => return None,
        };
        if id != 0 || version != 1 || z != 122 {
            return None;
        }
        match read_cie_encoding(mem, base, cie_reader.ptr) {
            Some(fde_pointer_encoding) => Some(EH_Frame { fde_pointer_encoding, fde_base, fde_sz }),
            None => None,
        }
    }

    /// Parses the CIE; it must be one that `cie_frame` accepts.
    pub fn new(mem: &[u8], base: u32, eh_frame_base: u32, size: u32) -> (r: EH_Frame)
        requires
            base + mem@.len() <= u32::MAX,
            cie_frame(mem@, base as int, eh_frame_base as int, size as int) is Some,
        ensures
            cie_frame(mem@, base as int, eh_frame_base as int, size as int) == Some(
                (r.fde_pointer_encoding, r.fde_base, r.fde_sz),
            ),
    {
        Self::parse(mem, base, eh_frame_base, size).unwrap()
    }

    /// Lists each FDE's initial location (read with the CIE's encoding) and
    /// address, in order, and whether the list is complete; `None` where
    /// `fde_walk` cannot go on.
    #[verifier::rlimit(50)]
    pub fn scan_fdes(&self, mem: &[u8], base: u32) -> (r: Option<(Vec<(u32, u32)>, bool)>)
        requires
            base + mem@.len() <= u32::MAX,
        ensures
            match fde_walk(mem@, base as int, self.fde_pointer_encoding, self.fde_base as int, self.fde_sz as int) {
                Some((es, done)) => r matches Some((v, d)) && v@ == es && d == done,
                None => r is None,
            },
    {
        let ghost m = mem@;
        let ghost enc = self.fde_pointer_encoding;
        let ghost goal = fde_walk(m, base as int, enc, self.fde_base as int, self.fde_sz as int);
        let mut entries: Vec<(u32, u32)> = Vec::new();
        let mut remaining_len = self.fde_sz;
        let mut reader = DwarfReader::new(mem, base, self.fde_base);
        assert(entries@ + Seq::<(u32, u32)>::empty() =~= Seq::<(u32, u32)>::empty());
        loop
            invariant
                reader.wf(),
                reader.mem@ == m,
                reader.base == base,
                m == mem@,
                enc == self.fde_pointer_encoding,
                goal == fde_walk(m, base as int, enc, self.fde_base as int, self.fde_sz as int),
                goal == walk_after(entries@, fde_walk(m, base as int, enc, reader.ptr as int, remaining_len as int)),
            decreases remaining_len,
        {
            let ghost w = fde_walk(m, base as int, enc, reader.ptr as int, remaining_len as int);
            if remaining_len == 0 {
                assert(entries@ + Seq::<(u32, u32)>::empty() =~= entries@);
                return Some((entries, true));
            }
            let fde_ptr = reader.ptr;
            let length = match reader.read_u32() {
                Some(v) => v,
                None => return None,
            };
            if length == 0 || length == 0xFFFF_FFFF || length > 0x7FFF_FFFF || length + 4 > remaining_len {
                return None;
            }
            if reader.ptr as u64 + length as u64 > u32::MAX as u64 {
                return None;
            }
            // Remove the length of the header and the content from the counter
            remaining_len = remaining_len - (length + WORD_SIZE);
            let next_fde_ptr = reader.ptr + length;
            // Skip CIE pointer offset
            if reader.read_u32().is_none() {
                return None;
            }
            let encoding = self.fde_pointer_encoding;
            let supported = encoding == DW_EH_PE_omit || encoding == DW_EH_PE_aligned || (encoding
                & 0x70) == DW_EH_PE_pcrel || !(encoding & 0x0F == DW_EH_PE_absptr || encoding & 0x0F
                == DW_EH_PE_uleb128 || encoding & 0x0F == DW_EH_PE_udata2 || encoding & 0x0F
                == DW_EH_PE_udata4 || encoding & 0x0F == DW_EH_PE_udata8 || encoding & 0x0F
                == DW_EH_PE_sleb128 || encoding & 0x0F == DW_EH_PE_sdata2 || encoding & 0x0F
                == DW_EH_PE_sdata4 || encoding & 0x0F == DW_EH_PE_sdata8);
            if encoding == DW_EH_PE_aligned && reader.ptr > u32::MAX - WORD_SIZE {
                return None;
            }
            let mut probe = reader;
            let readable = read_encoded_pointer(&mut probe, encoding).is_ok();
            if !supported && readable {
                return None;
            }
            // Parse PC Begin using the encoding scheme mentioned in the CIE
            let pc_begin = match read_encoded_pointer_with_pc(&mut reader, encoding) {
                Ok(v) => v,
                Err(()) => {
                    assert(entries@ + Seq::<(u32, u32)>::empty() =~= entries@);
                    return Some((entries, false));
                },
            };
            let ghost old_entries = entries@;
            entries.push((pc_begin, fde_ptr));
            proof {
                let rest = fde_walk(m, base as int, enc, next_fde_ptr as int, remaining_len as int);
                match rest {
                    Some((es, d)) => {
                        assert(old_entries + (seq![(pc_begin, fde_ptr)] + es) =~= entries@ + es);
                    },
                    None => {},
                }
            }
            reader.ptr = next_fde_ptr;
        }
    }

    /// The FDEs' initial locations and addresses, in order, and `Err` when an
    /// initial location could not be read, which ends the list. The FDEs must
    /// be ones that `fde_walk` can go through.
    pub fn iterate_fde(&self, mem: &[u8], base: u32) -> (r: (Vec<(u32, u32)>, Result<(), ()>))
        requires
            base + mem@.len() <= u32::MAX,
            fde_walk(mem@, base as int, self.fde_pointer_encoding, self.fde_base as int, self.fde_sz as int) is Some,
        ensures
            fde_walk(mem@, base as int, self.fde_pointer_encoding, self.fde_base as int, self.fde_sz as int)
                == Some((r.0@, r.1 is Ok)),
    {
        let (v, done) = self.scan_fdes(mem, base).unwrap();
        if done {
            (v, Ok(()))
        } else {
            (v, Err(()))
        }
    }
}

/// Reads the augmentation of a CIE whose string (after its `'z'`) starts at `s`.
fn read_cie_encoding(mem: &[u8], base: u32, s: u32) -> (r: Option<u8>)
    requires
        base + mem@.len() <= u32::MAX,
    ensures
        r == cie_encoding(mem@, base as int, s as int),
{
    // Establish a pointer that skips ahead of the string
    let mut aug_data_reader = DwarfReader::new(mem, base, s);
    let aug_str_len = match read_cstr_len(&mut aug_data_reader) {
        Some(n) => n,
        None => return None,
    };
    if aug_str_len == 0 {
        return None;
    }
    // Skip code/data alignment factors & return address register along the way as well
    if !read_cie_factors(&mut aug_data_reader) {
        return None;
    }
    // We only tackle the case where 'z' and 'R' are part of the augmentation string, otherwise
    // we cannot get the addresses to make .eh_frame_hdr
    let cie_reader = DwarfReader::new(mem, base, s);
    match read_augmentation(cie_reader, aug_data_reader, aug_str_len) {
        Some(enc) => if enc == DW_EH_PE_omit {
            None
        } else {
            Some(enc)
        },
        None => None,
    }
}

/// Counts the bytes before the next NUL and moves the cursor past that NUL.
fn read_cstr_len(reader: &mut DwarfReader) -> (r: Option<u32>)
    requires
        old(reader).wf(),
    ensures
        final(reader).same_image(old(reader)),
        match nul_index(old(reader).tail(), 0) {
            Some(n) => r == Some(n as u32) && final(reader).ptr == old(reader).ptr + n + 1,
            None => r is None,
        },
{
    let ghost t = reader.tail();
    let ghost s = reader.ptr as int;
    let mut n: u32 = 0;
    loop
        invariant_except_break
            reader.wf(),
            reader.same_image(old(reader)),
            t == old(reader).tail(),
            s == old(reader).ptr,
            reader.ptr == s + n,
            n <= t.len(),
            reader.tail() == t.subrange(n as int, t.len() as int),
            nul_index(t, 0) == nul_index(t, n as nat),
        ensures
            reader.same_image(old(reader)),
            reader.ptr == s + n + 1,
            nul_index(t, 0) == Some(n as nat),
        decreases t.len() - n,
    {
        match reader.read_u8() {
            None => {
                assert(n == t.len());
                return None;
            },
            Some(c) => {
                assert(c == t[n as int]);
                if c == 0 {
                    break;
                }
                n = n + 1;
                assert(reader.tail() =~= t.subrange(n as int, t.len() as int));
            },
        }
    }
    Some(n)
}

/// Reads the four LEB128 numbers that `cie_factors` describes.
fn read_cie_factors(reader: &mut DwarfReader) -> (ok: bool)
    requires
        old(reader).wf(),
    ensures
        final(reader).same_image(old(reader)),
        match cie_factors(old(reader).mem@, old(reader).base as int, old(reader).ptr as int) {
            Some(d) => ok && final(reader).ptr == d,
            None => !ok,
        },
{
    if reader.read_uleb128().is_none() {
        return false;
    }
    if reader.read_sleb128().is_none() {
        return false;
    }
    if reader.read_uleb128().is_none() {
        return false;
    }
    match reader.read_uleb128() {
        Some(len) => len == 7,
        None => false,
    }
}

/// Walks the augmentation characters at `cie_reader` and their data at
/// `aug_data_reader`, as `cie_augmentation` describes.
fn read_augmentation(cie: DwarfReader, aug: DwarfReader, aug_str_len: u32) -> (r: Option<u8>)
    requires
        cie.wf(),
        aug.same_image(&cie),
    ensures
        r == cie_augmentation(
            cie.mem@,
            cie.base as int,
            cie.ptr as int,
            aug.ptr as int,
            aug_str_len as nat,
            DW_EH_PE_omit,
        ),
{
    let ghost m = cie.mem@;
    let ghost base = cie.base as int;
    let ghost goal = cie_augmentation(
        m,
        base,
        cie.ptr as int,
        aug.ptr as int,
        aug_str_len as nat,
        DW_EH_PE_omit,
    );
    let mut cie_reader = cie;
    let mut aug_data_reader = aug;
    let mut fde_pointer_encoding = DW_EH_PE_omit;
    let mut i: u32 = 0;
    while i < aug_str_len
        invariant
            i <= aug_str_len,
            m == cie.mem@,
            base == cie.base,
            goal == cie_augmentation(m, base, cie.ptr as int, aug.ptr as int, aug_str_len as nat, DW_EH_PE_omit),
            cie_reader.wf(),
            cie_reader.mem@ == m,
            cie_reader.base == base,
            aug_data_reader.same_image(&cie_reader),
            goal == cie_augmentation(
                m,
                base,
                cie_reader.ptr as int,
                aug_data_reader.ptr as int,
                (aug_str_len - i) as nat,
                fde_pointer_encoding,
            ),
        decreases aug_str_len - i,
    {
        let ghost cp = cie_reader.ptr as int;
        let ghost dp = aug_data_reader.ptr as int;
        let ghost left = (aug_str_len - i) as nat;
        assert(left > 0);
        let c = match cie_reader.read_u8() {
            Some(c) => c,
            None => {
                assert(image_bytes(m, base, cp, 1) is None);
                assert(cie_augmentation(m, base, cp, dp, left, fde_pointer_encoding) is None);
                return None;
            },
        };
        let x = match aug_data_reader.read_u8() {
            Some(x) => x,
            None => {
                assert(field(m, base, dp, 1) is None);
                assert(cie_augmentation(m, base, cp, dp, left, fde_pointer_encoding) is None);
                return None;
            },
        };
        assert(image_bytes(m, base, cp, 1) == Some(seq![c]));
        assert(field(m, base, dp, 1) == Some((seq![x], dp + 1)));
        if c == 76 {
            // 'L'
        } else if c == 80 {
            // 'P'
            if x == DW_EH_PE_aligned && aug_data_reader.ptr > u32::MAX - WORD_SIZE {
                return None;
            }
            let _ = read_encoded_pointer(&mut aug_data_reader, x);
        } else if c == 82 {
            // 'R'
            fde_pointer_encoding = x;
        } else {
            // Other characters are not supported
            return None;
        }
        i = i + 1;
    }
    Some(fde_pointer_encoding)
}

/// Appends little-endian values to a byte buffer.
pub struct DwarfWriter {
    pub buf: Vec<u8>,
}

impl DwarfWriter {
    pub fn new() -> (w: DwarfWriter)
        ensures
            w.buf@ == Seq::<u8>::empty(),
    {
        DwarfWriter { buf: Vec::new() }
    }

    pub fn write_u8(&mut self, data: u8)
        ensures
            final(self).buf@ == old(self).buf@.push(data),
    {
        self.buf.push(data);
    }

    pub fn write_u32(&mut self, data: u32)
        ensures
            final(self).buf@ == old(self).buf@ + le_bytes_u32(data),
    {
        self.buf.push((data % 256) as u8);
        self.buf.push(((data / 256) % 256) as u8);
        self.buf.push(((data / 65536) % 256) as u8);
        self.buf.push((data / 16777216) as u8);
        assert(self.buf@ =~= old(self).buf@ + le_bytes_u32(data));
    }
}

/// An `.eh_frame_hdr` section being written: its header, then one table
/// entry per FDE added.
pub struct EH_Frame_Hdr {
    fde_writer: DwarfWriter,
    fde_count_ptr: usize,
    eh_frame_ptr: Ghost<u32>,
    entries: Ghost<Seq<(u32, u32)>>,
}

impl EH_Frame_Hdr {
    /// The buffer holds the header for the entries added, and the count fits
    /// its 32-bit field.
    pub closed spec fn wf(&self) -> bool {
        &&& self.fde_writer.buf@ == hdr_bytes(self.eh_frame_ptr@, self.entries@)
        &&& self.fde_count_ptr == 8
        &&& self.entries@.len() <= u32::MAX
    }

    /// The address of the `.eh_frame` section it describes.
    pub closed spec fn eh_frame_addr(&self) -> u32 {
        self.eh_frame_ptr@
    }

    /// The (initial location, FDE address) pairs added so far.
    pub closed spec fn table(&self) -> Seq<(u32, u32)> {
        self.entries@
    }

    /// The bytes written so far.
    pub closed spec fn data(&self) -> Seq<u8> {
        self.fde_writer.buf@
    }

    /// Writes the fixed fields of an `.eh_frame_hdr` for the `.eh_frame` at
    /// `eh_frame_ptr`, with absolute 4-byte encodings (0x03) and no entries.
    pub fn new(eh_frame_ptr: u32) -> (r: EH_Frame_Hdr)
        ensures
            r.wf(),
            r.eh_frame_addr() == eh_frame_ptr,
            r.table() == Seq::<(u32, u32)>::empty(),
            r.data() == hdr_bytes(eh_frame_ptr, Seq::empty()),
    {
        let mut writer = DwarfWriter::new();
        writer.write_u8(1);
        writer.write_u8(0x03);
        writer.write_u8(0x03);
        writer.write_u8(0x03);
        writer.write_u32(eh_frame_ptr);
        let fde_count_ptr = writer.buf.len();
        writer.write_u32(0);
        assert(writer.buf@ =~= hdr_bytes(eh_frame_ptr, Seq::empty()));
        EH_Frame_Hdr {
            fde_writer: writer,
            fde_count_ptr,
            eh_frame_ptr: Ghost(eh_frame_ptr),
            entries: Ghost(Seq::empty()),
        }
    }

    /// Appends the table entry (`init_loc`, `addr`) and counts it.
    pub fn add_fde(&mut self, init_loc: u32, addr: u32)
        requires
            old(self).wf(),
            old(self).table().len() < u32::MAX,
        ensures
            final(self).wf(),
            final(self).eh_frame_addr() == old(self).eh_frame_addr(),
            final(self).table() == old(self).table().push((init_loc, addr)),
            final(self).data() == hdr_bytes(final(self).eh_frame_addr(), final(self).table()),
    {
        let ghost old_es = self.entries@;
        let ghost p = self.eh_frame_ptr@;
        let mut fde_writer = DwarfWriter { buf: Vec::new() };
        std::mem::swap(&mut fde_writer, &mut self.fde_writer);
        fde_writer.write_u32(init_loc);
        fde_writer.write_u32(addr);
        let ghost new_es = old_es.push((init_loc, addr));
        assert(new_es.drop_last() =~= old_es);
        proof {
            lemma_hdr_bytes_len(p, old_es);
        }
        let count = crate::bytes::get_u32(fde_writer.buf.as_slice(), self.fde_count_ptr);
        proof {
            assert(fde_writer.buf@.subrange(8, 12) =~= le_bytes_u32(old_es.len() as u32));
            lemma_le_u32_roundtrip(old_es.len() as u32);
        }
        put_u32(&mut fde_writer.buf, self.fde_count_ptr, count + 1);
        assert(fde_writer.buf@ =~= hdr_bytes(p, new_es));
        self.fde_writer = fde_writer;
        self.entries = Ghost(new_es);
    }

    /// Length in bytes of the section written so far: 12 bytes of header and
    /// 8 per entry.
    pub fn size(&self) -> (r: u32)
        requires
            self.wf(),
            12 + 8 * self.table().len() <= u32::MAX,
        ensures
            r == 12 + 8 * self.table().len(),
            r == self.data().len(),
    {
        proof {
            lemma_hdr_bytes_len(self.eh_frame_ptr@, self.entries@);
            assert(self.fde_writer.buf@.subrange(8, 12) =~= le_bytes_u32(self.entries@.len() as u32));
            lemma_le_u32_roundtrip(self.entries@.len() as u32);
        }
        let count = crate::bytes::get_u32(self.fde_writer.buf.as_slice(), self.fde_count_ptr);
        12 + count * 8
    }

    /// The bytes written so far.
    pub fn as_bytes(&self) -> (r: &Vec<u8>)
        requires
            self.wf(),
        ensures
            r@ == self.data(),
            r@ == hdr_bytes(self.eh_frame_addr(), self.table()),
    {
        &self.fde_writer.buf
    }

}

} // verus!
