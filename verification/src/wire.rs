//! Wire-format primitives: base-128 varints, zig-zag signed mapping and
//! little-endian fixed-width integers.

use vstd::prelude::*;
use vstd::arithmetic::div_mod::lemma_fundamental_div_mod;
use crate::err::Error;

verus! {

/// Longest encoding of a 64-bit unsigned varint.
pub const VARINT_MAX_BYTES: usize = 10;

/// The four wire shapes a tag can announce.
#[derive(Clone, Copy, PartialEq, Eq, Debug, Structural)]
pub enum WireType {
    Varint,
    Fixed64,
    LenDelim,
    Fixed32,
}

impl WireType {
    /// Numeric code carried in the low bits of a tag key.
    pub open spec fn num(self) -> u64 {
        match self {
            WireType::Varint => 0,
            WireType::Fixed64 => 1,
            WireType::LenDelim => 2,
            WireType::Fixed32 => 5,
        }
    }

    pub fn as_num(&self) -> (n: u64)
        ensures
            n == self.num(),
    {
        match self {
            WireType::Varint => 0,
            WireType::Fixed64 => 1,
            WireType::LenDelim => 2,
            WireType::Fixed32 => 5,
        }
    }
}

/// 128 raised to `n`; the weight of the `n`-th varint group.
pub open spec fn p128(n: nat) -> nat
    decreases n,
{
    if n == 0 {
        1
    } else {
        128 * p128((n - 1) as nat)
    }
}

pub proof fn lemma_p128_pos(n: nat)
    ensures
        p128(n) >= 1,
    decreases n,
{
    if n > 0 {
        lemma_p128_pos((n - 1) as nat);
    }
}

pub proof fn lemma_p128_mono(a: nat, b: nat)
    requires
        a <= b,
    ensures
        p128(a) <= p128(b),
    decreases b,
{
    if a < b {
        lemma_p128_mono(a, (b - 1) as nat);
        lemma_p128_pos((b - 1) as nat);
    }
}

pub proof fn lemma_p128_values()
    ensures
        p128(8) == 0x100000000000000,
        p128(9) == 0x8000000000000000,
        p128(10) == 0x400000000000000000,
{
    assert(p128(0) == 1);
    assert(p128(1) == 128);
    assert(p128(2) == 0x4000);
    assert(p128(3) == 0x200000);
    assert(p128(4) == 0x10000000);
    assert(p128(5) == 0x800000000);
    assert(p128(6) == 0x40000000000);
    assert(p128(7) == 0x2000000000000);
    assert(p128(8) == 0x100000000000000);
    assert(p128(9) == 0x8000000000000000);
    assert(p128(10) == 0x400000000000000000);
}

/// 256 raised to `n`; the weight of the `n`-th byte of a little-endian
/// fixed-width integer.
pub open spec fn p256(n: nat) -> nat
    decreases n,
{
    if n == 0 {
        1
    } else {
        256 * p256((n - 1) as nat)
    }
}

pub proof fn lemma_p256_values()
    ensures
        p256(1) == 0x100,
        p256(2) == 0x10000,
        p256(3) == 0x1000000,
        p256(4) == 0x100000000,
        p256(7) == 0x100000000000000,
        p256(8) == 0x10000000000000000,
{
    assert(p256(0) == 1);
    assert(p256(1) == 0x100);
    assert(p256(2) == 0x10000);
    assert(p256(3) == 0x1000000);
    assert(p256(4) == 0x100000000);
    assert(p256(5) == 0x10000000000);
    assert(p256(6) == 0x1000000000000);
    assert(p256(7) == 0x100000000000000);
    assert(p256(8) == 0x10000000000000000);
}

pub proof fn lemma_p256_mono(a: nat, b: nat)
    requires
        a <= b,
    ensures
        p256(a) <= p256(b),
    decreases b,
{
    if a < b {
        lemma_p256_mono(a, (b - 1) as nat);
        lemma_p256_pos((b - 1) as nat);
    }
}

pub proof fn lemma_p256_pos(n: nat)
    ensures
        p256(n) >= 1,
    decreases n,
{
    if n > 0 {
        lemma_p256_pos((n - 1) as nat);
    }
}

/// Minimal base-128 little-endian encoding of `n`, continuation bit set on
/// every group but the last.
pub open spec fn vbytes(n: nat) -> Seq<u8>
    decreases n,
{
    if n < 128 {
        seq![n as u8]
    } else {
        seq![(128 + (n % 128)) as u8] + vbytes(n / 128)
    }
}

pub proof fn lemma_vbytes_len(n: nat, k: nat)
    requires
        n < p128(k),
        1 <= k,
    ensures
        1 <= vbytes(n).len() <= k,
    decreases k,
{
    if n >= 128 {
        lemma_vbytes_len(n / 128, (k - 1) as nat);
    }
}

/// Outcome of reading one varint from the head of a byte sequence.
pub enum VarParse {
    /// Value and number of bytes consumed.
    Val(nat, nat),
    /// The buffer ended before a terminating group.
    Trunc,
    /// Too many continuation groups, or the value overflows 64 bits.
    Malformed,
}

/// Reads a varint from the head of `s`, allowing at most `rem` more bytes.
/// Started with a budget of ten, the final permitted group may only carry
/// the top bit of a 64-bit value.
pub open spec fn varint_parse(s: Seq<u8>, rem: nat) -> VarParse
    decreases rem,
{
    if s.len() == 0 {
        VarParse::Trunc
    } else if rem <= 1 {
        if s[0] >= 128 {
            VarParse::Malformed
        } else if s[0] > 1 {
            VarParse::Malformed
        } else {
            VarParse::Val(s[0] as nat, 1)
        }
    } else if s[0] < 128 {
        VarParse::Val(s[0] as nat, 1)
    } else {
        match varint_parse(s.skip(1), (rem - 1) as nat) {
            VarParse::Val(v, c) => VarParse::Val((s[0] - 128) as nat + 128 * v, (c + 1) as nat),
            VarParse::Trunc => VarParse::Trunc,
            VarParse::Malformed => VarParse::Malformed,
        }
    }
}

pub proof fn lemma_varint_parse_bound(s: Seq<u8>, rem: nat)
    requires
        1 <= rem,
    ensures
        varint_parse(s, rem) matches VarParse::Val(v, c) ==> v < 2 * p128((rem - 1) as nat)
            && 1 <= c <= rem && c <= s.len(),
    decreases rem,
{
    if s.len() == 0 {
    } else if rem <= 1 {
    } else if s[0] < 128 {
        lemma_p128_pos((rem - 1) as nat);
        lemma_p128_mono(1, (rem - 1) as nat);
    } else {
        lemma_varint_parse_bound(s.skip(1), (rem - 1) as nat);
    }
}

/// Parsing the encoding of `n` (followed by anything) yields `n` and
/// consumes exactly the encoding.
pub proof fn lemma_varint_roundtrip(n: nat, rest: Seq<u8>, rem: nat)
    requires
        1 <= rem,
        vbytes(n).len() <= rem,
        n < 2 * p128((rem - 1) as nat),
    ensures
        varint_parse(vbytes(n) + rest, rem) == VarParse::Val(n, vbytes(n).len() as nat),
    decreases n,
{
    let s = vbytes(n) + rest;
    if n < 128 {
        assert(s[0] == n as u8);
    } else {
        assert(rem >= 2);
        lemma_fundamental_div_mod(n as int, 128);
        assert(n / 128 < 2 * p128((rem - 2) as nat));
        lemma_varint_roundtrip(n / 128, rest, (rem - 1) as nat);
        assert(s.skip(1) =~= vbytes(n / 128) + rest);
        assert(s[0] == (128 + (n % 128)) as u8);
        assert((s[0] - 128) as nat + 128 * (n / 128) == n);
    }
}

/// Reads a varint with at most `rem` bytes left in the budget, never
/// looking past `end`.
fn read_varint_rec(buf: &[u8], pos: usize, end: usize, rem: usize) -> (r: Result<
    (u64, usize),
    Error,
>)
    requires
        pos <= end <= buf@.len(),
        1 <= rem <= 10,
    ensures
        match r {
            Ok((v, newpos)) => varint_parse(buf@.subrange(pos as int, end as int), rem as nat)
                == VarParse::Val(v as nat, (newpos - pos) as nat) && pos < newpos <= end,
            Err(e) => (e == Error::TruncatedInput && varint_parse(
                buf@.subrange(pos as int, end as int),
                rem as nat,
            ) is Trunc) || (e == Error::MalformedVarint && varint_parse(
                buf@.subrange(pos as int, end as int),
                rem as nat,
            ) is Malformed),
        },
    decreases rem,
{
    let ghost s = buf@.subrange(pos as int, end as int);
    if pos == end {
        assert(s.len() == 0);
        return Err(Error::TruncatedInput);
    }
    let b = buf[pos];
    assert(b == s[0]);
    if rem <= 1 {
        if b >= 128 || b > 1 {
            Err(Error::MalformedVarint)
        } else {
            Ok((b as u64, pos + 1))
        }
    } else if b < 128 {
        Ok((b as u64, pos + 1))
    } else {
        proof {
            assert(s.skip(1) =~= buf@.subrange(pos + 1, end as int));
        }
        match read_varint_rec(buf, pos + 1, end, rem - 1) {
            Ok((v, newpos)) => {
                proof {
                    lemma_varint_parse_bound(buf@.subrange(pos + 1, end as int), (rem - 1) as nat);
                    lemma_p128_mono((rem - 2) as nat, 8);
                    lemma_p128_values();
                }
                Ok((((b - 128) as u64) + 128 * v, newpos))
            },
            Err(e) => Err(e),
        }
    }
}

/// Reads one unsigned 64-bit varint starting at `pos`, never looking past
/// `end`.
pub fn read_varint_at(buf: &[u8], pos: usize, end: usize) -> (r: Result<(u64, usize), Error>)
    requires
        pos <= end <= buf@.len(),
    ensures
        match r {
            Ok((v, newpos)) => varint_parse(buf@.subrange(pos as int, end as int), 10)
                == VarParse::Val(v as nat, (newpos - pos) as nat) && pos < newpos <= end,
            Err(e) => (e == Error::TruncatedInput && varint_parse(
                buf@.subrange(pos as int, end as int),
                10,
            ) is Trunc) || (e == Error::MalformedVarint && varint_parse(
                buf@.subrange(pos as int, end as int),
                10,
            ) is Malformed),
        },
{
    read_varint_rec(buf, pos, end, 10)
}

/// Reads one unsigned 64-bit varint starting at `pos`.
pub fn read_varint(buf: &[u8], pos: usize) -> (r: Result<(u64, usize), Error>)
    requires
        pos <= buf@.len(),
    ensures
        match r {
            Ok((v, newpos)) => varint_parse(buf@.skip(pos as int), 10) == VarParse::Val(
                v as nat,
                (newpos - pos) as nat,
            ) && pos < newpos <= buf@.len(),
            Err(e) => (e == Error::TruncatedInput && varint_parse(buf@.skip(pos as int), 10)
                is Trunc) || (e == Error::MalformedVarint && varint_parse(
                buf@.skip(pos as int),
                10,
            ) is Malformed),
        },
{
    proof {
        assert(buf@.skip(pos as int) =~= buf@.subrange(pos as int, buf@.len() as int));
    }
    read_varint_rec(buf, pos, buf.len(), 10)
}

/// Number of bytes the varint encoding of `n` takes.
pub fn varint_len(n: u64) -> (l: usize)
    ensures
        l == vbytes(n as nat).len(),
        1 <= l <= 10,
    decreases n,
{
    proof {
        lemma_p128_values();
        lemma_vbytes_len(n as nat, 10);
    }
    if n < 128 {
        1
    } else {
        1 + varint_len(n / 128)
    }
}

/// Replaces the bytes of `orig` from `pos` on by `bytes`, leaving the rest.
pub open spec fn spliced(orig: Seq<u8>, pos: int, bytes: Seq<u8>) -> Seq<u8> {
    orig.subrange(0, pos) + bytes + orig.subrange(pos + bytes.len(), orig.len() as int)
}

/// Writes the varint encoding of `n` at `pos` in `buf`.
pub fn write_varint(buf: &mut Vec<u8>, pos: usize, n: u64) -> (end: usize)
    requires
        pos + vbytes(n as nat).len() <= old(buf)@.len(),
    ensures
        end == pos + vbytes(n as nat).len(),
        final(buf)@ == spliced(old(buf)@, pos as int, vbytes(n as nat)),
    decreases n,
{
    let total = buf.len();
    proof {
        lemma_p128_values();
        lemma_vbytes_len(n as nat, 10);
    }
    if n < 128 {
        buf[pos] = n as u8;
        assert(buf@ =~= spliced(old(buf)@, pos as int, vbytes(n as nat)));
        pos + 1
    } else {
        buf[pos] = (128 + (n % 128)) as u8;
        let ghost mid = buf@;
        let end = write_varint(buf, pos + 1, n / 128);
        assert(buf@ =~= spliced(old(buf)@, pos as int, vbytes(n as nat)));
        end
    }
}

/// Two writes at adjoining positions amount to one write of the
/// concatenation.
pub proof fn lemma_spliced_chain(orig: Seq<u8>, pos: int, s1: Seq<u8>, s2: Seq<u8>)
    requires
        0 <= pos,
        pos + s1.len() + s2.len() <= orig.len(),
    ensures
        spliced(spliced(orig, pos, s1), pos + s1.len(), s2) == spliced(orig, pos, s1 + s2),
{
    assert(spliced(spliced(orig, pos, s1), pos + s1.len(), s2) =~= spliced(orig, pos, s1 + s2));
}

/// A write of nothing leaves the buffer as it stands.
pub proof fn lemma_spliced_empty(orig: Seq<u8>, pos: int)
    requires
        0 <= pos <= orig.len(),
    ensures
        spliced(orig, pos, Seq::empty()) == orig,
{
    assert(spliced(orig, pos, Seq::empty()) =~= orig);
}

/// Copies `src` into `buf` starting at `pos`.
pub fn write_bytes(buf: &mut Vec<u8>, pos: usize, src: &Vec<u8>) -> (end: usize)
    requires
        pos + src@.len() <= old(buf)@.len(),
    ensures
        end == pos + src@.len(),
        final(buf)@ == spliced(old(buf)@, pos as int, src@),
{
    let total = buf.len();
    let mut i: usize = 0;
    while i < src.len()
        invariant
            pos + src@.len() <= old(buf)@.len(),
            old(buf)@.len() <= usize::MAX,
            i <= src@.len(),
            buf@.len() == old(buf)@.len(),
            buf@ =~= spliced(old(buf)@, pos as int, src@.take(i as int)),
        decreases src@.len() - i,
    {
        buf[pos + i] = src[i];
        proof {
            assert(buf@ =~= spliced(old(buf)@, pos as int, src@.take(i + 1)));
        }
        i += 1;
    }
    proof {
        assert(src@.take(src@.len() as int) =~= src@);
    }
    pos + src.len()
}

/// Little-endian bytes of `v`, `width` of them; groups beyond the value are
/// zero.
pub open spec fn le_bytes(v: nat, width: nat) -> Seq<u8>
    decreases width,
{
    if width == 0 {
        Seq::empty()
    } else {
        seq![(v % 256) as u8] + le_bytes(v / 256, (width - 1) as nat)
    }
}

pub proof fn lemma_le_bytes_len(v: nat, w: nat)
    ensures
        le_bytes(v, w).len() == w,
    decreases w,
{
    if w > 0 {
        lemma_le_bytes_len(v / 256, (w - 1) as nat);
    }
}

/// Writes `v` as `width` little-endian bytes; `v` must fit.
fn write_le_rec(buf: &mut Vec<u8>, pos: usize, v: u64, width: usize) -> (end: usize)
    requires
        pos + width <= old(buf)@.len(),
    ensures
        end == pos + width,
        final(buf)@ == spliced(old(buf)@, pos as int, le_bytes(v as nat, width as nat)),
    decreases width,
{
    let total = buf.len();
    if width == 0 {
        assert(buf@ =~= spliced(old(buf)@, pos as int, le_bytes(v as nat, 0)));
        pos
    } else {
        buf[pos] = (v % 256) as u8;
        let ghost mid = buf@;
        let end = write_le_rec(buf, pos + 1, v / 256, width - 1);
        proof {
            let bs = le_bytes(v as nat, width as nat);
            assert(bs == seq![((v as nat) % 256) as u8] + le_bytes(
                (v as nat) / 256,
                (width - 1) as nat,
            ));
            lemma_le_bytes_len(v as nat, width as nat);
            lemma_le_bytes_len((v as nat) / 256, (width - 1) as nat);
            assert(mid == old(buf)@.update(pos as int, (v % 256) as u8));
            assert(buf@ =~= spliced(old(buf)@, pos as int, bs));
        }
        end
    }
}

/// Reads `width` little-endian bytes starting at `pos`.
fn read_le_rec(buf: &[u8], pos: usize, width: usize) -> (v: u64)
    requires
        pos + width <= buf@.len(),
        width <= 8,
    ensures
        le_bytes(v as nat, width as nat) == buf@.subrange(pos as int, pos + width),
        v < p256(width as nat),
    decreases width,
{
    proof {
        lemma_p256_values();
        lemma_p256_pos(width as nat);
    }
    if width == 0 {
        assert(le_bytes(0, 0) =~= buf@.subrange(pos as int, pos as int));
        0
    } else {
        let b = buf[pos];
        let rest = read_le_rec(buf, pos + 1, width - 1);
        proof {
            lemma_p256_mono((width - 1) as nat, 7);
        }
        let v = b as u64 + 256 * rest;
        proof {
            lemma_fundamental_div_mod(v as int, 256);
            assert(v as nat % 256 == b as nat) by (nonlinear_arith)
                requires
                    v == b as u64 + 256 * rest,
                    b < 256,
            ;
            assert(v as nat / 256 == rest as nat) by (nonlinear_arith)
                requires
                    v == b as u64 + 256 * rest,
                    b < 256,
            ;
            assert(le_bytes(v as nat, width as nat) =~= buf@.subrange(pos as int, pos + width));
        }
        v
    }
}

/// Writes `v` as four little-endian bytes at `pos`.
pub fn write_fixed32(buf: &mut Vec<u8>, pos: usize, v: u32) -> (end: usize)
    requires
        pos + 4 <= old(buf)@.len(),
    ensures
        end == pos + 4,
        final(buf)@ == spliced(old(buf)@, pos as int, le_bytes(v as nat, 4)),
{
    write_le_rec(buf, pos, v as u64, 4)
}

/// Writes `v` as eight little-endian bytes at `pos`.
pub fn write_fixed64(buf: &mut Vec<u8>, pos: usize, v: u64) -> (end: usize)
    requires
        pos + 8 <= old(buf)@.len(),
    ensures
        end == pos + 8,
        final(buf)@ == spliced(old(buf)@, pos as int, le_bytes(v as nat, 8)),
{
    write_le_rec(buf, pos, v, 8)
}

/// Reads four little-endian bytes at `pos`.
pub fn read_fixed32(buf: &[u8], pos: usize) -> (v: u32)
    requires
        pos + 4 <= buf@.len(),
    ensures
        le_bytes(v as nat, 4) == buf@.subrange(pos as int, pos + 4),
{
    let v = read_le_rec(buf, pos, 4);
    proof {
        lemma_p256_values();
    }
    v as u32
}

/// Reads eight little-endian bytes at `pos`.
pub fn read_fixed64(buf: &[u8], pos: usize) -> (v: u64)
    requires
        pos + 8 <= buf@.len(),
    ensures
        le_bytes(v as nat, 8) == buf@.subrange(pos as int, pos + 8),
{
    read_le_rec(buf, pos, 8)
}

/// Reads two little-endian bytes at `pos`.
pub fn read_u16_le(buf: &[u8], pos: usize) -> (v: u16)
    requires
        pos + 2 <= buf@.len(),
    ensures
        le_bytes(v as nat, 2) == buf@.subrange(pos as int, pos + 2),
{
    let v = read_le_rec(buf, pos, 2);
    proof {
        lemma_p256_values();
    }
    v as u16
}

/// Writes `v` as two little-endian bytes at `pos`.
pub fn write_u16_le(buf: &mut Vec<u8>, pos: usize, v: u16) -> (end: usize)
    requires
        pos + 2 <= old(buf)@.len(),
    ensures
        end == pos + 2,
        final(buf)@ == spliced(old(buf)@, pos as int, le_bytes(v as nat, 2)),
{
    write_le_rec(buf, pos, v as u64, 2)
}

/// Zig-zag image of a signed value: non-negatives go to evens, negatives to
/// odds.
pub open spec fn zigzag_enc(n: int) -> nat {
    if n >= 0 {
        (2 * n) as nat
    } else {
        (-2 * n - 1) as nat
    }
}

/// Inverse of the zig-zag mapping.
pub open spec fn zigzag_dec(u: nat) -> int {
    if u % 2 == 0 {
        (u / 2) as int
    } else {
        -((u + 1) / 2)
    }
}

pub proof fn lemma_zigzag_roundtrip(n: int)
    ensures
        zigzag_dec(zigzag_enc(n)) == n,
{
}

pub proof fn lemma_zigzag_inverse(u: nat)
    ensures
        zigzag_enc(zigzag_dec(u)) == u,
{
}

/// Maps a signed value onto the unsigned varint domain.
pub fn zigzag_encode(n: i64) -> (u: u64)
    ensures
        u as nat == zigzag_enc(n as int),
{
    if n >= 0 {
        (n as u64) * 2
    } else {
        let m: u64 = (-(n + 1)) as u64;
        m * 2 + 1
    }
}

/// Recovers a signed value from its zig-zag image.
pub fn zigzag_decode(u: u64) -> (n: i64)
    ensures
        n as int == zigzag_dec(u as nat),
{
    if u % 2 == 0 {
        (u / 2) as i64
    } else {
        let h = (u - 1) / 2;
        -(h as i64) - 1
    }
}

} // verus!
