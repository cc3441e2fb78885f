//! Fixed-width integer decoding and encoding over byte sequences.
//!
//! Every reader states its result as the arithmetic value of the bytes it
//! looks at, so a caller's contract can speak of "the little-endian `u32` at
//! offset `i`" without any bit-level reasoning.

use vstd::prelude::*;

verus! {

/// Value of the two bytes at `i` read little-endian.
pub open spec fn le16(s: Seq<u8>, i: int) -> nat {
    (s[i] + 256 * s[i + 1]) as nat
}

/// Value of the two bytes at `i` read big-endian.
pub open spec fn be16(s: Seq<u8>, i: int) -> nat {
    (256 * s[i] + s[i + 1]) as nat
}

/// Value of the four bytes at `i` read little-endian.
pub open spec fn le32(s: Seq<u8>, i: int) -> nat {
    (s[i] + 256 * s[i + 1] + 65536 * s[i + 2] + 16777216 * s[i + 3]) as nat
}

/// Value of the four bytes at `i` read big-endian.
pub open spec fn be32(s: Seq<u8>, i: int) -> nat {
    (16777216 * s[i] + 65536 * s[i + 1] + 256 * s[i + 2] + s[i + 3]) as nat
}

/// Value of the eight bytes at `i` read little-endian.
pub open spec fn le64(s: Seq<u8>, i: int) -> nat {
    (le32(s, i) + 4294967296 * le32(s, i + 4)) as nat
}

/// Value of the eight bytes at `i` read big-endian.
pub open spec fn be64(s: Seq<u8>, i: int) -> nat {
    (4294967296 * be32(s, i) + be32(s, i + 4)) as nat
}

/// Two's-complement reading of an 8-bit pattern.
pub open spec fn signed8(n: nat) -> int {
    if n < 128 { n as int } else { n - 256 }
}

/// Two's-complement reading of a 16-bit pattern.
pub open spec fn signed16(n: nat) -> int {
    if n < 32768 { n as int } else { n - 65536 }
}

/// Two's-complement reading of a 32-bit pattern.
pub open spec fn signed32(n: nat) -> int {
    if n < 2147483648 { n as int } else { n - 4294967296 }
}

/// Two's-complement reading of a 64-bit pattern.
pub open spec fn signed64(n: nat) -> int {
    if n < 0x8000_0000_0000_0000 { n as int } else { n - 0x1_0000_0000_0000_0000 }
}

/// Little-endian bytes of a 32-bit value.
pub open spec fn le32_bytes(v: nat) -> Seq<u8> {
    seq![(v % 256) as u8, ((v / 256) % 256) as u8, ((v / 65536) % 256) as u8, ((v / 16777216) % 256) as u8]
}

/// Big-endian bytes of a 32-bit value.
pub open spec fn be32_bytes(v: nat) -> Seq<u8> {
    seq![((v / 16777216) % 256) as u8, ((v / 65536) % 256) as u8, ((v / 256) % 256) as u8, (v % 256) as u8]
}

/// Little-endian bytes of a 16-bit value.
pub open spec fn le16_bytes(v: nat) -> Seq<u8> {
    seq![(v % 256) as u8, ((v / 256) % 256) as u8]
}

/// Unsigned 32-bit pattern of a signed value (two's complement).
pub open spec fn unsigned32(v: int) -> nat {
    if v >= 0 { v as nat } else { (v + 4294967296) as nat }
}

pub fn read_u16_le(d: &[u8], off: usize) -> (r: u16)
    requires
        off + 2 <= d@.len(),
    ensures
        r == le16(d@, off as int),
{
    (d[off] as u16) + (d[off + 1] as u16) * 256
}

pub fn read_u16_be(d: &[u8], off: usize) -> (r: u16)
    requires
        off + 2 <= d@.len(),
    ensures
        r == be16(d@, off as int),
{
    (d[off] as u16) * 256 + (d[off + 1] as u16)
}

pub fn read_u32_le(d: &[u8], off: usize) -> (r: u32)
    requires
        off + 4 <= d@.len(),
    ensures
        r == le32(d@, off as int),
{
    (d[off] as u32) + (d[off + 1] as u32) * 256 + (d[off + 2] as u32) * 65536 + (d[off + 3]
        as u32) * 16777216
}

pub fn read_u32_be(d: &[u8], off: usize) -> (r: u32)
    requires
        off + 4 <= d@.len(),
    ensures
        r == be32(d@, off as int),
{
    (d[off] as u32) * 16777216 + (d[off + 1] as u32) * 65536 + (d[off + 2] as u32) * 256 + (d[off
        + 3] as u32)
}

pub fn read_u64_le(d: &[u8], off: usize) -> (r: u64)
    requires
        off + 8 <= d@.len(),
    ensures
        r == le64(d@, off as int),
{
    let _len = d.len();
    let lo = read_u32_le(d, off) as u64;
    let hi = read_u32_le(d, off + 4) as u64;
    lo + hi * 4294967296
}

pub fn read_u64_be(d: &[u8], off: usize) -> (r: u64)
    requires
        off + 8 <= d@.len(),
    ensures
        r == be64(d@, off as int),
{
    let _len = d.len();
    let hi = read_u32_be(d, off) as u64;
    let lo = read_u32_be(d, off + 4) as u64;
    hi * 4294967296 + lo
}

pub fn to_i8(b: u8) -> (r: i8)
    ensures
        r == signed8(b as nat),
{
    if b < 128 {
        b as i8
    } else {
        ((b - 128) as i8) - 127 - 1
    }
}

pub fn to_i16(v: u16) -> (r: i16)
    ensures
        r == signed16(v as nat),
{
    if v < 32768 {
        v as i16
    } else {
        ((v - 32768) as i16) - 32767 - 1
    }
}

pub fn to_i32(v: u32) -> (r: i32)
    ensures
        r == signed32(v as nat),
{
    if v < 2147483648 {
        v as i32
    } else {
        ((v - 2147483648) as i32) - 2147483647 - 1
    }
}

pub fn to_i64(v: u64) -> (r: i64)
    ensures
        r == signed64(v as nat),
{
    if v < 0x8000_0000_0000_0000 {
        v as i64
    } else {
        ((v - 0x8000_0000_0000_0000) as i64) - 0x7fff_ffff_ffff_ffff - 1
    }
}

/// Appends the little-endian bytes of `v`.
pub fn push_u32_le(out: &mut Vec<u8>, v: u32)
    ensures
        final(out)@ == old(out)@ + le32_bytes(v as nat),
{
    out.push((v % 256) as u8);
    out.push(((v / 256) % 256) as u8);
    out.push(((v / 65536) % 256) as u8);
    out.push(((v / 16777216) % 256) as u8);
}

/// Appends the big-endian bytes of `v`.
pub fn push_u32_be(out: &mut Vec<u8>, v: u32)
    ensures
        final(out)@ == old(out)@ + be32_bytes(v as nat),
{
    out.push(((v / 16777216) % 256) as u8);
    out.push(((v / 65536) % 256) as u8);
    out.push(((v / 256) % 256) as u8);
    out.push((v % 256) as u8);
}

/// Appends the little-endian bytes of `v`.
pub fn push_u16_le(out: &mut Vec<u8>, v: u16)
    ensures
        final(out)@ == old(out)@ + le16_bytes(v as nat),
{
    out.push((v % 256) as u8);
    out.push(((v / 256) % 256) as u8);
}

/// The 32-bit two's-complement pattern of `v`.
pub fn i32_bits(v: i32) -> (r: u32)
    ensures
        r == unsigned32(v as int),
{
    if v >= 0 {
        v as u32
    } else {
        ((v + 2147483647 + 1) as u32) + 2147483648
    }
}

/// Appends the little-endian two's-complement bytes of `v`.
pub fn push_i32_le(out: &mut Vec<u8>, v: i32)
    ensures
        final(out)@ == old(out)@ + le32_bytes(unsigned32(v as int)),
{
    push_u32_le(out, i32_bits(v));
}

/// Appends the bytes of `b`.
pub fn push_bytes(out: &mut Vec<u8>, b: &[u8])
    ensures
        final(out)@ == old(out)@ + b@,
{
    let mut i: usize = 0;
    while i < b.len()
        invariant
            i <= b@.len(),
            out@ == old(out)@ + b@.take(i as int),
        decreases b@.len() - i,
    {
        out.push(b[i]);
        assert(b@.take(i + 1) =~= b@.take(i as int).push(b@[i as int]));
        assert(out@ =~= old(out)@ + b@.take(i + 1));
        i = i + 1;
    }
    assert(b@.take(i as int) =~= b@);
}

/// Appends `n` copies of `b`.
pub fn push_repeat(out: &mut Vec<u8>, b: u8, n: usize)
    ensures
        final(out)@ == old(out)@ + Seq::new(n as nat, |i: int| b),
{
    let mut i: usize = 0;
    while i < n
        invariant
            i <= n,
            out@ == old(out)@ + Seq::new(i as nat, |k: int| b),
        decreases n - i,
    {
        out.push(b);
        i = i + 1;
        assert(out@ =~= old(out)@ + Seq::new(i as nat, |k: int| b));
    }
}

/// Reading back four bytes written by `le32_bytes` gives the value.
pub proof fn lemma_le32_roundtrip(v: nat, s: Seq<u8>, i: int)
    requires
        v < 4294967296,
        0 <= i,
        i + 4 <= s.len(),
        s.subrange(i, i + 4) == le32_bytes(v),
    ensures
        le32(s, i) == v,
{
    assert(s[i] == s.subrange(i, i + 4)[0]);
    assert(s[i + 1] == s.subrange(i, i + 4)[1]);
    assert(s[i + 2] == s.subrange(i, i + 4)[2]);
    assert(s[i + 3] == s.subrange(i, i + 4)[3]);
}

/// Reading back two bytes written by `le16_bytes` gives the value.
pub proof fn lemma_le16_roundtrip(v: nat, s: Seq<u8>, i: int)
    requires
        v < 65536,
        0 <= i,
        i + 2 <= s.len(),
        s.subrange(i, i + 2) == le16_bytes(v),
    ensures
        le16(s, i) == v,
{
    assert(s[i] == s.subrange(i, i + 2)[0]);
    assert(s[i + 1] == s.subrange(i, i + 2)[1]);
}

/// The two's-complement pattern of a 32-bit signed value reads back as the value.
pub proof fn lemma_signed32_unsigned32(v: int)
    requires
        -2147483648 <= v < 2147483648,
    ensures
        signed32(unsigned32(v)) == v,
        unsigned32(v) < 4294967296,
{
}

/// Two byte sequences hold the same bytes at `i..i + n` when they agree there.
pub open spec fn same_at(a: Seq<u8>, b: Seq<u8>, i: int, n: int) -> bool {
    forall|k: int| 0 <= k < n ==> #[trigger] a[i + k] == b[i + k]
}

/// The concatenation of `f` applied to each element.
pub open spec fn concat_map<T>(s: Seq<T>, f: spec_fn(T) -> Seq<u8>) -> Seq<u8>
    decreases s.len(),
{
    if s.len() == 0 {
        seq![]
    } else {
        f(s[0]) + concat_map(s.drop_first(), f)
    }
}

/// Appending an element appends its bytes.
pub proof fn lemma_concat_map_push<T>(s: Seq<T>, x: T, f: spec_fn(T) -> Seq<u8>)
    ensures
        concat_map(s.push(x), f) == concat_map(s, f) + f(x),
    decreases s.len(),
{
    if s.len() == 0 {
        assert(s.push(x).drop_first() =~= Seq::<T>::empty());
        assert(s.push(x)[0] == x);
        assert(concat_map(Seq::<T>::empty(), f) == Seq::<u8>::empty());
        assert(concat_map(s.push(x), f) =~= f(x) + Seq::<u8>::empty());
        assert(concat_map(s, f) == Seq::<u8>::empty());
        assert(concat_map(s.push(x), f) =~= concat_map(s, f) + f(x));
    } else {
        assert(s.push(x).drop_first() =~= s.drop_first().push(x));
        lemma_concat_map_push(s.drop_first(), x, f);
        assert(concat_map(s.push(x), f) =~= concat_map(s, f) + f(x));
    }
}

/// When every element gives `size` bytes, element `k` sits at `k * size`.
pub proof fn lemma_concat_fixed<T>(s: Seq<T>, f: spec_fn(T) -> Seq<u8>, size: nat)
    requires
        forall|i: int| 0 <= i < s.len() ==> #[trigger] f(s[i]).len() == size,
    ensures
        concat_map(s, f).len() == s.len() * size,
        forall|k: int| 0 <= k < s.len() ==> #[trigger] concat_map(s, f).subrange(k * size, k * size + size) == f(s[k]),
    decreases s.len(),
{
    if s.len() > 0 {
        let rest = s.drop_first();
        assert forall|i: int| 0 <= i < rest.len() implies #[trigger] f(rest[i]).len() == size by {
            assert(rest[i] == s[i + 1]);
        }
        lemma_concat_fixed(rest, f, size);
        let c = concat_map(s, f);
        assert(c == f(s[0]) + concat_map(rest, f));
        assert(s.len() * size == size + rest.len() * size) by (nonlinear_arith)
            requires s.len() == rest.len() + 1;
        assert forall|k: int| 0 <= k < s.len() implies #[trigger] concat_map(s, f).subrange(k * size, k * size + size) == f(s[k]) by {
            if k == 0 {
                assert(c.subrange(0, size as int) =~= f(s[0]));
            } else {
                assert(k * size == size + (k - 1) * size) by (nonlinear_arith);
                assert((k - 1) * size + size <= rest.len() * size) by (nonlinear_arith)
                    requires k - 1 < rest.len(), size >= 0;
                assert((k - 1) * size >= 0) by (nonlinear_arith) requires k >= 1, size >= 0;
                assert(rest[k - 1] == s[k]);
                assert(c.subrange(k * size, k * size + size) =~= concat_map(rest, f).subrange((k - 1) * size, (k - 1) * size + size));
            }
        }
    }
}

} // verus!
