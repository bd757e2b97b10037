//! Fixed-width integer decoding and encoding of byte sequences.
use vstd::prelude::*;

verus! {

/// Big-endian value of `s[i..i+2]`.
pub open spec fn spec_be_u16(s: Seq<u8>, i: int) -> int {
    s[i] * 256 + s[i + 1]
}

/// Big-endian value of `s[i..i+4]`.
pub open spec fn spec_be_u32(s: Seq<u8>, i: int) -> int {
    spec_be_u16(s, i) * 65536 + spec_be_u16(s, i + 2)
}

/// Big-endian value of `s[i..i+8]`.
pub open spec fn spec_be_u64(s: Seq<u8>, i: int) -> int {
    spec_be_u32(s, i) * 0x1_0000_0000 + spec_be_u32(s, i + 4)
}

/// Little-endian value of `s[i..i+4]`.
pub open spec fn spec_le_u32(s: Seq<u8>, i: int) -> int {
    s[i] + s[i + 1] * 256 + s[i + 2] * 65536 + s[i + 3] * 16777216
}

/// Little-endian value of `s[i..i+8]`.
pub open spec fn spec_le_u64(s: Seq<u8>, i: int) -> int {
    spec_le_u32(s, i) + spec_le_u32(s, i + 4) * 0x1_0000_0000
}

pub fn be_u16_at(s: &[u8], i: usize) -> (r: u16)
    requires
        i + 2 <= s.len(),
    ensures
        r == spec_be_u16(s@, i as int),
{
    (s[i] as u16) * 256 + (s[i + 1] as u16)
}

pub fn be_u32_at(s: &[u8], i: usize) -> (r: u32)
    requires
        i + 4 <= s.len(),
    ensures
        r == spec_be_u32(s@, i as int),
{
    let hi = be_u16_at(s, i) as u32;
    let lo = be_u16_at(s, i + 2) as u32;
    hi * 65536 + lo
}

pub fn be_u64_at(s: &[u8], i: usize) -> (r: u64)
    requires
        i + 8 <= s.len(),
    ensures
        r == spec_be_u64(s@, i as int),
{
    let hi = be_u32_at(s, i) as u64;
    let lo = be_u32_at(s, i + 4) as u64;
    hi * 0x1_0000_0000 + lo
}

pub fn le_u32_at(s: &[u8], i: usize) -> (r: u32)
    requires
        i + 4 <= s.len(),
    ensures
        r == spec_le_u32(s@, i as int),
{
    (s[i] as u32) + (s[i + 1] as u32) * 256 + (s[i + 2] as u32) * 65536 + (s[i + 3] as u32)
        * 16777216
}

pub fn le_u64_at(s: &[u8], i: usize) -> (r: u64)
    requires
        i + 8 <= s.len(),
    ensures
        r == spec_le_u64(s@, i as int),
{
    let lo = le_u32_at(s, i) as u64;
    let hi = le_u32_at(s, i + 4) as u64;
    lo + hi * 0x1_0000_0000
}

} // verus!

verus! {

/// The two big-endian bytes of `v` (taken modulo 2^16).
#[verifier::opaque]
pub open spec fn be16_seq(v: int) -> Seq<u8> {
    seq![((v % 65536) / 256) as u8, (v % 256) as u8]
}

/// The four big-endian bytes of `v` (taken modulo 2^32).
#[verifier::opaque]
pub open spec fn be32_seq(v: int) -> Seq<u8> {
    be16_seq((v % 0x1_0000_0000) / 65536) + be16_seq(v % 65536)
}

/// The eight big-endian bytes of `v` (taken modulo 2^64).
#[verifier::opaque]
pub open spec fn be64_seq(v: int) -> Seq<u8> {
    be32_seq((v % 0x1_0000_0000_0000_0000) / 0x1_0000_0000) + be32_seq(v % 0x1_0000_0000)
}

/// Appends `s[start..end]` to `out`.
pub fn append_range(out: &mut Vec<u8>, s: &[u8], start: usize, end: usize)
    requires
        start <= end <= s.len(),
    ensures
        final(out)@ == old(out)@ + s@.subrange(start as int, end as int),
{
    let ghost base = old(out)@;
    let mut i = start;
    while i < end
        invariant
            start <= i <= end <= s.len(),
            out@ == base + s@.subrange(start as int, i as int),
        decreases end - i,
    {
        out.push(s[i]);
        assert(s@.subrange(start as int, i + 1) =~= s@.subrange(start as int, i as int) + seq![s@[i as int]]);
        i = i + 1;
    }
}

/// The number that the bytes `s` spell in base 256, most significant byte
/// first.
pub open spec fn big_endian_value(s: Seq<u8>) -> nat
    decreases s.len(),
{
    if s.len() == 0 {
        0
    } else {
        big_endian_value(s.drop_last()) * 256 + s.last() as nat
    }
}

/// The four and eight byte big-endian readings agree with
/// [`big_endian_value`].
pub proof fn lemma_big_endian_value(s: Seq<u8>, i: int)
    requires
        0 <= i,
        i + 8 <= s.len(),
    ensures
        spec_be_u32(s, i) == big_endian_value(s.subrange(i, i + 4)),
        spec_be_u32(s, i + 4) == big_endian_value(s.subrange(i + 4, i + 8)),
        spec_be_u64(s, i) == big_endian_value(s.subrange(i, i + 8)),
        0 <= spec_be_u64(s, i) < 0x1_0000_0000_0000_0000,
{
    let t = s.subrange(i, i + 8);
    let u = s.subrange(i + 4, i + 8);
    assert forall|m: int| 0 < m <= 8 implies #[trigger] big_endian_value(t.subrange(0, m))
        == big_endian_value(t.subrange(0, m - 1)) * 256 + t[m - 1] as nat by {
        assert(t.subrange(0, m).drop_last() =~= t.subrange(0, m - 1));
    }
    assert forall|m: int| 0 < m <= 4 implies #[trigger] big_endian_value(u.subrange(0, m))
        == big_endian_value(u.subrange(0, m - 1)) * 256 + u[m - 1] as nat by {
        assert(u.subrange(0, m).drop_last() =~= u.subrange(0, m - 1));
    }
    assert(t.subrange(0, 0) =~= Seq::<u8>::empty());
    assert(u.subrange(0, 0) =~= Seq::<u8>::empty());
    let v1 = big_endian_value(t.subrange(0, 1));
    let v2 = big_endian_value(t.subrange(0, 2));
    let v3 = big_endian_value(t.subrange(0, 3));
    let v4 = big_endian_value(t.subrange(0, 4));
    let v5 = big_endian_value(t.subrange(0, 5));
    let v6 = big_endian_value(t.subrange(0, 6));
    let v7 = big_endian_value(t.subrange(0, 7));
    let v8 = big_endian_value(t.subrange(0, 8));
    let w1 = big_endian_value(u.subrange(0, 1));
    let w2 = big_endian_value(u.subrange(0, 2));
    let w3 = big_endian_value(u.subrange(0, 3));
    let w4 = big_endian_value(u.subrange(0, 4));
    assert(t.subrange(0, 4) =~= s.subrange(i, i + 4));
    assert(t.subrange(0, 8) =~= t);
    assert(u.subrange(0, 4) =~= u);
    assert(v4 == spec_be_u32(s, i));
    assert(w4 == spec_be_u32(s, i + 4));
    assert(v8 == v4 * 0x1_0000_0000 + w4);
}

/// The four byte big-endian reading agrees with [`big_endian_value`].
pub proof fn lemma_big_endian_value4(s: Seq<u8>, i: int)
    requires
        0 <= i,
        i + 4 <= s.len(),
    ensures
        spec_be_u32(s, i) == big_endian_value(s.subrange(i, i + 4)),
        0 <= spec_be_u32(s, i) < 0x1_0000_0000,
{
    let t = s.subrange(i, i + 4);
    assert forall|m: int| 0 < m <= 4 implies #[trigger] big_endian_value(t.subrange(0, m))
        == big_endian_value(t.subrange(0, m - 1)) * 256 + t[m - 1] as nat by {
        assert(t.subrange(0, m).drop_last() =~= t.subrange(0, m - 1));
    }
    assert(t.subrange(0, 0) =~= Seq::<u8>::empty());
    let v1 = big_endian_value(t.subrange(0, 1));
    let v2 = big_endian_value(t.subrange(0, 2));
    let v3 = big_endian_value(t.subrange(0, 3));
    let v4 = big_endian_value(t.subrange(0, 4));
    assert(t.subrange(0, 4) =~= t);
}

} // verus!
