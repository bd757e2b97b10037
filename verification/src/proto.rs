//! Protocol-buffer wire-format scanning: varints and the flat list of
//! fields of one message.
use vstd::prelude::*;
use crate::bytes::{le_u32_at, le_u64_at, spec_le_u32, spec_le_u64};

verus! {

/// `128^i`.
pub open spec fn pow128(i: nat) -> nat
    decreases i,
{
    if i == 0 { 1 } else { 128 * pow128((i - 1) as nat) }
}

/// Contribution of byte `b` at position `i` of a varint to its 64-bit value:
/// its low 7 bits shifted left by `7 * i`, with the bits that a 64-bit shift
/// pushes out dropped (only the lowest bit survives at position 9).
pub open spec fn varint_group(b: u8, i: nat) -> nat {
    if i < 9 { ((b % 128) as nat) * pow128(i) } else { ((b % 2) as nat) * 0x8000_0000_0000_0000 }
}

/// Sum of the contributions of the first `n` bytes of `s`.
pub open spec fn varint_sum(s: Seq<u8>, n: nat) -> nat
    decreases n,
{
    if n == 0 { 0 } else { varint_sum(s, (n - 1) as nat) + varint_group(s[n - 1], (n - 1) as nat) }
}

/// Length of the varint that starts at `s[i]`, looking no further than the
/// tenth byte: the first byte from `i` on below 0x80 ends it.
pub open spec fn varint_end_from(s: Seq<u8>, i: nat) -> Option<nat>
    decreases 10 - i,
{
    if i >= 10 || i >= s.len() {
        None
    } else if s[i as int] < 128 {
        Some(i + 1)
    } else {
        varint_end_from(s, i + 1)
    }
}

/// A varint at the start of `s`: its value and how many bytes it takes.
pub open spec fn spec_read_varint(s: Seq<u8>) -> Option<(u64, nat)> {
    match varint_end_from(s, 0) {
        Some(n) => Some((varint_sum(s, n) as u64, n)),
        None => None,
    }
}

proof fn lemma_pow128_step(i: nat)
    ensures
        pow128(i + 1) == 128 * pow128(i),
{
}

proof fn lemma_varint_sum_bound(s: Seq<u8>, n: nat)
    requires
        n <= 9,
    ensures
        varint_sum(s, n) < pow128(n),
    decreases n,
{
    if n > 0 {
        let m = (n - 1) as nat;
        lemma_varint_sum_bound(s, m);
        let b = (s[m as int] % 128) as nat;
        let p = pow128(m);
        assert(b * p <= 127 * p) by (nonlinear_arith)
            requires
                b <= 127,
        ;
    }
}

proof fn lemma_pow128_8()
    ensures
        pow128(8) == 0x100_0000_0000_0000,
{
    reveal_with_fuel(pow128, 9);
}

proof fn lemma_varint_end_facts(s: Seq<u8>, i: nat)
    ensures
        varint_end_from(s, i) matches Some(n) ==> i < n <= 10 && n <= s.len() && s[n - 1] < 128,
    decreases 10 - i,
{
    if !(i >= 10 || i >= s.len()) && s[i as int] >= 128 {
        lemma_varint_end_facts(s, i + 1);
    }
}

/// Every varint takes at least one and at most ten bytes of `s`, and its
/// value is the sum of its groups.
pub proof fn lemma_read_varint_len(s: Seq<u8>)
    ensures
        spec_read_varint(s) matches Some((v, n)) ==> 0 < n <= 10 && n <= s.len() && v as int
            == varint_sum(s, n),
{
    lemma_varint_end_facts(s, 0);
    if let Some(n) = varint_end_from(s, 0) {
        lemma_varint_sum_total_bound(s, n);
    }
}

proof fn lemma_varint_sum_total_bound(s: Seq<u8>, n: nat)
    requires
        n <= 10,
    ensures
        varint_sum(s, n) < 0x1_0000_0000_0000_0000,
{
    if n <= 9 {
        lemma_varint_sum_bound(s, n);
        lemma_pow128_mono(n, 9);
        reveal_with_fuel(pow128, 10);
    } else {
        lemma_varint_sum_bound(s, 9);
        reveal_with_fuel(pow128, 10);
    }
}

proof fn lemma_pow128_mono(a: nat, b: nat)
    requires
        a <= b,
    ensures
        pow128(a) <= pow128(b),
    decreases b - a,
{
    if a < b {
        lemma_pow128_mono(a, (b - 1) as nat);
        lemma_pow128_step((b - 1) as nat);
    }
}

/// Reads the varint that starts at `bytes[pos]`.
pub fn read_varint_at(bytes: &[u8], pos: usize) -> (r: Option<(u64, usize)>)
    requires
        pos <= bytes.len(),
    ensures
        match spec_read_varint(bytes@.skip(pos as int)) {
            Some((v, n)) => r == Some((v, n as usize)),
            None => r.is_none(),
        },
{
    let ghost s = bytes@.skip(pos as int);
    let mut value: u64 = 0;
    let mut mult: u64 = 1;
    let mut idx: usize = 0;
    proof {
        lemma_pow128_8();
    }
    while idx < 10 && pos < bytes.len() && idx < bytes.len() - pos
        invariant
            pos <= bytes.len(),
            s == bytes@.skip(pos as int),
            idx <= 10,
            idx <= s.len(),
            value as nat == varint_sum(s, idx as nat),
            idx <= 8 ==> mult as nat == pow128(idx as nat),
            mult as nat <= pow128(8),
            pow128(8) == 0x100_0000_0000_0000,
            varint_end_from(s, 0) == varint_end_from(s, idx as nat),
        decreases 10 - idx,
    {
        let byte = bytes[pos + idx];
        assert(byte == s[idx as int]);
        proof {
            if idx <= 8 {
                lemma_varint_sum_bound(s, idx as nat);
                lemma_pow128_mono(idx as nat, 8);
                lemma_pow128_step(idx as nat);
                let p = pow128(idx as nat);
                assert(((byte % 128) as nat) * p <= 127 * p) by (nonlinear_arith)
                    requires
                        byte % 128 <= 127,
                ;
            } else {
                lemma_varint_sum_bound(s, 9);
                reveal_with_fuel(pow128, 10);
            }
        }
        if idx < 9 {
            value = value + ((byte % 128) as u64) * mult;
        } else {
            value = value + ((byte % 2) as u64) * 0x8000_0000_0000_0000;
        }
        if byte < 128 {
            return Some((value, idx + 1));
        }
        idx = idx + 1;
        if idx < 9 {
            proof {
                lemma_pow128_step((idx - 1) as nat);
                lemma_pow128_mono(idx as nat, 8);
            }
            mult = mult * 128;
        }
    }
    None
}

/// Reads the varint at the start of `bytes`: its value and its length.
pub fn read_varint(bytes: &[u8]) -> (r: Option<(u64, usize)>)
    ensures
        match spec_read_varint(bytes@) {
            Some((v, n)) => r == Some((v, n as usize)),
            None => r.is_none(),
        },
{
    assert(bytes@.skip(0) =~= bytes@);
    read_varint_at(bytes, 0)
}


/// One field of a protobuf message as the wire format gives it. Only the
/// member that matches `wire` is filled; the others stay at their defaults.
pub struct ProtoField {
    pub number: u64,
    pub wire: u64,
    pub bytes: Vec<u8>,
    pub uint: u64,
    pub fixed32: u32,
    pub fixed64: u64,
}

/// Mathematical model of a [`ProtoField`].
pub struct SpecProtoField {
    pub number: u64,
    pub wire: u64,
    pub bytes: Seq<u8>,
    pub uint: u64,
    pub fixed32: u32,
    pub fixed64: u64,
}

impl View for ProtoField {
    type V = SpecProtoField;

    open spec fn view(&self) -> SpecProtoField {
        SpecProtoField {
            number: self.number,
            wire: self.wire,
            bytes: self.bytes@,
            uint: self.uint,
            fixed32: self.fixed32,
            fixed64: self.fixed64,
        }
    }
}

pub open spec fn fields_view(v: Seq<ProtoField>) -> Seq<SpecProtoField> {
    v.map_values(|f: ProtoField| f@)
}

pub open spec fn spec_field(
    number: u64,
    wire: u64,
    bytes: Seq<u8>,
    uint: u64,
    fixed32: u32,
    fixed64: u64,
) -> SpecProtoField {
    SpecProtoField { number, wire, bytes, uint, fixed32, fixed64 }
}

/// The field that starts at `s[0]`, and how many bytes it takes: a key varint
/// (field number `key / 8`, which must not be 0, and wire type `key % 8`),
/// then a varint (wire 0), 8 little-endian bytes (wire 1), a length varint and
/// that many bytes (wire 2) or 4 little-endian bytes (wire 5). Any other wire
/// type, or a field that runs past the end of `s`, is no field.
pub open spec fn spec_parse_field(s: Seq<u8>) -> Option<(SpecProtoField, nat)> {
    match spec_read_varint(s) {
        None => None,
        Some((key, n1)) => {
            let number = key / 8;
            let wire = key % 8;
            if number == 0 {
                None
            } else if wire == 0 {
                match spec_read_varint(s.skip(n1 as int)) {
                    None => None,
                    Some((v, n2)) => Some((spec_field(number, wire, Seq::empty(), v, 0, 0), n1 + n2)),
                }
            } else if wire == 1 {
                if s.len() < n1 + 8 {
                    None
                } else {
                    Some((spec_field(number, wire, Seq::empty(), 0, 0, spec_le_u64(s, n1 as int) as u64), n1 + 8))
                }
            } else if wire == 2 {
                match spec_read_varint(s.skip(n1 as int)) {
                    None => None,
                    Some((len, n2)) => if s.len() < n1 + n2 + len {
                        None
                    } else {
                        Some((spec_field(number, wire, s.subrange((n1 + n2) as int, (n1 + n2 + len) as int), 0, 0, 0), (n1 + n2 + len) as nat))
                    },
                }
            } else if wire == 5 {
                if s.len() < n1 + 4 {
                    None
                } else {
                    Some((spec_field(number, wire, Seq::empty(), 0, spec_le_u32(s, n1 as int) as u32, 0), n1 + 4))
                }
            } else {
                None
            }
        },
    }
}

/// A field always takes at least one byte and never more than `s` holds.
pub proof fn lemma_parse_field_len(s: Seq<u8>)
    ensures
        spec_parse_field(s) matches Some((f, n)) ==> 0 < n <= s.len(),
{
    lemma_read_varint_len(s);
    if let Some((key, n1)) = spec_read_varint(s) {
        lemma_read_varint_len(s.skip(n1 as int));
    }
}

/// The fields of a message that fills all of `s`, in order; `None` where
/// some field is malformed.
pub open spec fn spec_parse_fields(s: Seq<u8>) -> Option<Seq<SpecProtoField>>
    decreases s.len(),
{
    if s.len() == 0 {
        Some(Seq::empty())
    } else {
        match spec_parse_field(s) {
            None => None,
            Some((f, n)) => {
                proof {
                    lemma_parse_field_len(s);
                }
                match spec_parse_fields(s.skip(n as int)) {
                    None => None,
                    Some(rest) => Some(seq![f] + rest),
                }
            },
        }
    }
}

/// Copies `s[start..end]` into a new vector.
pub fn copy_range(s: &[u8], start: usize, end: usize) -> (r: Vec<u8>)
    requires
        start <= end <= s.len(),
    ensures
        r@ == s@.subrange(start as int, end as int),
{
    let mut r: Vec<u8> = Vec::with_capacity(end - start);
    let mut i = start;
    while i < end
        invariant
            start <= i <= end <= s.len(),
            r@ == s@.subrange(start as int, i as int),
        decreases end - i,
    {
        r.push(s[i]);
        i = i + 1;
    }
    r
}

/// Parses the field that starts at `bytes[pos]`.
pub fn parse_field_at(bytes: &[u8], pos: usize) -> (r: Option<(ProtoField, usize)>)
    requires
        pos <= bytes.len(),
    ensures
        match spec_parse_field(bytes@.skip(pos as int)) {
            Some((f, n)) => r matches Some((g, m)) && g@ == f && m == n,
            None => r.is_none(),
        },
{
    let ghost s = bytes@.skip(pos as int);
    proof {
        lemma_read_varint_len(s);
    }
    let (key, read) = match read_varint_at(bytes, pos) {
        Some(kv) => kv,
        None => return None,
    };
    let p = pos + read;
    assert(s.skip(read as int) =~= bytes@.skip(p as int));
    proof {
        lemma_read_varint_len(s.skip(read as int));
    }
    let number = key / 8;
    let wire = key % 8;
    if number == 0 {
        return None;
    }
    if wire == 0 {
        match read_varint_at(bytes, p) {
            None => None,
            Some((v, n2)) => Some((
                ProtoField { number, wire, bytes: Vec::new(), uint: v, fixed32: 0, fixed64: 0 },
                read + n2,
            )),
        }
    } else if wire == 1 {
        if bytes.len() - p < 8 {
            return None;
        }
        let x = le_u64_at(bytes, p);
        assert(spec_le_u64(bytes@, p as int) == spec_le_u64(s, read as int));
        Some((ProtoField { number, wire, bytes: Vec::new(), uint: 0, fixed32: 0, fixed64: x }, read + 8))
    } else if wire == 2 {
        match read_varint_at(bytes, p) {
            None => None,
            Some((len, n2)) => {
                let q = p + n2;
                if len > (bytes.len() - q) as u64 {
                    return None;
                }
                let end = q + len as usize;
                let payload = copy_range(bytes, q, end);
                assert(payload@ =~= s.subrange((read + n2) as int, (read + n2 + len) as int));
                Some((
                    ProtoField { number, wire, bytes: payload, uint: 0, fixed32: 0, fixed64: 0 },
                    read + n2 + len as usize,
                ))
            },
        }
    } else if wire == 5 {
        if bytes.len() - p < 4 {
            return None;
        }
        let x = le_u32_at(bytes, p);
        assert(spec_le_u32(bytes@, p as int) == spec_le_u32(s, read as int));
        Some((ProtoField { number, wire, bytes: Vec::new(), uint: 0, fixed32: x, fixed64: 0 }, read + 4))
    } else {
        None
    }
}

/// Splits `bytes` into the protobuf fields of one message; `None` where the
/// bytes are not a well-formed sequence of fields.
pub fn parse_proto_fields(bytes: &[u8]) -> (r: Option<Vec<ProtoField>>)
    ensures
        match spec_parse_fields(bytes@) {
            Some(fs) => r matches Some(v) && fields_view(v@) == fs,
            None => r.is_none(),
        },
{
    let mut fields: Vec<ProtoField> = Vec::new();
    let mut pos: usize = 0;
    assert(bytes@.skip(0) =~= bytes@);
    assert(fields_view(fields@) =~= Seq::<SpecProtoField>::empty());
    while pos < bytes.len()
        invariant
            pos <= bytes.len(),
            spec_parse_fields(bytes@) == match spec_parse_fields(bytes@.skip(pos as int)) {
                Some(rest) => Some(fields_view(fields@) + rest),
                None => None::<Seq<SpecProtoField>>,
            },
        decreases bytes.len() - pos,
    {
        let ghost s = bytes@.skip(pos as int);
        proof {
            lemma_parse_field_len(s);
        }
        let (field, n) = match parse_field_at(bytes, pos) {
            Some(fnn) => fnn,
            None => return None,
        };
        let ghost old_fields = fields@;
        fields.push(field);
        assert(s.skip(n as int) =~= bytes@.skip((pos + n) as int));
        assert(fields_view(fields@) =~= fields_view(old_fields) + seq![field@]);
        proof {
            if let Some(rest) = spec_parse_fields(bytes@.skip((pos + n) as int)) {
                assert(fields_view(fields@) + rest =~= fields_view(old_fields) + (seq![field@] + rest));
            }
        }
        pos = pos + n;
    }
    assert(bytes@.skip(pos as int) =~= Seq::<u8>::empty());
    assert(fields_view(fields@) + Seq::<SpecProtoField>::empty() =~= fields_view(fields@));
    Some(fields)
}

proof fn lemma_varint_prefix(s: Seq<u8>, t: Seq<u8>, i: nat)
    ensures
        varint_end_from(s, i) matches Some(n) ==> varint_end_from(s + t, i) == Some(n),
    decreases 10 - i,
{
    if !(i >= 10 || i >= s.len()) && s[i as int] >= 128 {
        lemma_varint_prefix(s, t, i + 1);
    }
}

proof fn lemma_varint_sum_prefix(s: Seq<u8>, t: Seq<u8>, n: nat)
    requires
        n <= s.len(),
    ensures
        varint_sum(s + t, n) == varint_sum(s, n),
    decreases n,
{
    if n > 0 {
        lemma_varint_sum_prefix(s, t, (n - 1) as nat);
        assert((s + t)[n - 1] == s[n - 1]);
    }
}

pub proof fn lemma_read_varint_prefix(s: Seq<u8>, t: Seq<u8>)
    ensures
        spec_read_varint(s) is Some ==> spec_read_varint(s + t) == spec_read_varint(s),
{
    lemma_varint_prefix(s, t, 0);
    lemma_varint_end_facts(s, 0);
    if let Some(n) = varint_end_from(s, 0) {
        lemma_varint_sum_prefix(s, t, n);
    }
}

/// A field parsed from the front of `s` is parsed the same from the front of
/// `s` followed by anything.
proof fn lemma_parse_field_prefix(s: Seq<u8>, t: Seq<u8>)
    ensures
        spec_parse_field(s) is Some ==> spec_parse_field(s + t) == spec_parse_field(s),
{
    lemma_read_varint_prefix(s, t);
    lemma_read_varint_len(s);
    if let Some((key, n1)) = spec_read_varint(s) {
        let st = s + t;
        assert(st.skip(n1 as int) =~= s.skip(n1 as int) + t);
        lemma_read_varint_prefix(s.skip(n1 as int), t);
        lemma_read_varint_len(s.skip(n1 as int));
        let wire = key % 8;
        if wire == 1 && s.len() >= n1 + 8 {
            assert(spec_le_u64(st, n1 as int) == spec_le_u64(s, n1 as int));
        } else if wire == 5 && s.len() >= n1 + 4 {
            assert(spec_le_u32(st, n1 as int) == spec_le_u32(s, n1 as int));
        } else if wire == 2 {
            if let Some((len, n2)) = spec_read_varint(s.skip(n1 as int)) {
                if s.len() >= n1 + n2 + len {
                    assert(st.subrange((n1 + n2) as int, (n1 + n2 + len) as int) =~= s.subrange(
                        (n1 + n2) as int,
                        (n1 + n2 + len) as int,
                    ));
                }
            }
        }
    }
}

/// Fields concatenate: where `a` alone is a well-formed message, the message
/// `a` followed by `b` holds the fields of `a` followed by those of `b`, and
/// is malformed exactly where `b` is.
pub proof fn law_parse_fields_concat(a: Seq<u8>, b: Seq<u8>)
    requires
        spec_parse_fields(a) is Some,
    ensures
        spec_parse_fields(a + b) == match spec_parse_fields(b) {
            Some(fb) => Some(spec_parse_fields(a)->0 + fb),
            None => None::<Seq<SpecProtoField>>,
        },
    decreases a.len(),
{
    if a.len() == 0 {
        assert(a + b =~= b);
        if let Some(fb) = spec_parse_fields(b) {
            assert(Seq::<SpecProtoField>::empty() + fb =~= fb);
        }
    } else {
        lemma_parse_field_prefix(a, b);
        lemma_parse_field_len(a);
        let (f, n) = spec_parse_field(a)->0;
        let rest = spec_parse_fields(a.skip(n as int))->0;
        assert((a + b).skip(n as int) =~= a.skip(n as int) + b);
        law_parse_fields_concat(a.skip(n as int), b);
        lemma_parse_field_len(a + b);
        if let Some(fb) = spec_parse_fields(b) {
            assert(seq![f] + (rest + fb) =~= (seq![f] + rest) + fb);
        }
    }
}

} // verus!
