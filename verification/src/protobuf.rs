//! Bounded decoding of the protobuf wire format used by Perfetto traces.
//! Fields refer to their payload by offsets into the buffer they came from.
use vstd::prelude::*;
use crate::text::{decimal, push_decimal, push_str, string_from_chars};

verus! {

/// Every way a trace packet or message can fail to decode. Each carries the
/// exact diagnostic text reported for it.
#[derive(Debug, Clone, Copy, PartialEq, Eq)]
pub enum DecodeError {
    /// Input ended inside a value that was still being read.
    Eof,
    VarintOverflow,
    VarintUnterminated,
    InvalidField,
    TruncatedField,
    TruncatedFixed,
    UnsupportedWireType,
    /// An integer did not fit the width it is stored in.
    OutOfRange,
    MissingField(u32),
    MissingRwbs,
    UnsupportedRoot,
    PacketTooLarge,
}

pub open spec fn error_message(e: DecodeError) -> Seq<char> {
    match e {
        DecodeError::Eof => "failed to fill whole buffer"@,
        DecodeError::VarintOverflow => "overflowing protobuf varint"@,
        DecodeError::VarintUnterminated => "unterminated protobuf varint"@,
        DecodeError::InvalidField => "invalid protobuf field"@,
        DecodeError::TruncatedField => "truncated protobuf field"@,
        DecodeError::TruncatedFixed => "truncated fixed protobuf field"@,
        DecodeError::UnsupportedWireType => "unsupported protobuf wire type"@,
        DecodeError::OutOfRange => "out of range integral type conversion attempted"@,
        DecodeError::MissingField(id) => "missing block field "@ + decimal(id as nat),
        DecodeError::MissingRwbs => "missing block rwbs"@,
        DecodeError::UnsupportedRoot => "unsupported Trace root field; raw file preserved"@,
        DecodeError::PacketTooLarge => "Perfetto packet exceeds 16 MiB decode limit"@,
    }
}

impl DecodeError {
    pub fn message(&self) -> (s: String)
        ensures
            s@ == error_message(*self),
    {
        let mut out: Vec<char> = Vec::new();
        match *self {
            DecodeError::Eof => push_str(&mut out, "failed to fill whole buffer"),
            DecodeError::VarintOverflow => push_str(&mut out, "overflowing protobuf varint"),
            DecodeError::VarintUnterminated => push_str(&mut out, "unterminated protobuf varint"),
            DecodeError::InvalidField => push_str(&mut out, "invalid protobuf field"),
            DecodeError::TruncatedField => push_str(&mut out, "truncated protobuf field"),
            DecodeError::TruncatedFixed => push_str(&mut out, "truncated fixed protobuf field"),
            DecodeError::UnsupportedWireType => push_str(&mut out, "unsupported protobuf wire type"),
            DecodeError::OutOfRange => push_str(&mut out, "out of range integral type conversion attempted"),
            DecodeError::MissingField(id) => {
                push_str(&mut out, "missing block field ");
                push_decimal(&mut out, id as u64);
            }
            DecodeError::MissingRwbs => push_str(&mut out, "missing block rwbs"),
            DecodeError::UnsupportedRoot => push_str(&mut out, "unsupported Trace root field; raw file preserved"),
            DecodeError::PacketTooLarge => push_str(&mut out, "Perfetto packet exceeds 16 MiB decode limit"),
        }
        string_from_chars(out.as_slice())
    }
}

/// `128^i`, the weight of the `i`-th seven-bit group of a varint.
pub open spec fn group_weight(i: nat) -> nat
    decreases i,
{
    if i == 0 { 1 } else { 128 * group_weight((i - 1) as nat) }
}

/// Base-128 varint starting at `pos`, having already read `i` groups summing
/// to `acc`. Yields the value and the position after it. At most ten groups
/// are read; the tenth may only hold the single remaining bit.
pub open spec fn varint_from(s: Seq<u8>, pos: nat, i: nat, acc: nat) -> Result<(u64, nat), DecodeError>
    decreases 10 - i,
{
    if i >= 10 {
        Err(DecodeError::VarintUnterminated)
    } else if pos + i >= s.len() {
        Err(DecodeError::Eof)
    } else {
        let b = s[(pos + i) as int];
        if i == 9 && b > 1 {
            Err(DecodeError::VarintOverflow)
        } else {
            let acc2 = acc + (b % 128) as nat * group_weight(i);
            if b < 128 {
                Ok((acc2 as u64, pos + i + 1))
            } else {
                varint_from(s, pos, i + 1, acc2)
            }
        }
    }
}

pub open spec fn spec_varint(s: Seq<u8>, pos: nat) -> Result<(u64, nat), DecodeError> {
    varint_from(s, pos, 0, 0)
}

proof fn lemma_varint_from_progress(s: Seq<u8>, pos: nat, i: nat, acc: nat)
    ensures
        varint_from(s, pos, i, acc) matches Ok((v, p)) ==> pos < p <= s.len() && p > pos + i,
    decreases 10 - i,
{
    if i < 10 && pos + i < s.len() {
        let b = s[(pos + i) as int];
        if !(i == 9 && b > 1) && b >= 128 {
            lemma_varint_from_progress(s, pos, i + 1, acc + (b % 128) as nat * group_weight(i));
        }
    }
}

pub proof fn lemma_varint_progress(s: Seq<u8>, pos: nat)
    ensures
        spec_varint(s, pos) matches Ok((v, p)) ==> pos < p <= s.len(),
{
    lemma_varint_from_progress(s, pos, 0, 0);
}

proof fn lemma_varint_from_extend(s: Seq<u8>, t: Seq<u8>, pos: nat, i: nat, acc: nat)
    ensures
        varint_from(s, pos, i, acc) is Ok ==> varint_from(s + t, pos, i, acc) == varint_from(s, pos, i, acc),
    decreases 10 - i,
{
    if i < 10 && pos + i < s.len() {
        assert((s + t)[(pos + i) as int] == s[(pos + i) as int]);
        let b = s[(pos + i) as int];
        if !(i == 9 && b > 1) && b >= 128 {
            lemma_varint_from_extend(s, t, pos, i + 1, acc + (b % 128) as nat * group_weight(i));
        }
    }
}

/// Bytes after a complete varint do not change what it reads.
pub proof fn lemma_varint_extend(s: Seq<u8>, t: Seq<u8>, pos: nat)
    ensures
        spec_varint(s, pos) is Ok ==> spec_varint(s + t, pos) == spec_varint(s, pos),
{
    lemma_varint_from_extend(s, t, pos, 0, 0);
}

proof fn lemma_varint_from_shift(a: Seq<u8>, t: Seq<u8>, q: nat, i: nat, acc: nat)
    ensures
        varint_from(a + t, a.len() + q, i, acc) == (match varint_from(t, q, i, acc) {
            Ok((v, p)) => Ok((v, p + a.len())),
            Err(e) => Err::<(u64, nat), DecodeError>(e),
        }),
    decreases 10 - i,
{
    if i < 10 && q + i < t.len() {
        assert((a + t)[(a.len() + q + i) as int] == t[(q + i) as int]);
        let b = t[(q + i) as int];
        if !(i == 9 && b > 1) && b >= 128 {
            lemma_varint_from_shift(a, t, q, i + 1, acc + (b % 128) as nat * group_weight(i));
        }
    }
}

/// Bytes before a varint only shift where it ends.
pub proof fn lemma_varint_shift(a: Seq<u8>, t: Seq<u8>, q: nat)
    ensures
        spec_varint(a + t, a.len() + q) == (match spec_varint(t, q) {
            Ok((v, p)) => Ok((v, p + a.len())),
            Err(e) => Err::<(u64, nat), DecodeError>(e),
        }),
{
    lemma_varint_from_shift(a, t, q, 0, 0);
}

proof fn lemma_group_weights()
    ensures
        group_weight(0) == 1,
        group_weight(1) == 0x80,
        group_weight(2) == 0x4000,
        group_weight(3) == 0x20_0000,
        group_weight(4) == 0x1000_0000,
        group_weight(5) == 0x8_0000_0000,
        group_weight(6) == 0x400_0000_0000,
        group_weight(7) == 0x2_0000_0000_0000,
        group_weight(8) == 0x100_0000_0000_0000,
        group_weight(9) == 0x8000_0000_0000_0000,
{
    reveal_with_fuel(group_weight, 10);
}

/// Reads a varint at `pos`.
pub fn varint(s: &[u8], pos: usize) -> (r: Result<(u64, usize), DecodeError>)
    ensures
        match (r, spec_varint(s@, pos as nat)) {
            (Ok((v, p)), Ok((sv, sp))) => v == sv && p as nat == sp,
            (Err(e), Err(se)) => e == se,
            _ => false,
        },
{
    let mut n: u64 = 0;
    let mut weight: u64 = 1;
    let mut i: usize = 0;
    let ghost mut acc: nat = 0;
    proof { lemma_group_weights(); }
    while i < 10
        invariant
            i <= 10,
            i <= 9 ==> weight as nat == group_weight(i as nat),
            i <= 9 ==> n < weight,
            n as nat == acc,
            spec_varint(s@, pos as nat) == varint_from(s@, pos as nat, i as nat, acc),
            group_weight(8) == 0x100_0000_0000_0000,
            group_weight(9) == 0x8000_0000_0000_0000,
        decreases 10 - i,
    {
        if pos >= s.len() || i >= s.len() - pos {
            return Err(DecodeError::Eof);
        }
        let b = s[pos + i];
        if i == 9 && b > 1 {
            return Err(DecodeError::VarintOverflow);
        }
        let low = (b % 128) as u64;
        proof {
            lemma_group_weights();
            assert(group_weight((i + 1) as nat) == 128 * group_weight(i as nat));
            if i < 9 {
                assert(weight <= 0x100_0000_0000_0000u64);
                assert(low * weight <= 127 * weight) by (nonlinear_arith)
                    requires low <= 127;
                assert(n + low * weight < 128 * weight) by (nonlinear_arith)
                    requires n < weight, low * weight <= 127 * weight;
            } else {
                assert(low <= 1);
                assert(low * weight <= weight) by (nonlinear_arith)
                    requires low <= 1;
            }
        }
        n = n + low * weight;
        proof { acc = acc + low as nat * group_weight(i as nat); }
        if b < 128 {
            return Ok((n, pos + i + 1));
        }
        if i < 9 {
            weight = weight * 128;
        }
        i = i + 1;
    }
    Err(DecodeError::VarintUnterminated)
}

/// A decoded field value. Length-delimited payloads are kept as the
/// half-open offset range `[start, end)` into the message buffer.
#[derive(Debug, Clone, Copy, PartialEq, Eq)]
pub enum WireValue {
    Varint(u64),
    Bytes(usize, usize),
    Fixed,
}

#[derive(Debug, Clone, Copy, PartialEq, Eq)]
pub struct Field {
    pub id: u32,
    pub value: WireValue,
}

/// The value of wire type `wire` starting at `pos`, and the position after it.
pub open spec fn field_value(s: Seq<u8>, wire: u64, pos: nat) -> Result<(WireValue, nat), DecodeError> {
    if wire == 0 {
        match spec_varint(s, pos) {
            Ok((v, p)) => Ok((WireValue::Varint(v), p)),
            Err(e) => Err(e),
        }
    } else if wire == 2 {
        match spec_varint(s, pos) {
            Err(e) => Err(e),
            Ok((len, p)) => if len > usize::MAX {
                Err(DecodeError::OutOfRange)
            } else if p + len > s.len() {
                Err(DecodeError::TruncatedField)
            } else {
                Ok((WireValue::Bytes(p as usize, (p + len) as usize), (p + len) as nat))
            },
        }
    } else if wire == 1 || wire == 5 {
        let width: nat = if wire == 1 { 8 } else { 4 };
        if pos + width > s.len() {
            Err(DecodeError::TruncatedFixed)
        } else {
            Ok((WireValue::Fixed, pos + width))
        }
    } else {
        Err(DecodeError::UnsupportedWireType)
    }
}

pub proof fn lemma_field_value_progress(s: Seq<u8>, wire: u64, pos: nat)
    ensures
        field_value(s, wire, pos) matches Ok((v, p)) ==> pos <= p <= s.len(),
{
    lemma_varint_progress(s, pos);
}

/// Field ids run from 1 to 2^29 - 1.
pub open spec fn valid_tag(tag: u64) -> bool {
    tag / 8 != 0 && tag / 8 <= 0x1fff_ffff
}

/// All fields from `pos` to the end of `s`, in order.
pub open spec fn fields_from(s: Seq<u8>, pos: nat) -> Result<Seq<Field>, DecodeError>
    decreases s.len() - pos,
{
    if pos >= s.len() {
        Ok(seq![])
    } else {
        match spec_varint(s, pos) {
            Err(e) => Err(e),
            Ok((tag, p1)) => if !valid_tag(tag) {
                Err(DecodeError::InvalidField)
            } else {
                match field_value(s, tag % 8, p1) {
                    Err(e) => Err(e),
                    Ok((v, p2)) => {
                        proof {
                            lemma_varint_progress(s, pos);
                            lemma_field_value_progress(s, tag % 8, p1);
                        }
                        match fields_from(s, p2) {
                            Err(e) => Err(e),
                            Ok(rest) => Ok(seq![Field { id: (tag / 8) as u32, value: v }] + rest),
                        }
                    }
                }
            },
        }
    }
}

pub open spec fn spec_fields(s: Seq<u8>) -> Result<Seq<Field>, DecodeError> {
    fields_from(s, 0)
}

/// Every byte range a field list names lies inside its buffer.
pub open spec fn value_within(v: WireValue, len: nat) -> bool {
    match v {
        WireValue::Bytes(a, b) => a <= b <= len,
        _ => true,
    }
}

pub open spec fn ranges_within(f: Seq<Field>, len: nat) -> bool {
    forall|i: int| 0 <= i < f.len() ==> value_within((#[trigger] f[i]).value, len)
}

pub proof fn lemma_fields_from_ranges(s: Seq<u8>, pos: nat)
    requires
        s.len() <= usize::MAX,
    ensures
        fields_from(s, pos) matches Ok(f) ==> ranges_within(f, s.len()),
    decreases s.len() - pos,
{
    if pos < s.len() {
        lemma_varint_progress(s, pos);
        if let Ok((tag, p1)) = spec_varint(s, pos) {
            lemma_varint_progress(s, p1);
            lemma_field_value_progress(s, tag % 8, p1);
            if let Ok((v, p2)) = field_value(s, tag % 8, p1) {
                lemma_fields_from_ranges(s, p2);
                if let Ok(f) = fields_from(s, pos) {
                    let rest = fields_from(s, p2).unwrap();
                    assert(f == seq![Field { id: (tag / 8) as u32, value: v }] + rest);
                    assert forall|i: int| 0 <= i < f.len() implies value_within((#[trigger] f[i]).value, s.len()) by {
                        if i > 0 {
                            assert(f[i] == rest[i - 1]);
                        } else {
                            assert(f[0].value == v);
                        }
                    }
                }
            }
        }
    }
}

/// Splits a message into its fields.
pub fn fields(s: &[u8]) -> (r: Result<Vec<Field>, DecodeError>)
    ensures
        match (r, spec_fields(s@)) {
            (Ok(v), Ok(sv)) => v@ == sv,
            (Err(e), Err(se)) => e == se,
            _ => false,
        },
        r matches Ok(v) ==> ranges_within(v@, s@.len()),
{
    let total = s.len();
    proof { lemma_fields_from_ranges(s@, 0); }
    let mut out: Vec<Field> = Vec::new();
    let mut pos: usize = 0;
    while pos < s.len()
        invariant
            pos <= s@.len(),
            match fields_from(s@, pos as nat) {
                Ok(rest) => spec_fields(s@) == Ok::<Seq<Field>, DecodeError>(out@ + rest),
                Err(e) => spec_fields(s@) == Err::<Seq<Field>, DecodeError>(e),
            },
        decreases s@.len() - pos,
    {
        proof { lemma_varint_progress(s@, pos as nat); }
        let (tag, p1) = match varint(s, pos) {
            Ok(t) => t,
            Err(e) => return Err(e),
        };
        if tag / 8 == 0 || tag / 8 > 0x1fff_ffff {
            return Err(DecodeError::InvalidField);
        }
        let wire = tag % 8;
        proof { lemma_varint_progress(s@, p1 as nat); lemma_field_value_progress(s@, wire, p1 as nat); }
        let (value, p2) = if wire == 0 {
            match varint(s, p1) {
                Ok((v, p)) => (WireValue::Varint(v), p),
                Err(e) => return Err(e),
            }
        } else if wire == 2 {
            match varint(s, p1) {
                Err(e) => return Err(e),
                Ok((len, p)) => {
                    if len > usize::MAX as u64 {
                        return Err(DecodeError::OutOfRange);
                    }
                    let len = len as usize;
                    if len > s.len() - p {
                        return Err(DecodeError::TruncatedField);
                    }
                    (WireValue::Bytes(p, p + len), p + len)
                }
            }
        } else if wire == 1 || wire == 5 {
            let width: usize = if wire == 1 { 8 } else { 4 };
            if width > s.len() - p1 {
                return Err(DecodeError::TruncatedFixed);
            }
            (WireValue::Fixed, p1 + width)
        } else {
            return Err(DecodeError::UnsupportedWireType);
        };
        let field = Field { id: (tag / 8) as u32, value };
        proof {
            let rest = fields_from(s@, p2 as nat);
            if let Ok(r) = rest {
                assert(out@.push(field) + r == out@ + (seq![field] + r));
            }
        }
        out.push(field);
        pos = p2;
    }
    proof {
        assert(out@ + seq![] == out@);
    }
    Ok(out)
}

/// The last varint field with the given id.
pub open spec fn spec_number(f: Seq<Field>, id: u32) -> Option<u64>
    decreases f.len(),
{
    if f.len() == 0 {
        None
    } else {
        match f.last().value {
            WireValue::Varint(n) if f.last().id == id => Some(n),
            _ => spec_number(f.drop_last(), id),
        }
    }
}

/// The last length-delimited field with the given id.
pub open spec fn spec_bytes(f: Seq<Field>, id: u32) -> Option<(usize, usize)>
    decreases f.len(),
{
    if f.len() == 0 {
        None
    } else {
        match f.last().value {
            WireValue::Bytes(a, b) if f.last().id == id => Some((a, b)),
            _ => spec_bytes(f.drop_last(), id),
        }
    }
}

/// Every length-delimited field with the given id, in order.
pub open spec fn spec_children(f: Seq<Field>, id: u32) -> Seq<(usize, usize)>
    decreases f.len(),
{
    if f.len() == 0 {
        seq![]
    } else {
        let rest = spec_children(f.drop_last(), id);
        match f.last().value {
            WireValue::Bytes(a, b) if f.last().id == id => rest.push((a, b)),
            _ => rest,
        }
    }
}

/// How many fields carry the given id, whatever their wire type.
pub open spec fn count_id(f: Seq<Field>, id: u32) -> nat
    decreases f.len(),
{
    if f.len() == 0 {
        0
    } else {
        count_id(f.drop_last(), id) + if f.last().id == id { 1nat } else { 0nat }
    }
}

pub fn number(f: &Vec<Field>, id: u32) -> (r: Option<u64>)
    ensures
        r == spec_number(f@, id),
{
    let mut i = f.len();
    proof { assert(f@.take(f@.len() as int) == f@); }
    while i > 0
        invariant
            i <= f@.len(),
            spec_number(f@, id) == spec_number(f@.take(i as int), id),
        decreases i,
    {
        let field = f[i - 1];
        proof { assert(f@.take(i as int).drop_last() == f@.take(i - 1)); }
        match field.value {
            WireValue::Varint(n) => {
                if field.id == id {
                    return Some(n);
                }
            }
            _ => {}
        }
        i = i - 1;
    }
    None
}

pub fn bytes(f: &Vec<Field>, id: u32) -> (r: Option<(usize, usize)>)
    ensures
        r == spec_bytes(f@, id),
{
    let mut i = f.len();
    proof { assert(f@.take(f@.len() as int) == f@); }
    while i > 0
        invariant
            i <= f@.len(),
            spec_bytes(f@, id) == spec_bytes(f@.take(i as int), id),
        decreases i,
    {
        let field = f[i - 1];
        proof { assert(f@.take(i as int).drop_last() == f@.take(i - 1)); }
        match field.value {
            WireValue::Bytes(a, b) => {
                if field.id == id {
                    return Some((a, b));
                }
            }
            _ => {}
        }
        i = i - 1;
    }
    None
}

pub fn children(f: &Vec<Field>, id: u32) -> (r: Vec<(usize, usize)>)
    ensures
        r@ == spec_children(f@, id),
{
    let mut out: Vec<(usize, usize)> = Vec::new();
    let mut i: usize = 0;
    while i < f.len()
        invariant
            i <= f@.len(),
            out@ == spec_children(f@.take(i as int), id),
        decreases f@.len() - i,
    {
        let field = f[i];
        proof { assert(f@.take(i + 1).drop_last() == f@.take(i as int)); }
        match field.value {
            WireValue::Bytes(a, b) => {
                if field.id == id {
                    out.push((a, b));
                }
            }
            _ => {}
        }
        i = i + 1;
    }
    proof { assert(f@.take(f@.len() as int) == f@); }
    out
}

pub fn count_fields(f: &Vec<Field>, id: u32) -> (r: u64)
    ensures
        r as nat == count_id(f@, id),
{
    let mut n: u64 = 0;
    let mut i: usize = 0;
    while i < f.len()
        invariant
            i <= f@.len(),
            n as nat == count_id(f@.take(i as int), id),
            n <= i,
        decreases f@.len() - i,
    {
        proof { assert(f@.take(i + 1).drop_last() == f@.take(i as int)); }
        if f[i].id == id {
            n = n + 1;
        }
        i = i + 1;
    }
    proof { assert(f@.take(f@.len() as int) == f@); }
    n
}

/// Offsets named by `spec_children` and `spec_bytes` lie inside the buffer.
pub proof fn lemma_children_within(f: Seq<Field>, id: u32, len: nat)
    requires
        ranges_within(f, len),
    ensures
        forall|i: int| 0 <= i < spec_children(f, id).len() ==> (#[trigger] spec_children(f, id)[i]).0 <= spec_children(f, id)[i].1 <= len,
        spec_bytes(f, id) matches Some((a, b)) ==> a <= b <= len,
    decreases f.len(),
{
    if f.len() > 0 {
        let g = f.drop_last();
        assert(ranges_within(g, len)) by {
            assert forall|i: int| 0 <= i < g.len() implies value_within((#[trigger] g[i]).value, len) by {
                assert(g[i] == f[i]);
            }
        }
        lemma_children_within(g, id, len);
        assert(f.last() == f[f.len() - 1]);
        assert(value_within(f[f.len() - 1].value, len));
        let c = spec_children(f, id);
        let cg = spec_children(g, id);
        assert forall|i: int| 0 <= i < c.len() implies (#[trigger] c[i]).0 <= c[i].1 <= len by {
            if i < cg.len() {
                assert(c[i] == cg[i]);
            }
        }
    }
}

} // verus!
