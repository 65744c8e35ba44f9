//! Permissive decoding of raw bytes into units that keep every byte.

use vstd::prelude::*;
use vstd::utf8::*;

verus! {

/// One unit of a decoded byte string. `InvalidByte` units are kept in the trace forever but never
/// take part in later stages.
#[derive(Clone, Copy, PartialEq, Eq, Debug)]
pub enum Unit {
    /// A Unicode scalar value.
    Scalar(char),
    /// A code point in the surrogate range, from a three-byte sequence.
    Surrogate(u32),
    /// A single byte that could not be decoded; the byte value is its identity.
    InvalidByte(u8),
}

impl Unit {
    /// The character of a scalar unit.
    pub fn as_char(self) -> (r: Option<char>)
        ensures
            r == (match self {
                Unit::Scalar(c) => Some(c),
                _ => None,
            }),
    {
        match self {
            Unit::Scalar(c) => Some(c),
            _ => None,
        }
    }

    /// The number of a scalar unit.
    pub fn scalar_u32(self) -> (r: Option<u32>)
        ensures
            r == (match self {
                Unit::Scalar(c) => Some(c as u32),
                _ => None,
            }),
    {
        match self {
            Unit::Scalar(c) => Some(c as u32),
            _ => None,
        }
    }
}

/// The bytes begin with a three-byte sequence that decodes to a surrogate.
pub open spec fn begins_with_surrogate(bytes: Seq<u8>) -> bool {
    &&& bytes.len() >= 3
    &&& is_leading_byte_width_3(bytes[0])
    &&& is_continuation_byte(bytes[1])
    &&& is_continuation_byte(bytes[2])
    &&& 0xD800 <= codepoint_width_3(bytes[0], bytes[1], bytes[2]) <= 0xDFFF
}

/// The first unit of a non-empty byte string: the scalar that it begins with, if it begins with
/// well-formed UTF-8; else the surrogate that it begins with; else its first byte.
pub open spec fn first_unit(bytes: Seq<u8>) -> Unit
    recommends
        bytes.len() > 0,
{
    if valid_first_scalar(bytes) {
        Unit::Scalar(decode_first_scalar(bytes) as char)
    } else if begins_with_surrogate(bytes) {
        Unit::Surrogate(codepoint_width_3(bytes[0], bytes[1], bytes[2]))
    } else {
        Unit::InvalidByte(bytes[0])
    }
}

/// The number of bytes of the first unit.
pub open spec fn first_unit_len(bytes: Seq<u8>) -> int
    recommends
        bytes.len() > 0,
{
    if valid_first_scalar(bytes) {
        length_of_first_scalar(bytes)
    } else if begins_with_surrogate(bytes) {
        3
    } else {
        1
    }
}

/// The units of a byte string.
pub open spec fn units_of(bytes: Seq<u8>) -> Seq<Unit>
    decreases bytes.len(),
{
    if bytes.len() == 0 {
        seq![]
    } else {
        seq![first_unit(bytes)] + units_of(bytes.skip(first_unit_len(bytes)))
    }
}

/// A character as a unit.
pub open spec fn scalar_unit(c: char) -> Unit {
    Unit::Scalar(c)
}

/// Characters as units.
pub open spec fn scalar_units(chars: Seq<char>) -> Seq<Unit> {
    Seq::new(chars.len(), |i: int| scalar_unit(chars[i]))
}

/// The bytes that a unit stands for.
pub open spec fn unit_bytes(u: Unit) -> Seq<u8> {
    match u {
        Unit::Scalar(c) => encode_scalar(c as u32),
        Unit::Surrogate(cp) => seq![
            leading_byte_width_3(cp),
            second_last_continuation_byte(cp),
            last_continuation_byte(cp),
        ],
        Unit::InvalidByte(b) => seq![b],
    }
}

/// The bytes that a sequence of units stands for.
pub open spec fn units_bytes(units: Seq<Unit>) -> Seq<u8>
    decreases units.len(),
{
    if units.len() == 0 {
        seq![]
    } else {
        unit_bytes(units[0]) + units_bytes(units.drop_first())
    }
}

/// The largest code points of one, two and three bytes.
pub proof fn lemma_codepoint_bounds(b1: u8, b2: u8, b3: u8)
    ensures
        codepoint_width_1(b1) <= 0x7f,
        codepoint_width_2(b1, b2) <= 0x7ff,
        codepoint_width_3(b1, b2, b3) <= 0xffff,
{
    assert((b1 & 0x7F) as u32 <= 0x7f) by (bit_vector);
    assert((((b1 & 0x1F) as u32) << 6) | ((b2 & 0x3f) as u32) <= 0x7ff) by (bit_vector);
    assert((((b1 & 0x0F) as u32) << 12) | (((b2 & 0x3f) as u32) << 6) | ((b3 & 0x3f) as u32)
        <= 0xffff) by (bit_vector);
}

/// A decoded first scalar is a scalar value.
pub proof fn lemma_first_scalar_is_scalar(bytes: Seq<u8>)
    requires
        valid_first_scalar(bytes),
    ensures
        is_scalar(decode_first_scalar(bytes)),
        1 <= length_of_first_scalar(bytes) <= 4,
        length_of_first_scalar(bytes) <= bytes.len(),
{
    let b2 = if bytes.len() > 1 { bytes[1] } else { 0 };
    let b3 = if bytes.len() > 2 { bytes[2] } else { 0 };
    lemma_codepoint_bounds(bytes[0], b2, b3);
}

/// Decodes the unit at position `i`; gives the unit and its number of bytes.
fn unit_at(bytes: &[u8], i: usize) -> (r: (Unit, usize))
    requires
        i < bytes@.len(),
    ensures
        r.0 == first_unit(bytes@.skip(i as int)),
        r.1 == first_unit_len(bytes@.skip(i as int)),
        1 <= r.1 <= bytes@.len() - i,
{
    let ghost rest = bytes@.skip(i as int);
    let left: usize = bytes.len() - i;
    let b0 = bytes[i];
    let b1: u8 = if left > 1 { bytes[i + 1] } else { 0 };
    let b2: u8 = if left > 2 { bytes[i + 2] } else { 0 };
    let b3: u8 = if left > 3 { bytes[i + 3] } else { 0 };
    proof {
        lemma_codepoint_bounds(b0, b1, b2);
        if valid_first_scalar(rest) {
            lemma_first_scalar_is_scalar(rest);
        }
    }
    let c1 = left > 1 && 0x80 <= b1 && b1 <= 0xbf;
    let c2 = left > 2 && 0x80 <= b2 && b2 <= 0xbf;
    let c3 = left > 3 && 0x80 <= b3 && b3 <= 0xbf;
    if b0 <= 0x7f {
        let cp: u32 = (b0 & 0x7F) as u32;
        if let Some(c) = char::from_u32(cp) {
            return (Unit::Scalar(c), 1);
        }
    } else if 0xc0 <= b0 && b0 <= 0xdf && c1 {
        let cp: u32 = (((b0 & 0x1F) as u32) << 6) | ((b1 & 0x3f) as u32);
        if cp >= 0x80 {
            if let Some(c) = char::from_u32(cp) {
                return (Unit::Scalar(c), 2);
            }
        }
    } else if 0xe0 <= b0 && b0 <= 0xef && c1 && c2 {
        let cp: u32 = (((b0 & 0x0F) as u32) << 12) | (((b1 & 0x3f) as u32) << 6) | ((b2 & 0x3f) as u32);
        if 0xd800 <= cp && cp <= 0xdfff {
            return (Unit::Surrogate(cp), 3);
        }
        if cp >= 0x800 {
            if let Some(c) = char::from_u32(cp) {
                return (Unit::Scalar(c), 3);
            }
        }
    } else if 0xf0 <= b0 && b0 <= 0xf7 && c1 && c2 && c3 {
        let cp: u32 = (((b0 & 0x07) as u32) << 18) | (((b1 & 0x3f) as u32) << 12) | (((b2 & 0x3f)
            as u32) << 6) | ((b3 & 0x3f) as u32);
        if 0x10000 <= cp && cp <= 0x10ffff {
            if let Some(c) = char::from_u32(cp) {
                return (Unit::Scalar(c), 4);
            }
        }
    }
    (Unit::InvalidByte(b0), 1)
}

/// Decodes permissively. Valid UTF-8 sequences become `Scalar`; three-byte sequences that decode
/// to the surrogate range become `Surrogate`; every malformed or truncated byte becomes its own
/// `InvalidByte`.
pub fn permissive_decode(bytes: &[u8]) -> (r: Vec<Unit>)
    ensures
        r@ == units_of(bytes@),
{
    let mut out: Vec<Unit> = Vec::new();
    let mut i: usize = 0;
    proof {
        assert(bytes@.skip(0) =~= bytes@);
        assert(out@ + units_of(bytes@) =~= units_of(bytes@));
    }
    while i < bytes.len()
        invariant
            i <= bytes@.len(),
            out@ + units_of(bytes@.skip(i as int)) == units_of(bytes@),
        decreases bytes@.len() - i,
    {
        let (u, n) = unit_at(bytes, i);
        let ghost before = out@;
        out.push(u);
        proof {
            let rest = bytes@.skip(i as int);
            assert(rest.skip(n as int) =~= bytes@.skip(i + n));
            assert(out@ + units_of(bytes@.skip(i + n)) =~= before + (seq![u] + units_of(
                rest.skip(n as int),
            )));
        }
        i += n;
    }
    proof {
        assert(bytes@.skip(i as int).len() == 0);
        assert(out@ + units_of(bytes@.skip(i as int)) =~= out@);
    }
    out
}

proof fn lemma_surrogate_bytes(b1: u8, b2: u8, b3: u8)
    requires
        is_leading_byte_width_3(b1),
        is_continuation_byte(b2),
        is_continuation_byte(b3),
    ensures
        ({
            let c = codepoint_width_3(b1, b2, b3);
            &&& leading_byte_width_3(c) == b1
            &&& second_last_continuation_byte(c) == b2
            &&& last_continuation_byte(c) == b3
        }),
{
    let c = codepoint_width_3(b1, b2, b3);
    assert(c == (((b1 & 0x0F) as u32) << 12) | (((b2 & 0x3f) as u32) << 6) | ((b3 & 0x3f) as u32));
    assert(0xE0u8 | ((c >> 12) & 0x0F) as u8 == b1) by (bit_vector)
        requires
            c == (((b1 & 0x0F) as u32) << 12) | (((b2 & 0x3f) as u32) << 6) | ((b3 & 0x3f) as u32),
            0xe0 <= b1 <= 0xef,
    ;
    assert(0x80u8 | ((c >> 6) & 0x3F) as u8 == b2) by (bit_vector)
        requires
            c == (((b1 & 0x0F) as u32) << 12) | (((b2 & 0x3f) as u32) << 6) | ((b3 & 0x3f) as u32),
            0x80 <= b2 <= 0xbf,
    ;
    assert(0x80u8 | (c & 0x3F) as u8 == b3) by (bit_vector)
        requires
            c == (((b1 & 0x0F) as u32) << 12) | (((b2 & 0x3f) as u32) << 6) | ((b3 & 0x3f) as u32),
            0x80 <= b3 <= 0xbf,
    ;
}

/// A single scalar's bytes are well-formed UTF-8, and encode back to themselves.
pub proof fn lemma_first_scalar_bytes(bytes: Seq<u8>)
    requires
        valid_first_scalar(bytes),
    ensures
        encode_scalar((decode_first_scalar(bytes) as char) as u32) == bytes.take(
            length_of_first_scalar(bytes),
        ),
{
    lemma_first_scalar_is_scalar(bytes);
    let head = bytes.take(length_of_first_scalar(bytes));
    assert(head.len() == length_of_first_scalar(bytes));
    assert(valid_first_scalar(head));
    assert(pop_first_scalar(head).len() == 0);
    assert(valid_utf8(pop_first_scalar(head)));
    assert(valid_utf8(head));
    decode_utf8_first_scalar(head);
    assert(take_first_scalar(head) =~= head);
}

/// Decoding keeps every byte: the units of a byte string stand for exactly its bytes.
pub proof fn decoding_keeps_every_byte(bytes: Seq<u8>)
    ensures
        units_bytes(units_of(bytes)) == bytes,
    decreases bytes.len(),
{
    if bytes.len() > 0 {
        let n = first_unit_len(bytes);
        if valid_first_scalar(bytes) {
            lemma_first_scalar_is_scalar(bytes);
            lemma_first_scalar_bytes(bytes);
        } else if begins_with_surrogate(bytes) {
            lemma_surrogate_bytes(bytes[0], bytes[1], bytes[2]);
            assert(unit_bytes(first_unit(bytes)) =~= bytes.take(3));
        } else {
            assert(unit_bytes(first_unit(bytes)) =~= bytes.take(1));
        }
        decoding_keeps_every_byte(bytes.skip(n));
        assert(units_of(bytes).drop_first() =~= units_of(bytes.skip(n)));
        assert(bytes.take(n) + bytes.skip(n) =~= bytes);
    }
}

/// Two different byte strings have different units.
pub proof fn decoding_is_injective(a: Seq<u8>, b: Seq<u8>)
    requires
        units_of(a) == units_of(b),
    ensures
        a == b,
{
    decoding_keeps_every_byte(a);
    decoding_keeps_every_byte(b);
}

/// The units of well-formed UTF-8 are its characters.
pub proof fn valid_utf8_decodes_to_scalars(bytes: Seq<u8>)
    requires
        valid_utf8(bytes),
    ensures
        units_of(bytes) == scalar_units(decode_utf8(bytes)),
    decreases bytes.len(),
{
    if bytes.len() == 0 {
        assert(units_of(bytes) =~= scalar_units(decode_utf8(bytes)));
    } else {
        lemma_first_scalar_is_scalar(bytes);
        let rest = pop_first_scalar(bytes);
        assert(rest =~= bytes.skip(first_unit_len(bytes)));
        valid_utf8_decodes_to_scalars(rest);
        assert(units_of(bytes) =~= scalar_units(decode_utf8(bytes)));
    }
}

/// A noncharacter: one of the last two code points of a plane, or of U+FDD0 to U+FDEF.
pub open spec fn noncharacter(cp: u32) -> bool {
    0xfdd0 <= cp <= 0xfdef || cp % 0x10000 == 0xfffe || cp % 0x10000 == 0xffff
}

/// Whether a code point is a noncharacter.
pub fn is_noncharacter(cp: u32) -> (r: bool)
    ensures
        r == noncharacter(cp),
{
    let low = cp % 0x10000;
    (0xfdd0 <= cp && cp <= 0xfdef) || low == 0xfffe || low == 0xffff
}

} // verus!
