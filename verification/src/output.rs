//! Decoding the text that a command left in its output files, which shells write as
//! UTF-8 (with or without a byte order mark) or as UTF-16 with a byte order mark.
use vstd::prelude::*;
use vstd::slice::slice_subrange;
use crate::keyboard::{encode_utf16, utf16_units};
use vstd::arithmetic::div_mod::lemma_fundamental_div_mod;
use vstd::utf8::*;

verus! {

broadcast use vstd::string::group_string_axioms;

/// `char::from_u32` returns the character with the given scalar value, and `None`
/// exactly for surrogates and values above `0x10FFFF`.
pub assume_specification[ core::char::from_u32 ](i: u32) -> (r: Option<char>)
    ensures
        r is Some <==> (i <= 0x10FFFF && !(0xD800 <= i && i <= 0xDFFF)),
        r matches Some(c) ==> c as u32 == i,
;

/// Why captured output could not be decoded.
#[derive(Debug, Clone, Copy, PartialEq, Eq, Structural)]
pub enum DecodeError {
    /// The bytes (after any UTF-8 byte order mark) are not UTF-8.
    InvalidUtf8,
    /// The bytes after a UTF-16 byte order mark are not well-formed UTF-16.
    InvalidUtf16,
}

/// The UTF-16 code units of `bytes`, two bytes each, little-endian or big-endian.
pub open spec fn utf16_code_units(bytes: Seq<u8>, little_endian: bool) -> Seq<u16> {
    Seq::new(
        bytes.len() / 2,
        |i: int|
            if little_endian {
                (bytes[2 * i] + 256 * bytes[2 * i + 1]) as u16
            } else {
                (256 * bytes[2 * i] + bytes[2 * i + 1]) as u16
            },
    )
}

/// Whether a code unit is a leading (high) surrogate.
pub open spec fn is_high_surrogate(unit: u16) -> bool {
    0xD800 <= unit && unit <= 0xDBFF
}

/// Whether a code unit is a trailing (low) surrogate.
pub open spec fn is_low_surrogate(unit: u16) -> bool {
    0xDC00 <= unit && unit <= 0xDFFF
}

/// The characters that well-formed UTF-16 code units encode; `None` when a surrogate
/// is unpaired.
pub open spec fn decode_utf16(units: Seq<u16>) -> Option<Seq<char>>
    decreases units.len(),
{
    if units.len() == 0 {
        Some(seq![])
    } else {
        let u = units[0];
        if !is_high_surrogate(u) && !is_low_surrogate(u) {
            match decode_utf16(units.drop_first()) {
                Some(rest) => Some(seq![(u as u32) as char] + rest),
                None => None,
            }
        } else if is_high_surrogate(u) && units.len() >= 2 && is_low_surrogate(units[1]) {
            let scalar = (0x10000 + (u - 0xD800) * 0x400 + (units[1] - 0xDC00)) as u32;
            match decode_utf16(units.subrange(2, units.len() as int)) {
                Some(rest) => Some(seq![scalar as char] + rest),
                None => None,
            }
        } else {
            None
        }
    }
}

/// The text of captured output: a UTF-16 byte order mark (`FF FE` or `FE FF`) selects
/// UTF-16 in that byte order, a UTF-8 byte order mark is dropped, and anything else is
/// read as UTF-8.
pub open spec fn output_text(bytes: Seq<u8>) -> Result<Seq<char>, DecodeError> {
    if bytes.len() >= 2 && ((bytes[0] == 0xFF && bytes[1] == 0xFE) || (bytes[0] == 0xFE
        && bytes[1] == 0xFF)) {
        let body = bytes.subrange(2, bytes.len() as int);
        if body.len() % 2 != 0 {
            Err(DecodeError::InvalidUtf16)
        } else {
            match decode_utf16(utf16_code_units(body, bytes[0] == 0xFF)) {
                Some(text) => Ok(text),
                None => Err(DecodeError::InvalidUtf16),
            }
        }
    } else {
        let body = if bytes.len() >= 3 && bytes[0] == 0xEF && bytes[1] == 0xBB && bytes[2]
            == 0xBF {
            bytes.subrange(3, bytes.len() as int)
        } else {
            bytes
        };
        if valid_utf8(body) {
            Ok(decode_utf8(body))
        } else {
            Err(DecodeError::InvalidUtf8)
        }
    }
}

/// Appends `tail` to `head` when there is a tail.
pub open spec fn after(head: Seq<char>, tail: Option<Seq<char>>) -> Option<Seq<char>> {
    match tail {
        Some(rest) => Some(head + rest),
        None => None,
    }
}

fn code_unit(body: &[u8], index: usize, little_endian: bool) -> (r: u16)
    requires
        2 * index + 1 < body@.len(),
    ensures
        r == utf16_code_units(body@, little_endian)[index as int],
{
    assert(body@.len() == body.len());
    let at = 2 * index;
    let first = body[at] as u16;
    let second = body[at + 1] as u16;
    if little_endian {
        first + 256 * second
    } else {
        256 * first + second
    }
}

/// Decodes UTF-16 text of the given byte order.
pub fn decode_utf16_bytes(body: &[u8], little_endian: bool) -> (r: Option<String>)
    requires
        body@.len() % 2 == 0,
    ensures
        match decode_utf16(utf16_code_units(body@, little_endian)) {
            Some(text) => r matches Some(s) && s@ == text,
            None => r is None,
        },
{
    let ghost units = utf16_code_units(body@, little_endian);
    let count = body.len() / 2;
    let mut text = String::new();
    let mut i: usize = 0;
    assert(units.skip(0) =~= units);
    while i < count
        invariant
            units == utf16_code_units(body@, little_endian),
            count == units.len(),
            body@.len() == 2 * count,
            0 <= i <= count,
            decode_utf16(units) == after(text@, decode_utf16(units.skip(i as int))),
        decreases count - i,
    {
        let ghost rest = units.skip(i as int);
        let unit = code_unit(body, i, little_endian);
        assert(rest[0] == unit);
        if unit < 0xD800 || unit > 0xDFFF {
            let c = match core::char::from_u32(unit as u32) {
                Some(c) => c,
                None => return None,
            };
            let ghost before = text@;
            text.push(c);
            proof {
                char_u32_cast(c, unit as u32);
            }
            assert(rest.drop_first() =~= units.skip(i + 1));
            assert(text@ =~= before + seq![(unit as u32) as char]);
            assert(decode_utf16(units) == after(text@, decode_utf16(units.skip(i + 1)))) by {
                match decode_utf16(units.skip(i + 1)) {
                    Some(tail) => {
                        assert(before + (seq![(unit as u32) as char] + tail) =~= text@ + tail);
                    },
                    None => {},
                }
            }
            i = i + 1;
        } else if unit <= 0xDBFF && i + 1 < count {
            let next = code_unit(body, i + 1, little_endian);
            assert(rest[1] == next);
            if next < 0xDC00 || next > 0xDFFF {
                return None;
            }
            let scalar = 0x10000 + (unit as u32 - 0xD800) * 0x400 + (next as u32 - 0xDC00);
            let c = match core::char::from_u32(scalar) {
                Some(c) => c,
                None => return None,
            };
            let ghost before = text@;
            text.push(c);
            proof {
                char_u32_cast(c, scalar);
            }
            assert(rest.subrange(2, rest.len() as int) =~= units.skip(i + 2));
            assert(text@ =~= before + seq![scalar as char]);
            assert(decode_utf16(units) == after(text@, decode_utf16(units.skip(i + 2)))) by {
                match decode_utf16(units.skip(i + 2)) {
                    Some(tail) => {
                        assert(before + (seq![scalar as char] + tail) =~= text@ + tail);
                    },
                    None => {},
                }
            }
            i = i + 2;
        } else {
            return None;
        }
    }
    assert(units.skip(i as int) =~= Seq::<u16>::empty());
    assert(text@ + Seq::<char>::empty() =~= text@);
    Some(text)
}

/// Decodes the text of captured output, following its byte order mark.
pub fn decode_text(bytes: &[u8]) -> (r: Result<String, DecodeError>)
    ensures
        match output_text(bytes@) {
            Ok(text) => r matches Ok(s) && s@ == text,
            Err(e) => r matches Err(found) && found == e,
        },
{
    let n = bytes.len();
    if n >= 2 && ((bytes[0] == 0xFF && bytes[1] == 0xFE) || (bytes[0] == 0xFE && bytes[1] == 0xFF)) {
        let body = slice_subrange(bytes, 2, n);
        if body.len() % 2 != 0 {
            return Err(DecodeError::InvalidUtf16);
        }
        match decode_utf16_bytes(body, bytes[0] == 0xFF) {
            Some(text) => Ok(text),
            None => Err(DecodeError::InvalidUtf16),
        }
    } else {
        let body = if n >= 3 && bytes[0] == 0xEF && bytes[1] == 0xBB && bytes[2] == 0xBF {
            slice_subrange(bytes, 3, n)
        } else {
            bytes
        };
        match crate::text::utf8_text(body) {
            Some(text) => Ok(text),
            None => Err(DecodeError::InvalidUtf8),
        }
    }
}

proof fn lemma_leading_byte_below_fe(scalar: u32)
    requires
        is_scalar(scalar),
    ensures
        encode_scalar(scalar)[0] < 0xFE,
{
    if has_width_1_encoding(scalar) {
        assert(leading_byte_width_1(scalar) < 0xFE) by (bit_vector)
            requires
                scalar <= 0x7F,
        ;
    } else if has_width_2_encoding(scalar) {
        assert(leading_byte_width_2(scalar) < 0xFE) by (bit_vector);
    } else if has_width_3_encoding(scalar) {
        assert(leading_byte_width_3(scalar) < 0xFE) by (bit_vector);
    } else {
        assert(leading_byte_width_4(scalar) < 0xFE) by (bit_vector);
    }
}

proof fn lemma_byte_order_mark_scalar(b1: u8, b2: u8, b3: u8)
    by (bit_vector)
    requires
        b1 == 0xEF && b2 == 0xBB && b3 == 0xBF,
    ensures
        codepoint_width_3(b1, b2, b3) == 0xFEFF,
{
}

/// Law: output written as UTF-8 without a byte order mark is read back as exactly the
/// text written, whenever that text does not itself start with U+FEFF.
pub proof fn utf8_output_reads_back(text: Seq<char>)
    requires
        text.len() == 0 || text[0] != '\u{FEFF}',
    ensures
        output_text(encode_utf8(text)) == Ok::<Seq<char>, DecodeError>(text),
{
    let bytes = encode_utf8(text);
    encode_utf8_valid_utf8(text);
    encode_utf8_decode_utf8(text);
    if text.len() > 0 {
        encode_utf8_first_scalar(text);
        char_is_scalar(text[0]);
        lemma_leading_byte_below_fe(text[0] as u32);
        assert(bytes[0] == encode_scalar(text[0] as u32)[0]);
        if bytes.len() >= 3 && bytes[0] == 0xEF && bytes[1] == 0xBB && bytes[2] == 0xBF {
            lemma_byte_order_mark_scalar(bytes[0], bytes[1], bytes[2]);
            assert(decode_first_scalar(bytes) == 0xFEFF);
            char_u32_cast(text[0], 0xFEFF);
            char_u32_cast('\u{FEFF}', 0xFEFF);
            assert(false);
        }
    }
}

/// Law: output written as UTF-8 after a UTF-8 byte order mark is read back as exactly
/// the text written, without the mark.
pub proof fn utf8_output_after_byte_order_mark_reads_back(text: Seq<char>)
    ensures
        output_text(seq![0xEFu8, 0xBBu8, 0xBFu8] + encode_utf8(text)) == Ok::<
            Seq<char>,
            DecodeError,
        >(text),
{
    let bytes = seq![0xEFu8, 0xBBu8, 0xBFu8] + encode_utf8(text);
    encode_utf8_valid_utf8(text);
    encode_utf8_decode_utf8(text);
    assert(bytes[0] == 0xEF && bytes[1] == 0xBB && bytes[2] == 0xBF);
    assert(bytes.subrange(3, bytes.len() as int) =~= encode_utf8(text));
}

/// The bytes of UTF-16 code units, two per unit: low byte first when `little_endian`,
/// high byte first otherwise.
pub open spec fn utf16_bytes(units: Seq<u16>, little_endian: bool) -> Seq<u8> {
    Seq::new(
        2 * units.len(),
        |i: int|
            if (i % 2 == 0) == little_endian {
                (units[i / 2] % 256) as u8
            } else {
                (units[i / 2] / 256) as u8
            },
    )
}

/// Law: output written as UTF-16 in either byte order, after the byte order mark of
/// that order, is read back as exactly the text written.
pub proof fn utf16_output_reads_back(text: Seq<char>, little_endian: bool)
    ensures
        output_text(
            (if little_endian {
                seq![0xFFu8, 0xFEu8]
            } else {
                seq![0xFEu8, 0xFFu8]
            }) + utf16_bytes(encode_utf16(text), little_endian),
        ) == Ok::<Seq<char>, DecodeError>(text),
{
    let units = encode_utf16(text);
    let mark = if little_endian {
        seq![0xFFu8, 0xFEu8]
    } else {
        seq![0xFEu8, 0xFFu8]
    };
    let body = utf16_bytes(units, little_endian);
    let bytes = mark + body;
    assert(bytes[0] == mark[0] && bytes[1] == mark[1]);
    assert(bytes.subrange(2, bytes.len() as int) =~= body);
    assert(body.len() % 2 == 0);
    assert forall|i: int| 0 <= i < units.len() implies #[trigger] utf16_code_units(
        body,
        little_endian,
    )[i] == units[i] by {
        let u = units[i];
        assert((2 * i) / 2 == i && (2 * i) % 2 == 0);
        assert((2 * i + 1) / 2 == i && (2 * i + 1) % 2 == 1);
        assert(body[2 * i] == if little_endian { (u % 256) as u8 } else { (u / 256) as u8 });
        assert(body[2 * i + 1] == if little_endian { (u / 256) as u8 } else { (u % 256) as u8 });
        assert(u % 256 + 256 * (u / 256) == u);
    }
    assert(utf16_code_units(body, little_endian) =~= units);
    utf16_decoding_undoes_encoding(text);
}

proof fn lemma_encode_utf16_concat(a: Seq<char>, b: Seq<char>)
    ensures
        encode_utf16(a + b) == encode_utf16(a) + encode_utf16(b),
    decreases b.len(),
{
    if b.len() == 0 {
        assert(a + b =~= a);
        assert(encode_utf16(a) + encode_utf16(b) =~= encode_utf16(a));
    } else {
        lemma_encode_utf16_concat(a, b.drop_last());
        assert((a + b).drop_last() =~= a + b.drop_last());
        assert((a + b).last() == b.last());
        assert(encode_utf16(a + b) =~= encode_utf16(a) + encode_utf16(b));
    }
}

proof fn lemma_decode_char(c: char, rest: Seq<u16>)
    ensures
        decode_utf16(utf16_units(c) + rest) == after(seq![c], decode_utf16(rest)),
{
    char_is_scalar(c);
    let v = c as u32;
    let units = utf16_units(c) + rest;
    if v < 0x10000 {
        char_u32_cast(c, v);
        assert(units[0] == v as u16);
        assert(units.drop_first() =~= rest);
    } else {
        let w = v - 0x10000;
        assert(w < 0x100000);
        lemma_fundamental_div_mod(w as int, 0x400);
        let high = (0xD800 + w / 0x400) as u16;
        let low = (0xDC00 + w % 0x400) as u16;
        assert(0 <= w % 0x400 < 0x400);
        assert(w / 0x400 < 0x400);
        assert(units[0] == high && units[1] == low);
        assert(is_high_surrogate(high) && is_low_surrogate(low));
        assert(units.subrange(2, units.len() as int) =~= rest);
        let scalar = (0x10000 + (high - 0xD800) * 0x400 + (low - 0xDC00)) as u32;
        assert(scalar == v);
        char_u32_cast(c, v);
    }
}

/// Law: decoding the UTF-16 encoding of any text gives the text back, so output that
/// a shell writes as UTF-16 is read exactly.
pub proof fn utf16_decoding_undoes_encoding(chars: Seq<char>)
    ensures
        decode_utf16(encode_utf16(chars)) == Some(chars),
    decreases chars.len(),
{
    if chars.len() == 0 {
        assert(encode_utf16(chars) =~= Seq::<u16>::empty());
    } else {
        let first = seq![chars[0]];
        let rest = chars.drop_first();
        assert(chars =~= first + rest);
        lemma_encode_utf16_concat(first, rest);
        assert(first.drop_last() =~= Seq::<char>::empty());
        assert(first.last() == chars[0]);
        assert(encode_utf16(Seq::<char>::empty()) == Seq::<u16>::empty());
        assert(encode_utf16(first) == encode_utf16(first.drop_last()) + utf16_units(first.last()));
        assert(encode_utf16(first) =~= utf16_units(chars[0]));
        utf16_decoding_undoes_encoding(rest);
        lemma_decode_char(chars[0], encode_utf16(rest));
        assert(first + rest =~= chars);
    }
}

} // verus!
