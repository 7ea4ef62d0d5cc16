use vstd::prelude::*;
use vstd::utf8::{decode_utf8, valid_utf8};
use crate::decimal::{
    all_plain, decimal_magnitude, decimal_outcome, decimal_units, digits_value, fixed_text,
    format_units, format_wide, is_decimal, is_digit, is_negative, lemma_fixed_text_shape,
    lemma_scaled_round_close, magnitude_units, mantissa_digits, parse_decimal, rounds_to,
    scaled_round, unit_shift, wide_cap, NumberError,
};
use crate::text::{byte_text, bytes_to_text, chars_of, push_char, trim_text, trimmed, utf8_string};

verus! {

/// A measured value, held exactly as a whole number of `10^-8` units. Its magnitude is thus
/// at most about `9.22e10`; a text beyond that reads as `NumberError::OutOfRange`.
#[derive(PartialEq, Eq, Structural, Clone, Copy, Debug)]
pub struct Reading {
    pub units: i64,
}

impl Reading {
    pub fn from_units(units: i64) -> (r: Reading)
        ensures
            r.units == units,
    {
        Reading { units }
    }

    pub fn units(&self) -> (r: i64)
        ensures
            r == self.units,
    {
        self.units
    }

    pub fn is_zero(&self) -> (r: bool)
        ensures
            r == (self.units == 0),
    {
        self.units == 0
    }

    /// The value in fixed notation with eight fractional digits.
    pub fn to_fixed_text(&self) -> (r: String)
        ensures
            r@ == fixed_text(self.units as int),
    {
        format_units(self.units)
    }
}

/// Why a frame could not be turned into plain decimal text.
#[derive(PartialEq, Eq, Structural, Clone, Copy, Debug)]
pub enum NormalizationError {
    /// The frame has an exponent marker but is not UTF-8.
    InvalidEncoding,
    /// The frame has an exponent marker but its trimmed text is not a number.
    MalformedNumber,
}

pub open spec fn is_marker_byte(b: u8) -> bool {
    b == 69u8 || b == 101u8
}

/// The bytes hold an ASCII `E` or `e`.
pub open spec fn has_exponent_marker(b: Seq<u8>) -> bool {
    exists|i: int| 0 <= i < b.len() && is_marker_byte(#[trigger] b[i])
}

/// The text of a magnitude of `2^128` or more, past every finite float.
pub open spec fn infinity_text(negative: bool) -> Seq<char> {
    if negative {
        seq!['-', 'i', 'n', 'f']
    } else {
        seq!['i', 'n', 'f']
    }
}

/// The fixed-notation text of a number already stripped of surrounding white space, rounded
/// at the eighth fractional place; a magnitude of `2^128` or more, past every finite float,
/// reads as infinite.
pub open spec fn reformatted(t: Seq<char>) -> Result<Seq<char>, NormalizationError> {
    if !is_decimal(t) {
        Err(NormalizationError::MalformedNumber)
    } else if magnitude_units(t) < wide_cap() {
        Ok(fixed_text(decimal_units(t)))
    } else {
        Ok(infinity_text(is_negative(t)))
    }
}

/// What normalizing a sanitized frame gives: scientific notation rewritten in fixed notation,
/// anything else passed through byte for byte.
pub open spec fn normalized(b: Seq<u8>) -> Result<Seq<char>, NormalizationError> {
    if !has_exponent_marker(b) {
        Ok(byte_text(b))
    } else if !valid_utf8(b) {
        Err(NormalizationError::InvalidEncoding)
    } else {
        reformatted(trimmed(decode_utf8(b)))
    }
}

pub open spec fn text_result<E>(r: Result<String, E>) -> Result<Seq<char>, E> {
    match r {
        Ok(s) => Ok(s@),
        Err(e) => Err(e),
    }
}

pub open spec fn reading_outcome(t: Seq<char>) -> Result<Reading, NumberError> {
    match decimal_outcome(t) {
        Ok(u) => Ok(Reading { units: u }),
        Err(e) => Err(e),
    }
}

/// Whether `b` holds an ASCII `E` or `e`.
pub fn contains_exponent_marker(b: &Vec<u8>) -> (r: bool)
    ensures
        r == has_exponent_marker(b@),
{
    let mut i: usize = 0;
    while i < b.len()
        invariant
            i <= b@.len(),
            forall|j: int| 0 <= j < i ==> !is_marker_byte(#[trigger] b@[j]),
        decreases b@.len() - i,
    {
        if b[i] == 69u8 || b[i] == 101u8 {
            return true;
        }
        i = i + 1;
    }
    false
}

/// Rewrites a number, already stripped of surrounding white space, in fixed notation with
/// eight fractional digits.
pub fn reformat(t: &Vec<char>) -> (r: Result<String, NormalizationError>)
    ensures
        text_result(r) == reformatted(t@),
{
    match decimal_magnitude(t) {
        None => Err(NormalizationError::MalformedNumber),
        Some((negative, None)) => {
            let mut r = String::new();
            if negative {
                push_char(&mut r, '-');
            }
            push_char(&mut r, 'i');
            push_char(&mut r, 'n');
            push_char(&mut r, 'f');
            assert(r@ =~= infinity_text(negative));
            Ok(r)
        },
        Some((negative, Some((high, low)))) => {
            assert(decimal_units(t@) == if negative {
                -(high * 100_000_000 + low)
            } else {
                high * 100_000_000 + low
            });
            Ok(format_wide(negative, high, low))
        },
    }
}

/// Normalizes a sanitized frame: where it holds an exponent marker it must be UTF-8 whose
/// trimmed text is a number, which comes back in fixed notation with eight fractional
/// digits; otherwise each byte becomes the character with that code.
pub fn normalize(b: &Vec<u8>) -> (r: Result<String, NormalizationError>)
    ensures
        text_result(r) == normalized(b@),
{
    if !contains_exponent_marker(b) {
        return Ok(bytes_to_text(b));
    }
    match utf8_string(b) {
        None => Err(NormalizationError::InvalidEncoding),
        Some(s) => {
            let t = trim_text(&s);
            let cs = chars_of(t.as_str());
            reformat(&cs)
        },
    }
}

/// The bytes of a text whose characters all have codes below 256, in order.
fn ascii_bytes(s: &String) -> (r: Vec<u8>)
    ensures
        r@ == text_bytes(s@),
{
    let cs = chars_of(s.as_str());
    let mut r: Vec<u8> = Vec::new();
    let mut i: usize = 0;
    while i < cs.len()
        invariant
            cs@ == s@,
            i <= cs@.len(),
            r@ == text_bytes(s@.take(i as int)),
        decreases cs@.len() - i,
    {
        r.push(cs[i] as u8);
        i = i + 1;
        assert(text_bytes(s@.take(i as int)) == text_bytes(s@.take(i - 1)).push(s@[i - 1] as u8));
    }
    assert(s@.take(s@.len() as int) == s@);
    r
}

/// Rewrites bytes in scientific notation in fixed notation with eight fractional digits, as
/// bytes; any other input, or one that fails to normalize, comes back unchanged.
pub fn normalize_bytes(input: &Vec<u8>) -> (r: Vec<u8>)
    ensures
        r@ == if has_exponent_marker(input@) && normalized(input@) is Ok {
            text_bytes(normalized(input@)->Ok_0)
        } else {
            input@
        },
{
    if !contains_exponent_marker(input) {
        return input.clone();
    }
    match normalize(input) {
        Ok(s) => ascii_bytes(&s),
        Err(_) => input.clone(),
    }
}

/// Reads a measurement from its text, which must be a decimal number with nothing around it.
pub fn parse_reading(text: &str) -> (r: Result<Reading, NumberError>)
    ensures
        r == reading_outcome(text@),
{
    let cs = chars_of(text);
    match parse_decimal(&cs) {
        Ok(u) => Ok(Reading { units: u }),
        Err(e) => Err(e),
    }
}


/// The bytes of a text whose characters all have codes below 256.
pub open spec fn text_bytes(s: Seq<char>) -> Seq<u8> {
    s.map_values(|c: char| c as u8)
}

/// Normalizing is idempotent: the bytes of a normalized text normalize to that same text,
/// since it holds no exponent marker.
pub proof fn lemma_normalize_idempotent(b: Seq<u8>)
    requires
        normalized(b) is Ok,
    ensures
        normalized(text_bytes(normalized(b)->Ok_0)) == normalized(b),
{
    let s = normalized(b)->Ok_0;
    let c = text_bytes(s);
    if !has_exponent_marker(b) {
        assert forall|i: int| 0 <= i < b.len() implies #[trigger] c[i] == b[i] by {
            assert(s[i] == (b[i] as char));
        }
        assert(c == b);
    } else if s == infinity_text(is_negative(trimmed(decode_utf8(b)))) {
        assert forall|i: int| 0 <= i < c.len() implies !is_marker_byte(#[trigger] c[i]) by {
            assert(c[i] == s[i] as u8);
        }
        assert(!has_exponent_marker(c));
        assert forall|i: int| 0 <= i < s.len() implies #[trigger] byte_text(c)[i] == s[i] by {
            assert(c[i] == s[i] as u8);
        }
        assert(byte_text(c) == s);
    } else {
        let u = decimal_units(trimmed(decode_utf8(b)));
        assert(s == fixed_text(u));
        lemma_fixed_text_shape(u);
        assert(all_plain(s));
        assert forall|i: int| 0 <= i < c.len() implies !is_marker_byte(#[trigger] c[i]) by {
            assert(c[i] == s[i] as u8);
        }
        assert(!has_exponent_marker(c));
        assert forall|i: int| 0 <= i < s.len() implies #[trigger] byte_text(c)[i] == s[i] by {
            assert(c[i] == s[i] as u8);
        }
        assert(byte_text(c) == s);
    }
}

/// Normalizing fails only where the frame has an exponent marker and either is not UTF-8 or
/// its trimmed text is not a number.
pub proof fn lemma_normalize_failures(b: Seq<u8>)
    ensures
        normalized(b) is Err <==> has_exponent_marker(b) && (!valid_utf8(b) || !is_decimal(
            trimmed(decode_utf8(b)),
        )),
        normalized(b) == Err::<Seq<char>, NormalizationError>(NormalizationError::InvalidEncoding)
            <==> has_exponent_marker(b) && !valid_utf8(b),
{
}

/// A number in scientific notation below `2^128` in magnitude (every finite float is) comes
/// back in fixed notation, ending in a point and exactly eight digits, and the units it stands
/// for are the number written, rounded at the eighth fractional place.
pub proof fn lemma_scientific_reformat(b: Seq<u8>)
    requires
        has_exponent_marker(b),
        valid_utf8(b),
        is_decimal(trimmed(decode_utf8(b))),
        magnitude_units(trimmed(decode_utf8(b))) < wide_cap(),
    ensures
        normalized(b) == Ok::<Seq<char>, NormalizationError>(
            fixed_text(decimal_units(trimmed(decode_utf8(b)))),
        ),
        ({
            let s = normalized(b)->Ok_0;
            &&& s.len() >= 10
            &&& s[s.len() - 9] == '.'
            &&& forall|i: int| s.len() - 8 <= i < s.len() ==> is_digit(#[trigger] s[i])
        }),
        rounds_to(
            digits_value(mantissa_digits(trimmed(decode_utf8(b)))),
            unit_shift(trimmed(decode_utf8(b))),
            scaled_round(
                digits_value(mantissa_digits(trimmed(decode_utf8(b)))),
                unit_shift(trimmed(decode_utf8(b))),
            ),
        ),
{
    let t = trimmed(decode_utf8(b));
    lemma_fixed_text_shape(decimal_units(t));
    crate::decimal::lemma_mantissa_nonneg(t);
    lemma_scaled_round_close(digits_value(mantissa_digits(t)), unit_shift(t));
}

} // verus!
