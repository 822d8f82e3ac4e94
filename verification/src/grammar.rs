//! The JSON grammar as mathematics: what a byte sequence denotes.
//!
//! Every function here is a specification.  The decoder is proved to return
//! exactly what [`parse_document`] says, for every input and every option
//! set; the scanners, the structural index and the shape cache are ways of
//! getting there faster and do not show in the result.

use crate::digits::{dec_value, int_text, int_text_value};
use crate::direct_decode::DecodeOptions;
use crate::error::ErrorKind;
use crate::names::{
    name_coef, name_decimal, name_exp, name_false, name_nil, name_null, name_ordered_object,
    name_sign, name_struct, name_true, name_values,
};
use crate::simd_utils::{is_digit, lemma_run_end_bounds, run_end, ByteClass};
use crate::term::TermV;
use vstd::prelude::*;
use vstd::utf8::{encode_scalar, valid_utf8};

verus! {

/// Deepest nesting of arrays and objects that is accepted.
pub const MAX_DEPTH: usize = 128;

/// A parse failure: the kind and the byte offset it is reported at.
pub type Failure = (ErrorKind, int);

/// The `n` bytes of `s` from `pos` on.
pub open spec fn slice_at(s: Seq<u8>, pos: int, n: int) -> Seq<u8> {
    s.subrange(pos, pos + n)
}

/// `s` holds byte `b` at `pos`.
pub open spec fn byte_at(s: Seq<u8>, pos: int, b: u8) -> bool {
    0 <= pos < s.len() && s[pos] == b
}

/// First position at or after `pos` that holds no whitespace.
pub open spec fn skip_ws(s: Seq<u8>, pos: int) -> int {
    run_end(s, pos, ByteClass::Whitespace)
}

// ---------------------------------------------------------------------------
// Literals
// ---------------------------------------------------------------------------
/// `s` holds the bytes `lit` at `pos`.
pub open spec fn has_literal(s: Seq<u8>, pos: int, lit: Seq<u8>) -> bool {
    0 <= pos && pos + lit.len() <= s.len() && slice_at(s, pos, lit.len() as int) == lit
}

// ---------------------------------------------------------------------------
// Strings
// ---------------------------------------------------------------------------
/// How the scan of a string body ended.
pub ghost enum StringStop {
    /// On the closing quote.
    Closed,
    /// On a control byte.
    Control,
    /// At the end of the input.
    Unterminated,
}

/// Result of scanning a string body: how it ended, where, and whether a
/// backslash was passed on the way.
pub ghost struct StringScan {
    pub stop: StringStop,
    pub at: int,
    pub has_escape: bool,
}

/// Scans a string body from `pos`, the position after the opening quote.  A
/// backslash takes the byte after it along, whatever that byte is.
pub open spec fn scan_string_body(s: Seq<u8>, pos: int, has_escape: bool) -> StringScan
    decreases s.len() - pos,
{
    if pos < 0 || pos >= s.len() {
        StringScan { stop: StringStop::Unterminated, at: pos, has_escape }
    } else if s[pos] == 0x22 {
        StringScan { stop: StringStop::Closed, at: pos, has_escape }
    } else if s[pos] == 0x5c {
        if pos + 1 < s.len() {
            scan_string_body(s, pos + 2, true)
        } else {
            StringScan { stop: StringStop::Unterminated, at: pos + 1, has_escape: true }
        }
    } else if s[pos] < 0x20 {
        StringScan { stop: StringStop::Control, at: pos, has_escape }
    } else {
        scan_string_body(s, pos + 1, has_escape)
    }
}

/// `b` is a hexadecimal digit.
pub open spec fn is_hex(b: u8) -> bool {
    (0x30 <= b <= 0x39) || (0x41 <= b <= 0x46) || (0x61 <= b <= 0x66)
}

/// The value of a hexadecimal digit.
pub open spec fn hex_value(b: u8) -> int {
    if 0x30 <= b <= 0x39 {
        b - 0x30
    } else if 0x41 <= b <= 0x46 {
        b - 0x41 + 10
    } else {
        b - 0x61 + 10
    }
}

/// The four bytes from `pos` on are hexadecimal digits.
pub open spec fn is_hex4(s: Seq<u8>, pos: int) -> bool {
    is_hex(s[pos]) && is_hex(s[pos + 1]) && is_hex(s[pos + 2]) && is_hex(s[pos + 3])
}

/// The 16-bit value that the four hexadecimal digits from `pos` on write.
pub open spec fn hex4_value(s: Seq<u8>, pos: int) -> int {
    hex_value(s[pos]) * 4096 + hex_value(s[pos + 1]) * 256 + hex_value(s[pos + 2]) * 16
        + hex_value(s[pos + 3])
}

/// `cp` is the first half of a surrogate pair.
pub open spec fn is_high_surrogate(cp: int) -> bool {
    0xd800 <= cp <= 0xdbff
}

/// `cp` is the second half of a surrogate pair.
pub open spec fn is_low_surrogate(cp: int) -> bool {
    0xdc00 <= cp <= 0xdfff
}

/// The code point that a surrogate pair stands for.
pub open spec fn pair_value(high: int, low: int) -> int {
    0x10000 + (high - 0xd800) * 0x400 + (low - 0xdc00)
}

/// The byte that the one-letter escape `\b` stands for (`b` is the letter).
pub open spec fn simple_escape(b: u8) -> Option<u8> {
    if b == 0x22 {
        Some(0x22u8)
    } else if b == 0x5c {
        Some(0x5cu8)
    } else if b == 0x2f {
        Some(0x2fu8)
    } else if b == 0x62 {
        Some(0x08u8)
    } else if b == 0x66 {
        Some(0x0cu8)
    } else if b == 0x6e {
        Some(0x0au8)
    } else if b == 0x72 {
        Some(0x0du8)
    } else if b == 0x74 {
        Some(0x09u8)
    } else {
        None
    }
}

/// Puts `head` in front of a decoded rest.
pub open spec fn prepend(head: Seq<u8>, rest: Result<Seq<u8>, ErrorKind>) -> Result<
    Seq<u8>,
    ErrorKind,
> {
    match rest {
        Ok(r) => Ok(head + r),
        Err(e) => Err(e),
    }
}

/// What stands at one place of a string body.
pub ghost enum EscapeStep {
    /// Bytes of the decoded string, and the number of input bytes they take
    /// the place of.
    Emit { bytes: Seq<u8>, taken: int },
    /// An escape that is none.
    Fail(ErrorKind),
}

/// What stands at the start of the rest `t` of a string body.
///
/// A backslash that is the last byte of the body stands for itself, and so
/// does every byte that is no backslash.  `\uXXXX` stands for the UTF-8 form
/// of its code point, a pair of surrogate escapes for the one code point of
/// the pair.
#[verifier::opaque]
pub open spec fn escape_step(t: Seq<u8>) -> EscapeStep {
    if t[0] == 0x5c && 1 < t.len() {
        let c = t[1];
        if c == 0x75 {
            if 5 >= t.len() {
                EscapeStep::Fail(ErrorKind::InvalidUnicodeEscape)
            } else if !is_hex4(t, 2) {
                EscapeStep::Fail(ErrorKind::InvalidUnicodeEscape)
            } else {
                let cp = hex4_value(t, 2);
                if is_high_surrogate(cp) {
                    if 12 <= t.len() && t[6] == 0x5c && t[7] == 0x75 && is_hex4(t, 8)
                        && is_low_surrogate(hex4_value(t, 8)) {
                        EscapeStep::Emit {
                            bytes: encode_scalar(pair_value(cp, hex4_value(t, 8)) as u32),
                            taken: 12,
                        }
                    } else {
                        EscapeStep::Fail(ErrorKind::LoneSurrogate)
                    }
                } else if is_low_surrogate(cp) {
                    EscapeStep::Fail(ErrorKind::LoneSurrogate)
                } else {
                    EscapeStep::Emit { bytes: encode_scalar(cp as u32), taken: 6 }
                }
            }
        } else {
            match simple_escape(c) {
                Some(b) => EscapeStep::Emit { bytes: seq![b], taken: 2 },
                None => EscapeStep::Fail(ErrorKind::InvalidEscapeSequence),
            }
        }
    } else {
        EscapeStep::Emit { bytes: seq![t[0]], taken: 1 }
    }
}

/// The string body `t` with its escapes replaced by what they stand for.
pub open spec fn decode_body(t: Seq<u8>) -> Result<Seq<u8>, ErrorKind>
    decreases t.len(),
{
    if t.len() == 0 {
        Ok(Seq::empty())
    } else {
        match escape_step(t) {
            EscapeStep::Fail(kind) => Err(kind),
            EscapeStep::Emit { bytes, taken } => if 1 <= taken <= t.len() {
                prepend(bytes, decode_body(t.skip(taken)))
            } else {
                Err(ErrorKind::InvalidEscapeSequence)
            },
        }
    }
}

/// Replaces the escapes in `s[i .. end]` by what they stand for.
pub open spec fn decode_escapes(s: Seq<u8>, i: int, end: int) -> Result<Seq<u8>, ErrorKind> {
    if 0 <= i <= end <= s.len() {
        decode_body(s.subrange(i, end))
    } else {
        Ok(Seq::empty())
    }
}

/// The string that starts with the quote at `pos`: its decoded bytes and the
/// position after its closing quote.
pub open spec fn parse_string(s: Seq<u8>, pos: int, validate: bool) -> Result<
    (Seq<u8>, int),
    Failure,
> {
    let scan = scan_string_body(s, pos + 1, false);
    match scan.stop {
        StringStop::Unterminated => Err((ErrorKind::UnterminatedString, pos)),
        StringStop::Control => Err((ErrorKind::UnescapedControlCharacter, scan.at)),
        StringStop::Closed => {
            match decode_escapes(s, pos + 1, scan.at) {
                Err(kind) => Err((kind, pos)),
                Ok(bytes) => if validate && !valid_utf8(bytes) {
                    Err((ErrorKind::InvalidUtf8, pos))
                } else {
                    Ok((bytes, scan.at + 1))
                },
            }
        },
    }
}

// ---------------------------------------------------------------------------
// Numbers
// ---------------------------------------------------------------------------
/// End of the digit run that starts at `pos`.
pub open spec fn digits_end(s: Seq<u8>, pos: int) -> int {
    run_end(s, pos, ByteClass::Digit)
}

/// The layout of a number literal: where its parts end.
pub ghost struct NumberScan {
    /// Position of the first digit of the integer part.
    pub int_start: int,
    /// Position after the integer part.
    pub int_end: int,
    /// Position after the fraction; `int_end` when there is none.
    pub frac_end: int,
    /// Position after the literal.
    pub end: int,
    /// Whether the literal has a fraction or an exponent.
    pub is_float: bool,
}

/// `b` is `e` or `E`.
pub open spec fn is_exp_mark(b: u8) -> bool {
    b == 0x65 || b == 0x45
}

/// Where the digits of the exponent start whose mark is at `mark`: after the
/// mark and the sign, if there is one.
pub open spec fn exponent_digits_start(s: Seq<u8>, mark: int) -> int {
    if byte_at(s, mark + 1, 0x2b) || byte_at(s, mark + 1, 0x2d) {
        mark + 2
    } else {
        mark + 1
    }
}

/// The integer part of the number literal that starts at `pos`: the position
/// of its first digit and the position after its last, or nothing where no
/// digit stands.  A part that starts with `0` ends there.
pub open spec fn scan_integer_part(s: Seq<u8>, pos: int) -> Option<(int, int)> {
    let int_start = if byte_at(s, pos, 0x2d) {
        pos + 1
    } else {
        pos
    };
    if int_start < 0 || int_start >= s.len() || !is_digit(s[int_start]) {
        None
    } else if s[int_start] == 0x30 {
        Some((int_start, int_start + 1))
    } else {
        Some((int_start, digits_end(s, int_start)))
    }
}

/// Lays out the number literal that starts at `pos`, or fails where a digit
/// is missing: `-?(0|[1-9][0-9]*)(\.[0-9]+)?([eE][+-]?[0-9]+)?`.
pub open spec fn scan_number(s: Seq<u8>, pos: int) -> Option<NumberScan> {
    match scan_integer_part(s, pos) {
        None => None,
        Some((int_start, int_end)) => {
            let has_frac = byte_at(s, int_end, 0x2e);
            if has_frac && !(int_end + 1 < s.len() && is_digit(s[int_end + 1])) {
                None
            } else {
                let frac_end = if has_frac {
                    digits_end(s, int_end + 1)
                } else {
                    int_end
                };
                let has_exp = 0 <= frac_end < s.len() && is_exp_mark(s[frac_end]);
                if !has_exp {
                    Some(
                        NumberScan {
                            int_start,
                            int_end,
                            frac_end,
                            end: frac_end,
                            is_float: has_frac,
                        },
                    )
                } else {
                    let exp_digits = exponent_digits_start(s, frac_end);
                    if !(exp_digits < s.len() && is_digit(s[exp_digits])) {
                        None
                    } else {
                        Some(
                            NumberScan {
                                int_start,
                                int_end,
                                frac_end,
                                end: digits_end(s, exp_digits),
                                is_float: true,
                            },
                        )
                    }
                }
            }
        },
    }
}

/// The decimal record with the given sign (1 or -1), coefficient and
/// exponent: the number `sign * coef * 10^exp`.
pub open spec fn decimal_record(sign: int, coef: int, exp: int) -> TermV {
    TermV::Mapping(
        seq![
            (TermV::Atom(name_struct()), TermV::Atom(name_decimal())),
            (TermV::Atom(name_coef()), integer_term(coef)),
            (TermV::Atom(name_exp()), TermV::Integer(exp)),
            (TermV::Atom(name_sign()), TermV::Integer(sign)),
        ],
    )
}

/// The exponent that the literal laid out by `n` writes after its `e`; 0
/// when it has none.
pub open spec fn written_exponent(s: Seq<u8>, n: NumberScan) -> int {
    if n.frac_end == n.end {
        0
    } else if byte_at(s, n.frac_end + 1, 0x2d) {
        -dec_value(s.subrange(exponent_digits_start(s, n.frac_end), n.end))
    } else {
        dec_value(s.subrange(exponent_digits_start(s, n.frac_end), n.end))
    }
}

/// The digits of the fraction of the literal laid out by `n`.
pub open spec fn fraction_digits(s: Seq<u8>, n: NumberScan) -> Seq<u8> {
    if n.frac_end == n.int_end {
        Seq::empty()
    } else {
        s.subrange(n.int_end + 1, n.frac_end)
    }
}

/// The exponent of the decimal record of the literal laid out by `n`: the
/// written exponent less the number of fraction digits.
pub open spec fn decimal_exponent(s: Seq<u8>, n: NumberScan) -> int {
    written_exponent(s, n) - fraction_digits(s, n).len()
}

/// The coefficient of the decimal record of the literal laid out by `n`: the
/// number that its integer and fraction digits write together.
pub open spec fn decimal_coefficient(s: Seq<u8>, n: NumberScan) -> int {
    dec_value(s.subrange(n.int_start, n.int_end) + fraction_digits(s, n))
}

/// `x` fits 64 signed bits.
pub open spec fn fits_i64(x: int) -> bool {
    -0x8000_0000_0000_0000 <= x <= 0x7fff_ffff_ffff_ffff
}

/// The term of the integer `n`: the integer itself where 64 bits hold it,
/// its decimal text otherwise.
pub open spec fn integer_term(n: int) -> TermV {
    if -0x8000_0000_0000_0000 <= n <= 0xffff_ffff_ffff_ffff {
        TermV::Integer(n)
    } else {
        TermV::BigInteger(int_text(n))
    }
}

/// The number that starts at `pos`: its term and the position after it.
///
/// The digit limit is looked at as soon as the integer part is read, before
/// a fraction or an exponent is.
pub open spec fn parse_number(s: Seq<u8>, pos: int, o: DecodeOptions) -> Result<
    (TermV, int),
    Failure,
> {
    match scan_integer_part(s, pos) {
        None => Err((ErrorKind::InvalidNumber, pos)),
        Some((int_start, int_end)) => {
            if o.integer_digit_limit > 0 && int_end - int_start > o.integer_digit_limit {
                Err((ErrorKind::NumberDigitLimitExceeded, pos))
            } else {
                match scan_number(s, pos) {
                    None => Err((ErrorKind::InvalidNumber, pos)),
                    Some(n) => {
                        if !n.is_float {
                            Ok((integer_term(int_text_value(s.subrange(pos, n.end))), n.end))
                        } else if !o.floats_decimals {
                            Ok((TermV::Float(s.subrange(pos, n.end)), n.end))
                        } else if !fits_i64(written_exponent(s, n)) || !fits_i64(
                            decimal_exponent(s, n),
                        ) {
                            Err((ErrorKind::InvalidNumber, pos))
                        } else {
                            Ok(
                                (
                                    decimal_record(
                                        if byte_at(s, pos, 0x2d) {
                                            -1
                                        } else {
                                            1
                                        },
                                        decimal_coefficient(s, n),
                                        decimal_exponent(s, n),
                                    ),
                                    n.end,
                                ),
                            )
                        }
                    },
                }
            }
        },
    }
}

// ---------------------------------------------------------------------------
// Values
// ---------------------------------------------------------------------------
/// Index of the first entry of `entries` from `from` on with key `key`, or
/// the length of `entries` when there is none.
pub open spec fn key_index(entries: Seq<(TermV, TermV)>, key: TermV, from: int) -> int
    decreases entries.len() - from,
{
    if from < 0 || from >= entries.len() {
        entries.len() as int
    } else if entries[from].0 == key {
        from
    } else {
        key_index(entries, key, from + 1)
    }
}

/// Adds an entry to a mapping: a new key goes to the end, a known key keeps
/// its place and takes the new value.
pub open spec fn put_entry(entries: Seq<(TermV, TermV)>, key: TermV, value: TermV) -> Seq<
    (TermV, TermV),
> {
    let i = key_index(entries, key, 0);
    if i < entries.len() {
        entries.update(i, (key, value))
    } else {
        entries.push((key, value))
    }
}

/// The mapping of the members `keys[i]`, `values[i]` from `i` on, added in
/// order to `acc`: for a key that occurs twice the last value wins.
pub open spec fn mapping_of(
    keys: Seq<TermV>,
    values: Seq<TermV>,
    i: int,
    acc: Seq<(TermV, TermV)>,
) -> Seq<(TermV, TermV)>
    decreases keys.len() - i,
{
    if i < 0 || i >= keys.len() {
        acc
    } else {
        mapping_of(keys, values, i + 1, put_entry(acc, keys[i], values[i]))
    }
}

/// The ordered-object record of the members: every member in its place, as
/// a list of pairs.
pub open spec fn ordered_object(keys: Seq<TermV>, values: Seq<TermV>) -> TermV {
    TermV::Mapping(
        seq![
            (TermV::Atom(name_struct()), TermV::Atom(name_ordered_object())),
            (
                TermV::Atom(name_values()),
                TermV::List(Seq::new(keys.len(), |i: int| TermV::Tuple(seq![keys[i], values[i]]))),
            ),
        ],
    )
}

/// The term of an object with the given members.
pub open spec fn object_term(keys: Seq<TermV>, values: Seq<TermV>, o: DecodeOptions) -> TermV {
    if o.ordered_objects {
        ordered_object(keys, values)
    } else {
        TermV::Mapping(mapping_of(keys, values, 0, Seq::empty()))
    }
}

/// The value that starts at `pos`, `depth` containers deep: its term and the
/// position after it.
pub open spec fn parse_value(s: Seq<u8>, pos: int, depth: int, o: DecodeOptions) -> Result<
    (TermV, int),
    Failure,
>
    decreases s.len() - pos, 2int,
{
    if pos < 0 || pos >= s.len() {
        Err((ErrorKind::UnexpectedEndOfInput, pos))
    } else {
        let b = s[pos];
        if b == 0x6e {
            if has_literal(s, pos, name_null()) {
                Ok((TermV::Atom(name_nil()), pos + 4))
            } else {
                Err((ErrorKind::UnexpectedCharacter, pos))
            }
        } else if b == 0x74 {
            if has_literal(s, pos, name_true()) {
                Ok((TermV::Atom(name_true()), pos + 4))
            } else {
                Err((ErrorKind::UnexpectedCharacter, pos))
            }
        } else if b == 0x66 {
            if has_literal(s, pos, name_false()) {
                Ok((TermV::Atom(name_false()), pos + 5))
            } else {
                Err((ErrorKind::UnexpectedCharacter, pos))
            }
        } else if b == 0x22 {
            match parse_string(s, pos, o.validate_strings) {
                Ok((bytes, end)) => Ok((TermV::Binary(bytes), end)),
                Err(e) => Err(e),
            }
        } else if b == 0x5b {
            parse_array(s, pos, depth, o)
        } else if b == 0x7b {
            parse_object(s, pos, depth, o)
        } else if b == 0x2d || is_digit(b) {
            parse_number(s, pos, o)
        } else {
            Err((ErrorKind::UnexpectedCharacter, pos))
        }
    }
}

/// The array that starts with the bracket at `pos`.
pub open spec fn parse_array(s: Seq<u8>, pos: int, depth: int, o: DecodeOptions) -> Result<
    (TermV, int),
    Failure,
>
    decreases s.len() - pos, 1int,
    via parse_array_decreases
{
    if pos < 0 || pos >= s.len() {
        Err((ErrorKind::UnexpectedEndOfInput, pos))
    } else if depth + 1 > MAX_DEPTH {
        Err((ErrorKind::NestingDepthExceeded, pos))
    } else {
        let first = skip_ws(s, pos + 1);
        if byte_at(s, first, 0x5d) {
            Ok((TermV::List(Seq::empty()), first + 1))
        } else {
            parse_elements(s, first, depth + 1, o, Seq::empty())
        }
    }
}

/// The elements of an array from the one at `pos` on, after the elements
/// `acc`, up to the closing bracket.
pub open spec fn parse_elements(
    s: Seq<u8>,
    pos: int,
    depth: int,
    o: DecodeOptions,
    acc: Seq<TermV>,
) -> Result<(TermV, int), Failure>
    decreases s.len() - pos, 3int,
    via parse_elements_decreases
{
    match parse_value(s, pos, depth, o) {
        Err(e) => Err(e),
        Ok((v, after)) => {
            let next = skip_ws(s, after);
            if byte_at(s, next, 0x5d) {
                Ok((TermV::List(acc.push(v)), next + 1))
            } else if byte_at(s, next, 0x2c) && pos < next {
                parse_elements(s, skip_ws(s, next + 1), depth, o, acc.push(v))
            } else {
                Err((ErrorKind::UnexpectedCharacter, next))
            }
        },
    }
}

/// The object that starts with the brace at `pos`.
pub open spec fn parse_object(s: Seq<u8>, pos: int, depth: int, o: DecodeOptions) -> Result<
    (TermV, int),
    Failure,
>
    decreases s.len() - pos, 1int,
    via parse_object_decreases
{
    if pos < 0 || pos >= s.len() {
        Err((ErrorKind::UnexpectedEndOfInput, pos))
    } else if depth + 1 > MAX_DEPTH {
        Err((ErrorKind::NestingDepthExceeded, pos))
    } else {
        let first = skip_ws(s, pos + 1);
        if byte_at(s, first, 0x7d) {
            Ok((object_term(Seq::empty(), Seq::empty(), o), first + 1))
        } else {
            parse_members(s, first, depth + 1, o, Seq::empty(), Seq::empty(), Seq::empty())
        }
    }
}

/// The raw bytes of the key that was scanned from the quote at `pos` to the
/// position `end` after its closing quote.
pub open spec fn raw_key(s: Seq<u8>, pos: int, end: int) -> Seq<u8> {
    s.subrange(pos + 1, end - 1)
}

/// The members of an object from the one at `pos` on, after the members
/// `keys`, `values` whose keys were written as `raws`, up to the closing
/// brace.
pub open spec fn parse_members(
    s: Seq<u8>,
    pos: int,
    depth: int,
    o: DecodeOptions,
    keys: Seq<TermV>,
    raws: Seq<Seq<u8>>,
    values: Seq<TermV>,
) -> Result<(TermV, int), Failure>
    decreases s.len() - pos, 3int,
    via parse_members_decreases
{
    if !byte_at(s, pos, 0x22) {
        Err((ErrorKind::UnexpectedCharacter, pos))
    } else {
        match parse_string(s, pos, o.validate_strings) {
            Err(e) => Err(e),
            Ok((key, key_end)) => {
                if o.reject_duplicate_keys && raws.contains(raw_key(s, pos, key_end)) {
                    Err((ErrorKind::DuplicateObjectKey, key_end))
                } else {
                    let colon = skip_ws(s, key_end);
                    if !byte_at(s, colon, 0x3a) {
                        Err((ErrorKind::UnexpectedCharacter, colon))
                    } else if !(pos < colon) {
                        Err((ErrorKind::UnexpectedCharacter, colon))
                    } else {
                        match parse_value(s, skip_ws(s, colon + 1), depth, o) {
                            Err(e) => Err(e),
                            Ok((v, after)) => {
                                let next = skip_ws(s, after);
                                let keys2 = keys.push(TermV::Binary(key));
                                let values2 = values.push(v);
                                if byte_at(s, next, 0x7d) {
                                    Ok((object_term(keys2, values2, o), next + 1))
                                } else if byte_at(s, next, 0x2c) && pos < next {
                                    parse_members(
                                        s,
                                        skip_ws(s, next + 1),
                                        depth,
                                        o,
                                        keys2,
                                        raws.push(raw_key(s, pos, key_end)),
                                        values2,
                                    )
                                } else {
                                    Err((ErrorKind::UnexpectedCharacter, next))
                                }
                            },
                        }
                    }
                }
            },
        }
    }
}

#[via_fn]
proof fn parse_array_decreases(s: Seq<u8>, pos: int, depth: int, o: DecodeOptions) {
    lemma_run_end_bounds(s, pos + 1, ByteClass::Whitespace);
}

#[via_fn]
proof fn parse_object_decreases(s: Seq<u8>, pos: int, depth: int, o: DecodeOptions) {
    lemma_run_end_bounds(s, pos + 1, ByteClass::Whitespace);
}

#[via_fn]
proof fn parse_elements_decreases(
    s: Seq<u8>,
    pos: int,
    depth: int,
    o: DecodeOptions,
    acc: Seq<TermV>,
) {
    assert forall|p: int|
        p <= #[trigger] skip_ws(s, p) && (0 <= p <= s.len() ==> skip_ws(s, p) <= s.len()) by {
        lemma_run_end_bounds(s, p, ByteClass::Whitespace);
    }
}

#[via_fn]
proof fn parse_members_decreases(
    s: Seq<u8>,
    pos: int,
    depth: int,
    o: DecodeOptions,
    keys: Seq<TermV>,
    raws: Seq<Seq<u8>>,
    values: Seq<TermV>,
) {
    assert forall|p: int|
        p <= #[trigger] skip_ws(s, p) && (0 <= p <= s.len() ==> skip_ws(s, p) <= s.len()) by {
        lemma_run_end_bounds(s, p, ByteClass::Whitespace);
    }
}

/// The root value from `pos` on, `depth` containers deep, with whitespace
/// around it and nothing after it.
pub open spec fn parse_root(s: Seq<u8>, pos: int, depth: int, o: DecodeOptions) -> Result<
    TermV,
    Failure,
> {
    match parse_value(s, skip_ws(s, pos), depth, o) {
        Err(e) => Err(e),
        Ok((v, after)) => {
            let end = skip_ws(s, after);
            if end < s.len() {
                Err((ErrorKind::TrailingCharacters, end))
            } else {
                Ok(v)
            }
        },
    }
}

/// What a whole document denotes: the root value with whitespace around it
/// and nothing else, unless the document is longer than `max_bytes` allows.
pub open spec fn parse_document(s: Seq<u8>, o: DecodeOptions) -> Result<TermV, Failure> {
    if o.max_bytes > 0 && s.len() > o.max_bytes {
        Err((ErrorKind::InputTooLarge, 0))
    } else {
        parse_root(s, 0, 0, o)
    }
}

} // verus!
