//! The scanning steps of the decoder on their own, byte by byte where the
//! decoder goes by chunks: what the chunked scanners are measured against.

use crate::digits::dec_value;
use crate::error::ErrorKind;
use crate::direct_decode::starts_with_at;
use crate::grammar::{
    byte_at, decode_escapes, digits_end, has_literal, is_exp_mark, prepend, scan_string_body,
    skip_ws, StringStop,
};
use crate::names::{false_name, name_false, name_null, name_true, null_name, true_name};
use crate::numbers::{
    accumulate_digits, is_ascii_digit, lemma_digit_run, lemma_scan_number_shape, scan_number_layout,
    skip_digits,
};
use crate::simd_utils::{is_digit, lemma_run_end_bounds, skip_class_scalar, ByteClass};
use crate::strings::{
    lemma_decode_done, lemma_decode_single, lemma_decode_unfold, lemma_prepend_empty,
    lemma_prepend_twice, push_utf8, read_escape, scan_string_body_at, Escape, ScanStop,
};
use crate::structural::structural_positions;
use vstd::prelude::*;
use vstd::utf8::encode_scalar;

verus! {

/// First position at or after `pos` that holds no whitespace.
pub fn skip_whitespace(input: &[u8], pos: usize) -> (r: usize)
    ensures
        r == skip_ws(input@, pos as int),
{
    skip_class_scalar(input, pos, ByteClass::Whitespace)
}

/// Where the string that starts at `pos` ends, and whether it holds an
/// escape: the position after the closing quote, or the position of the
/// control byte or the end of the input that the scan stopped at.  `pos`
/// itself where no quote stands at `pos`.
pub open spec fn string_extent(s: Seq<u8>, pos: int) -> (int, bool) {
    if !byte_at(s, pos, 0x22) {
        (pos, false)
    } else {
        let scan = scan_string_body(s, pos + 1, false);
        match scan.stop {
            StringStop::Closed => (scan.at + 1, scan.has_escape),
            _ => (scan.at, scan.has_escape),
        }
    }
}

/// Scans the string that starts with the quote at `pos`.
pub fn scan_string(input: &[u8], pos: usize) -> (r: (usize, bool))
    ensures
        r.0 == string_extent(input@, pos as int).0,
        r.1 == string_extent(input@, pos as int).1,
        r.0 >= pos,
        byte_at(input@, pos as int, 0x22) ==> pos < r.0 <= input@.len(),
{
    if pos >= input.len() || input[pos] != 0x22 {
        return (pos, false);
    }
    let scan = scan_string_body_at(input, pos + 1);
    proof {
        lemma_scan_extent(input@, pos + 1, false);
    }
    match scan.stop {
        ScanStop::Closed => (scan.at + 1, scan.has_escape),
        _ => (scan.at, scan.has_escape),
    }
}

/// A scan from inside the input stops inside the input, not before its
/// start.
pub proof fn lemma_scan_extent(s: Seq<u8>, pos: int, esc: bool)
    requires
        0 <= pos <= s.len(),
    ensures
        pos <= scan_string_body(s, pos, esc).at <= s.len(),
        scan_string_body(s, pos, esc).stop is Closed ==> scan_string_body(s, pos, esc).at < s.len(),
    decreases s.len() - pos,
{
    if pos < s.len() && s[pos] != 0x22 {
        if s[pos] == 0x5c {
            if pos + 1 < s.len() {
                lemma_scan_extent(s, pos + 2, true);
            }
        } else if s[pos] >= 0x20 {
            lemma_scan_extent(s, pos + 1, esc);
        }
    }
}

/// How far the number that starts at `pos` reaches, and whether it has a
/// fraction or an exponent.  Where a digit is missing the extent ends
/// there: after the sign, after the point, after the exponent mark and its
/// sign.
pub open spec fn number_extent(s: Seq<u8>, pos: int) -> (int, bool) {
    let int_start = if byte_at(s, pos, 0x2d) {
        pos + 1
    } else {
        pos
    };
    if 0 <= int_start < s.len() && !is_digit(s[int_start]) {
        (int_start, false)
    } else {
        let int_end = if int_start < 0 || int_start >= s.len() {
            int_start
        } else if s[int_start] == 0x30 {
            int_start + 1
        } else {
            digits_end(s, int_start)
        };
        let has_frac = byte_at(s, int_end, 0x2e);
        if has_frac && !(int_end + 1 < s.len() && is_digit(s[int_end + 1])) {
            (int_end + 1, true)
        } else {
            let frac_end = if has_frac {
                digits_end(s, int_end + 1)
            } else {
                int_end
            };
            if 0 <= frac_end < s.len() && is_exp_mark(s[frac_end]) {
                let after_sign = if byte_at(s, frac_end + 1, 0x2b) || byte_at(
                    s,
                    frac_end + 1,
                    0x2d,
                ) {
                    frac_end + 2
                } else {
                    frac_end + 1
                };
                (digits_end(s, after_sign), true)
            } else {
                (frac_end, has_frac)
            }
        }
    }
}

/// Scans the number that starts at `pos`.
pub fn scan_number(input: &[u8], pos: usize) -> (r: (usize, bool))
    requires
        pos <= input@.len(),
    ensures
        r.0 == number_extent(input@, pos as int).0,
        r.1 == number_extent(input@, pos as int).1,
        pos <= r.0 <= input@.len(),
{
    let len = input.len();
    let mut p = pos;
    let mut is_float = false;
    if p < len && input[p] == 0x2d {
        p = p + 1;
    }
    if p < len {
        let b = input[p];
        if b == 0x30 {
            p = p + 1;
        } else if is_ascii_digit(b) {
            proof {
                lemma_digit_run(input@, p as int);
            }
            p = skip_digits(input, p);
        } else {
            return (p, false);
        }
    }
    if p < len && input[p] == 0x2e {
        is_float = true;
        p = p + 1;
        if p >= len || !is_ascii_digit(input[p]) {
            return (p, is_float);
        }
        proof {
            lemma_digit_run(input@, p as int);
        }
        p = skip_digits(input, p);
    }
    if p < len && (input[p] == 0x65 || input[p] == 0x45) {
        is_float = true;
        p = p + 1;
        if p < len && (input[p] == 0x2b || input[p] == 0x2d) {
            p = p + 1;
        }
        proof {
            lemma_digit_run(input@, p as int);
        }
        p = skip_digits(input, p);
    }
    (p, is_float)
}

/// Replaces the escapes in `input[start .. end]`, byte by byte.
pub fn decode_escaped_string(input: &[u8], start: usize, end: usize) -> (r: Result<
    Vec<u8>,
    ErrorKind,
>)
    requires
        start <= end <= input@.len(),
    ensures
        match r {
            Ok(v) => decode_escapes(input@, start as int, end as int) == Ok::<Seq<u8>, ErrorKind>(
                v@,
            ),
            Err(e) => decode_escapes(input@, start as int, end as int) == Err::<
                Seq<u8>,
                ErrorKind,
            >(e),
        },
{
    let mut result: Vec<u8> = Vec::with_capacity(end - start);
    let mut i = start;
    proof {
        lemma_prepend_empty(decode_escapes(input@, i as int, end as int));
    }
    while i < end
        invariant
            start <= i <= end <= input@.len(),
            decode_escapes(input@, start as int, end as int) == prepend(
                result@,
                decode_escapes(input@, i as int, end as int),
            ),
        decreases end - i,
    {
        proof {
            lemma_decode_unfold(input@, i as int, end as int);
        }
        if input[i] == 0x5c && i + 1 < end {
            match read_escape(input, i, end) {
                Escape::Byte(b) => {
                    proof {
                        lemma_prepend_twice(
                            result@,
                            seq![b],
                            decode_escapes(input@, i + 2, end as int),
                        );
                    }
                    let ghost before = result@;
                    result.push(b);
                    assert(result@ =~= before + seq![b]);
                    i = i + 2;
                },
                Escape::Scalar(cp, n) => {
                    proof {
                        lemma_prepend_twice(
                            result@,
                            encode_scalar(cp),
                            decode_escapes(input@, i + n, end as int),
                        );
                    }
                    push_utf8(&mut result, cp);
                    i = i + n;
                },
                Escape::Bad(kind) => {
                    return Err(kind);
                },
            }
        } else {
            proof {
                lemma_decode_single(input@, i as int, end as int);
                lemma_prepend_twice(
                    result@,
                    seq![input@[i as int]],
                    decode_escapes(input@, i + 1, end as int),
                );
            }
            let ghost before = result@;
            result.push(input[i]);
            assert(result@ =~= before + seq![input@[i as int]]);
            i = i + 1;
        }
    }
    proof {
        lemma_decode_done(input@, i as int, end as int);
        assert(result@ + Seq::<u8>::empty() =~= result@);
    }
    Ok(result)
}

/// Number of structural bytes of `input` outside its strings.
pub fn build_structural_index(input: &[u8]) -> (r: usize)
    requires
        input@.len() <= u32::MAX,
    ensures
        r == structural_positions(input@, input@.len() as int).len(),
{
    let idx = crate::structural::build_structural_index(input);
    assert(crate::structural::offsets(idx.positions@).len() == idx.positions@.len());
    idx.positions.len()
}

/// The integer that starts at `pos`, if it is one that the short way of the
/// decoder takes: an optional `-`, then one to 18 digits without a leading
/// zero (but for `0` itself), and no fraction or exponent after them.
pub open spec fn fast_integer(s: Seq<u8>, pos: int) -> Option<int> {
    if pos < 0 || pos >= s.len() {
        None
    } else {
        let digits_start = if s[pos] == 0x2d {
            pos + 1
        } else {
            pos
        };
        let end = digits_end(s, digits_start);
        let count = end - digits_start;
        if count <= 0 || count > 18 {
            None
        } else if count > 1 && s[digits_start] == 0x30 {
            None
        } else if end < s.len() && (s[end] == 0x2e || is_exp_mark(s[end])) {
            None
        } else if s[pos] == 0x2d {
            Some(-dec_value(s.subrange(digits_start, end)))
        } else {
            Some(dec_value(s.subrange(digits_start, end)))
        }
    }
}

/// Reads the integer that starts at `pos` the short way.
pub fn parse_integer_fast(input: &[u8], pos: usize) -> (r: Result<i64, ()>)
    ensures
        match r {
            Ok(v) => fast_integer(input@, pos as int) == Some(v as int),
            Err(_) => fast_integer(input@, pos as int) is None,
        },
{
    let len = input.len();
    if pos >= len {
        return Err(());
    }
    let neg = input[pos] == 0x2d;
    let digit_start = if neg {
        pos + 1
    } else {
        pos
    };
    proof {
        lemma_run_end_bounds(input@, digit_start as int, ByteClass::Digit);
        lemma_digit_run(input@, digit_start as int);
    }
    let end = skip_class_scalar(input, digit_start, ByteClass::Digit);
    let digit_count = end - digit_start;
    if digit_count == 0 {
        return Err(());
    }
    if digit_count > 1 && input[digit_start] == 0x30 {
        return Err(());
    }
    if end < len && (input[end] == 0x2e || input[end] == 0x65 || input[end] == 0x45) {
        return Err(());
    }
    if digit_count > 18 {
        return Err(());
    }
    let val = accumulate_digits(input, digit_start, end);
    if neg {
        Ok(-val)
    } else {
        Ok(val)
    }
}

/// Where the string that starts with the quote at `pos` ends: after its
/// closing quote.  `None` where the input or a control byte comes first.
pub open spec fn closed_string_end(s: Seq<u8>, pos: int) -> Option<int> {
    let scan = scan_string_body(s, pos + 1, false);
    if byte_at(s, pos, 0x22) && scan.stop is Closed {
        Some(scan.at + 1)
    } else {
        None
    }
}

/// Where the value that starts at `pos` ends, if the bytes from `pos` on
/// start with a value.  A string has its closing quote and no control byte,
/// a number all its digits; what the escapes of a string say is not looked
/// at, nor how deep the containers are nested.
pub open spec fn value_end(s: Seq<u8>, pos: int) -> Option<int>
    decreases s.len() - pos, 1int,
    via value_end_decreases
{
    if pos < 0 || pos >= s.len() {
        None
    } else {
        let b = s[pos];
        if b == 0x22 {
            closed_string_end(s, pos)
        } else if b == 0x2d || is_digit(b) {
            match crate::grammar::scan_number(s, pos) {
                Some(n) => Some(n.end),
                None => None,
            }
        } else if b == 0x74 {
            if has_literal(s, pos, name_true()) {
                Some(pos + 4)
            } else {
                None
            }
        } else if b == 0x66 {
            if has_literal(s, pos, name_false()) {
                Some(pos + 5)
            } else {
                None
            }
        } else if b == 0x6e {
            if has_literal(s, pos, name_null()) {
                Some(pos + 4)
            } else {
                None
            }
        } else if b == 0x5b {
            let first = skip_ws(s, pos + 1);
            if byte_at(s, first, 0x5d) {
                Some(first + 1)
            } else if pos < first {
                elements_end(s, first)
            } else {
                None
            }
        } else if b == 0x7b {
            let first = skip_ws(s, pos + 1);
            if byte_at(s, first, 0x7d) {
                Some(first + 1)
            } else if pos < first {
                members_end(s, first)
            } else {
                None
            }
        } else {
            None
        }
    }
}

/// Where the array ends whose elements from the one at `pos` on are still
/// to come.
pub open spec fn elements_end(s: Seq<u8>, pos: int) -> Option<int>
    decreases s.len() - pos, 2int,
    via elements_end_decreases
{
    match value_end(s, pos) {
        None => None,
        Some(end) => {
            let next = skip_ws(s, end);
            if byte_at(s, next, 0x2c) && pos < next {
                elements_end(s, skip_ws(s, next + 1))
            } else if byte_at(s, next, 0x5d) {
                Some(next + 1)
            } else {
                None
            }
        },
    }
}

/// Where the object ends whose members from the one at `pos` on are still
/// to come.
pub open spec fn members_end(s: Seq<u8>, pos: int) -> Option<int>
    decreases s.len() - pos, 2int,
    via members_end_decreases
{
    if closed_string_end(s, pos) is None {
        None
    } else {
        let colon = skip_ws(s, closed_string_end(s, pos).unwrap());
        if !byte_at(s, colon, 0x3a) || !(pos < colon) {
            None
        } else {
            match value_end(s, skip_ws(s, colon + 1)) {
                None => None,
                Some(end) => {
                    let next = skip_ws(s, end);
                    if byte_at(s, next, 0x2c) && pos < next {
                        members_end(s, skip_ws(s, next + 1))
                    } else if byte_at(s, next, 0x7d) {
                        Some(next + 1)
                    } else {
                        None
                    }
                },
            }
        }
    }
}

#[via_fn]
proof fn value_end_decreases(s: Seq<u8>, pos: int) {
    lemma_run_end_bounds(s, pos + 1, ByteClass::Whitespace);
}

#[via_fn]
proof fn elements_end_decreases(s: Seq<u8>, pos: int) {
    assert forall|p: int|
        p <= #[trigger] skip_ws(s, p) && (0 <= p <= s.len() ==> skip_ws(s, p) <= s.len()) by {
        lemma_run_end_bounds(s, p, ByteClass::Whitespace);
    }
}

#[via_fn]
proof fn members_end_decreases(s: Seq<u8>, pos: int) {
    assert forall|p: int|
        p <= #[trigger] skip_ws(s, p) && (0 <= p <= s.len() ==> skip_ws(s, p) <= s.len()) by {
        lemma_run_end_bounds(s, p, ByteClass::Whitespace);
    }
}

/// `s` is one value with whitespace around it and nothing else.
pub open spec fn is_valid_document(s: Seq<u8>) -> bool {
    match value_end(s, skip_ws(s, 0)) {
        Some(end) => skip_ws(s, end) == s.len(),
        None => false,
    }
}

/// Whitespace is skipped forwards, and not past the end of the input.
pub proof fn lemma_skip_ws_bounds(s: Seq<u8>, pos: int)
    ensures
        pos <= skip_ws(s, pos),
        0 <= pos <= s.len() ==> skip_ws(s, pos) <= s.len(),
{
    lemma_run_end_bounds(s, pos, ByteClass::Whitespace);
}

/// Whether `input` is one value with whitespace around it and nothing
/// else.
pub fn validate_json(input: &[u8]) -> (r: bool)
    ensures
        r == is_valid_document(input@),
{
    let pos = skip_whitespace(input, 0);
    proof {
        lemma_skip_ws_bounds(input@, 0);
    }
    if pos >= input.len() {
        return false;
    }
    match validate_value(input, pos) {
        Some(new_pos) => {
            let final_pos = skip_whitespace(input, new_pos);
            final_pos == input.len()
        },
        None => false,
    }
}

/// Where the string that starts with the quote at `pos` ends, if it is
/// closed.
pub fn validate_string(input: &[u8], pos: usize) -> (r: Option<usize>)
    requires
        byte_at(input@, pos as int, 0x22),
    ensures
        match r {
            Some(end) => closed_string_end(input@, pos as int) == Some(end as int) && pos + 1 < end
                <= input@.len(),
            None => closed_string_end(input@, pos as int) is None,
        },
{
    let len = input.len();
    let scan = scan_string_body_at(input, pos + 1);
    proof {
        lemma_scan_extent(input@, pos + 1, false);
    }
    match scan.stop {
        ScanStop::Closed => Some(scan.at + 1),
        _ => None,
    }
}

/// Where the value that starts at `pos` ends.
pub fn validate_value(input: &[u8], pos: usize) -> (r: Option<usize>)
    ensures
        match r {
            Some(end) => value_end(input@, pos as int) == Some(end as int) && pos < end
                <= input@.len(),
            None => value_end(input@, pos as int) is None,
        },
    decreases input@.len() - pos, 1int,
{
    let len = input.len();
    if pos >= len {
        return None;
    }
    let b = input[pos];
    if b == 0x22 {
        validate_string(input, pos)
    } else if b == 0x2d || is_ascii_digit(b) {
        match scan_number_layout(input, pos) {
            Some(n) => {
                proof {
                    lemma_scan_number_shape(input@, pos as int);
                }
                Some(n.end)
            },
            None => None,
        }
    } else if b == 0x74 {
        if starts_with_at(input, pos, &true_name()) {
            Some(pos + 4)
        } else {
            None
        }
    } else if b == 0x66 {
        if starts_with_at(input, pos, &false_name()) {
            Some(pos + 5)
        } else {
            None
        }
    } else if b == 0x6e {
        if starts_with_at(input, pos, &null_name()) {
            Some(pos + 4)
        } else {
            None
        }
    } else if b == 0x5b {
        validate_array(input, pos)
    } else if b == 0x7b {
        validate_object(input, pos)
    } else {
        None
    }
}

/// Where the array that starts with the bracket at `pos` ends.
pub fn validate_array(input: &[u8], pos: usize) -> (r: Option<usize>)
    requires
        byte_at(input@, pos as int, 0x5b),
    ensures
        match r {
            Some(end) => value_end(input@, pos as int) == Some(end as int) && pos < end
                <= input@.len(),
            None => value_end(input@, pos as int) is None,
        },
    decreases input@.len() - pos, 0int,
{
    let len = input.len();
    let mut p = skip_whitespace(input, pos + 1);
    proof {
        lemma_skip_ws_bounds(input@, pos + 1);
    }
    if p < len && input[p] == 0x5d {
        return Some(p + 1);
    }
    loop
        invariant
            len == input@.len(),
            pos < p <= len,
            value_end(input@, pos as int) == elements_end(input@, p as int),
        decreases len - p,
    {
        let end = match validate_value(input, p) {
            Some(end) => end,
            None => {
                return None;
            },
        };
        let next = skip_whitespace(input, end);
        proof {
            lemma_skip_ws_bounds(input@, end as int);
        }
        if next < len && input[next] == 0x2c {
            proof {
                lemma_skip_ws_bounds(input@, next + 1);
            }
            p = skip_whitespace(input, next + 1);
        } else if next < len && input[next] == 0x5d {
            return Some(next + 1);
        } else {
            return None;
        }
    }
}

/// Where the object that starts with the brace at `pos` ends.
pub fn validate_object(input: &[u8], pos: usize) -> (r: Option<usize>)
    requires
        byte_at(input@, pos as int, 0x7b),
    ensures
        match r {
            Some(end) => value_end(input@, pos as int) == Some(end as int) && pos < end
                <= input@.len(),
            None => value_end(input@, pos as int) is None,
        },
    decreases input@.len() - pos, 0int,
{
    let len = input.len();
    let mut p = skip_whitespace(input, pos + 1);
    proof {
        lemma_skip_ws_bounds(input@, pos + 1);
    }
    if p < len && input[p] == 0x7d {
        return Some(p + 1);
    }
    loop
        invariant
            len == input@.len(),
            pos < p <= len,
            value_end(input@, pos as int) == members_end(input@, p as int),
        decreases len - p,
    {
        if p >= len || input[p] != 0x22 {
            return None;
        }
        let key_end = match validate_string(input, p) {
            Some(end) => end,
            None => {
                return None;
            },
        };
        let colon = skip_whitespace(input, key_end);
        proof {
            lemma_skip_ws_bounds(input@, key_end as int);
        }
        if colon >= len || input[colon] != 0x3a {
            return None;
        }
        let value_start = skip_whitespace(input, colon + 1);
        proof {
            lemma_skip_ws_bounds(input@, colon + 1);
        }
        let end = match validate_value(input, value_start) {
            Some(end) => end,
            None => {
                return None;
            },
        };
        let next = skip_whitespace(input, end);
        proof {
            lemma_skip_ws_bounds(input@, end as int);
        }
        if next < len && input[next] == 0x2c {
            proof {
                lemma_skip_ws_bounds(input@, next + 1);
            }
            p = skip_whitespace(input, next + 1);
        } else if next < len && input[next] == 0x7d {
            return Some(next + 1);
        } else {
            return None;
        }
    }
}

} // verus!
