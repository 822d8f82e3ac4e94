//! Laws of the codec: what holds of the decoder and the encoder together.

use crate::direct_decode::DecodeOptions;
use crate::encoding::{
    char_len, escape_byte, escape_unit, escaped, hex_digit, quoted, scalar_escape,
    starts_with_separator, unicode_escape, verbatim_char, EscapeMode,
};
use crate::error::ErrorKind;
use crate::grammar::{
    decode_body, decode_escapes, escape_step, hex4_value, hex_value, is_hex, is_hex4,
    is_high_surrogate, is_low_surrogate, pair_value, parse_array, parse_document, parse_elements,
    parse_object, parse_string, parse_value, prepend, scan_string_body, simple_escape, skip_ws,
    EscapeStep, Failure, MAX_DEPTH,
};
use crate::simd_utils::{is_whitespace, needs_json_escape};
use crate::term::TermV;
use vstd::prelude::*;
use vstd::utf8::{
    decode_first_scalar, encode_scalar, is_scalar, length_of_first_scalar, pop_first_scalar,
    take_first_scalar, valid_first_scalar, valid_utf8,
};

verus! {

// ---------------------------------------------------------------------------
// Depth safety
// ---------------------------------------------------------------------------
/// A container that would be the 129th level of nesting is rejected where
/// it opens, whatever follows.
pub proof fn lemma_depth_limit(s: Seq<u8>, pos: int, depth: int, o: DecodeOptions)
    requires
        0 <= pos < s.len(),
        depth >= MAX_DEPTH,
    ensures
        parse_array(s, pos, depth, o) == Err::<(TermV, int), Failure>(
            (ErrorKind::NestingDepthExceeded, pos),
        ),
        parse_object(s, pos, depth, o) == Err::<(TermV, int), Failure>(
            (ErrorKind::NestingDepthExceeded, pos),
        ),
{
}

/// The opening brackets of arrays nested `k` deep and deeper are read up to
/// the one that is too deep.
proof fn lemma_nested_arrays(s: Seq<u8>, k: int, o: DecodeOptions)
    requires
        0 <= k <= MAX_DEPTH < s.len(),
        forall|i: int| 0 <= i <= MAX_DEPTH ==> s[i] == 0x5b,
    ensures
        parse_value(s, k, k, o) == Err::<(TermV, int), Failure>(
            (ErrorKind::NestingDepthExceeded, MAX_DEPTH as int),
        ),
    decreases MAX_DEPTH - k,
{
    if k < MAX_DEPTH {
        lemma_nested_arrays(s, k + 1, o);
        assert(s[k + 1] == 0x5b);
        assert(!is_whitespace(s[k + 1]));
        assert(skip_ws(s, k + 1) == k + 1);
        assert(parse_array(s, k, k, o) == parse_elements(s, k + 1, k + 1, o, Seq::empty()));
    }
}

/// Depth safety.  A document that opens with 129 arrays one in the other is
/// rejected at the 129th opening bracket, whatever follows and however long
/// it is.
pub proof fn lemma_too_deep_is_rejected(s: Seq<u8>, o: DecodeOptions)
    requires
        s.len() > MAX_DEPTH,
        forall|i: int| 0 <= i <= MAX_DEPTH ==> s[i] == 0x5b,
        o.max_bytes == 0 || s.len() <= o.max_bytes,
    ensures
        parse_document(s, o) == Err::<TermV, Failure>(
            (ErrorKind::NestingDepthExceeded, MAX_DEPTH as int),
        ),
{
    lemma_nested_arrays(s, 0, o);
    assert(s[0] == 0x5b);
    assert(!is_whitespace(s[0]));
    assert(skip_ws(s, 0) == 0);
}

// ---------------------------------------------------------------------------
// Escape completeness
// ---------------------------------------------------------------------------
/// A hexadecimal digit reads back as the number it was written for.
pub proof fn lemma_hex_digit(n: int)
    requires
        0 <= n < 16,
    ensures
        is_hex(hex_digit(n)),
        hex_value(hex_digit(n)) == n,
        hex_digit(n) != 0x5c,
        hex_digit(n) != 0x22,
        hex_digit(n) >= 0x20,
{
}

/// `\uXXXX` reads back as the value it was written for.
pub proof fn lemma_unicode_escape(v: int)
    requires
        0 <= v <= 0xffff,
    ensures
        unicode_escape(v).len() == 6,
        unicode_escape(v)[0] == 0x5c,
        unicode_escape(v)[1] == 0x75,
        is_hex4(unicode_escape(v), 2),
        hex4_value(unicode_escape(v), 2) == v,
{
    let u = v as u32;
    let d3 = u / 4096 % 16;
    let d2 = u / 256 % 16;
    let d1 = u / 16 % 16;
    let d0 = u % 16;
    assert(d3 < 16 && d2 < 16 && d1 < 16 && d0 < 16 && d3 * 4096 + d2 * 256 + d1 * 16 + d0 == u)
        by (bit_vector)
        requires
            u <= 0xffff,
            d3 == u / 4096 % 16,
            d2 == u / 256 % 16,
            d1 == u / 16 % 16,
            d0 == u % 16,
    ;
    assert(d3 == v / 4096 % 16);
    assert(d2 == v / 256 % 16);
    assert(d1 == v / 16 % 16);
    assert(d0 == v % 16);
    lemma_hex_digit(d3 as int);
    lemma_hex_digit(d2 as int);
    lemma_hex_digit(d1 as int);
    lemma_hex_digit(d0 as int);
    let e = unicode_escape(v);
    assert(e[2] == hex_digit(d3 as int));
    assert(e[3] == hex_digit(d2 as int));
    assert(e[4] == hex_digit(d1 as int));
    assert(e[5] == hex_digit(d0 as int));
}

/// What stands at the start of a body only depends on its first twelve
/// bytes at most: a body that starts with `head` starts like `head`
/// followed by anything else, as far as `head` is a whole unit.
pub proof fn lemma_step_of_plain(c: u8, rest: Seq<u8>)
    requires
        c != 0x5c,
    ensures
        escape_step(seq![c] + rest) == (EscapeStep::Emit { bytes: seq![c], taken: 1 }),
        decode_body(seq![c] + rest) == prepend(seq![c], decode_body(rest)),
{
    reveal(escape_step);
    let t = seq![c] + rest;
    assert(t[0] == c);
    assert(t.skip(1) =~= rest);
}

/// Bytes without a backslash in front of a body read as themselves.
pub proof fn lemma_decode_plain_run(run: Seq<u8>, rest: Seq<u8>)
    requires
        forall|i: int| 0 <= i < run.len() ==> (#[trigger] run[i]) != 0x5c,
    ensures
        decode_body(run + rest) == prepend(run, decode_body(rest)),
    decreases run.len(),
{
    if run.len() == 0 {
        assert(run + rest =~= rest);
        crate::strings::lemma_prepend_empty(decode_body(rest));
        assert(run =~= Seq::<u8>::empty());
    } else {
        let tail = run.skip(1);
        assert forall|i: int| 0 <= i < tail.len() implies (#[trigger] tail[i]) != 0x5c by {
            assert(tail[i] == run[i + 1]);
        }
        lemma_decode_plain_run(tail, rest);
        lemma_step_of_plain(run[0], tail + rest);
        assert(seq![run[0]] + (tail + rest) =~= run + rest);
        crate::strings::lemma_prepend_twice(seq![run[0]], tail, decode_body(rest));
        assert(seq![run[0]] + tail =~= run);
    }
}

/// A two-byte escape in front of a body reads as the byte it stands for.
pub proof fn lemma_decode_simple(letter: u8, byte: u8, rest: Seq<u8>)
    requires
        letter != 0x75,
        simple_escape(letter) == Some(byte),
    ensures
        decode_body(seq![0x5cu8, letter] + rest) == prepend(seq![byte], decode_body(rest)),
{
    reveal(escape_step);
    let t = seq![0x5cu8, letter] + rest;
    assert(t[0] == 0x5c && t[1] == letter);
    assert(t.skip(2) =~= rest);
}

/// `\uXXXX` of a value that is no surrogate, in front of a body, reads as
/// the UTF-8 form of the value.
pub proof fn lemma_decode_unicode(v: int, rest: Seq<u8>)
    requires
        0 <= v <= 0xffff,
        !is_high_surrogate(v),
        !is_low_surrogate(v),
    ensures
        decode_body(unicode_escape(v) + rest) == prepend(
            encode_scalar(v as u32),
            decode_body(rest),
        ),
{
    reveal(escape_step);
    lemma_unicode_escape(v);
    let e = unicode_escape(v);
    let t = e + rest;
    assert(t[0] == e[0] && t[1] == e[1] && t[2] == e[2] && t[3] == e[3] && t[4] == e[4] && t[5]
        == e[5]);
    assert(t.skip(6) =~= rest);
}

/// The two halves of the surrogate pair of a code point above the basic
/// plane are a high and a low surrogate that stand for the code point.
pub proof fn lemma_pair_halves(cp: int)
    requires
        0x10000 <= cp <= 0x10ffff,
    ensures
        is_high_surrogate(0xd800 + (cp - 0x10000) / 0x400),
        is_low_surrogate(0xdc00 + (cp - 0x10000) % 0x400),
        pair_value(0xd800 + (cp - 0x10000) / 0x400, 0xdc00 + (cp - 0x10000) % 0x400) == cp,
{
}

/// The two escapes of a surrogate pair, in front of a body, read as the
/// UTF-8 form of the code point of the pair.
pub proof fn lemma_decode_pair(cp: int, rest: Seq<u8>)
    requires
        0x10000 <= cp <= 0x10ffff,
    ensures
        decode_body(scalar_escape(cp) + rest) == prepend(
            encode_scalar(cp as u32),
            decode_body(rest),
        ),
{
    let high = 0xd800 + (cp - 0x10000) / 0x400;
    let low = 0xdc00 + (cp - 0x10000) % 0x400;
    lemma_pair_halves(cp);
    lemma_unicode_escape(high);
    lemma_unicode_escape(low);
    let h = unicode_escape(high);
    let l = unicode_escape(low);
    let t = h + l + rest;
    assert(scalar_escape(cp) + rest =~= t);
    assert(t.len() >= 12);
    assert(t[0] == 0x5c && t[1] == 0x75);
    assert(t[2] == h[2] && t[3] == h[3] && t[4] == h[4] && t[5] == h[5]);
    assert(t[6] == 0x5c && t[7] == 0x75);
    assert(t[8] == l[2] && t[9] == l[3] && t[10] == l[4] && t[11] == l[5]);
    assert(is_hex4(t, 2) && hex4_value(t, 2) == high);
    assert(is_hex4(t, 8) && hex4_value(t, 8) == low);
    assert(escape_step(t) == (EscapeStep::Emit { bytes: encode_scalar(cp as u32), taken: 12 })) by {
        reveal(escape_step);
    }
    assert(t.skip(12) =~= rest);
}

/// The escape of a byte that every mode escapes, in front of a body, reads
/// as the byte.
pub proof fn lemma_decode_escape_byte(c: u8, rest: Seq<u8>)
    requires
        needs_json_escape(c),
    ensures
        decode_body(escape_byte(c) + rest) == prepend(seq![c], decode_body(rest)),
{
    if c == 0x22 {
        lemma_decode_simple(0x22, 0x22, rest);
    } else if c == 0x5c {
        lemma_decode_simple(0x5c, 0x5c, rest);
    } else if c == 0x0a {
        lemma_decode_simple(0x6e, 0x0a, rest);
    } else if c == 0x0d {
        lemma_decode_simple(0x72, 0x0d, rest);
    } else if c == 0x09 {
        lemma_decode_simple(0x74, 0x09, rest);
    } else if c == 0x08 {
        lemma_decode_simple(0x62, 0x08, rest);
    } else if c == 0x0c {
        lemma_decode_simple(0x66, 0x0c, rest);
    } else {
        lemma_decode_unicode(c as int, rest);
        lemma_encode_ascii(c);
    }
}

/// The UTF-8 form of an ASCII value is the value as one byte.
pub proof fn lemma_encode_ascii(c: u8)
    requires
        c < 0x80,
    ensures
        encode_scalar(c as u32) == seq![c],
{
    let v = c as u32;
    assert((v & 0x7f) as u8 == c) by (bit_vector)
        requires
            v == c as u32,
            c < 0x80,
    ;
    assert(encode_scalar(v) =~= seq![c]);
}

/// The UTF-8 forms of the two line separators.
pub proof fn lemma_encode_separators()
    ensures
        encode_scalar(0x2028u32) == seq![0xe2u8, 0x80, 0xa8],
        encode_scalar(0x2029u32) == seq![0xe2u8, 0x80, 0xa9],
{
    assert(0xE0u8 | ((0x2028u32 >> 12) & 0x0F) as u8 == 0xe2) by (bit_vector);
    assert(0x80u8 | ((0x2028u32 >> 6) & 0x3F) as u8 == 0x80) by (bit_vector);
    assert(0x80u8 | (0x2028u32 & 0x3F) as u8 == 0xa8) by (bit_vector);
    assert(0xE0u8 | ((0x2029u32 >> 12) & 0x0F) as u8 == 0xe2) by (bit_vector);
    assert(0x80u8 | ((0x2029u32 >> 6) & 0x3F) as u8 == 0x80) by (bit_vector);
    assert(0x80u8 | (0x2029u32 & 0x3F) as u8 == 0xa9) by (bit_vector);
    assert(encode_scalar(0x2028u32) =~= seq![0xe2u8, 0x80, 0xa8]);
    assert(encode_scalar(0x2029u32) =~= seq![0xe2u8, 0x80, 0xa9]);
}

/// Behind every byte from `0xE2` up, the bytes that belong to its character
/// by its length are bytes from `0x80` up.
pub open spec fn high_bytes_clean(t: Seq<u8>) -> bool {
    forall|i: int, k: int|
        #![trigger t[i], t[i + k]]
        0 <= i < t.len() && t[i] >= 0xe2 && 1 <= k < char_len(t[i]) && i + k < t.len() ==> t[i
            + k] >= 0x80
}

/// What the round trip of a string body needs of its bytes, by mode:
/// nothing in the plain mode, UTF-8 in the Unicode-safe mode, and nothing
/// but high bytes inside a long character in the two other modes.
pub open spec fn round_trips(t: Seq<u8>, mode: EscapeMode) -> bool {
    match mode {
        EscapeMode::Json => true,
        EscapeMode::UnicodeSafe => valid_utf8(t),
        _ => high_bytes_clean(t),
    }
}

/// The first scalar of UTF-8 bytes is the UTF-8 form of its code point.
pub proof fn lemma_first_scalar_form(t: Seq<u8>)
    requires
        valid_first_scalar(t),
    ensures
        encode_scalar(decode_first_scalar(t)) == t.subrange(0, length_of_first_scalar(t)),
        is_scalar(decode_first_scalar(t)),
        1 <= length_of_first_scalar(t) <= t.len(),
        t[0] >= 0x80 ==> length_of_first_scalar(t) == char_len(t[0]),
{
    let take = take_first_scalar(t);
    let n = length_of_first_scalar(t);
    assert(take.len() == n);
    assert(take[0] == t[0]);
    if n >= 2 {
        assert(take[1] == t[1]);
    }
    if n >= 3 {
        assert(take[2] == t[2]);
    }
    if n >= 4 {
        assert(take[3] == t[3]);
    }
    assert(valid_first_scalar(take));
    assert(length_of_first_scalar(take) == n);
    assert(pop_first_scalar(take) =~= Seq::<u8>::empty());
    assert(valid_utf8(Seq::<u8>::empty()));
    assert(valid_utf8(take));
    vstd::utf8::decode_utf8_first_scalar(take);
    assert(take_first_scalar(take) =~= take);
    let cp = decode_first_scalar(t);
    assert(decode_first_scalar(take) == cp);
    vstd::utf8::char_is_scalar(cp as char);
    assert(is_scalar(cp)) by {
        lemma_decoded_is_scalar(t);
    }
    assert((cp as char) as u32 == cp);
}

/// The code point of a first scalar is a scalar value.
pub proof fn lemma_decoded_is_scalar(t: Seq<u8>)
    requires
        valid_first_scalar(t),
    ensures
        is_scalar(decode_first_scalar(t)),
{
    let b0 = t[0];
    if vstd::utf8::is_leading_byte_width_1(b0) {
        assert((b0 & 0x7f) as u32 <= 0x7f) by (bit_vector);
    } else if vstd::utf8::is_leading_byte_width_2(b0) {
        let b1 = t[1];
        assert((((b0 & 0x1f) as u32) << 6) | ((b1 & 0x3f) as u32) <= 0x7ff) by (bit_vector);
    } else if vstd::utf8::is_leading_byte_width_3(b0) {
        let b1 = t[1];
        let b2 = t[2];
        assert((((b0 & 0x0f) as u32) << 12) | (((b1 & 0x3f) as u32) << 6) | ((b2 & 0x3f) as u32)
            <= 0xffff) by (bit_vector);
    }
}

/// What is written for the start of a body, put in front of any other
/// body, reads as the bytes it was written for.
pub proof fn lemma_decode_unit(t: Seq<u8>, mode: EscapeMode, rest: Seq<u8>)
    requires
        t.len() > 0,
        round_trips(t, mode),
    ensures
        1 <= escape_unit(t, mode).taken <= t.len(),
        decode_body(escape_unit(t, mode).bytes + rest) == prepend(
            t.subrange(0, escape_unit(t, mode).taken),
            decode_body(rest),
        ),
{
    reveal(escape_unit);
    let c = t[0];
    let u = escape_unit(t, mode);
    if needs_json_escape(c) {
        lemma_decode_escape_byte(c, rest);
        assert(t.subrange(0, 1) =~= seq![c]);
    } else if mode == EscapeMode::Json {
        lemma_step_of_plain(c, rest);
        assert(t.subrange(0, 1) =~= seq![c]);
    } else if mode == EscapeMode::UnicodeSafe {
        if c < 0x80 {
            lemma_step_of_plain(c, rest);
            assert(t.subrange(0, 1) =~= seq![c]);
        } else {
            lemma_first_scalar_form(t);
            let cp = decode_first_scalar(t);
            if cp <= 0xffff {
                lemma_decode_unicode(cp as int, rest);
            } else {
                lemma_decode_pair(cp as int, rest);
            }
        }
    } else {
        if mode == EscapeMode::HtmlSafe && (c == 0x3c || c == 0x3e || c == 0x26) {
            lemma_decode_unicode(c as int, rest);
            lemma_encode_ascii(c);
            assert(t.subrange(0, 1) =~= seq![c]);
        } else if mode == EscapeMode::HtmlSafe && c == 0x2f {
            lemma_decode_simple(0x2f, 0x2f, rest);
            assert(t.subrange(0, 1) =~= seq![c]);
        } else if starts_with_separator(t, 0xa8) {
            lemma_decode_unicode(0x2028, rest);
            lemma_encode_separators();
            assert(t.subrange(0, 3) =~= seq![0xe2u8, 0x80, 0xa8]);
        } else if starts_with_separator(t, 0xa9) {
            lemma_decode_unicode(0x2029, rest);
            lemma_encode_separators();
            assert(t.subrange(0, 3) =~= seq![0xe2u8, 0x80, 0xa9]);
        } else if c >= 0xe2 {
            let n = verbatim_char(t).taken;
            let run = t.subrange(0, n);
            assert forall|i: int| 0 <= i < run.len() implies (#[trigger] run[i]) != 0x5c by {
                if i > 0 {
                    assert(t[0 + i] >= 0x80);
                }
            }
            lemma_decode_plain_run(run, rest);
        } else {
            lemma_step_of_plain(c, rest);
            assert(t.subrange(0, 1) =~= seq![c]);
        }
    }
}

/// What the round trip needs of a body holds of what is left of the body
/// after its first unit.
pub proof fn lemma_round_trips_rest(t: Seq<u8>, mode: EscapeMode)
    requires
        t.len() > 0,
        round_trips(t, mode),
    ensures
        1 <= escape_unit(t, mode).taken <= t.len(),
        round_trips(t.skip(escape_unit(t, mode).taken), mode),
{
    reveal(escape_unit);
    let n = escape_unit(t, mode).taken;
    let rest = t.skip(n);
    match mode {
        EscapeMode::Json => {},
        EscapeMode::UnicodeSafe => {
            lemma_first_scalar_form(t);
            assert(pop_first_scalar(t) =~= rest);
        },
        _ => {
            assert forall|i: int, k: int|
                #![trigger rest[i], rest[i + k]]
                0 <= i < rest.len() && rest[i] >= 0xe2 && 1 <= k < char_len(rest[i]) && i + k
                    < rest.len() implies rest[i + k] >= 0x80 by {
                assert(rest[i] == t[n + i]);
                assert(rest[i + k] == t[(n + i) + k]);
            }
        },
    }
}

/// A body that is written with its escapes reads as the body.
pub proof fn lemma_escaped_reads_back(t: Seq<u8>, mode: EscapeMode)
    requires
        round_trips(t, mode),
    ensures
        decode_body(escaped(t, mode)) == Ok::<Seq<u8>, ErrorKind>(t),
    decreases t.len(),
{
    if t.len() > 0 {
        let u = escape_unit(t, mode);
        let rest = t.skip(u.taken);
        lemma_round_trips_rest(t, mode);
        lemma_escaped_reads_back(rest, mode);
        lemma_decode_unit(t, mode, escaped(rest, mode));
        assert(escaped(t, mode) == u.bytes + escaped(rest, mode));
        assert(t.subrange(0, u.taken) + rest =~= t);
    } else {
        assert(t =~= Seq::<u8>::empty());
    }
}

/// In UTF-8, the bytes behind a byte from `0xE2` up that belong to its
/// character are continuation bytes, and so no backslash.
pub proof fn lemma_utf8_high_bytes_clean(t: Seq<u8>)
    requires
        valid_utf8(t),
    ensures
        high_bytes_clean(t),
    decreases t.len(),
{
    if t.len() > 0 {
        let n = length_of_first_scalar(t);
        let rest = pop_first_scalar(t);
        lemma_utf8_high_bytes_clean(rest);
        assert forall|i: int, k: int|
            #![trigger t[i], t[i + k]]
            0 <= i < t.len() && t[i] >= 0xe2 && 1 <= k < char_len(t[i]) && i + k < t.len() implies t[i
                + k] >= 0x80 by {
            if i >= n {
                assert(rest[i - n] == t[i]);
                assert(rest[(i - n) + k] == t[i + k]);
            }
        }
    }
}

/// Escape completeness, for the body of a string: in every escape mode,
/// UTF-8 bytes that are written with the escapes of the mode read back as
/// the same bytes.
pub proof fn lemma_escape_completeness(b: Seq<u8>, mode: EscapeMode)
    requires
        valid_utf8(b),
    ensures
        decode_body(escaped(b, mode)) == Ok::<Seq<u8>, ErrorKind>(b),
{
    lemma_utf8_high_bytes_clean(b);
    lemma_escaped_reads_back(b, mode);
}

/// How a scan ends does not depend on whether an escape was seen before.
pub proof fn lemma_scan_flag(s: Seq<u8>, pos: int, a: bool, b: bool)
    ensures
        scan_string_body(s, pos, a).stop == scan_string_body(s, pos, b).stop,
        scan_string_body(s, pos, a).at == scan_string_body(s, pos, b).at,
    decreases s.len() - pos,
{
    if 0 <= pos < s.len() && s[pos] != 0x22 {
        if s[pos] == 0x5c {
            if pos + 1 < s.len() {
                lemma_scan_flag(s, pos + 2, true, true);
            }
        } else if s[pos] >= 0x20 {
            lemma_scan_flag(s, pos + 1, a, b);
        }
    }
}

/// A scan ends the same way from two places if it ends the same way from
/// them whatever was seen before.
pub open spec fn scans_alike(s: Seq<u8>, from: int, to: int) -> bool {
    forall|esc: bool|
        #![trigger scan_string_body(s, from, esc)]
        scan_string_body(s, from, esc).stop == scan_string_body(s, to, esc).stop
            && scan_string_body(s, from, esc).at == scan_string_body(s, to, esc).at
}

/// A scan passes bytes that are no quote, no backslash and no control byte.
pub proof fn lemma_scan_passes_plain(s: Seq<u8>, from: int, to: int)
    requires
        0 <= from <= to <= s.len(),
        forall|i: int| from <= i < to ==> !needs_json_escape(#[trigger] s[i]),
    ensures
        scans_alike(s, from, to),
    decreases to - from,
{
    if from < to {
        lemma_scan_passes_plain(s, from + 1, to);
        assert(!needs_json_escape(s[from]));
        assert forall|esc: bool| #![trigger scan_string_body(s, from, esc)]
            scan_string_body(s, from, esc).stop == scan_string_body(s, to, esc).stop
                && scan_string_body(s, from, esc).at == scan_string_body(s, to, esc).at by {
            let step = scan_string_body(s, from + 1, esc);
        }
    }
}

/// A scan passes a backslash together with the byte behind it.
pub proof fn lemma_scan_passes_pair(s: Seq<u8>, from: int)
    requires
        0 <= from,
        from + 1 < s.len(),
        s[from] == 0x5c,
    ensures
        scans_alike(s, from, from + 2),
{
    assert forall|esc: bool| #![trigger scan_string_body(s, from, esc)]
        scan_string_body(s, from, esc).stop == scan_string_body(s, from + 2, esc).stop
            && scan_string_body(s, from, esc).at == scan_string_body(s, from + 2, esc).at by {
        lemma_scan_flag(s, from + 2, true, esc);
    }
}

/// Scanning alike carries over.
pub proof fn lemma_scans_alike_chain(s: Seq<u8>, a: int, b: int, c: int)
    requires
        scans_alike(s, a, b),
        scans_alike(s, b, c),
    ensures
        scans_alike(s, a, c),
{
    assert forall|esc: bool| #![trigger scan_string_body(s, a, esc)]
        scan_string_body(s, a, esc).stop == scan_string_body(s, c, esc).stop && scan_string_body(
            s,
            a,
            esc,
        ).at == scan_string_body(s, c, esc).at by {
        let mid = scan_string_body(s, b, esc);
    }
}

/// A scan passes `\uXXXX`.
pub proof fn lemma_scan_passes_unicode(s: Seq<u8>, from: int, v: int)
    requires
        0 <= from,
        from + 6 <= s.len(),
        0 <= v <= 0xffff,
        s.subrange(from, from + 6) == unicode_escape(v),
    ensures
        scans_alike(s, from, from + 6),
{
    let e = unicode_escape(v);
    lemma_unicode_escape(v);
    assert(s[from] == e[0] && s[from + 1] == e[1]) by {
        assert(s.subrange(from, from + 6)[0] == s[from]);
        assert(s.subrange(from, from + 6)[1] == s[from + 1]);
    }
    lemma_scan_passes_pair(s, from);
    assert forall|i: int| from + 2 <= i < from + 6 implies !needs_json_escape(#[trigger] s[i]) by {
        assert(s.subrange(from, from + 6)[i - from] == s[i]);
        lemma_hex_digit(v / 4096 % 16);
        lemma_hex_digit(v / 256 % 16);
        lemma_hex_digit(v / 16 % 16);
        lemma_hex_digit(v % 16);
    }
    lemma_scan_passes_plain(s, from + 2, from + 6);
    lemma_scans_alike_chain(s, from, from + 2, from + 6);
}

/// A scan passes what is written for the start of a body.
pub proof fn lemma_scan_passes_unit(s: Seq<u8>, from: int, t: Seq<u8>, mode: EscapeMode)
    requires
        t.len() > 0,
        round_trips(t, mode),
        0 <= from,
        from + escape_unit(t, mode).bytes.len() <= s.len(),
        s.subrange(from, from + escape_unit(t, mode).bytes.len()) == escape_unit(t, mode).bytes,
    ensures
        scans_alike(s, from, from + escape_unit(t, mode).bytes.len()),
{
    reveal(escape_unit);
    let c = t[0];
    let u = escape_unit(t, mode);
    let n = u.bytes.len() as int;
    let piece = s.subrange(from, from + n);
    assert forall|i: int| 0 <= i < n implies s[from + i] == #[trigger] u.bytes[i] by {
        assert(piece[i] == s[from + i]);
    }
    if needs_json_escape(c) {
        if c == 0x22 || c == 0x5c || c == 0x0a || c == 0x0d || c == 0x09 || c == 0x08 || c == 0x0c {
            assert(u.bytes[0] == 0x5c);
            lemma_scan_passes_pair(s, from);
        } else {
            lemma_scan_passes_unicode(s, from, c as int);
        }
    } else if mode == EscapeMode::HtmlSafe && (c == 0x3c || c == 0x3e || c == 0x26) {
        lemma_scan_passes_unicode(s, from, c as int);
    } else if mode == EscapeMode::HtmlSafe && c == 0x2f {
        assert(u.bytes[0] == 0x5c);
        lemma_scan_passes_pair(s, from);
    } else if mode != EscapeMode::Json && mode != EscapeMode::UnicodeSafe && starts_with_separator(
        t,
        0xa8,
    ) {
        lemma_scan_passes_unicode(s, from, 0x2028);
    } else if mode != EscapeMode::Json && mode != EscapeMode::UnicodeSafe && starts_with_separator(
        t,
        0xa9,
    ) {
        lemma_scan_passes_unicode(s, from, 0x2029);
    } else if mode == EscapeMode::UnicodeSafe && c >= 0x80 {
        lemma_first_scalar_form(t);
        let cp = decode_first_scalar(t) as int;
        if cp <= 0xffff {
            lemma_scan_passes_unicode(s, from, cp);
        } else {
            let high = 0xd800 + (cp - 0x10000) / 0x400;
            let low = 0xdc00 + (cp - 0x10000) % 0x400;
            lemma_pair_halves(cp);
            lemma_unicode_escape(high);
            lemma_unicode_escape(low);
            assert(s.subrange(from, from + 6) =~= unicode_escape(high)) by {
                assert forall|i: int| 0 <= i < 6 implies s.subrange(from, from + 6)[i]
                    == unicode_escape(high)[i] by {
                    assert(u.bytes[i] == unicode_escape(high)[i]);
                    assert(s[from + i] == u.bytes[i]);
                }
            }
            assert(s.subrange(from + 6, from + 12) =~= unicode_escape(low)) by {
                assert forall|i: int| 0 <= i < 6 implies s.subrange(from + 6, from + 12)[i]
                    == unicode_escape(low)[i] by {
                    assert(u.bytes[6 + i] == unicode_escape(low)[i]);
                    assert(s[from + (6 + i)] == u.bytes[6 + i]);
                }
            }
            lemma_scan_passes_unicode(s, from, high);
            lemma_scan_passes_unicode(s, from + 6, low);
            lemma_scans_alike_chain(s, from, from + 6, from + 12);
        }
    } else {
        // The bytes are written as they are, and they are plain.
        assert forall|i: int| from <= i < from + n implies !needs_json_escape(#[trigger] s[i]) by {
            assert(s[from + (i - from)] == u.bytes[i - from]);
            if i > from {
                assert(u.bytes[i - from] == t[0 + (i - from)]);
                assert(t[0 + (i - from)] >= 0x80);
            }
        }
        lemma_scan_passes_plain(s, from, from + n);
    }
}

/// A scan passes a body that is written with its escapes.
pub proof fn lemma_scan_passes_escaped(s: Seq<u8>, from: int, t: Seq<u8>, mode: EscapeMode)
    requires
        round_trips(t, mode),
        0 <= from,
        from + escaped(t, mode).len() <= s.len(),
        s.subrange(from, from + escaped(t, mode).len()) == escaped(t, mode),
    ensures
        scans_alike(s, from, from + escaped(t, mode).len()),
    decreases t.len(),
{
    if t.len() > 0 {
        let u = escape_unit(t, mode);
        let rest = t.skip(u.taken);
        let n = u.bytes.len() as int;
        let e = escaped(t, mode);
        lemma_round_trips_rest(t, mode);
        assert(e == u.bytes + escaped(rest, mode));
        assert(s.subrange(from, from + n) =~= u.bytes) by {
            assert(s.subrange(from, from + n) =~= s.subrange(from, from + e.len()).subrange(0, n));
        }
        assert(s.subrange(from + n, from + e.len()) =~= escaped(rest, mode)) by {
            assert(s.subrange(from + n, from + e.len()) =~= s.subrange(
                from,
                from + e.len(),
            ).subrange(n, e.len() as int));
        }
        lemma_scan_passes_unit(s, from, t, mode);
        lemma_scan_passes_escaped(s, from + n, rest, mode);
        lemma_scans_alike_chain(s, from, from + n, from + e.len());
    } else {
        assert(escaped(t, mode).len() == 0);
    }
}

/// Escape completeness.  For every byte string `b` that is UTF-8 and every
/// escape mode, the JSON string that the encoder writes for `b` is read by
/// the decoder as one string of exactly the bytes `b`.
pub proof fn lemma_string_round_trip(b: Seq<u8>, mode: EscapeMode, validate: bool)
    requires
        valid_utf8(b),
    ensures
        parse_string(quoted(b, mode), 0, validate) == Ok::<(Seq<u8>, int), Failure>(
            (b, quoted(b, mode).len() as int),
        ),
{
    let e = escaped(b, mode);
    let s = quoted(b, mode);
    lemma_utf8_high_bytes_clean(b);
    assert(s.len() == e.len() + 2);
    let closing: int = 1 + (e.len() as int);
    assert(s.subrange(1, closing) =~= e);
    lemma_scan_passes_escaped(s, 1, b, mode);
    assert(s[closing] == 0x22);
    let scan = scan_string_body(s, 1, false);
    assert(scan_string_body(s, closing, false).stop is Closed);
    assert(scan.stop is Closed && scan.at == closing);
    lemma_escaped_reads_back(b, mode);
    assert(decode_escapes(s, 1, closing) == decode_body(e));
}

} // verus!
