//! What the string writer writes is UTF-8: the escapes are ASCII, and what
//! is written as it is keeps its characters whole.

use crate::decimal::{is_ascii_bytes, lemma_ascii_is_utf8};
use crate::encoding::{
    char_len, escape_byte, escape_unit, escaped, hex_digit, lemma_unit_taken, quoted, scalar_escape,
    unicode_escape, EscapeMode,
};
use crate::laws::lemma_first_scalar_form;
use vstd::prelude::*;
use vstd::utf8::{
    decode_first_scalar, length_of_first_scalar, pop_first_scalar, take_first_scalar,
    valid_first_scalar, valid_utf8, valid_utf8_concat,
};

verus! {

/// A hexadecimal digit is an ASCII byte.
pub proof fn lemma_hex_digit_ascii(n: int)
    requires
        0 <= n < 16,
    ensures
        hex_digit(n) < 0x80,
{
}

/// The escapes are ASCII.
pub proof fn lemma_escapes_ascii(v: int)
    requires
        0 <= v,
    ensures
        is_ascii_bytes(unicode_escape(v)),
        is_ascii_bytes(scalar_escape(v)),
        0 <= v < 0x100 ==> is_ascii_bytes(escape_byte(v as u8)),
{
    lemma_hex_digit_ascii(v / 4096 % 16);
    lemma_hex_digit_ascii(v / 256 % 16);
    lemma_hex_digit_ascii(v / 16 % 16);
    lemma_hex_digit_ascii(v % 16);
    if v > 0xffff {
        let hi = 0xd800 + (v - 0x10000) / 0x400;
        let lo = 0xdc00 + (v - 0x10000) % 0x400;
        lemma_hex_digit_ascii(hi / 4096 % 16);
        lemma_hex_digit_ascii(hi / 256 % 16);
        lemma_hex_digit_ascii(hi / 16 % 16);
        lemma_hex_digit_ascii(hi % 16);
        lemma_hex_digit_ascii(lo / 4096 % 16);
        lemma_hex_digit_ascii(lo / 256 % 16);
        lemma_hex_digit_ascii(lo / 16 % 16);
        lemma_hex_digit_ascii(lo % 16);
    }
}

/// Bytes outside ASCII that no mode but the Unicode-safe one looks at are
/// written one by one as they are.
pub proof fn lemma_copied_bytes(t: Seq<u8>, k: int, mode: EscapeMode)
    requires
        0 <= k <= t.len(),
        mode != EscapeMode::UnicodeSafe,
        forall|i: int|
            0 <= i < k ==> (#[trigger] t[i]) >= 0x80 && (mode != EscapeMode::Json ==> t[i] < 0xe2),
    ensures
        escaped(t, mode) == t.subrange(0, k) + escaped(t.skip(k), mode),
    decreases k,
{
    if k == 0 {
        assert(t.skip(0) =~= t);
        assert(t.subrange(0, 0) + escaped(t, mode) =~= escaped(t, mode));
    } else {
        reveal(escape_unit);
        let u = escape_unit(t, mode);
        assert(t[0] >= 0x80);
        assert(u.taken == 1 && u.bytes == seq![t[0]]);
        let rest = t.skip(1);
        assert forall|i: int| 0 <= i < k - 1 implies (#[trigger] rest[i]) >= 0x80 && (mode
            != EscapeMode::Json ==> rest[i] < 0xe2) by {
            assert(rest[i] == t[i + 1]);
        }
        lemma_copied_bytes(rest, k - 1, mode);
        assert(rest.skip(k - 1) =~= t.skip(k));
        assert(seq![t[0]] + (rest.subrange(0, k - 1) + escaped(t.skip(k), mode)) =~= t.subrange(0, k)
            + escaped(t.skip(k), mode));
    }
}

/// The first character of UTF-8 bytes, on its own, is UTF-8.
pub proof fn lemma_first_scalar_alone(t: Seq<u8>)
    requires
        valid_first_scalar(t),
    ensures
        valid_utf8(take_first_scalar(t)),
{
    let take = take_first_scalar(t);
    let n = length_of_first_scalar(t);
    assert(take.len() == n);
    assert(take[0] == t[0]);
    if n >= 2 {
        assert(take[1] == t[1]);
    }
    if n >= 3 {
        assert(take[2] == t[2]);
    }
    if n >= 4 {
        assert(take[3] == t[3]);
    }
    assert(valid_first_scalar(take));
    assert(length_of_first_scalar(take) == n);
    assert(pop_first_scalar(take) =~= Seq::<u8>::empty());
    assert(valid_utf8(Seq::<u8>::empty()));
}

/// The body of a string that the encoder writes for UTF-8 bytes is UTF-8,
/// in every escape mode.
pub proof fn lemma_escaped_is_utf8(b: Seq<u8>, mode: EscapeMode)
    requires
        valid_utf8(b),
    ensures
        valid_utf8(escaped(b, mode)),
    decreases b.len(),
{
    if b.len() > 0 {
        let n = length_of_first_scalar(b);
        let rest = pop_first_scalar(b);
        lemma_first_scalar_form(b);
        assert(rest =~= b.skip(n));
        lemma_escaped_is_utf8(rest, mode);
        lemma_unit_taken(b, mode);
        let u = escape_unit(b, mode);
        let c = b[0];
        // What is written for the first character.
        let head: Seq<u8> = if c < 0x80 || mode == EscapeMode::UnicodeSafe {
            u.bytes
        } else if u.taken == 3 && u.bytes == unicode_escape(0x2028) {
            u.bytes
        } else if u.taken == 3 && u.bytes == unicode_escape(0x2029) {
            u.bytes
        } else {
            take_first_scalar(b)
        };
        assert(escaped(b, mode) == head + escaped(rest, mode) && valid_utf8(head)) by {
            reveal(escape_unit);
            lemma_escapes_ascii(c as int);
            lemma_escapes_ascii(0x3c);
            lemma_escapes_ascii(0x3e);
            lemma_escapes_ascii(0x26);
            lemma_escapes_ascii(0x2028);
            lemma_escapes_ascii(0x2029);
            lemma_escapes_ascii(decode_first_scalar(b) as int);
            if c < 0x80 {
                assert(n == 1);
                assert(u.taken == 1);
                assert(is_ascii_bytes(u.bytes));
                lemma_ascii_is_utf8(u.bytes);
            } else if mode == EscapeMode::UnicodeSafe {
                assert(u.taken == n);
                lemma_ascii_is_utf8(u.bytes);
            } else {
                assert(n == char_len(c));
                assert(forall|i: int| 1 <= i < n ==> 0x80 <= #[trigger] b[i] < 0xc0);
                lemma_first_scalar_alone(b);
                if mode != EscapeMode::Json && c >= 0xe2 {
                    if u.taken == 3 && (u.bytes == unicode_escape(0x2028) || u.bytes
                        == unicode_escape(0x2029)) {
                        assert(n == 3);
                        lemma_ascii_is_utf8(u.bytes);
                    } else {
                        assert(u.taken == n);
                        assert(u.bytes == b.subrange(0, n));
                    }
                } else {
                    lemma_copied_bytes(b, n, mode);
                }
            }
        }
        valid_utf8_concat(head, escaped(rest, mode));
    }
}

/// Escape completeness, for the bytes written.  For every byte string that
/// is UTF-8 and every escape mode, the JSON string that the encoder writes
/// is UTF-8.
pub proof fn lemma_quoted_is_utf8(b: Seq<u8>, mode: EscapeMode)
    requires
        valid_utf8(b),
    ensures
        valid_utf8(quoted(b, mode)),
{
    lemma_escaped_is_utf8(b, mode);
    let quote = seq![0x22u8];
    assert(is_ascii_bytes(quote));
    lemma_ascii_is_utf8(quote);
    valid_utf8_concat(quote, escaped(b, mode));
    valid_utf8_concat(quote + escaped(b, mode), quote);
}

} // verus!
