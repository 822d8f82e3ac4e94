//! The string codec of the decoder: scanning a string body and replacing its
//! escapes.

use crate::error::ErrorKind;
use crate::grammar::{
    decode_escapes, escape_step, hex4_value, hex_value, is_hex, is_hex4, prepend, scan_string_body,
    EscapeStep, StringScan, StringStop,
};
use crate::simd_utils::{
    find_escape_json, lemma_chunk_stop_within, lemma_run_end_bounds, run_end,
    skip_plain_string_bytes, ByteClass,
};
use crate::term::append;
use vstd::prelude::*;
use vstd::utf8::{encode_scalar, is_scalar};

verus! {

/// How the scan of a string body ended.
#[derive(Clone, Copy, PartialEq, Eq, Debug, Structural)]
pub enum ScanStop {
    /// On the closing quote.
    Closed,
    /// On a control byte.
    Control,
    /// At the end of the input.
    Unterminated,
}

/// Result of scanning a string body.
#[derive(Clone, Copy, Debug)]
pub struct ScannedString {
    /// How the scan ended.
    pub stop: ScanStop,
    /// Where it ended: on the closing quote, on the control byte, or at the
    /// end of the input.
    pub at: usize,
    /// Whether a backslash was passed on the way.
    pub has_escape: bool,
}

impl ScannedString {
    /// The scan as mathematics.
    pub open spec fn model(self) -> StringScan {
        StringScan {
            stop: match self.stop {
                ScanStop::Closed => StringStop::Closed,
                ScanStop::Control => StringStop::Control,
                ScanStop::Unterminated => StringStop::Unterminated,
            },
            at: self.at as int,
            has_escape: self.has_escape,
        }
    }
}

/// Plain bytes do not show in the result of a scan.
pub proof fn lemma_scan_over_plain(s: Seq<u8>, from: int, to: int, esc: bool)
    requires
        0 <= from <= to <= run_end(s, from, ByteClass::JsonSafe),
    ensures
        scan_string_body(s, to, esc) == scan_string_body(s, from, esc),
    decreases to - from,
{
    if from < to {
        lemma_run_end_bounds(s, from, ByteClass::JsonSafe);
        assert(ByteClass::JsonSafe.contains(s[from]));
        lemma_scan_over_plain(s, from + 1, to, esc);
    }
}

/// A scan that closes lies within the input, and without an escape it has
/// passed no backslash.
pub proof fn lemma_scan_closed(s: Seq<u8>, pos: int, esc: bool)
    requires
        0 <= pos,
        scan_string_body(s, pos, esc).stop is Closed,
    ensures
        pos <= scan_string_body(s, pos, esc).at < s.len(),
        s[scan_string_body(s, pos, esc).at] == 0x22,
        esc ==> scan_string_body(s, pos, esc).has_escape,
        !scan_string_body(s, pos, esc).has_escape ==> forall|i: int|
            pos <= i < scan_string_body(s, pos, esc).at ==> #[trigger] s[i] != 0x5c,
    decreases s.len() - pos,
{
    if pos < s.len() && s[pos] != 0x22 {
        if s[pos] == 0x5c {
            lemma_scan_closed(s, pos + 2, true);
        } else {
            lemma_scan_closed(s, pos + 1, esc);
        }
    }
}

/// Scans the string body that starts at `pos`, the position after the
/// opening quote.
pub fn scan_string_body_at(input: &[u8], pos: usize) -> (r: ScannedString)
    ensures
        r.model() == scan_string_body(input@, pos as int, false),
{
    let len = input.len();
    let mut p = pos;
    let mut esc = false;
    loop
        invariant
            len == input@.len(),
            pos <= p,
            scan_string_body(input@, pos as int, false) == scan_string_body(input@, p as int, esc),
        decreases len - p,
    {
        let ghost before = p;
        skip_plain_string_bytes(input, &mut p);
        proof {
            lemma_chunk_stop_within(input@, before as int, ByteClass::JsonSafe);
            lemma_scan_over_plain(input@, before as int, p as int, esc);
        }
        if p >= len {
            return ScannedString { stop: ScanStop::Unterminated, at: p, has_escape: esc };
        }
        let b = input[p];
        if b == 0x22 {
            return ScannedString { stop: ScanStop::Closed, at: p, has_escape: esc };
        } else if b == 0x5c {
            if p + 1 < len {
                p = p + 2;
                esc = true;
            } else {
                return ScannedString { stop: ScanStop::Unterminated, at: p + 1, has_escape: true };
            }
        } else if b < 0x20 {
            return ScannedString { stop: ScanStop::Control, at: p, has_escape: esc };
        } else {
            p = p + 1;
        }
    }
}

/// Whether `b` is a hexadecimal digit.
pub fn is_hex_digit(b: u8) -> (r: bool)
    ensures
        r == is_hex(b),
{
    (0x30 <= b && b <= 0x39) || (0x41 <= b && b <= 0x46) || (0x61 <= b && b <= 0x66)
}

/// The value of the hexadecimal digit `b`.
pub fn hex_digit_value(b: u8) -> (r: u32)
    requires
        is_hex(b),
    ensures
        r == hex_value(b),
        r < 16,
{
    if b <= 0x39 {
        (b - 0x30) as u32
    } else if b <= 0x46 {
        (b - 0x41 + 10) as u32
    } else {
        (b - 0x61 + 10) as u32
    }
}

/// Reads four hexadecimal digits at `pos`; `None` when one of the four bytes
/// is no hexadecimal digit.
pub fn read_hex4(input: &[u8], pos: usize) -> (r: Option<u32>)
    requires
        pos + 4 <= input@.len(),
    ensures
        r is Some <==> is_hex4(input@, pos as int),
        r is Some ==> r.unwrap() == hex4_value(input@, pos as int) && r.unwrap() <= 0xffff,
{
    let a = input[pos];
    let b = input[pos + 1];
    let c = input[pos + 2];
    let d = input[pos + 3];
    if is_hex_digit(a) && is_hex_digit(b) && is_hex_digit(c) && is_hex_digit(d) {
        Some(
            hex_digit_value(a) * 4096 + hex_digit_value(b) * 256 + hex_digit_value(c) * 16
                + hex_digit_value(d),
        )
    } else {
        None
    }
}

/// Appends the UTF-8 form of the scalar value `cp` to `out`.
pub fn push_utf8(out: &mut Vec<u8>, cp: u32)
    requires
        is_scalar(cp),
    ensures
        final(out)@ == old(out)@ + encode_scalar(cp),
{
    if cp <= 0x7f {
        let b0 = (cp & 0x7f) as u8;
        out.push(b0);
        assert(out@ =~= old(out)@ + encode_scalar(cp));
    } else if cp <= 0x7ff {
        let b0 = 0xc0u8 | (((cp >> 6) & 0x1f) as u8);
        let b1 = 0x80u8 | ((cp & 0x3f) as u8);
        out.push(b0);
        out.push(b1);
        assert(out@ =~= old(out)@ + encode_scalar(cp));
    } else if cp <= 0xffff {
        let b0 = 0xe0u8 | (((cp >> 12) & 0x0f) as u8);
        let b1 = 0x80u8 | (((cp >> 6) & 0x3f) as u8);
        let b2 = 0x80u8 | ((cp & 0x3f) as u8);
        out.push(b0);
        out.push(b1);
        out.push(b2);
        assert(out@ =~= old(out)@ + encode_scalar(cp));
    } else {
        let b0 = 0xf0u8 | (((cp >> 18) & 0x07) as u8);
        let b1 = 0x80u8 | (((cp >> 12) & 0x3f) as u8);
        let b2 = 0x80u8 | (((cp >> 6) & 0x3f) as u8);
        let b3 = 0x80u8 | ((cp & 0x3f) as u8);
        out.push(b0);
        out.push(b1);
        out.push(b2);
        out.push(b3);
        assert(out@ =~= old(out)@ + encode_scalar(cp));
    }
}

/// What one escape stands for and how many bytes it takes, or why it is no
/// escape.
pub enum Escape {
    /// A one-letter escape: the byte it stands for.
    Byte(u8),
    /// A `\u` escape, or a pair of them: the scalar value and the number of
    /// input bytes taken.
    Scalar(u32, usize),
    /// No escape.
    Bad(ErrorKind),
}

/// Reads the escape whose backslash is at `i`, within `input[.. end]`.
pub fn read_escape(input: &[u8], i: usize, end: usize) -> (r: Escape)
    requires
        i + 1 < end <= input@.len(),
        input@[i as int] == 0x5c,
    ensures
        match r {
            Escape::Byte(b) => escape_step(input@.subrange(i as int, end as int)) == (EscapeStep::Emit {
                bytes: seq![b],
                taken: 2,
            }),
            Escape::Scalar(cp, n) => is_scalar(cp) && (n == 6 || n == 12) && i + n <= end
                && escape_step(input@.subrange(i as int, end as int)) == (EscapeStep::Emit {
                bytes: encode_scalar(cp),
                taken: n as int,
            }),
            Escape::Bad(kind) => escape_step(input@.subrange(i as int, end as int)) == EscapeStep::Fail(
                kind,
            ),
        },
{
    proof {
        reveal(escape_step);
        let t = input@.subrange(i as int, end as int);
        assert(t[0] == input@[i as int] && t[1] == input@[i + 1]);
        if end - i > 5 {
            assert(t[2] == input@[i + 2] && t[3] == input@[i + 3] && t[4] == input@[i + 4] && t[5]
                == input@[i + 5]);
        }
        if end - i >= 12 {
            assert(t[6] == input@[i + 6] && t[7] == input@[i + 7]);
            assert(t[8] == input@[i + 8] && t[9] == input@[i + 9] && t[10] == input@[i + 10]
                && t[11] == input@[i + 11]);
        }
    }
    let c = input[i + 1];
    if c == 0x75 {
        if end - i <= 5 {
            return Escape::Bad(ErrorKind::InvalidUnicodeEscape);
        }
        let cp = match read_hex4(input, i + 2) {
            Some(cp) => cp,
            None => {
                return Escape::Bad(ErrorKind::InvalidUnicodeEscape);
            },
        };
        if 0xd800 <= cp && cp <= 0xdbff {
            if end - i >= 12 && input[i + 6] == 0x5c && input[i + 7] == 0x75 {
                match read_hex4(input, i + 8) {
                    Some(low) => {
                        if 0xdc00 <= low && low <= 0xdfff {
                            let full = 0x10000 + ((cp - 0xd800) * 0x400) + (low - 0xdc00);
                            return Escape::Scalar(full, 12);
                        }
                    },
                    None => {},
                }
            }
            Escape::Bad(ErrorKind::LoneSurrogate)
        } else if 0xdc00 <= cp && cp <= 0xdfff {
            Escape::Bad(ErrorKind::LoneSurrogate)
        } else {
            Escape::Scalar(cp, 6)
        }
    } else if c == 0x22 {
        Escape::Byte(0x22)
    } else if c == 0x5c {
        Escape::Byte(0x5c)
    } else if c == 0x2f {
        Escape::Byte(0x2f)
    } else if c == 0x62 {
        Escape::Byte(0x08)
    } else if c == 0x66 {
        Escape::Byte(0x0c)
    } else if c == 0x6e {
        Escape::Byte(0x0a)
    } else if c == 0x72 {
        Escape::Byte(0x0d)
    } else if c == 0x74 {
        Escape::Byte(0x09)
    } else {
        Escape::Bad(ErrorKind::InvalidEscapeSequence)
    }
}

/// Decoding a range is decoding what stands at its start and then the rest.
pub proof fn lemma_decode_unfold(s: Seq<u8>, i: int, end: int)
    requires
        0 <= i < end <= s.len(),
    ensures
        decode_escapes(s, i, end) == (match escape_step(s.subrange(i, end)) {
            EscapeStep::Fail(kind) => Err::<Seq<u8>, ErrorKind>(kind),
            EscapeStep::Emit { bytes, taken } => if 1 <= taken <= end - i {
                prepend(bytes, decode_escapes(s, i + taken, end))
            } else {
                Err::<Seq<u8>, ErrorKind>(ErrorKind::InvalidEscapeSequence)
            },
        }),
{
    let t = s.subrange(i, end);
    match escape_step(t) {
        EscapeStep::Emit { bytes, taken } => {
            if 1 <= taken <= end - i {
                assert(t.skip(taken) =~= s.subrange(i + taken, end));
            }
        },
        EscapeStep::Fail(_) => {},
    }
}

/// A byte that starts no escape stands for itself.
pub proof fn lemma_decode_single(s: Seq<u8>, i: int, end: int)
    requires
        0 <= i < end <= s.len(),
        !(s[i] == 0x5c && i + 1 < end),
    ensures
        decode_escapes(s, i, end) == prepend(seq![s[i]], decode_escapes(s, i + 1, end)),
{
    reveal(escape_step);
    lemma_decode_unfold(s, i, end);
    assert(s.subrange(i, end)[0] == s[i]);
}

/// A stretch without a backslash decodes to itself.
pub proof fn lemma_decode_verbatim(s: Seq<u8>, i: int, to: int, end: int)
    requires
        0 <= i <= to <= end <= s.len(),
        forall|j: int| i <= j < to ==> #[trigger] s[j] != 0x5c,
    ensures
        decode_escapes(s, i, end) == prepend(s.subrange(i, to), decode_escapes(s, to, end)),
    decreases to - i,
{
    if i < to {
        lemma_decode_verbatim(s, i + 1, to, end);
        lemma_decode_single(s, i, end);
        match decode_escapes(s, to, end) {
            Ok(r) => {
                assert(seq![s[i]] + (s.subrange(i + 1, to) + r) =~= s.subrange(i, to) + r);
            },
            Err(_) => {},
        }
    } else {
        match decode_escapes(s, to, end) {
            Ok(r) => {
                assert(s.subrange(i, to) + r =~= r);
            },
            Err(_) => {},
        }
    }
}

/// Putting two heads in front one after the other is putting their
/// concatenation in front.
pub proof fn lemma_prepend_twice(a: Seq<u8>, b: Seq<u8>, rest: Result<Seq<u8>, ErrorKind>)
    ensures
        prepend(a, prepend(b, rest)) == prepend(a + b, rest),
{
    match rest {
        Ok(r) => {
            assert(a + (b + r) =~= (a + b) + r);
        },
        Err(_) => {},
    }
}

/// Replaces the escapes in `input[start .. end]`, copying the stretches
/// between them in bulk.
pub fn decode_escaped(input: &[u8], start: usize, end: usize) -> (r: Result<Vec<u8>, ErrorKind>)
    requires
        start <= end <= input@.len(),
    ensures
        match r {
            Ok(v) => decode_escapes(input@, start as int, end as int) == Ok::<Seq<u8>, ErrorKind>(
                v@,
            ),
            Err(e) => decode_escapes(input@, start as int, end as int) == Err::<
                Seq<u8>,
                ErrorKind,
            >(e),
        },
{
    let mut result: Vec<u8> = Vec::with_capacity(end - start);
    let mut i = start;
    assert(prepend(result@, decode_escapes(input@, i as int, end as int)) == decode_escapes(
        input@,
        i as int,
        end as int,
    )) by {
        lemma_prepend_empty(decode_escapes(input@, i as int, end as int));
    }
    while i < end
        invariant
            start <= i <= end <= input@.len(),
            decode_escapes(input@, start as int, end as int) == prepend(
                result@,
                decode_escapes(input@, i as int, end as int),
            ),
        decreases end - i,
    {
        proof {
            lemma_decode_unfold(input@, i as int, end as int);
        }
        if input[i] == 0x5c && i + 1 < end {
            match read_escape(input, i, end) {
                Escape::Byte(b) => {
                    proof {
                        lemma_prepend_twice(
                            result@,
                            seq![b],
                            decode_escapes(input@, i + 2, end as int),
                        );
                    }
                    let ghost before = result@;
                    result.push(b);
                    assert(result@ =~= before + seq![b]);
                    i = i + 2;
                },
                Escape::Scalar(cp, n) => {
                    proof {
                        lemma_prepend_twice(
                            result@,
                            encode_scalar(cp),
                            decode_escapes(input@, i + n, end as int),
                        );
                    }
                    push_utf8(&mut result, cp);
                    i = i + n;
                },
                Escape::Bad(kind) => {
                    return Err(kind);
                },
            }
        } else {
            let found = find_escape_json(input, i);
            let next = if found < end {
                found
            } else {
                end
            };
            if next > i {
                proof {
                    lemma_run_end_bounds(input@, i as int, ByteClass::JsonSafe);
                    assert forall|j: int| i <= j < next implies #[trigger] input@[j] != 0x5c by {
                        assert(ByteClass::JsonSafe.contains(input@[j]));
                    }
                    lemma_decode_verbatim(input@, i as int, next as int, end as int);
                    lemma_prepend_twice(
                        result@,
                        input@.subrange(i as int, next as int),
                        decode_escapes(input@, next as int, end as int),
                    );
                }
                let slice = vstd::slice::slice_subrange(input, i, next);
                append(&mut result, slice);
                i = next;
            } else {
                proof {
                    lemma_decode_single(input@, i as int, end as int);
                    lemma_prepend_twice(
                        result@,
                        seq![input@[i as int]],
                        decode_escapes(input@, i + 1, end as int),
                    );
                }
                let ghost before = result@;
                result.push(input[i]);
                assert(result@ =~= before + seq![input@[i as int]]);
                i = i + 1;
            }
        }
    }
    proof {
        lemma_decode_done(input@, i as int, end as int);
        assert(result@ + Seq::<u8>::empty() =~= result@);
    }
    Ok(result)
}

/// An empty range decodes to nothing.
pub proof fn lemma_decode_done(s: Seq<u8>, i: int, end: int)
    requires
        0 <= i == end <= s.len(),
    ensures
        decode_escapes(s, i, end) == Ok::<Seq<u8>, ErrorKind>(Seq::empty()),
{
}

/// Putting nothing in front changes nothing.
pub proof fn lemma_prepend_empty(rest: Result<Seq<u8>, ErrorKind>)
    ensures
        prepend(Seq::empty(), rest) == rest,
{
    match rest {
        Ok(r) => {
            assert(Seq::<u8>::empty() + r =~= r);
        },
        Err(_) => {},
    }
}

} // verus!
