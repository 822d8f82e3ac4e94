//! What the encoder writes, as mathematics: strings first, values after.

use crate::digits::{int_text, int_text_value, is_integer_text};
use crate::error::ErrorKind;
use crate::fields::{as_integer_within, as_text, field, is_nil};
use crate::grammar::{scan_number, MAX_DEPTH};
use crate::names::{
    name_coef, name_date, name_datetime, name_day, name_decimal, name_encode, name_exp, name_false,
    name_first, name_fragment, name_fragment_record, name_host, name_hour, name_http, name_https,
    name_jason_fragment, name_last, name_map, name_mapset, name_microsecond, name_minute,
    name_month, name_naive_datetime, name_nil, name_null, name_path, name_port, name_query,
    name_range, name_scheme, name_second, name_sign, name_std_offset, name_step, name_struct,
    name_time, name_true, name_uri, name_userinfo, name_utc_offset, name_year,
};
use crate::numbers::pow10;
use crate::simd_utils::{needs_json_escape, ByteClass};
use crate::term::TermV;
use vstd::prelude::*;
use vstd::utf8::{decode_first_scalar, length_of_first_scalar, valid_first_scalar, valid_utf8};

verus! {

/// Which bytes of a string are written as escapes.
#[derive(Clone, Copy, PartialEq, Eq, Debug, Structural)]
pub enum EscapeMode {
    /// Control bytes, `"` and `\` only.
    Json,
    /// Also `<`, `>`, `&`, `/` and the line separators U+2028 and U+2029.
    HtmlSafe,
    /// Also every code point outside ASCII.
    UnicodeSafe,
    /// Also the line separators U+2028 and U+2029.
    JavaScriptSafe,
}

impl EscapeMode {
    /// The bytes that the mode writes as they are.
    pub open spec fn safe_class(self) -> ByteClass {
        match self {
            EscapeMode::Json => ByteClass::JsonSafe,
            EscapeMode::HtmlSafe => ByteClass::HtmlSafe,
            EscapeMode::UnicodeSafe => ByteClass::UnicodeSafe,
            EscapeMode::JavaScriptSafe => ByteClass::JavaScriptSafe,
        }
    }
}

/// The lower-case hexadecimal digit of `n`.
pub open spec fn hex_digit(n: int) -> u8 {
    if n < 10 {
        (0x30 + n) as u8
    } else {
        (0x61 + n - 10) as u8
    }
}

/// `\uXXXX` for a 16-bit value.
pub open spec fn unicode_escape(v: int) -> Seq<u8> {
    seq![
        0x5cu8,
        0x75,
        hex_digit(v / 4096 % 16),
        hex_digit(v / 256 % 16),
        hex_digit(v / 16 % 16),
        hex_digit(v % 16),
    ]
}

/// The escape of a code point: one `\uXXXX` in the basic plane, the two of
/// its surrogate pair above it.
pub open spec fn scalar_escape(cp: int) -> Seq<u8> {
    if cp <= 0xffff {
        unicode_escape(cp)
    } else {
        unicode_escape(0xd800 + (cp - 0x10000) / 0x400) + unicode_escape(
            0xdc00 + (cp - 0x10000) % 0x400,
        )
    }
}

/// The escape of a byte that every mode escapes: the two-byte form where
/// JSON has one, `\u00XX` otherwise.
pub open spec fn escape_byte(b: u8) -> Seq<u8> {
    if b == 0x22 {
        seq![0x5cu8, 0x22]
    } else if b == 0x5c {
        seq![0x5cu8, 0x5c]
    } else if b == 0x0a {
        seq![0x5cu8, 0x6e]
    } else if b == 0x0d {
        seq![0x5cu8, 0x72]
    } else if b == 0x09 {
        seq![0x5cu8, 0x74]
    } else if b == 0x08 {
        seq![0x5cu8, 0x62]
    } else if b == 0x0c {
        seq![0x5cu8, 0x66]
    } else {
        unicode_escape(b as int)
    }
}

/// Length of the UTF-8 form that starts with the byte `b`.
pub open spec fn char_len(b: u8) -> int {
    if b < 0x80 {
        1
    } else if b < 0xe0 {
        2
    } else if b < 0xf0 {
        3
    } else {
        4
    }
}

/// What is written for the start of the rest `t` of a string, and how many
/// bytes of `t` that covers.
pub ghost struct Unit {
    pub bytes: Seq<u8>,
    pub taken: int,
}

/// `t` starts with the UTF-8 form of U+2028 (`last` = `0xA8`) or U+2029
/// (`last` = `0xA9`).
pub open spec fn starts_with_separator(t: Seq<u8>, last: u8) -> bool {
    t.len() > 2 && t[0] == 0xe2 && t[1] == 0x80 && t[2] == last
}

/// The bytes of the character that `t` starts with, as they are.
pub open spec fn verbatim_char(t: Seq<u8>) -> Unit {
    let n = if char_len(t[0]) <= t.len() {
        char_len(t[0])
    } else {
        t.len() as int
    };
    Unit { bytes: t.subrange(0, n), taken: n }
}

/// A line separator as its escape, anything else as it is.
pub open spec fn separator_or_verbatim(t: Seq<u8>) -> Unit {
    if starts_with_separator(t, 0xa8) {
        Unit { bytes: unicode_escape(0x2028), taken: 3 }
    } else if starts_with_separator(t, 0xa9) {
        Unit { bytes: unicode_escape(0x2029), taken: 3 }
    } else if t[0] >= 0xe2 {
        verbatim_char(t)
    } else {
        Unit { bytes: seq![t[0]], taken: 1 }
    }
}

/// What is written for the start of the non-empty rest `t` of a string.
#[verifier::opaque]
pub open spec fn escape_unit(t: Seq<u8>, mode: EscapeMode) -> Unit {
    let c = t[0];
    if needs_json_escape(c) {
        Unit { bytes: escape_byte(c), taken: 1 }
    } else {
        match mode {
            EscapeMode::Json => Unit { bytes: seq![c], taken: 1 },
            EscapeMode::HtmlSafe => if c == 0x3c {
                Unit { bytes: unicode_escape(0x3c), taken: 1 }
            } else if c == 0x3e {
                Unit { bytes: unicode_escape(0x3e), taken: 1 }
            } else if c == 0x26 {
                Unit { bytes: unicode_escape(0x26), taken: 1 }
            } else if c == 0x2f {
                Unit { bytes: seq![0x5cu8, 0x2f], taken: 1 }
            } else {
                separator_or_verbatim(t)
            },
            EscapeMode::JavaScriptSafe => separator_or_verbatim(t),
            EscapeMode::UnicodeSafe => if c < 0x80 {
                Unit { bytes: seq![c], taken: 1 }
            } else if valid_first_scalar(t) {
                Unit {
                    bytes: scalar_escape(decode_first_scalar(t) as int),
                    taken: length_of_first_scalar(t),
                }
            } else {
                Unit { bytes: Seq::empty(), taken: verbatim_char(t).taken }
            },
        }
    }
}

/// The string body `t` with its escapes written out.
pub open spec fn escaped(t: Seq<u8>, mode: EscapeMode) -> Seq<u8>
    decreases t.len(),
{
    if t.len() == 0 {
        Seq::empty()
    } else {
        let u = escape_unit(t, mode);
        if 1 <= u.taken <= t.len() {
            u.bytes + escaped(t.skip(u.taken), mode)
        } else {
            Seq::empty()
        }
    }
}

/// The JSON string of the bytes `b`: the escaped body between quotes.
pub open spec fn quoted(b: Seq<u8>, mode: EscapeMode) -> Seq<u8> {
    seq![0x22u8] + escaped(b, mode) + seq![0x22u8]
}

/// A unit covers at least one byte and no more than there are.
pub proof fn lemma_unit_taken(t: Seq<u8>, mode: EscapeMode)
    requires
        t.len() > 0,
    ensures
        1 <= escape_unit(t, mode).taken <= t.len(),
{
    reveal(escape_unit);
}

/// A stretch of bytes that the mode writes as they are is written as it is.
pub proof fn lemma_escaped_safe_run(b: Seq<u8>, from: int, to: int, mode: EscapeMode)
    requires
        0 <= from <= to <= b.len(),
        forall|i: int| from <= i < to ==> mode.safe_class().contains(#[trigger] b[i]),
    ensures
        escaped(b.skip(from), mode) == b.subrange(from, to) + escaped(b.skip(to), mode),
    decreases to - from,
{
    reveal(escape_unit);
    if from < to {
        let t = b.skip(from);
        assert(t[0] == b[from]);
        assert(mode.safe_class().contains(b[from]));
        lemma_escaped_safe_run(b, from + 1, to, mode);
        assert(t.skip(1) =~= b.skip(from + 1));
        assert(seq![b[from]] + (b.subrange(from + 1, to) + escaped(b.skip(to), mode))
            =~= b.subrange(from, to) + escaped(b.skip(to), mode));
    } else {
        assert(b.subrange(from, to) + escaped(b.skip(to), mode) =~= escaped(b.skip(to), mode));
    }
}

// ---------------------------------------------------------------------------
// Domain values
// ---------------------------------------------------------------------------
/// `n` copies of `unit`, one after the other.
pub open spec fn repeated(unit: Seq<u8>, n: int) -> Seq<u8>
    decreases n,
{
    if n <= 0 {
        Seq::empty()
    } else {
        repeated(unit, n - 1) + unit
    }
}

/// The last `width` decimal digits of `val`, with zeros in front where
/// `val` has fewer.
pub open spec fn padded(val: int, width: int) -> Seq<u8> {
    Seq::new(
        if width >= 0 {
            width as nat
        } else {
            0
        },
        |j: int| (0x30 + (val / pow10((width - 1 - j) as nat)) % 10) as u8,
    )
}

/// A signed integer padded to `width` digits, with `-` in front of a
/// negative one.
pub open spec fn padded_signed(val: int, width: int) -> Seq<u8> {
    if val < 0 {
        seq![0x2du8] + padded(-val, width)
    } else {
        padded(val, width)
    }
}

/// The fraction of a second: a point and the first `precision` of the six
/// digits of the microseconds.
pub open spec fn microsecond_fraction(micro: int, precision: int) -> Seq<u8> {
    seq![0x2eu8] + padded(micro, 6).subrange(0, precision)
}

/// The text of the decimal `sign * coef * 10^exp`.
///
/// With an exponent of zero or more the digits of the coefficient are
/// followed by that many zeros.  With a negative exponent the point stands
/// that many places from the right, after `0` and the zeros that are needed
/// where the coefficient has too few digits.
pub open spec fn decimal_text(coef: int, exp: int, sign: int) -> Seq<u8> {
    let mark = if sign < 0 {
        seq![0x2du8]
    } else {
        Seq::<u8>::empty()
    };
    let digits = int_text(coef);
    if exp >= 0 {
        mark + digits + repeated(seq![0x30u8], exp)
    } else if -exp >= digits.len() {
        mark + seq![0x30u8, 0x2e] + repeated(seq![0x30u8], -exp - digits.len()) + digits
    } else {
        mark + digits.subrange(0, digits.len() + exp) + seq![0x2eu8] + digits.subrange(
            digits.len() + exp,
            digits.len() as int,
        )
    }
}

/// The fields of a date.
pub ghost struct DateFields {
    pub year: int,
    pub month: int,
    pub day: int,
}

/// The fields of a time of day.
pub ghost struct TimeFields {
    pub hour: int,
    pub minute: int,
    pub second: int,
    pub microsecond: int,
    pub precision: int,
}

/// The 32-bit signed integer in the field `name`.
pub open spec fn field_i32(entries: Seq<(TermV, TermV)>, name: Seq<u8>) -> Option<int> {
    match field(entries, name) {
        Some(t) => as_integer_within(t, -0x8000_0000, 0x7fff_ffff),
        None => None,
    }
}

/// The 32-bit unsigned integer in the field `name`.
pub open spec fn field_u32(entries: Seq<(TermV, TermV)>, name: Seq<u8>) -> Option<int> {
    match field(entries, name) {
        Some(t) => as_integer_within(t, 0, 0xffff_ffff),
        None => None,
    }
}

/// The 64-bit signed integer in the field `name`.
pub open spec fn field_i64(entries: Seq<(TermV, TermV)>, name: Seq<u8>) -> Option<int> {
    match field(entries, name) {
        Some(t) => as_integer_within(t, -0x8000_0000_0000_0000, 0x7fff_ffff_ffff_ffff),
        None => None,
    }
}

/// The text in the field `name`, where the field is there, is not `nil`
/// and holds text.
pub open spec fn field_text(entries: Seq<(TermV, TermV)>, name: Seq<u8>) -> Option<Seq<u8>> {
    match field(entries, name) {
        Some(t) => if is_nil(t) {
            None
        } else {
            as_text(t)
        },
        None => None,
    }
}

/// The date in the fields `year`, `month` and `day`.
pub open spec fn date_fields(entries: Seq<(TermV, TermV)>) -> Option<DateFields> {
    match (
        field_i32(entries, name_year()),
        field_u32(entries, name_month()),
        field_u32(entries, name_day()),
    ) {
        (Some(year), Some(month), Some(day)) => Some(DateFields { year, month, day }),
        _ => None,
    }
}

/// The time in the fields `hour`, `minute`, `second` and `microsecond`, the
/// last a pair of the microseconds and the number of digits to show of them,
/// six at most.
pub open spec fn time_fields(entries: Seq<(TermV, TermV)>) -> Option<TimeFields> {
    match (
        field_u32(entries, name_hour()),
        field_u32(entries, name_minute()),
        field_u32(entries, name_second()),
        field(entries, name_microsecond()),
    ) {
        (Some(hour), Some(minute), Some(second), Some(TermV::Tuple(pair))) => {
            if pair.len() == 2 {
                match (
                    as_integer_within(pair[0], 0, 0xffff_ffff),
                    as_integer_within(pair[1], 0, 0xffff_ffff),
                ) {
                    (Some(microsecond), Some(precision)) => if precision <= 6 {
                        Some(TimeFields { hour, minute, second, microsecond, precision })
                    } else {
                        None
                    },
                    _ => None,
                }
            } else {
                None
            }
        },
        _ => None,
    }
}

/// `YYYY-MM-DD`.
pub open spec fn date_text(d: DateFields) -> Seq<u8> {
    padded_signed(d.year, 4) + seq![0x2du8] + padded(d.month, 2) + seq![0x2du8] + padded(d.day, 2)
}

/// `HH:MM:SS`, with the fraction of the second where the microseconds are
/// not zero.
pub open spec fn time_text(t: TimeFields) -> Seq<u8> {
    padded(t.hour, 2) + seq![0x3au8] + padded(t.minute, 2) + seq![0x3au8] + padded(t.second, 2) + (
    if t.microsecond != 0 {
        microsecond_fraction(t.microsecond, t.precision)
    } else {
        Seq::<u8>::empty()
    })
}

/// The zone of a date-time: `Z` for no offset, else the sign and `HH:MM` of
/// the offset in seconds.
pub open spec fn offset_text(total: int) -> Seq<u8> {
    if total == 0 {
        seq![0x5au8]
    } else {
        let magnitude = if total < 0 {
            -total
        } else {
            total
        };
        seq![
            if total >= 0 {
                0x2bu8
            } else {
                0x2du8
            },
        ] + padded(magnitude / 3600, 2) + seq![0x3au8] + padded((magnitude % 3600) / 60, 2)
    }
}

/// The offset of a date-time: the fields `std_offset` and `utc_offset`
/// added up, each counting as zero where it is not there.
pub open spec fn total_offset(entries: Seq<(TermV, TermV)>) -> int {
    (match field_i32(entries, name_std_offset()) {
        Some(n) => n,
        None => 0,
    }) + (match field_i32(entries, name_utc_offset()) {
        Some(n) => n,
        None => 0,
    })
}

/// `text` between `prefix` and `suffix`, or nothing where there is no text.
pub open spec fn affixed(prefix: Seq<u8>, text: Option<Seq<u8>>, suffix: Seq<u8>) -> Seq<u8> {
    match text {
        Some(t) => prefix + t + suffix,
        None => Seq::empty(),
    }
}

/// The port of a URI record: the 32-bit integer in its field `port`, where
/// the field is there and not `nil`.
pub open spec fn uri_port(entries: Seq<(TermV, TermV)>) -> Option<int> {
    match field(entries, name_port()) {
        Some(t) => if is_nil(t) {
            None
        } else {
            as_integer_within(t, -0x8000_0000, 0x7fff_ffff)
        },
        None => None,
    }
}

/// The port of a URI as text: a colon and the number, or nothing where
/// there is no port or the port is the usual one of the scheme.
pub open spec fn port_text(scheme: Option<Seq<u8>>, port: Option<int>) -> Seq<u8> {
    match port {
        Some(p) => if (scheme == Some(name_http()) && p == 80) || (scheme == Some(name_https())
            && p == 443) {
            Seq::empty()
        } else {
            seq![0x3au8] + int_text(p)
        },
        None => Seq::empty(),
    }
}

/// The text of a URI record:
/// `scheme://[userinfo@]host[:port][path][?query][#fragment]`, without the
/// port where it is the usual one of the scheme.
pub open spec fn uri_text(entries: Seq<(TermV, TermV)>) -> Seq<u8> {
    let none = Seq::<u8>::empty();
    affixed(none, field_text(entries, name_scheme()), seq![0x3au8, 0x2f, 0x2f]) + affixed(
        none,
        field_text(entries, name_userinfo()),
        seq![0x40u8],
    ) + affixed(none, field_text(entries, name_host()), none) + port_text(
        field_text(entries, name_scheme()),
        uri_port(entries),
    ) + affixed(none, field_text(entries, name_path()), none) + affixed(
        seq![0x3fu8],
        field_text(entries, name_query()),
        none,
    ) + affixed(seq![0x23u8], field_text(entries, name_fragment()), none)
}

/// The text of a decimal record, where its fields `coef`, `exp` and `sign`
/// are integers of 128, 32 and 32 bits.
pub open spec fn decimal_record_text(entries: Seq<(TermV, TermV)>) -> Option<Seq<u8>> {
    match (
        field(entries, name_coef()),
        field_i32(entries, name_exp()),
        field_i32(entries, name_sign()),
    ) {
        (Some(c), Some(exp), Some(sign)) => match as_integer_within(
            c,
            -0x8000_0000_0000_0000_0000_0000_0000_0000,
            0x7fff_ffff_ffff_ffff_ffff_ffff_ffff_ffff,
        ) {
            Some(coef) => Some(decimal_text(coef, exp, sign)),
            None => None,
        },
        _ => None,
    }
}

// ---------------------------------------------------------------------------
// Values
// ---------------------------------------------------------------------------
/// The format of an encode.
pub ghost struct Format {
    /// Whether line breaks and indentation are written.
    pub pretty: bool,
    /// How many containers deep the value to write stands.
    pub depth: int,
    /// Whether records are written as plain mappings.
    pub lean: bool,
    /// Which bytes of a string are written as escapes.
    pub escape: EscapeMode,
    /// What is written to start a line.
    pub line_separator: Seq<u8>,
    /// What is written after the colon of a member.
    pub after_colon: Seq<u8>,
    /// What is written once per level at the start of a line.
    pub indent: Seq<u8>,
    /// Whether a key that comes twice in one object is an error.
    pub strict_keys: bool,
    /// Whether the members of an object are written in the order of their
    /// keys.
    pub sort_keys: bool,
}

/// What an encode gives: the bytes, or the kind of the failure.
pub type Encoded = Result<Seq<u8>, ErrorKind>;

/// The format one container further in.
pub open spec fn nested(f: Format) -> Format {
    Format { depth: f.depth + 1, ..f }
}

/// What starts a line at the depth of `f`; nothing in compact output.
pub open spec fn newline(f: Format) -> Seq<u8> {
    if f.pretty {
        f.line_separator + repeated(f.indent, f.depth)
    } else {
        Seq::empty()
    }
}

/// What follows a colon; nothing in compact output.
pub open spec fn space(f: Format) -> Seq<u8> {
    if f.pretty {
        f.after_colon
    } else {
        Seq::empty()
    }
}

/// `text` is one whole JSON number literal.
pub open spec fn is_number_literal(text: Seq<u8>) -> bool {
    scan_number(text, 0) matches Some(n) && n.end == text.len()
}

/// The key that a term makes in an object: the name of an atom, the bytes
/// of a byte string, the decimal text of an integer of 64 bits.  `None` for
/// the key `__struct__`, which is left out.
pub open spec fn key_text(k: TermV) -> Option<Encoded> {
    match k {
        TermV::Atom(name) => if name == name_struct() {
            None
        } else if valid_utf8(name) {
            Some(Ok(name))
        } else {
            Some(Err(ErrorKind::InvalidUtf8))
        },
        TermV::Binary(b) => if valid_utf8(b) {
            Some(Ok(b))
        } else {
            Some(Err(ErrorKind::InvalidUtf8))
        },
        TermV::Integer(n) => if -0x8000_0000_0000_0000 <= n <= 0x7fff_ffff_ffff_ffff {
            Some(Ok(int_text(n)))
        } else {
            Some(Err(ErrorKind::InvalidMapKeyType))
        },
        _ => Some(Err(ErrorKind::InvalidMapKeyType)),
    }
}

/// `a` comes before `b` or is `b`, byte by byte.
pub open spec fn bytes_le(a: Seq<u8>, b: Seq<u8>) -> bool
    decreases a.len(),
{
    if a.len() == 0 {
        true
    } else if b.len() == 0 {
        false
    } else if a[0] != b[0] {
        a[0] < b[0]
    } else {
        bytes_le(a.drop_first(), b.drop_first())
    }
}

/// The key of entry `i`, for sorting; empty where the entry has none.
pub open spec fn sort_key(entries: Seq<(TermV, TermV)>, i: int) -> Seq<u8> {
    match key_text(entries[i].0) {
        Some(Ok(k)) => k,
        _ => Seq::empty(),
    }
}

/// The keys of all the entries, for sorting.
pub open spec fn sort_keys_of(entries: Seq<(TermV, TermV)>) -> Seq<Seq<u8>> {
    Seq::new(entries.len(), |i: int| sort_key(entries, i))
}

/// `order` with the index `idx` put in by its key in `keys`: after every
/// index whose key is not greater.
pub open spec fn insert_sorted(keys: Seq<Seq<u8>>, order: Seq<int>, idx: int) -> Seq<int>
    decreases order.len(),
{
    if order.len() == 0 {
        seq![idx]
    } else if bytes_le(keys[order.last()], keys[idx]) {
        order.push(idx)
    } else {
        insert_sorted(keys, order.drop_last(), idx).push(order.last())
    }
}

/// The entries from `i` on in the order of their keys, after the ones in
/// `order`: the indices of the entries that have a key, equal keys in their
/// first order.  Fails like the first entry whose key fails, or on a key
/// that comes twice under strict keys.
pub open spec fn sorted_order(
    entries: Seq<(TermV, TermV)>,
    i: int,
    f: Format,
    seen: Seq<Seq<u8>>,
    order: Seq<int>,
) -> Result<Seq<int>, ErrorKind>
    decreases entries.len() - i,
{
    if i < 0 || i >= entries.len() {
        Ok(order)
    } else {
        match key_text(entries[i].0) {
            None => sorted_order(entries, i + 1, f, seen, order),
            Some(Err(e)) => Err(e),
            Some(Ok(k)) => if f.strict_keys && seen.contains(k) {
                Err(ErrorKind::DuplicateOutputKey)
            } else {
                sorted_order(
                    entries,
                    i + 1,
                    f,
                    seen.push(k),
                    insert_sorted(sort_keys_of(entries), order, i),
                )
            },
        }
    }
}

/// The bytes of a value that is handed over ready: a byte string as it is,
/// a list of such values one after the other, an integer from 0 to 255 as
/// one byte.
pub open spec fn iodata(t: TermV) -> Encoded
    decreases t, 0int,
{
    match t {
        TermV::Binary(b) => Ok(b),
        TermV::List(items) => iodata_items(items, 0, Seq::empty()),
        _ => match as_integer_within(t, 0, 255) {
            Some(n) => Ok(seq![n as u8]),
            None => Err(ErrorKind::UnsupportedTerm),
        },
    }
}

/// The bytes of the items from `i` on, after `acc`.
pub open spec fn iodata_items(items: Seq<TermV>, i: int, acc: Seq<u8>) -> Encoded
    decreases items, items.len() - i,
{
    if i < 0 || i >= items.len() {
        Ok(acc)
    } else {
        match iodata(items[i]) {
            Ok(x) => iodata_items(items, i + 1, acc + x),
            Err(e) => Err(e),
        }
    }
}

/// What an atom is written as: `true`, `false`, `null` for `nil` and
/// `null`, its name as a string otherwise.
pub open spec fn encoded_atom(name: Seq<u8>, f: Format) -> Encoded {
    if name == name_true() {
        Ok(name_true())
    } else if name == name_false() {
        Ok(name_false())
    } else if name == name_nil() || name == name_null() {
        Ok(name_null())
    } else if valid_utf8(name) {
        Ok(quoted(name, f.escape))
    } else {
        Err(ErrorKind::InvalidUtf8)
    }
}

/// What an integer term is written as: its decimal text.
pub open spec fn encoded_integer(t: TermV) -> Encoded {
    match t {
        TermV::Integer(n) => Ok(int_text(n)),
        TermV::BigInteger(d) => if is_integer_text(d) {
            Ok(int_text(int_text_value(d)))
        } else {
            Err(ErrorKind::UnsupportedTerm)
        },
        _ => Err(ErrorKind::UnsupportedTerm),
    }
}

/// The member `"name":value` of a range record.
pub open spec fn range_member(name: Seq<u8>, value: int, nf: Format) -> Seq<u8> {
    quoted(name, nf.escape) + seq![0x3au8] + space(nf) + int_text(value)
}

/// The member of the step of a range with the comma before it; nothing
/// where the step is 1.
pub open spec fn range_step(step: int, nf: Format) -> Seq<u8> {
    if step != 1 {
        seq![0x2cu8] + newline(nf) + range_member(name_step(), step, nf)
    } else {
        Seq::<u8>::empty()
    }
}

/// The object of a range: `first` and `last`, and `step` where the step is
/// not 1.
pub open spec fn range_text(first: int, last: int, step: int, f: Format) -> Seq<u8> {
    let nf = nested(f);
    seq![0x7bu8] + newline(nf) + range_member(name_first(), first, nf) + seq![0x2cu8] + newline(nf)
        + range_member(name_last(), last, nf) + range_step(step, nf) + newline(f) + seq![0x7du8]
}

/// What a range record is written as: an object of `first` and `last`, and
/// of `step` where the step is not 1.
pub open spec fn encoded_range(entries: Seq<(TermV, TermV)>, f: Format) -> Option<Encoded> {
    match (field_i64(entries, name_first()), field_i64(entries, name_last())) {
        (Some(first), Some(last)) => {
            let step = match field_i64(entries, name_step()) {
                Some(s) => s,
                None => 1,
            };
            Some(Ok(range_text(first, last, step, f)))
        },
        _ => None,
    }
}

/// What a record that needs no look into its values is written as; `None`
/// where `name` is none of those records or a field is missing.
pub open spec fn encoded_plain_record(
    name: Seq<u8>,
    entries: Seq<(TermV, TermV)>,
    f: Format,
) -> Option<Encoded> {
    let q = seq![0x22u8];
    if name == name_decimal() {
        match decimal_record_text(entries) {
            Some(text) => Some(Ok(quoted(text, f.escape))),
            None => None,
        }
    } else if name == name_date() {
        match date_fields(entries) {
            Some(d) => Some(Ok(q + date_text(d) + q)),
            None => None,
        }
    } else if name == name_time() {
        match time_fields(entries) {
            Some(t) => Some(Ok(q + time_text(t) + q)),
            None => None,
        }
    } else if name == name_naive_datetime() {
        match (date_fields(entries), time_fields(entries)) {
            (Some(d), Some(t)) => Some(Ok(q + date_text(d) + seq![0x54u8] + time_text(t) + q)),
            _ => None,
        }
    } else if name == name_datetime() {
        match (date_fields(entries), time_fields(entries)) {
            (Some(d), Some(t)) => Some(
                Ok(
                    q + date_text(d) + seq![0x54u8] + time_text(t) + offset_text(
                        total_offset(entries),
                    ) + q,
                ),
            ),
            _ => None,
        }
    } else if name == name_uri() {
        Some(Ok(quoted(uri_text(entries), f.escape)))
    } else if name == name_range() {
        encoded_range(entries, f)
    } else if name == name_fragment_record() || name == name_jason_fragment() {
        match field(entries, name_encode()) {
            Some(t) => Some(iodata(t)),
            None => None,
        }
    } else {
        None
    }
}

/// What a value is written as in the format `f`.
pub open spec fn encoded_term(t: TermV, f: Format) -> Encoded
    decreases t, 0int,
{
    if f.depth > MAX_DEPTH {
        Err(ErrorKind::NestingDepthExceeded)
    } else {
        match t {
            TermV::Atom(name) => encoded_atom(name, f),
            TermV::Binary(b) => if valid_utf8(b) {
                Ok(quoted(b, f.escape))
            } else {
                Err(ErrorKind::InvalidUtf8)
            },
            TermV::Integer(_) => encoded_integer(t),
            TermV::BigInteger(_) => encoded_integer(t),
            TermV::Float(text) => if is_number_literal(text) {
                Ok(text)
            } else {
                Err(ErrorKind::NonFiniteFloat)
            },
            TermV::List(items) => encoded_sequence(items, f),
            TermV::Tuple(items) => encoded_sequence(items, f),
            TermV::Mapping(entries) => encoded_mapping(entries, f),
            TermV::Other => Err(ErrorKind::UnsupportedTerm),
        }
    }
}

/// What a list or a tuple is written as: an array of its items.
pub open spec fn encoded_sequence(items: Seq<TermV>, f: Format) -> Encoded
    decreases items, items.len() + 1,
{
    if items.len() == 0 {
        Ok(seq![0x5bu8, 0x5d])
    } else {
        match encoded_items(items, 0, nested(f), seq![0x5bu8]) {
            Ok(body) => Ok(body + newline(f) + seq![0x5du8]),
            Err(e) => Err(e),
        }
    }
}

/// The items from `i` on, each on a line of its own and with a comma
/// between two, written after `acc`.
pub open spec fn encoded_items(items: Seq<TermV>, i: int, nf: Format, acc: Seq<u8>) -> Encoded
    decreases items, items.len() - i,
{
    if i < 0 || i >= items.len() {
        Ok(acc)
    } else {
        match encoded_term(items[i], nf) {
            Ok(x) => encoded_items(
                items,
                i + 1,
                nf,
                acc + (if i > 0 {
                    seq![0x2cu8]
                } else {
                    Seq::<u8>::empty()
                }) + newline(nf) + x,
            ),
            Err(e) => Err(e),
        }
    }
}

/// The keys of the entries from `i` on, each on a line of its own and with
/// a comma between two, written after `acc`: the elements of an ordered set.
pub open spec fn encoded_keys(entries: Seq<(TermV, TermV)>, i: int, nf: Format, acc: Seq<u8>) -> Encoded
    decreases entries, entries.len() - i,
{
    if i < 0 || i >= entries.len() {
        Ok(acc)
    } else {
        match encoded_term(entries[i].0, nf) {
            Ok(x) => encoded_keys(
                entries,
                i + 1,
                nf,
                acc + (if i > 0 {
                    seq![0x2cu8]
                } else {
                    Seq::<u8>::empty()
                }) + newline(nf) + x,
            ),
            Err(e) => Err(e),
        }
    }
}

/// What a mapping is written as: as the record that it is where it names
/// one that is known and the format is not lean, as an object otherwise.
pub open spec fn encoded_mapping(entries: Seq<(TermV, TermV)>, f: Format) -> Encoded
    decreases entries, entries.len() + 2,
{
    match encoded_record(entries, f) {
        Some(r) => r,
        None => if f.sort_keys {
            match sorted_order(entries, 0, f, Seq::empty(), Seq::empty()) {
                Err(e) => Err(e),
                Ok(order) => if order.len() == 0 {
                    Ok(seq![0x7bu8, 0x7d])
                } else if order.len() <= entries.len() {
                    encoded_sorted(entries, order, 0, f, seq![0x7bu8])
                } else {
                    Err(ErrorKind::UnsupportedTerm)
                },
            }
        } else {
            encoded_members(entries, 0, f, false, Seq::empty(), Seq::empty())
        },
    }
}

/// What a mapping is written as where it is a record that is known; `None`
/// where it is not, where a field is missing, or where the format is lean.
pub open spec fn encoded_record(entries: Seq<(TermV, TermV)>, f: Format) -> Option<Encoded>
    decreases entries, entries.len() + 1,
{
    if f.lean {
        None
    } else {
        match field(entries, name_struct()) {
            Some(TermV::Atom(name)) => encoded_named(name, entries, f),
            _ => None,
        }
    }
}

/// What the record `entries` of the name `name` is written as; `None` where
/// the name is not known or a field is missing.
pub open spec fn encoded_named(name: Seq<u8>, entries: Seq<(TermV, TermV)>, f: Format) -> Option<
    Encoded,
>
    decreases entries, entries.len(),
{
    if name == name_mapset() {
        let i = crate::fields::field_index(entries, name_map(), 0);
        if 0 <= i < entries.len() {
            match entries[i].1 {
                TermV::Mapping(inner) => Some(
                    match encoded_keys(inner, 0, nested(f), seq![0x5bu8]) {
                        Ok(body) => Ok(body + newline(f) + seq![0x5du8]),
                        Err(e) => Err(e),
                    },
                ),
                _ => None,
            }
        } else {
            None
        }
    } else {
        encoded_plain_record(name, entries, f)
    }
}

/// One member written after `acc`: the opening brace or a comma, a line
/// start, the key, a colon and what follows it.
pub open spec fn member_start(acc: Seq<u8>, started: bool, key: Seq<u8>, nf: Format) -> Seq<u8> {
    acc + (if started {
        seq![0x2cu8]
    } else {
        seq![0x7bu8]
    }) + newline(nf) + quoted(key, nf.escape) + seq![0x3au8] + space(nf)
}

/// The members of an object from entry `i` on, in the order of the
/// entries, written after `acc`.  `started` tells whether a member was
/// written before, `seen` which keys were.
pub open spec fn encoded_members(
    entries: Seq<(TermV, TermV)>,
    i: int,
    f: Format,
    started: bool,
    seen: Seq<Seq<u8>>,
    acc: Seq<u8>,
) -> Encoded
    decreases entries, entries.len() - i,
{
    if i < 0 || i >= entries.len() {
        if started {
            Ok(acc + newline(f) + seq![0x7du8])
        } else {
            Ok(seq![0x7bu8, 0x7d])
        }
    } else {
        match key_text(entries[i].0) {
            None => encoded_members(entries, i + 1, f, started, seen, acc),
            Some(Err(e)) => Err(e),
            Some(Ok(k)) => if f.strict_keys && seen.contains(k) {
                Err(ErrorKind::DuplicateOutputKey)
            } else {
                match encoded_term(entries[i].1, nested(f)) {
                    Ok(x) => encoded_members(
                        entries,
                        i + 1,
                        f,
                        true,
                        seen.push(k),
                        member_start(acc, started, k, nested(f)) + x,
                    ),
                    Err(e) => Err(e),
                }
            },
        }
    }
}

/// The members of an object in the order `order`, from place `j` on,
/// written after `acc`.
pub open spec fn encoded_sorted(
    entries: Seq<(TermV, TermV)>,
    order: Seq<int>,
    j: int,
    f: Format,
    acc: Seq<u8>,
) -> Encoded
    decreases entries, order.len() - j,
{
    if j < 0 || j >= order.len() {
        Ok(acc + newline(f) + seq![0x7du8])
    } else if !(0 <= order[j] < entries.len()) {
        Err(ErrorKind::UnsupportedTerm)
    } else {
        match encoded_term(entries[order[j]].1, nested(f)) {
            Ok(x) => encoded_sorted(
                entries,
                order,
                j + 1,
                f,
                acc + (if j > 0 {
                    seq![0x2cu8]
                } else {
                    Seq::<u8>::empty()
                }) + newline(nested(f)) + quoted(sort_key(entries, order[j]), f.escape)
                    + seq![0x3au8] + space(nested(f)) + x,
            ),
            Err(e) => Err(e),
        }
    }
}

} // verus!
