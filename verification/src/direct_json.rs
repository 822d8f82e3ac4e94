//! The encoder: format options, the string writer and the value writers.

use crate::digits::int_text;
use crate::encoding::{
    char_len, encoded_atom, encoded_integer, encoded_term, escape_byte, escape_unit, escaped,
    hex_digit, is_number_literal, lemma_escaped_safe_run, microsecond_fraction, nested, newline,
    padded, padded_signed, quoted, repeated, scalar_escape, separator_or_verbatim, space,
    unicode_escape, Encoded, Format,
};
use crate::error::{EncodeError, ErrorKind};
use crate::decimal::{is_ascii_bytes, lemma_ascii_is_utf8};
use crate::encoding::{
    bytes_le, date_fields, date_text, encoded_range, field_i32, field_i64, field_text, field_u32,
    affixed, key_text, offset_text, port_text, range_member, time_fields, time_text, total_offset,
    uri_text, DateFields, TimeFields,
};
use crate::fields::{
    as_integer_within, field, get_field, is_integer_text_bytes, is_nil_term, read_i32, read_i64,
    read_u32,
};
use crate::names::{
    day_name, first_name, fragment_name, host_name, hour_name, http_name, https_name, last_name,
    microsecond_name, minute_name, month_name, name_first, name_last, name_step, path_name,
    port_name, query_name, scheme_name, second_name, std_offset_name, step_name, struct_name,
    userinfo_name, utc_offset_name, year_name,
};
use crate::encoding::{
    encoded_items, encoded_keys, encoded_mapping, encoded_members, encoded_named,
    encoded_plain_record, encoded_sequence, encoded_sorted, insert_sorted, iodata, iodata_items,
    member_start, range_step, range_text, sort_key, sort_keys_of, sorted_order,
};
use crate::decimal::decimal_record_bytes;
use crate::fields::{field_index, read_u8};
use crate::names::{
    date_name, datetime_name, decimal_name, encode_name, fragment_record_name, jason_fragment_name,
    map_name, mapset_name, naive_datetime_name, name_encode, name_map, name_mapset, range_name,
    time_name, uri_name,
};
use crate::term::{copy_bytes, entries_view, lemma_view_children, terms_view};
use crate::names::{false_name, nil_name, null_name, true_name};
use crate::numbers::{pow10, scan_number_layout};
use crate::outside::{
    bigint_decimal_text, is_valid_utf8, itoa_i64, itoa_u64, small_as_slice, small_bytes,
    small_from_slice, SmallBytes,
};
use crate::term::{bytes_eq, Term, TermV};
use crate::simd_utils::{
    find_escape_html, find_escape_javascript, find_escape_json, find_escape_unicode,
    lemma_run_end_bounds, needs_html_escape, needs_javascript_escape, needs_unicode_escape, run_end,
    ByteClass,
};
use crate::term::append as append_bytes;
use vstd::prelude::*;
use vstd::string::StringSliceAdditionalSpecFns;
use vstd::utf8::{pop_first_scalar, valid_first_scalar, valid_utf8};

pub use crate::encoding::EscapeMode;

pub mod bench_helpers;

verus! {

/// Index of the first byte at or after `start` that needs a JSON escape.
pub fn find_next_escape_json(bytes: &[u8], start: usize) -> (r: usize)
    ensures
        r == run_end(bytes@, start as int, ByteClass::JsonSafe),
{
    find_escape_json(bytes, start)
}

/// Index of the first byte at or after `start` that the HTML-safe mode may
/// have to escape.
pub fn find_next_escape_html(bytes: &[u8], start: usize) -> (r: usize)
    ensures
        r == run_end(bytes@, start as int, ByteClass::HtmlSafe),
{
    find_escape_html(bytes, start)
}

/// Index of the first byte at or after `start` that the Unicode-safe mode
/// escapes.
pub fn find_next_escape_unicode(bytes: &[u8], start: usize) -> (r: usize)
    ensures
        r == run_end(bytes@, start as int, ByteClass::UnicodeSafe),
{
    find_escape_unicode(bytes, start)
}

/// Index of the first byte at or after `start` that the JavaScript-safe
/// mode may have to escape.
pub fn find_next_escape_javascript(bytes: &[u8], start: usize) -> (r: usize)
    ensures
        r == run_end(bytes@, start as int, ByteClass::JavaScriptSafe),
{
    find_escape_javascript(bytes, start)
}

/// The lower-case hexadecimal digit of `n`.
pub fn hex_digit_of(n: u32) -> (r: u8)
    requires
        n < 16,
    ensures
        r == hex_digit(n as int),
{
    if n < 10 {
        (0x30 + n) as u8
    } else {
        (0x61 + n - 10) as u8
    }
}

/// Writes `\uXXXX` for the 16-bit value `v`.
pub fn write_unicode_escape(writer: &mut Vec<u8>, v: u32)
    requires
        v <= 0xffff,
    ensures
        final(writer)@ == old(writer)@ + unicode_escape(v as int),
{
    writer.push(0x5c);
    writer.push(0x75);
    writer.push(hex_digit_of(v / 4096 % 16));
    writer.push(hex_digit_of(v / 256 % 16));
    writer.push(hex_digit_of(v / 16 % 16));
    writer.push(hex_digit_of(v % 16));
    assert(writer@ =~= old(writer)@ + unicode_escape(v as int));
}

/// Writes the two bytes `\` and `c`.
fn write_pair(writer: &mut Vec<u8>, c: u8)
    ensures
        final(writer)@ == old(writer)@ + seq![0x5cu8, c],
{
    writer.push(0x5c);
    writer.push(c);
    assert(writer@ =~= old(writer)@ + seq![0x5cu8, c]);
}

/// Writes the escape of a byte that every mode escapes.
pub fn write_escape_byte(writer: &mut Vec<u8>, byte: u8)
    ensures
        final(writer)@ == old(writer)@ + escape_byte(byte),
{
    if byte == 0x22 {
        write_pair(writer, 0x22);
    } else if byte == 0x5c {
        write_pair(writer, 0x5c);
    } else if byte == 0x0a {
        write_pair(writer, 0x6e);
    } else if byte == 0x0d {
        write_pair(writer, 0x72);
    } else if byte == 0x09 {
        write_pair(writer, 0x74);
    } else if byte == 0x08 {
        write_pair(writer, 0x62);
    } else if byte == 0x0c {
        write_pair(writer, 0x66);
    } else {
        write_unicode_escape(writer, byte as u32);
    }
}

/// Length of the UTF-8 form that starts with the byte `b`.
pub fn utf8_char_len(b: u8) -> (r: usize)
    ensures
        r == char_len(b),
{
    if b < 0x80 {
        1
    } else if b < 0xe0 {
        2
    } else if b < 0xf0 {
        3
    } else {
        4
    }
}

/// Writes a line separator at `pos` as its escape and anything else as it
/// is; gives the position to go on from.
fn write_separator_or_verbatim(writer: &mut Vec<u8>, bytes: &[u8], pos: usize) -> (r: usize)
    requires
        pos < bytes@.len(),
        bytes@[pos as int] >= 0xe2,
    ensures
        final(writer)@ == old(writer)@ + separator_or_verbatim(bytes@.skip(pos as int)).bytes,
        r == pos + separator_or_verbatim(bytes@.skip(pos as int)).taken,
        pos < r <= bytes@.len(),
{
    let len = bytes.len();
    let b = bytes[pos];
    let ghost t = bytes@.skip(pos as int);
    assert(t[0] == bytes@[pos as int]);
    if b >= 0xe2 && len - pos > 2 && bytes[pos] == 0xe2 && bytes[pos + 1] == 0x80 {
        assert(t[1] == bytes@[pos + 1] && t[2] == bytes@[pos + 2]);
        if bytes[pos + 2] == 0xa8 {
            write_unicode_escape(writer, 0x2028);
            return pos + 3;
        }
        if bytes[pos + 2] == 0xa9 {
            write_unicode_escape(writer, 0x2029);
            return pos + 3;
        }
    }
    if len - pos > 2 {
        assert(t[1] == bytes@[pos + 1] && t[2] == bytes@[pos + 2]);
    }
    let char_len = utf8_char_len(b);
    let end = if char_len <= len - pos {
        pos + char_len
    } else {
        len
    };
    append_bytes(writer, vstd::slice::slice_subrange(bytes, pos, end));
    proof {
        assert(bytes@.subrange(pos as int, end as int) =~= t.subrange(0, end - pos));
    }
    end
}

/// Writes what the HTML-safe mode writes for the byte at `pos`, a byte that
/// the mode may have to escape; gives the position to go on from.
pub fn write_escape_html(writer: &mut Vec<u8>, bytes: &[u8], pos: usize) -> (r: usize)
    requires
        pos < bytes@.len(),
        needs_html_escape(bytes@[pos as int]),
    ensures
        final(writer)@ == old(writer)@ + escape_unit(
            bytes@.skip(pos as int),
            EscapeMode::HtmlSafe,
        ).bytes,
        r == pos + escape_unit(bytes@.skip(pos as int), EscapeMode::HtmlSafe).taken,
        pos < r <= bytes@.len(),
{
    proof {
        reveal(escape_unit);
    }
    let b = bytes[pos];
    assert(bytes@.skip(pos as int)[0] == bytes@[pos as int]);
    if b < 0x20 || b == 0x22 || b == 0x5c {
        write_escape_byte(writer, b);
        return pos + 1;
    }
    if b == 0x3c {
        write_unicode_escape(writer, 0x3c);
        return pos + 1;
    }
    if b == 0x3e {
        write_unicode_escape(writer, 0x3e);
        return pos + 1;
    }
    if b == 0x26 {
        write_unicode_escape(writer, 0x26);
        return pos + 1;
    }
    if b == 0x2f {
        write_pair(writer, 0x2f);
        return pos + 1;
    }
    write_separator_or_verbatim(writer, bytes, pos)
}

/// Writes what the JavaScript-safe mode writes for the byte at `pos`, a
/// byte that the mode may have to escape; gives the position to go on from.
pub fn write_escape_javascript_at(writer: &mut Vec<u8>, bytes: &[u8], pos: usize) -> (r: usize)
    requires
        pos < bytes@.len(),
        needs_javascript_escape(bytes@[pos as int]),
    ensures
        final(writer)@ == old(writer)@ + escape_unit(
            bytes@.skip(pos as int),
            EscapeMode::JavaScriptSafe,
        ).bytes,
        r == pos + escape_unit(bytes@.skip(pos as int), EscapeMode::JavaScriptSafe).taken,
        pos < r <= bytes@.len(),
{
    proof {
        reveal(escape_unit);
    }
    let b = bytes[pos];
    assert(bytes@.skip(pos as int)[0] == bytes@[pos as int]);
    if b < 0x20 || b == 0x22 || b == 0x5c {
        write_escape_byte(writer, b);
        return pos + 1;
    }
    write_separator_or_verbatim(writer, bytes, pos)
}

/// Writes the escape of the scalar value `cp`: one `\uXXXX`, or the two of
/// its surrogate pair.
pub fn write_scalar_escape(writer: &mut Vec<u8>, cp: u32)
    requires
        cp <= 0x10ffff,
    ensures
        final(writer)@ == old(writer)@ + scalar_escape(cp as int),
{
    if cp <= 0xffff {
        write_unicode_escape(writer, cp);
    } else {
        let rest = cp - 0x10000;
        write_unicode_escape(writer, 0xd800 + rest / 0x400);
        write_unicode_escape(writer, 0xdc00 + rest % 0x400);
        assert(writer@ =~= old(writer)@ + scalar_escape(cp as int));
    }
}

/// Writes what the Unicode-safe mode writes for the character at `pos`, a
/// byte that the mode escapes; gives the position to go on from.
pub fn write_escape_unicode_at(writer: &mut Vec<u8>, bytes: &[u8], pos: usize) -> (r: usize)
    requires
        pos < bytes@.len(),
        needs_unicode_escape(bytes@[pos as int]),
        valid_first_scalar(bytes@.skip(pos as int)),
    ensures
        final(writer)@ == old(writer)@ + escape_unit(
            bytes@.skip(pos as int),
            EscapeMode::UnicodeSafe,
        ).bytes,
        r == pos + escape_unit(bytes@.skip(pos as int), EscapeMode::UnicodeSafe).taken,
        pos < r <= bytes@.len(),
{
    proof {
        reveal(escape_unit);
    }
    let b = bytes[pos];
    let ghost t = bytes@.skip(pos as int);
    assert(t[0] == bytes@[pos as int]);
    if b < 0x20 || b == 0x22 || b == 0x5c {
        write_escape_byte(writer, b);
        return pos + 1;
    }
    if b < 0xe0 {
        assert(t[1] == bytes@[pos + 1]);
        let b1 = bytes[pos + 1];
        let cp = (((b & 0x1f) as u32) << 6) | ((b1 & 0x3f) as u32);
        assert(cp <= 0x10ffff) by (bit_vector)
            requires
                cp == (((b & 0x1f) as u32) << 6) | ((b1 & 0x3f) as u32),
        ;
        write_scalar_escape(writer, cp);
        pos + 2
    } else if b < 0xf0 {
        assert(t[1] == bytes@[pos + 1] && t[2] == bytes@[pos + 2]);
        let b1 = bytes[pos + 1];
        let b2 = bytes[pos + 2];
        let cp = (((b & 0x0f) as u32) << 12) | (((b1 & 0x3f) as u32) << 6) | ((b2 & 0x3f) as u32);
        assert(cp <= 0x10ffff) by (bit_vector)
            requires
                cp == (((b & 0x0f) as u32) << 12) | (((b1 & 0x3f) as u32) << 6) | ((b2 & 0x3f)
                    as u32),
        ;
        write_scalar_escape(writer, cp);
        pos + 3
    } else {
        assert(t[1] == bytes@[pos + 1] && t[2] == bytes@[pos + 2] && t[3] == bytes@[pos + 3]);
        let b1 = bytes[pos + 1];
        let b2 = bytes[pos + 2];
        let b3 = bytes[pos + 3];
        let cp = (((b & 0x07) as u32) << 18) | (((b1 & 0x3f) as u32) << 12) | (((b2 & 0x3f) as u32)
            << 6) | ((b3 & 0x3f) as u32);
        write_scalar_escape(writer, cp);
        pos + 4
    }
}

/// What is left of valid UTF-8 after a stretch of ASCII is valid UTF-8.
pub proof fn lemma_valid_after_ascii(b: Seq<u8>, from: int, to: int)
    requires
        0 <= from <= to <= b.len(),
        valid_utf8(b.skip(from)),
        forall|i: int| from <= i < to ==> (#[trigger] b[i]) < 0x80,
    ensures
        valid_utf8(b.skip(to)),
    decreases to - from,
{
    if from < to {
        let t = b.skip(from);
        assert(t[0] == b[from]);
        assert(pop_first_scalar(t) =~= b.skip(from + 1));
        lemma_valid_after_ascii(b, from + 1, to);
    }
}

/// Writes what the mode writes for the byte at `pos`, a byte that the mode
/// does not write as it is; gives the position to go on from.
fn write_escape_at(writer: &mut Vec<u8>, bytes: &[u8], pos: usize, escape_mode: EscapeMode) -> (r:
    usize)
    requires
        pos < bytes@.len(),
        !escape_mode.safe_class().contains(bytes@[pos as int]),
        escape_mode == EscapeMode::UnicodeSafe ==> valid_utf8(bytes@.skip(pos as int)),
    ensures
        final(writer)@ == old(writer)@ + escape_unit(bytes@.skip(pos as int), escape_mode).bytes,
        r == pos + escape_unit(bytes@.skip(pos as int), escape_mode).taken,
        pos < r <= bytes@.len(),
        escape_mode == EscapeMode::UnicodeSafe ==> valid_utf8(bytes@.skip(r as int)),
{
    let ghost t = bytes@.skip(pos as int);
    assert(t[0] == bytes@[pos as int]);
    match escape_mode {
        EscapeMode::Json => {
            proof {
                reveal(escape_unit);
            }
            write_escape_byte(writer, bytes[pos]);
            pos + 1
        },
        EscapeMode::HtmlSafe => write_escape_html(writer, bytes, pos),
        EscapeMode::UnicodeSafe => {
            let r = write_escape_unicode_at(writer, bytes, pos);
            proof {
                reveal(escape_unit);
                assert(pop_first_scalar(t) =~= bytes@.skip(r as int));
            }
            r
        },
        EscapeMode::JavaScriptSafe => write_escape_javascript_at(writer, bytes, pos),
    }
}

/// The body of a string is what is written for its start, then the body of
/// the rest.
pub proof fn lemma_escaped_unfold(b: Seq<u8>, pos: int, mode: EscapeMode)
    requires
        0 <= pos < b.len(),
    ensures
        escaped(b.skip(pos), mode) == escape_unit(b.skip(pos), mode).bytes + escaped(
            b.skip(pos + escape_unit(b.skip(pos), mode).taken),
            mode,
        ),
{
    let t = b.skip(pos);
    let u = escape_unit(t, mode);
    crate::encoding::lemma_unit_taken(t, mode);
    assert(t.skip(u.taken) =~= b.skip(pos + u.taken));
}

/// Writes the bytes of a string as a JSON string: a quote, the body with
/// the escapes of the mode, a quote.  The stretches between escapes are
/// found by the scanners and copied in bulk.
pub fn write_escaped_bytes(bytes: &[u8], writer: &mut Vec<u8>, escape_mode: EscapeMode)
    requires
        valid_utf8(bytes@),
    ensures
        final(writer)@ == old(writer)@ + quoted(bytes@, escape_mode),
{
    let len = bytes.len();
    writer.push(0x22);
    let ghost start = writer@;
    let ghost written = Seq::<u8>::empty();
    let mut pos: usize = 0;
    proof {
        assert(bytes@.skip(0) =~= bytes@);
        assert(start + written =~= start);
        assert(written + escaped(bytes@.skip(0), escape_mode) =~= escaped(bytes@, escape_mode));
    }
    while pos < len
        invariant
            pos <= len == bytes@.len(),
            start == old(writer)@.push(0x22u8),
            writer@ == start + written,
            escaped(bytes@, escape_mode) == written + escaped(bytes@.skip(pos as int), escape_mode),
            escape_mode == EscapeMode::UnicodeSafe ==> valid_utf8(bytes@.skip(pos as int)),
        decreases len - pos,
    {
        let next = match escape_mode {
            EscapeMode::Json => find_next_escape_json(bytes, pos),
            EscapeMode::HtmlSafe => find_next_escape_html(bytes, pos),
            EscapeMode::UnicodeSafe => find_next_escape_unicode(bytes, pos),
            EscapeMode::JavaScriptSafe => find_next_escape_javascript(bytes, pos),
        };
        proof {
            lemma_run_end_bounds(bytes@, pos as int, escape_mode.safe_class());
            lemma_escaped_safe_run(bytes@, pos as int, next as int, escape_mode);
            if escape_mode == EscapeMode::UnicodeSafe {
                assert forall|i: int| pos <= i < next implies (#[trigger] bytes@[i]) < 0x80 by {
                    assert(escape_mode.safe_class().contains(bytes@[i]));
                }
                lemma_valid_after_ascii(bytes@, pos as int, next as int);
            }
        }
        if next > pos {
            append_bytes(writer, vstd::slice::slice_subrange(bytes, pos, next));
        }
        proof {
            let piece = bytes@.subrange(pos as int, next as int);
            assert(writer@ =~= start + (written + piece));
            assert(written + (piece + escaped(bytes@.skip(next as int), escape_mode)) =~= (written
                + piece) + escaped(bytes@.skip(next as int), escape_mode));
            written = written + piece;
        }
        pos = next;
        if pos < len {
            let ghost u = escape_unit(bytes@.skip(pos as int), escape_mode);
            proof {
                lemma_escaped_unfold(bytes@, pos as int, escape_mode);
            }
            let after = write_escape_at(writer, bytes, pos, escape_mode);
            proof {
                assert(writer@ =~= start + (written + u.bytes));
                assert(written + (u.bytes + escaped(bytes@.skip(after as int), escape_mode)) =~= (
                written + u.bytes) + escaped(bytes@.skip(after as int), escape_mode));
                written = written + u.bytes;
            }
            pos = after;
        }
    }
    writer.push(0x22);
    proof {
        assert(escaped(bytes@.skip(len as int), escape_mode) =~= Seq::<u8>::empty());
        assert(writer@ =~= old(writer)@ + quoted(bytes@, escape_mode));
    }
}

/// Writes `s` as a JSON string with the escapes of the mode.
pub fn write_json_string_escaped(s: &str, writer: &mut Vec<u8>, escape_mode: EscapeMode) -> (r:
    Result<(), EncodeError>)
    ensures
        r is Ok,
        final(writer)@ == old(writer)@ + quoted(s.spec_bytes(), escape_mode),
{
    broadcast use vstd::utf8::encode_utf8_valid_utf8;

    let bytes = s.as_bytes();
    write_escaped_bytes(bytes, writer, escape_mode);
    Ok(())
}

/// Writes `s` as a JSON string with the escapes of the mode.
pub fn write_json_string(s: &str, writer: &mut Vec<u8>, escape_mode: EscapeMode) -> (r: Result<
    (),
    EncodeError,
>)
    ensures
        r is Ok,
        final(writer)@ == old(writer)@ + quoted(s.spec_bytes(), escape_mode),
{
    write_json_string_escaped(s, writer, escape_mode)
}

/// Writes `s` as a JSON string with the escapes of the mode.
pub fn write_json_string_escaped_pub(s: &str, writer: &mut Vec<u8>, escape_mode: EscapeMode) -> (r:
    Result<(), EncodeError>)
    ensures
        r is Ok,
        final(writer)@ == old(writer)@ + quoted(s.spec_bytes(), escape_mode),
{
    write_json_string_escaped(s, writer, escape_mode)
}

/// Deepest nesting of containers that is written.
pub const MAX_DEPTH: u32 = 128;

/// The separators of pretty output and the key options, shared by all the
/// levels of one encode.
pub struct FormatContext {
    pub line_separator: SmallBytes,
    pub after_colon: SmallBytes,
    pub indent: SmallBytes,
    pub strict_keys: bool,
    pub sort_keys: bool,
}

impl Default for FormatContext {
    /// A line feed, a space, two spaces; keys neither strict nor sorted.
    fn default() -> (c: Self)
        ensures
            small_bytes(c.line_separator) == seq![0x0au8],
            small_bytes(c.after_colon) == seq![0x20u8],
            small_bytes(c.indent) == seq![0x20u8, 0x20],
            !c.strict_keys,
            !c.sort_keys,
    {
        let line: [u8; 1] = [0x0a];
        let colon: [u8; 1] = [0x20];
        let indent: [u8; 2] = [0x20, 0x20];
        assert(line@ =~= seq![0x0au8]);
        assert(colon@ =~= seq![0x20u8]);
        assert(indent@ =~= seq![0x20u8, 0x20]);
        FormatContext {
            line_separator: small_from_slice(&line),
            after_colon: small_from_slice(&colon),
            indent: small_from_slice(&indent),
            strict_keys: false,
            sort_keys: false,
        }
    }
}

/// The format of the output at one level of nesting.
#[derive(Clone, Copy)]
pub struct FormatOptions<'ctx> {
    /// Whether line breaks and indentation are written.
    pub pretty: bool,
    /// How many containers deep the value to write stands.
    pub depth: u32,
    /// Whether records are written as plain mappings.
    pub lean: bool,
    /// Which bytes of a string are written as escapes.
    pub escape: EscapeMode,
    /// What all the levels share.
    pub ctx: &'ctx FormatContext,
}

impl<'ctx> FormatOptions<'ctx> {
    /// The format as mathematics.
    pub open spec fn model(self) -> Format {
        Format {
            pretty: self.pretty,
            depth: self.depth as int,
            lean: self.lean,
            escape: self.escape,
            line_separator: small_bytes(self.ctx.line_separator),
            after_colon: small_bytes(self.ctx.after_colon),
            indent: small_bytes(self.ctx.indent),
            strict_keys: self.ctx.strict_keys,
            sort_keys: self.ctx.sort_keys,
        }
    }

    /// Compact output: no whitespace between tokens.
    pub fn compact(ctx: &'ctx FormatContext) -> (r: Self)
        ensures
            r == (FormatOptions { pretty: false, depth: 0, lean: false, escape: EscapeMode::Json, ctx }),
    {
        FormatOptions { pretty: false, depth: 0, lean: false, escape: EscapeMode::Json, ctx }
    }

    /// Pretty output, with the separators of `ctx`.
    pub fn pretty(ctx: &'ctx FormatContext) -> (r: Self)
        ensures
            r == (FormatOptions { pretty: true, depth: 0, lean: false, escape: EscapeMode::Json, ctx }),
    {
        FormatOptions { pretty: true, depth: 0, lean: false, escape: EscapeMode::Json, ctx }
    }

    /// The same format, lean or not.
    pub fn with_lean(self, lean: bool) -> (r: Self)
        ensures
            r == (FormatOptions { lean, ..self }),
    {
        FormatOptions { lean, ..self }
    }

    /// The same format with another escape mode.
    pub fn with_escape(self, escape: EscapeMode) -> (r: Self)
        ensures
            r == (FormatOptions { escape, ..self }),
    {
        FormatOptions { escape, ..self }
    }

    /// Whether line breaks and indentation are written.
    pub fn is_pretty(&self) -> (r: bool)
        ensures
            r == self.pretty,
    {
        self.pretty
    }

    /// Whether records are written as plain mappings.
    pub fn is_lean(&self) -> (r: bool)
        ensures
            r == self.lean,
    {
        self.lean
    }

    /// Whether a key that comes twice in one object is an error.
    pub fn strict_keys(&self) -> (r: bool)
        ensures
            r == self.ctx.strict_keys,
    {
        self.ctx.strict_keys
    }

    /// Whether the members of an object are written in the order of their
    /// keys.
    pub fn sort_keys(&self) -> (r: bool)
        ensures
            r == self.ctx.sort_keys,
    {
        self.ctx.sort_keys
    }

    /// Which bytes of a string are written as escapes.
    pub fn escape_mode(&self) -> (r: EscapeMode)
        ensures
            r == self.escape,
    {
        self.escape
    }

    /// The format one container further in.
    pub fn nested(&self) -> (r: Self)
        requires
            self.depth < u32::MAX,
        ensures
            r.model() == nested(self.model()),
            r.ctx == self.ctx,
            r.depth == self.depth + 1,
    {
        FormatOptions {
            pretty: self.pretty,
            depth: self.depth + 1,
            lean: self.lean,
            escape: self.escape,
            ctx: self.ctx,
        }
    }

    /// Starts a line in pretty output: the line separator, then the indent
    /// once per level.
    pub fn write_newline(&self, writer: &mut Vec<u8>)
        ensures
            final(writer)@ == old(writer)@ + newline(self.model()),
    {
        if self.is_pretty() {
            append_bytes(writer, small_as_slice(&self.ctx.line_separator));
            let indent = small_as_slice(&self.ctx.indent);
            let mut i: u32 = 0;
            assert(writer@ =~= old(writer)@ + (small_bytes(self.ctx.line_separator) + repeated(
                indent@,
                0,
            )));
            while i < self.depth
                invariant
                    i <= self.depth,
                    indent@ == small_bytes(self.ctx.indent),
                    writer@ == old(writer)@ + (small_bytes(self.ctx.line_separator) + repeated(
                        indent@,
                        i as int,
                    )),
                decreases self.depth - i,
            {
                append_bytes(writer, indent);
                i = i + 1;
                assert(writer@ =~= old(writer)@ + (small_bytes(self.ctx.line_separator) + repeated(
                    indent@,
                    i as int,
                )));
            }
        } else {
            assert(writer@ =~= old(writer)@ + newline(self.model()));
        }
    }

    /// Writes what follows a colon in pretty output.
    pub fn write_space(&self, writer: &mut Vec<u8>)
        ensures
            final(writer)@ == old(writer)@ + space(self.model()),
    {
        if self.is_pretty() {
            append_bytes(writer, small_as_slice(&self.ctx.after_colon));
        } else {
            assert(writer@ =~= old(writer)@ + space(self.model()));
        }
    }
}

/// The writer took what `want` asks for: after a success the bytes of
/// `want` stand after what was there before, and a failure is the failure
/// of `want`.
pub open spec fn wrote(
    r: Result<(), EncodeError>,
    before: Seq<u8>,
    after: Seq<u8>,
    want: Encoded,
) -> bool {
    match r {
        Ok(_) => want is Ok && after == before + want.unwrap(),
        Err(e) => want == Err::<Seq<u8>, ErrorKind>(e.kind),
    }
}

/// Writes the last `width` decimal digits of `val`, with zeros in front
/// where `val` has fewer.
pub fn write_padded(writer: &mut Vec<u8>, val: u32, width: u8)
    requires
        width <= 6,
    ensures
        final(writer)@ == old(writer)@ + padded(val as int, width as int),
{
    proof {
        reveal_with_fuel(pow10, 8);
    }
    let mut div: u32 = 1;
    let mut k: u8 = 1;
    while k < width
        invariant
            1 <= k <= 6,
            k <= width || k == 1,
            width <= 6,
            div == pow10((k - 1) as nat),
            1 <= div <= 100000,
        decreases width - k,
    {
        proof {
            reveal_with_fuel(pow10, 8);
        }
        div = div * 10;
        k = k + 1;
    }
    let mut j: u8 = 0;
    assert(writer@ =~= old(writer)@ + padded(val as int, width as int).subrange(0, 0));
    while j < width
        invariant
            j <= width <= 6,
            j < width ==> div == pow10((width - 1 - j) as nat) && div >= 1,
            writer@ == old(writer)@ + padded(val as int, width as int).subrange(0, j as int),
        decreases width - j,
    {
        let digit = (val / div) % 10;
        writer.push(0x30 + digit as u8);
        proof {
            let p = padded(val as int, width as int);
            assert(p[j as int] == (0x30 + digit) as u8);
            assert(p.subrange(0, j + 1) =~= p.subrange(0, j as int).push(p[j as int]));
            assert(writer@ =~= old(writer)@ + p.subrange(0, j + 1));
            if j + 1 < width {
                assert(pow10((width - 1 - j) as nat) == 10 * pow10((width - 2 - j) as nat));
            }
        }
        div = div / 10;
        j = j + 1;
    }
    proof {
        let p = padded(val as int, width as int);
        assert(p.subrange(0, width as int) =~= p);
    }
}

/// Writes a signed integer padded to `width` digits, with `-` in front of a
/// negative one.
pub fn write_padded_i32(writer: &mut Vec<u8>, val: i32, width: u8)
    requires
        width <= 6,
    ensures
        final(writer)@ == old(writer)@ + padded_signed(val as int, width as int),
{
    if val < 0 {
        writer.push(0x2d);
        let magnitude = (-(val as i64)) as u32;
        write_padded(writer, magnitude, width);
        assert(writer@ =~= old(writer)@ + padded_signed(val as int, width as int));
    } else {
        write_padded(writer, val as u32, width);
    }
}

/// Writes the fraction of a second: a point and the first `precision` of
/// the six digits of the microseconds.
pub fn write_microsecond_frac(writer: &mut Vec<u8>, micro_val: u32, precision: usize)
    requires
        precision <= 6,
    ensures
        final(writer)@ == old(writer)@ + microsecond_fraction(micro_val as int, precision as int),
{
    writer.push(0x2e);
    let mut digits: Vec<u8> = Vec::with_capacity(6);
    write_padded(&mut digits, micro_val, 6);
    assert(digits@ =~= padded(micro_val as int, 6));
    append_bytes(writer, vstd::slice::slice_subrange(digits.as_slice(), 0, precision));
    assert(writer@ =~= old(writer)@ + microsecond_fraction(micro_val as int, precision as int));
}

/// Writes an atom: `true`, `false`, `null` for `nil` and `null`, its name
/// as a string otherwise.  Fails on a name that is not UTF-8 and on a term
/// that is no atom, and then writes nothing.
pub fn write_atom(term: &Term, writer: &mut Vec<u8>, opts: FormatOptions<'_>) -> (r: Result<
    (),
    EncodeError,
>)
    ensures
        term is Atom ==> wrote(
            r,
            old(writer)@,
            final(writer)@,
            encoded_atom(term->Atom_0@, opts.model()),
        ),
        !(term is Atom) ==> r is Err && r->Err_0.kind == ErrorKind::UnsupportedTerm,
        r is Err ==> final(writer)@ == old(writer)@,
{
    match term {
        Term::Atom(name) => {
            let name = name.as_slice();
            if bytes_eq(name, &true_name()) {
                append_bytes(writer, &true_name());
            } else if bytes_eq(name, &false_name()) {
                append_bytes(writer, &false_name());
            } else if bytes_eq(name, &nil_name()) || bytes_eq(name, &null_name()) {
                append_bytes(writer, &null_name());
            } else if is_valid_utf8(name) {
                write_escaped_bytes(name, writer, opts.escape_mode());
            } else {
                return Err(EncodeError::new(ErrorKind::InvalidUtf8));
            }
            Ok(())
        },
        _ => Err(EncodeError::new(ErrorKind::UnsupportedTerm)),
    }
}

/// Writes a byte string as a JSON string.  Fails where it is not UTF-8 and
/// on a term that is no byte string, and then writes nothing.
pub fn write_binary(term: &Term, writer: &mut Vec<u8>, opts: FormatOptions<'_>) -> (r: Result<
    (),
    EncodeError,
>)
    ensures
        term is Binary ==> wrote(
            r,
            old(writer)@,
            final(writer)@,
            if valid_utf8(term->Binary_0@) {
                Ok::<Seq<u8>, ErrorKind>(quoted(term->Binary_0@, opts.escape))
            } else {
                Err::<Seq<u8>, ErrorKind>(ErrorKind::InvalidUtf8)
            },
        ),
        !(term is Binary) ==> r is Err && r->Err_0.kind == ErrorKind::UnsupportedTerm,
        r is Err ==> final(writer)@ == old(writer)@,
{
    match term {
        Term::Binary(bytes) => {
            if is_valid_utf8(bytes.as_slice()) {
                write_escaped_bytes(bytes.as_slice(), writer, opts.escape_mode());
                Ok(())
            } else {
                Err(EncodeError::new(ErrorKind::InvalidUtf8))
            }
        },
        _ => Err(EncodeError::new(ErrorKind::UnsupportedTerm)),
    }
}

/// Writes an integer as its decimal text: straight from 64 bits where they
/// hold it, from its digits otherwise.  Where it fails nothing is written.
pub fn write_integer(term: &Term, writer: &mut Vec<u8>) -> (r: Result<(), EncodeError>)
    ensures
        wrote(r, old(writer)@, final(writer)@, encoded_integer(term@)),
        r is Err ==> final(writer)@ == old(writer)@,
{
    match term {
        Term::Integer(n) => {
            let text = itoa_i64(*n);
            append_bytes(writer, text.as_slice());
            Ok(())
        },
        Term::Unsigned(n) => {
            let text = itoa_u64(*n);
            append_bytes(writer, text.as_slice());
            Ok(())
        },
        Term::BigInteger(digits) => {
            if !is_integer_text_bytes(digits.as_slice()) {
                return Err(EncodeError::new(ErrorKind::UnsupportedTerm));
            }
            match bigint_decimal_text(digits.as_slice()) {
                Some(text) => {
                    append_bytes(writer, text.as_slice());
                    Ok(())
                },
                None => Err(EncodeError::new(ErrorKind::UnsupportedTerm)),
            }
        },
        _ => Err(EncodeError::new(ErrorKind::UnsupportedTerm)),
    }
}

/// Writes an integer as its decimal text.  Where it fails nothing is
/// written.
pub fn write_integer_pub(term: &Term, writer: &mut Vec<u8>) -> (r: Result<(), EncodeError>)
    ensures
        wrote(r, old(writer)@, final(writer)@, encoded_integer(term@)),
        r is Err ==> final(writer)@ == old(writer)@,
{
    write_integer(term, writer)
}

/// Whether `text` is one whole JSON number literal.
pub fn is_number_literal_bytes(text: &[u8]) -> (r: bool)
    ensures
        r == is_number_literal(text@),
{
    match scan_number_layout(text, 0) {
        Some(n) => n.end == text.len(),
        None => false,
    }
}

/// Writes a float by its text.  Fails on the text of a float that is
/// infinite or no number, which is no JSON number, and on a term that is no
/// float, and then writes nothing.
pub fn write_float(term: &Term, writer: &mut Vec<u8>) -> (r: Result<(), EncodeError>)
    ensures
        term is Float ==> wrote(
            r,
            old(writer)@,
            final(writer)@,
            if is_number_literal(term->Float_0@) {
                Ok::<Seq<u8>, ErrorKind>(term->Float_0@)
            } else {
                Err::<Seq<u8>, ErrorKind>(ErrorKind::NonFiniteFloat)
            },
        ),
        !(term is Float) ==> r is Err && r->Err_0.kind == ErrorKind::UnsupportedTerm,
        r is Err ==> final(writer)@ == old(writer)@,
{
    match term {
        Term::Float(text) => {
            if is_number_literal_bytes(text.as_slice()) {
                append_bytes(writer, text.as_slice());
                Ok(())
            } else {
                Err(EncodeError::new(ErrorKind::NonFiniteFloat))
            }
        },
        _ => Err(EncodeError::new(ErrorKind::UnsupportedTerm)),
    }
}

/// A date of the host.
#[derive(Clone, Copy, Debug)]
pub struct Date {
    pub year: i32,
    pub month: u32,
    pub day: u32,
}

/// A time of day of the host.
#[derive(Clone, Copy, Debug)]
pub struct TimeOfDay {
    pub hour: u32,
    pub minute: u32,
    pub second: u32,
    pub microsecond: u32,
    pub precision: u32,
}

impl Date {
    /// The date as mathematics.
    pub open spec fn model(self) -> DateFields {
        DateFields { year: self.year as int, month: self.month as int, day: self.day as int }
    }
}

impl TimeOfDay {
    /// The time as mathematics.
    pub open spec fn model(self) -> TimeFields {
        TimeFields {
            hour: self.hour as int,
            minute: self.minute as int,
            second: self.second as int,
            microsecond: self.microsecond as int,
            precision: self.precision as int,
        }
    }
}

/// The 32-bit signed integer in the field `name` of a record.
pub fn get_struct_field_atom_i32(entries: &Vec<(Term, Term)>, name: &[u8]) -> (r: Option<i32>)
    ensures
        r is Some <==> field_i32(entries_view(entries@), name@) is Some,
        r is Some ==> r.unwrap() == field_i32(entries_view(entries@), name@).unwrap(),
{
    match get_field(entries, name) {
        Some(t) => read_i32(t),
        None => None,
    }
}

/// The 32-bit unsigned integer in the field `name` of a record.
pub fn get_struct_field_atom_u32(entries: &Vec<(Term, Term)>, name: &[u8]) -> (r: Option<u32>)
    ensures
        r is Some <==> field_u32(entries_view(entries@), name@) is Some,
        r is Some ==> r.unwrap() == field_u32(entries_view(entries@), name@).unwrap(),
{
    match get_field(entries, name) {
        Some(t) => read_u32(t),
        None => None,
    }
}

/// The 64-bit signed integer in the field `name` of a record.
pub fn get_struct_field_atom_i64(entries: &Vec<(Term, Term)>, name: &[u8]) -> (r: Option<i64>)
    ensures
        r is Some <==> field_i64(entries_view(entries@), name@) is Some,
        r is Some ==> r.unwrap() == field_i64(entries_view(entries@), name@).unwrap(),
{
    match get_field(entries, name) {
        Some(t) => read_i64(t),
        None => None,
    }
}

/// The text in the field `name` of a record, where the field is there, is
/// not `nil` and holds text.
pub fn get_struct_field_opt_atom<'a>(entries: &'a Vec<(Term, Term)>, name: &[u8]) -> (r: Option<
    &'a Vec<u8>,
>)
    ensures
        r is Some <==> field_text(entries_view(entries@), name@) is Some,
        r is Some ==> r.unwrap()@ == field_text(entries_view(entries@), name@).unwrap()
            && valid_utf8(r.unwrap()@),
{
    match get_field(entries, name) {
        Some(t) => {
            if is_nil_term(t) {
                return None;
            }
            match t {
                Term::Binary(b) => if is_valid_utf8(b.as_slice()) {
                    Some(b)
                } else {
                    None
                },
                _ => None,
            }
        },
        None => None,
    }
}

/// The pair of 32-bit unsigned integers in the field `name` of a record.
pub fn get_struct_field_tuple2_atom(entries: &Vec<(Term, Term)>, name: &[u8]) -> (r: Option<
    (u32, u32),
>)
    ensures
        match r {
            Some((a, b)) => field(entries_view(entries@), name@) matches Some(TermV::Tuple(pair))
                && pair.len() == 2 && as_integer_within(pair[0], 0, 0xffff_ffff) == Some(a as int)
                && as_integer_within(pair[1], 0, 0xffff_ffff) == Some(b as int),
            None => !(field(entries_view(entries@), name@) matches Some(TermV::Tuple(pair))
                && pair.len() == 2 && as_integer_within(pair[0], 0, 0xffff_ffff) is Some
                && as_integer_within(pair[1], 0, 0xffff_ffff) is Some),
        },
{
    match get_field(entries, name) {
        Some(t) => {
            proof {
                lemma_view_children(*t);
            }
            match t {
                Term::Tuple(items) => {
                    if items.len() != 2 {
                        return None;
                    }
                    assert(crate::term::terms_view(items@)[0] == items@[0]@);
                    assert(crate::term::terms_view(items@)[1] == items@[1]@);
                    let a = match read_u32(&items[0]) {
                        Some(a) => a,
                        None => {
                            return None;
                        },
                    };
                    let b = match read_u32(&items[1]) {
                        Some(b) => b,
                        None => {
                            return None;
                        },
                    };
                    Some((a, b))
                },
                _ => None,
            }
        },
        None => None,
    }
}

/// The date in the fields of a record.
pub fn read_date(entries: &Vec<(Term, Term)>) -> (r: Option<Date>)
    ensures
        match r {
            Some(d) => date_fields(entries_view(entries@)) == Some(d.model()),
            None => date_fields(entries_view(entries@)) is None,
        },
{
    let year = match get_struct_field_atom_i32(entries, &year_name()) {
        Some(v) => v,
        None => {
            return None;
        },
    };
    let month = match get_struct_field_atom_u32(entries, &month_name()) {
        Some(v) => v,
        None => {
            return None;
        },
    };
    let day = match get_struct_field_atom_u32(entries, &day_name()) {
        Some(v) => v,
        None => {
            return None;
        },
    };
    Some(Date { year, month, day })
}

/// The time in the fields of a record.
pub fn read_time(entries: &Vec<(Term, Term)>) -> (r: Option<TimeOfDay>)
    ensures
        match r {
            Some(t) => time_fields(entries_view(entries@)) == Some(t.model()),
            None => time_fields(entries_view(entries@)) is None,
        },
{
    let hour = match get_struct_field_atom_u32(entries, &hour_name()) {
        Some(v) => v,
        None => {
            return None;
        },
    };
    let minute = match get_struct_field_atom_u32(entries, &minute_name()) {
        Some(v) => v,
        None => {
            return None;
        },
    };
    let second = match get_struct_field_atom_u32(entries, &second_name()) {
        Some(v) => v,
        None => {
            return None;
        },
    };
    let (microsecond, precision) = match get_struct_field_tuple2_atom(
        entries,
        &microsecond_name(),
    ) {
        Some(v) => v,
        None => {
            return None;
        },
    };
    if precision > 6 {
        return None;
    }
    Some(TimeOfDay { hour, minute, second, microsecond, precision })
}

/// Writes `YYYY-MM-DD`.
pub fn write_date_text(writer: &mut Vec<u8>, d: Date)
    ensures
        final(writer)@ == old(writer)@ + date_text(d.model()),
{
    write_padded_i32(writer, d.year, 4);
    writer.push(0x2d);
    write_padded(writer, d.month, 2);
    writer.push(0x2d);
    write_padded(writer, d.day, 2);
    assert(writer@ =~= old(writer)@ + date_text(d.model()));
}

/// Writes `HH:MM:SS`, with the fraction of the second where the
/// microseconds are not zero.
pub fn write_time_text(writer: &mut Vec<u8>, t: TimeOfDay)
    requires
        t.precision <= 6,
    ensures
        final(writer)@ == old(writer)@ + time_text(t.model()),
{
    write_padded(writer, t.hour, 2);
    writer.push(0x3a);
    write_padded(writer, t.minute, 2);
    writer.push(0x3a);
    write_padded(writer, t.second, 2);
    if t.microsecond != 0 {
        write_microsecond_frac(writer, t.microsecond, t.precision as usize);
    }
    assert(writer@ =~= old(writer)@ + time_text(t.model()));
}

/// Writes a date record as `"YYYY-MM-DD"`; writes nothing and says so where
/// a field is missing.
pub fn try_write_date(entries: &Vec<(Term, Term)>, writer: &mut Vec<u8>) -> (r: bool)
    ensures
        match date_fields(entries_view(entries@)) {
            Some(d) => r && final(writer)@ == old(writer)@ + (seq![0x22u8] + date_text(d)
                + seq![0x22u8]),
            None => !r && final(writer)@ == old(writer)@,
        },
{
    let d = match read_date(entries) {
        Some(d) => d,
        None => {
            return false;
        },
    };
    writer.push(0x22);
    write_date_text(writer, d);
    writer.push(0x22);
    assert(writer@ =~= old(writer)@ + (seq![0x22u8] + date_text(d.model()) + seq![0x22u8]));
    true
}

/// Writes a time record as `"HH:MM:SS"` or `"HH:MM:SS.ffffff"`; writes
/// nothing and says so where a field is missing.
pub fn try_write_time(entries: &Vec<(Term, Term)>, writer: &mut Vec<u8>) -> (r: bool)
    ensures
        match time_fields(entries_view(entries@)) {
            Some(t) => r && final(writer)@ == old(writer)@ + (seq![0x22u8] + time_text(t)
                + seq![0x22u8]),
            None => !r && final(writer)@ == old(writer)@,
        },
{
    let t = match read_time(entries) {
        Some(t) => t,
        None => {
            return false;
        },
    };
    writer.push(0x22);
    write_time_text(writer, t);
    writer.push(0x22);
    assert(writer@ =~= old(writer)@ + (seq![0x22u8] + time_text(t.model()) + seq![0x22u8]));
    true
}

/// Writes a date-time record without zone as `"YYYY-MM-DDTHH:MM:SS"`, with
/// the fraction of the second where there is one; writes nothing and says
/// so where a field is missing.
pub fn try_write_naive_datetime(entries: &Vec<(Term, Term)>, writer: &mut Vec<u8>) -> (r: bool)
    ensures
        match (date_fields(entries_view(entries@)), time_fields(entries_view(entries@))) {
            (Some(d), Some(t)) => r && final(writer)@ == old(writer)@ + (seq![0x22u8] + date_text(
                d,
            ) + seq![0x54u8] + time_text(t) + seq![0x22u8]),
            _ => !r && final(writer)@ == old(writer)@,
        },
{
    let d = match read_date(entries) {
        Some(d) => d,
        None => {
            return false;
        },
    };
    let t = match read_time(entries) {
        Some(t) => t,
        None => {
            return false;
        },
    };
    writer.push(0x22);
    write_date_text(writer, d);
    writer.push(0x54);
    write_time_text(writer, t);
    writer.push(0x22);
    assert(writer@ =~= old(writer)@ + (seq![0x22u8] + date_text(d.model()) + seq![0x54u8]
        + time_text(t.model()) + seq![0x22u8]));
    true
}

/// Writes the zone of a date-time: `Z` for no offset, else the sign and
/// `HH:MM` of the offset in seconds.
pub fn write_offset(writer: &mut Vec<u8>, total: i64)
    requires
        -0x1_0000_0000 <= total <= 0x1_0000_0000,
    ensures
        final(writer)@ == old(writer)@ + offset_text(total as int),
{
    if total == 0 {
        writer.push(0x5a);
        assert(writer@ =~= old(writer)@ + offset_text(total as int));
    } else {
        let magnitude: i64 = if total < 0 {
            -total
        } else {
            total
        };
        let hours = (magnitude / 3600) as u32;
        let minutes = ((magnitude % 3600) / 60) as u32;
        if total >= 0 {
            writer.push(0x2b);
        } else {
            writer.push(0x2d);
        }
        write_padded(writer, hours, 2);
        writer.push(0x3a);
        write_padded(writer, minutes, 2);
        assert(writer@ =~= old(writer)@ + offset_text(total as int));
    }
}

/// Writes a date-time record as a date-time without zone followed by its
/// zone; writes nothing and says so where a field is missing.
pub fn try_write_datetime(entries: &Vec<(Term, Term)>, writer: &mut Vec<u8>) -> (r: bool)
    ensures
        match (date_fields(entries_view(entries@)), time_fields(entries_view(entries@))) {
            (Some(d), Some(t)) => r && final(writer)@ == old(writer)@ + (seq![0x22u8] + date_text(
                d,
            ) + seq![0x54u8] + time_text(t) + offset_text(total_offset(entries_view(entries@)))
                + seq![0x22u8]),
            _ => !r && final(writer)@ == old(writer)@,
        },
{
    let d = match read_date(entries) {
        Some(d) => d,
        None => {
            return false;
        },
    };
    let t = match read_time(entries) {
        Some(t) => t,
        None => {
            return false;
        },
    };
    let std_offset: i64 = match get_struct_field_atom_i32(entries, &std_offset_name()) {
        Some(v) => v as i64,
        None => 0,
    };
    let utc_offset: i64 = match get_struct_field_atom_i32(entries, &utc_offset_name()) {
        Some(v) => v as i64,
        None => 0,
    };
    let total = std_offset + utc_offset;
    writer.push(0x22);
    write_date_text(writer, d);
    writer.push(0x54);
    write_time_text(writer, t);
    write_offset(writer, total);
    writer.push(0x22);
    assert(writer@ =~= old(writer)@ + (seq![0x22u8] + date_text(d.model()) + seq![0x54u8]
        + time_text(t.model()) + offset_text(total as int) + seq![0x22u8]));
    true
}

/// Appends text between a prefix and a suffix of ASCII to text, or nothing
/// where there is no text.
fn push_affixed(out: &mut Vec<u8>, prefix: &[u8], text: Option<&Vec<u8>>, suffix: &[u8])
    requires
        valid_utf8(old(out)@),
        is_ascii_bytes(prefix@),
        is_ascii_bytes(suffix@),
        text is Some ==> valid_utf8(text.unwrap()@),
    ensures
        final(out)@ == old(out)@ + affixed(
            prefix@,
            match text {
                Some(t) => Some(t@),
                None => None,
            },
            suffix@,
        ),
        valid_utf8(final(out)@),
{
    match text {
        Some(t) => {
            proof {
                lemma_ascii_is_utf8(prefix@);
                lemma_ascii_is_utf8(suffix@);
                vstd::utf8::valid_utf8_concat(out@, prefix@);
                vstd::utf8::valid_utf8_concat(out@ + prefix@, t@);
                vstd::utf8::valid_utf8_concat(out@ + prefix@ + t@, suffix@);
            }
            append_bytes(out, prefix);
            append_bytes(out, t.as_slice());
            append_bytes(out, suffix);
            assert(out@ =~= old(out)@ + (prefix@ + t@ + suffix@));
        },
        None => {
            assert(out@ =~= old(out)@ + Seq::<u8>::empty());
        },
    }
}

/// Appends the port of a URI to its text, unless it is the usual port of
/// the scheme.
fn push_port(out: &mut Vec<u8>, scheme: Option<&Vec<u8>>, port: Option<i32>)
    requires
        valid_utf8(old(out)@),
    ensures
        final(out)@ == old(out)@ + port_text(
            match scheme {
                Some(s) => Some(s@),
                None => None,
            },
            match port {
                Some(p) => Some(p as int),
                None => None,
            },
        ),
        valid_utf8(final(out)@),
{
    match port {
        Some(p) => {
            let is_default_port = match scheme {
                Some(s) => (bytes_eq(s.as_slice(), &http_name()) && p == 80) || (bytes_eq(
                    s.as_slice(),
                    &https_name(),
                ) && p == 443),
                None => false,
            };
            if !is_default_port {
                let text = itoa_i64(p as i64);
                proof {
                    crate::decimal::lemma_int_text_is_ascii(p as int);
                    lemma_ascii_is_utf8(text@);
                    lemma_ascii_is_utf8(seq![0x3au8]);
                    vstd::utf8::valid_utf8_concat(out@, seq![0x3au8]);
                    vstd::utf8::valid_utf8_concat(out@ + seq![0x3au8], text@);
                }
                out.push(0x3a);
                assert(out@ =~= old(out)@ + seq![0x3au8]);
                append_bytes(out, text.as_slice());
                assert(out@ =~= old(out)@ + (seq![0x3au8] + int_text(p as int)));
            } else {
                assert(out@ =~= old(out)@ + Seq::<u8>::empty());
            }
        },
        None => {
            assert(out@ =~= old(out)@ + Seq::<u8>::empty());
        },
    }
}

/// The text of a URI record:
/// `scheme://[userinfo@]host[:port][path][?query][#fragment]`, without the
/// port where it is the usual one of the scheme.
pub fn try_format_uri(entries: &Vec<(Term, Term)>) -> (r: Vec<u8>)
    ensures
        r@ == uri_text(entries_view(entries@)),
        valid_utf8(r@),
{
    let scheme = get_struct_field_opt_atom(entries, &scheme_name());
    let userinfo = get_struct_field_opt_atom(entries, &userinfo_name());
    let host = get_struct_field_opt_atom(entries, &host_name());
    let port: Option<i32> = match get_field(entries, &port_name()) {
        Some(t) => if is_nil_term(t) {
            None
        } else {
            read_i32(t)
        },
        None => None,
    };
    let path = get_struct_field_opt_atom(entries, &path_name());
    let query = get_struct_field_opt_atom(entries, &query_name());
    let fragment = get_struct_field_opt_atom(entries, &fragment_name());
    let none: [u8; 0] = [];
    let colon_slashes: [u8; 3] = [0x3a, 0x2f, 0x2f];
    let at_sign: [u8; 1] = [0x40];
    let question: [u8; 1] = [0x3f];
    let hash: [u8; 1] = [0x23];
    proof {
        assert(none@ =~= Seq::<u8>::empty());
        assert(colon_slashes@ =~= seq![0x3au8, 0x2f, 0x2f]);
        assert(at_sign@ =~= seq![0x40u8]);
        assert(question@ =~= seq![0x3fu8]);
        assert(hash@ =~= seq![0x23u8]);
    }
    let mut result: Vec<u8> = Vec::new();
    push_affixed(&mut result, &none, scheme, &colon_slashes);
    push_affixed(&mut result, &none, userinfo, &at_sign);
    push_affixed(&mut result, &none, host, &none);
    push_port(&mut result, scheme, port);
    push_affixed(&mut result, &none, path, &none);
    push_affixed(&mut result, &question, query, &none);
    push_affixed(&mut result, &hash, fragment, &none);
    assert(result@ =~= uri_text(entries_view(entries@)));
    result
}

/// Writes the member `"name":value` of a range record.
fn write_range_member(writer: &mut Vec<u8>, name: &[u8], value: i64, nested: FormatOptions<'_>)
    requires
        is_ascii_bytes(name@),
    ensures
        final(writer)@ == old(writer)@ + range_member(name@, value as int, nested.model()),
{
    proof {
        lemma_ascii_is_utf8(name@);
    }
    write_escaped_bytes(name, writer, nested.escape_mode());
    writer.push(0x3a);
    nested.write_space(writer);
    let text = itoa_i64(value);
    append_bytes(writer, text.as_slice());
    assert(writer@ =~= old(writer)@ + range_member(name@, value as int, nested.model()));
}

/// Writes the member of the step of a range with the comma before it, and
/// nothing where the step is 1.
fn write_range_step(writer: &mut Vec<u8>, step: i64, nested: FormatOptions<'_>)
    ensures
        final(writer)@ == old(writer)@ + range_step(step as int, nested.model()),
{
    if step != 1 {
        let ghost nf = nested.model();
        let ghost comma = seq![0x2cu8];
        let ghost line = newline(nf);
        let ghost member = range_member(name_step(), step as int, nf);
        writer.push(0x2c);
        nested.write_newline(writer);
        write_range_member(writer, &step_name(), step, nested);
        assert(writer@ =~= old(writer)@ + (comma + line + member));
    } else {
        assert(writer@ =~= old(writer)@ + Seq::<u8>::empty());
    }
}

/// Writes the object of a range.
fn write_range(writer: &mut Vec<u8>, first: i64, last: i64, step: i64, opts: FormatOptions<'_>)
    requires
        opts.depth < u32::MAX,
    ensures
        final(writer)@ == old(writer)@ + range_text(
            first as int,
            last as int,
            step as int,
            opts.model(),
        ),
{
    let nested = opts.nested();
    let ghost nf = nested.model();
    let ghost open = seq![0x7bu8];
    let ghost comma = seq![0x2cu8];
    let ghost close = seq![0x7du8];
    let ghost line = newline(nf);
    let ghost one = range_member(name_first(), first as int, nf);
    let ghost two = range_member(name_last(), last as int, nf);
    let ghost three = range_step(step as int, nf);
    let ghost end = newline(opts.model());
    let ghost base = writer@;
    writer.push(0x7b);
    nested.write_newline(writer);
    write_range_member(writer, &first_name(), first, nested);
    assert(writer@ =~= base + (open + line + one));
    writer.push(0x2c);
    nested.write_newline(writer);
    write_range_member(writer, &last_name(), last, nested);
    assert(writer@ =~= base + (open + line + one + comma + line + two));
    write_range_step(writer, step, nested);
    opts.write_newline(writer);
    writer.push(0x7d);
    assert(writer@ =~= base + (open + line + one + comma + line + two + three + end + close));
}

/// Writes a range record as an object of `first` and `last`, and of `step`
/// where the step is not 1; writes nothing and says so where `first` or
/// `last` is missing.
pub fn try_format_range(entries: &Vec<(Term, Term)>, writer: &mut Vec<u8>, opts: FormatOptions<'_>) -> (r:
    bool)
    requires
        opts.depth < u32::MAX,
    ensures
        match encoded_range(entries_view(entries@), opts.model()) {
            Some(want) => r && want is Ok && final(writer)@ == old(writer)@ + want.unwrap(),
            None => !r && final(writer)@ == old(writer)@,
        },
{
    let first = match get_struct_field_atom_i64(entries, &first_name()) {
        Some(v) => v,
        None => {
            return false;
        },
    };
    let last = match get_struct_field_atom_i64(entries, &last_name()) {
        Some(v) => v,
        None => {
            return false;
        },
    };
    let step = match get_struct_field_atom_i64(entries, &step_name()) {
        Some(v) => v,
        None => 1,
    };
    write_range(writer, first, last, step, opts);
    true
}

/// The key that a term makes in an object: the name of an atom, the bytes
/// of a byte string, the decimal text of an integer of 64 bits; `None` for
/// the key `__struct__`, which is left out.
pub fn key_to_string(key: &Term) -> (r: Result<Option<Vec<u8>>, EncodeError>)
    ensures
        match r {
            Ok(Some(k)) => key_text(key@) == Some(Ok::<Seq<u8>, ErrorKind>(k@)) && valid_utf8(k@),
            Ok(None) => key_text(key@) is None,
            Err(e) => key_text(key@) == Some(Err::<Seq<u8>, ErrorKind>(e.kind)),
        },
{
    match key {
        Term::Atom(name) => {
            if bytes_eq(name.as_slice(), &struct_name()) {
                Ok(None)
            } else if is_valid_utf8(name.as_slice()) {
                Ok(Some(copy_bytes(name.as_slice())))
            } else {
                Err(EncodeError::new(ErrorKind::InvalidUtf8))
            }
        },
        Term::Binary(bytes) => {
            if is_valid_utf8(bytes.as_slice()) {
                Ok(Some(copy_bytes(bytes.as_slice())))
            } else {
                Err(EncodeError::new(ErrorKind::InvalidUtf8))
            }
        },
        Term::Integer(n) => {
            let text = itoa_i64(*n);
            proof {
                crate::decimal::lemma_int_text_is_ascii(*n as int);
                lemma_ascii_is_utf8(text@);
            }
            Ok(Some(text))
        },
        Term::Unsigned(n) => {
            if *n > 0x7fff_ffff_ffff_ffff {
                return Err(EncodeError::new(ErrorKind::InvalidMapKeyType));
            }
            let text = itoa_i64(*n as i64);
            proof {
                crate::decimal::lemma_int_text_is_ascii(*n as int);
                lemma_ascii_is_utf8(text@);
            }
            Ok(Some(text))
        },
        _ => Err(EncodeError::new(ErrorKind::InvalidMapKeyType)),
    }
}

/// Whether `key` is one of `seen`.
pub fn key_seen(seen: &Vec<Vec<u8>>, key: &[u8]) -> (r: bool)
    ensures
        r == key_set(seen@).contains(key@),
{
    let mut i: usize = 0;
    while i < seen.len()
        invariant
            i <= seen@.len(),
            forall|j: int| 0 <= j < i ==> (#[trigger] key_set(seen@)[j]) != key@,
        decreases seen@.len() - i,
    {
        if bytes_eq(seen[i].as_slice(), key) {
            assert(key_set(seen@)[i as int] == key@);
            return true;
        }
        i = i + 1;
    }
    false
}

/// The keys of a list of keys.
pub open spec fn key_set(seen: Seq<Vec<u8>>) -> Seq<Seq<u8>> {
    Seq::new(seen.len(), |i: int| seen[i]@)
}

/// Under strict keys, fails on a key that was seen before, and the keys
/// seen stay as they were; keeps the key otherwise.  Without strict keys
/// there is nothing to keep.
pub fn check_strict_key(seen: &mut Option<Vec<Vec<u8>>>, key: &[u8]) -> (r: Result<(), EncodeError>)
    ensures
        match *old(seen) {
            Some(before) => if key_set(before@).contains(key@) {
                r is Err && r->Err_0.kind == ErrorKind::DuplicateOutputKey && *final(seen) == *old(
                    seen,
                )
            } else {
                r is Ok && *final(seen) is Some && key_set(final(seen).unwrap()@) == key_set(
                    before@,
                ).push(key@)
            },
            None => r is Ok && *final(seen) is None,
        },
{
    match seen.take() {
        Some(mut set) => {
            if key_seen(&set, key) {
                *seen = Some(set);
                return Err(EncodeError::new(ErrorKind::DuplicateOutputKey));
            }
            let ghost before = set@;
            set.push(copy_bytes(key));
            assert(key_set(set@) =~= key_set(before).push(key@));
            *seen = Some(set);
            Ok(())
        },
        None => Ok(()),
    }
}

/// A record was written as `want` asks for: after `Ok(true)` the bytes of
/// `want` stand after what was there before, after `Ok(false)` nothing was
/// written because `want` is nothing, and a failure is the failure of
/// `want`.
pub open spec fn wrote_record(
    r: Result<bool, EncodeError>,
    before: Seq<u8>,
    after: Seq<u8>,
    want: Option<Encoded>,
) -> bool {
    match r {
        Ok(done) => if done {
            want is Some && want.unwrap() is Ok && after == before + want.unwrap().unwrap()
        } else {
            want is None && after == before
        },
        Err(e) => want == Some(Err::<Seq<u8>, ErrorKind>(e.kind)),
    }
}

/// Whether `a` comes before `b` or is `b`, byte by byte.
pub fn bytes_le_exec(a: &[u8], b: &[u8]) -> (r: bool)
    ensures
        r == bytes_le(a@, b@),
{
    let mut i: usize = 0;
    assert(a@.skip(0) =~= a@ && b@.skip(0) =~= b@);
    while i < a.len()
        invariant
            i <= a@.len(),
            i <= b@.len(),
            bytes_le(a@, b@) == bytes_le(a@.skip(i as int), b@.skip(i as int)),
        decreases a@.len() - i,
    {
        if i >= b.len() {
            return false;
        }
        proof {
            assert(a@.skip(i as int)[0] == a@[i as int]);
            assert(b@.skip(i as int)[0] == b@[i as int]);
            assert(a@.skip(i as int).drop_first() =~= a@.skip(i + 1));
            assert(b@.skip(i as int).drop_first() =~= b@.skip(i + 1));
        }
        if a[i] != b[i] {
            return a[i] < b[i];
        }
        i = i + 1;
    }
    true
}

/// The indices of an order as mathematics.
pub open spec fn order_view(order: Seq<usize>) -> Seq<int> {
    Seq::new(order.len(), |i: int| order[i] as int)
}

/// Puts the index `idx` into `order` by its key: after every index whose
/// key is not greater.
pub fn insert_by_key(order: &mut Vec<usize>, keys: &Vec<Vec<u8>>, idx: usize)
    requires
        idx < keys@.len(),
        forall|j: int| 0 <= j < old(order)@.len() ==> (#[trigger] old(order)@[j]) < keys@.len(),
    ensures
        order_view(final(order)@) == insert_sorted(key_set(keys@), order_view(old(order)@), idx as int),
        forall|j: int| 0 <= j < final(order)@.len() ==> (#[trigger] final(order)@[j]) < keys@.len(),
        final(order)@.len() == old(order)@.len() + 1,
{
    let ghost ks = key_set(keys@);
    let ghost whole = order_view(order@);
    let mut p: usize = order.len();
    let mut searching = true;
    assert(whole.subrange(0, p as int) =~= whole);
    assert(insert_sorted(ks, whole, idx as int) + whole.subrange(p as int, whole.len() as int)
        =~= insert_sorted(ks, whole, idx as int));
    while searching && p > 0
        invariant
            p <= order@.len(),
            order@ == old(order)@,
            whole == order_view(order@),
            ks == key_set(keys@),
            idx < keys@.len(),
            forall|j: int| 0 <= j < order@.len() ==> (#[trigger] order@[j]) < keys@.len(),
            insert_sorted(ks, whole, idx as int) == insert_sorted(
                ks,
                whole.subrange(0, p as int),
                idx as int,
            ) + whole.subrange(p as int, whole.len() as int),
            !searching ==> p > 0 && bytes_le(ks[whole[p - 1]], ks[idx as int]),
        decreases
                p + (if searching {
                    1int
                } else {
                    0int
                }),
    {
        let last = order[p - 1];
        proof {
            let prefix = whole.subrange(0, p as int);
            assert(prefix.last() == whole[p - 1]);
            assert(whole[p - 1] == last as int);
            assert(prefix.drop_last() =~= whole.subrange(0, p - 1));
            assert(ks[last as int] == keys@[last as int]@);
            assert(ks[idx as int] == keys@[idx as int]@);
        }
        if bytes_le_exec(keys[last].as_slice(), keys[idx].as_slice()) {
            searching = false;
        } else {
            proof {
                let prefix = whole.subrange(0, p as int);
                let shorter = whole.subrange(0, p - 1);
                assert(insert_sorted(ks, prefix, idx as int) == insert_sorted(
                    ks,
                    shorter,
                    idx as int,
                ).push(last as int));
                assert(insert_sorted(ks, shorter, idx as int).push(last as int) + whole.subrange(
                    p as int,
                    whole.len() as int,
                ) =~= insert_sorted(ks, shorter, idx as int) + whole.subrange(
                    p - 1,
                    whole.len() as int,
                ));
            }
            p = p - 1;
        }
    }
    proof {
        let prefix = whole.subrange(0, p as int);
        if p > 0 {
            assert(prefix.last() == whole[p - 1]);
        }
        assert(insert_sorted(ks, prefix, idx as int) == prefix.push(idx as int));
    }
    order.insert(p, idx);
    proof {
        assert(order_view(order@) =~= whole.subrange(0, p as int).push(idx as int)
            + whole.subrange(p as int, whole.len() as int));
    }
}

/// Writes the bytes of a value that is handed over ready: a byte string as
/// it is, a list of such values one after the other, an integer from 0 to
/// 255 as one byte.
#[verifier::loop_isolation(false)]
pub fn write_iodata(writer: &mut Vec<u8>, term: &Term) -> (r: Result<(), EncodeError>)
    ensures
        wrote(r, old(writer)@, final(writer)@, iodata(term@)),
    decreases term,
{
    match term {
        Term::Binary(bytes) => {
            append_bytes(writer, bytes.as_slice());
            Ok(())
        },
        Term::List(items) => {
            proof {
                lemma_view_children(*term);
            }
            let ghost iv = terms_view(items@);
            let ghost mut acc = Seq::<u8>::empty();
            let mut i: usize = 0;
            assert(writer@ =~= old(writer)@ + acc);
            while i < items.len()
                invariant
                    i <= items@.len(),
                    writer@ == old(writer)@ + acc,
                    iodata_items(iv, 0, Seq::empty()) == iodata_items(iv, i as int, acc),
                decreases items@.len() - i,
            {
                proof {
                    vstd::std_specs::vec::axiom_vec_index_decreases(*items, i as int);
                    assert(iv[i as int] == items@[i as int]@);
                }
                let ghost before = writer@;
                match write_iodata(writer, &items[i]) {
                    Ok(()) => {},
                    Err(e) => {
                        return Err(e);
                    },
                }
                proof {
                    let x = iodata(iv[i as int]).unwrap();
                    assert(writer@ =~= old(writer)@ + (acc + x));
                    acc = acc + x;
                }
                i = i + 1;
            }
            Ok(())
        },
        _ => match read_u8(term) {
            Some(byte) => {
                writer.push(byte);
                assert(writer@ =~= old(writer)@ + seq![byte]);
                Ok(())
            },
            None => Err(EncodeError::new(ErrorKind::UnsupportedTerm)),
        },
    }
}

/// Writes a fragment record: the bytes in its field `encode`, as they are;
/// writes nothing and says so where the field is missing.
pub fn try_format_fragment(entries: &Vec<(Term, Term)>, writer: &mut Vec<u8>) -> (r: Result<
    bool,
    EncodeError,
>)
    ensures
        wrote_record(
            r,
            old(writer)@,
            final(writer)@,
            match field(entries_view(entries@), name_encode()) {
                Some(t) => Some(iodata(t)),
                None => None,
            },
        ),
{
    match get_field(entries, &encode_name()) {
        Some(value) => match write_iodata(writer, value) {
            Ok(()) => Ok(true),
            Err(e) => Err(e),
        },
        None => Ok(false),
    }
}

/// Writes a record that needs no look into its values.
pub fn write_plain_record(
    entries: &Vec<(Term, Term)>,
    name: &[u8],
    writer: &mut Vec<u8>,
    opts: FormatOptions<'_>,
) -> (r: Result<bool, EncodeError>)
    requires
        opts.depth < u32::MAX,
    ensures
        wrote_record(
            r,
            old(writer)@,
            final(writer)@,
            encoded_plain_record(name@, entries_view(entries@), opts.model()),
        ),
{
    if bytes_eq(name, &decimal_name()) {
        match decimal_record_bytes(entries) {
            Some(text) => {
                write_escaped_bytes(text.as_slice(), writer, opts.escape_mode());
                Ok(true)
            },
            None => Ok(false),
        }
    } else if bytes_eq(name, &date_name()) {
        Ok(try_write_date(entries, writer))
    } else if bytes_eq(name, &time_name()) {
        Ok(try_write_time(entries, writer))
    } else if bytes_eq(name, &naive_datetime_name()) {
        Ok(try_write_naive_datetime(entries, writer))
    } else if bytes_eq(name, &datetime_name()) {
        Ok(try_write_datetime(entries, writer))
    } else if bytes_eq(name, &uri_name()) {
        let text = try_format_uri(entries);
        write_escaped_bytes(text.as_slice(), writer, opts.escape_mode());
        Ok(true)
    } else if bytes_eq(name, &range_name()) {
        Ok(try_format_range(entries, writer, opts))
    } else if bytes_eq(name, &fragment_record_name()) || bytes_eq(name, &jason_fragment_name()) {
        try_format_fragment(entries, writer)
    } else {
        Ok(false)
    }
}

/// Writes the value `term` as JSON in the format `opts`.
pub fn term_to_json(term: &Term, writer: &mut Vec<u8>, opts: FormatOptions<'_>) -> (r: Result<
    (),
    EncodeError,
>)
    ensures
        wrote(r, old(writer)@, final(writer)@, encoded_term(term@, opts.model())),
    decreases term, 5int,
{
    if opts.depth > MAX_DEPTH {
        return Err(EncodeError::new(ErrorKind::NestingDepthExceeded));
    }
    proof {
        lemma_view_children(*term);
    }
    match term {
        Term::Atom(_) => write_atom(term, writer, opts),
        Term::Binary(_) => write_binary(term, writer, opts),
        Term::Integer(_) => write_integer(term, writer),
        Term::Unsigned(_) => write_integer(term, writer),
        Term::BigInteger(_) => write_integer(term, writer),
        Term::Float(_) => write_float(term, writer),
        Term::List(items) => write_list(items, writer, opts),
        Term::Mapping(entries) => write_map(entries, writer, opts),
        Term::Tuple(items) => write_tuple(items, writer, opts),
        Term::Other => Err(EncodeError::new(ErrorKind::UnsupportedTerm)),
    }
}

/// Writes the items of a list as an array.
pub fn write_list(items: &Vec<Term>, writer: &mut Vec<u8>, opts: FormatOptions<'_>) -> (r: Result<
    (),
    EncodeError,
>)
    requires
        opts.depth <= MAX_DEPTH,
    ensures
        wrote(
            r,
            old(writer)@,
            final(writer)@,
            encoded_sequence(terms_view(items@), opts.model()),
        ),
    decreases items, 0int,
{
    let ghost iv = terms_view(items@);
    let ghost f = opts.model();
    if items.len() == 0 {
        writer.push(0x5b);
        writer.push(0x5d);
        assert(writer@ =~= old(writer)@ + seq![0x5bu8, 0x5d]);
        return Ok(());
    }
    let nested = opts.nested();
    let ghost nf = nested.model();
    writer.push(0x5b);
    let ghost mut acc = seq![0x5bu8];
    assert(writer@ =~= old(writer)@ + acc);
    let mut i: usize = 0;
    while i < items.len()
        invariant
            i <= items@.len(),
            items@.len() > 0,
            iv == terms_view(items@),
            f == opts.model(),
            nf == nested.model(),
            nf == crate::encoding::nested(f),
            writer@ == old(writer)@ + acc,
            encoded_items(iv, 0, nf, seq![0x5bu8]) == encoded_items(iv, i as int, nf, acc),
        decreases items@.len() - i,
    {
        if i > 0 {
            writer.push(0x2c);
        }
        nested.write_newline(writer);
        proof {
            vstd::std_specs::vec::axiom_vec_index_decreases(*items, i as int);
            assert(iv[i as int] == items@[i as int]@);
        }
        let ghost head = acc + (if i > 0 {
            seq![0x2cu8]
        } else {
            Seq::<u8>::empty()
        }) + newline(nf);
        assert(writer@ =~= old(writer)@ + head);
        match term_to_json(&items[i], writer, nested) {
            Ok(()) => {},
            Err(e) => {
                return Err(e);
            },
        }
        proof {
            let x = encoded_term(iv[i as int], nf).unwrap();
            assert(writer@ =~= old(writer)@ + (head + x));
            acc = head + x;
        }
        i = i + 1;
    }
    opts.write_newline(writer);
    writer.push(0x5d);
    assert(writer@ =~= old(writer)@ + (acc + newline(f) + seq![0x5du8]));
    Ok(())
}

/// Writes the items of a tuple as an array.
pub fn write_tuple(items: &Vec<Term>, writer: &mut Vec<u8>, opts: FormatOptions<'_>) -> (r: Result<
    (),
    EncodeError,
>)
    requires
        opts.depth <= MAX_DEPTH,
    ensures
        wrote(
            r,
            old(writer)@,
            final(writer)@,
            encoded_sequence(terms_view(items@), opts.model()),
        ),
    decreases items, 1int,
{
    write_list(items, writer, opts)
}

/// Writes the entries of a mapping: as the record that it is where it names
/// one that is known and the format is not lean, as an object otherwise.
pub fn write_map(entries: &Vec<(Term, Term)>, writer: &mut Vec<u8>, opts: FormatOptions<'_>) -> (r:
    Result<(), EncodeError>)
    requires
        opts.depth <= MAX_DEPTH,
    ensures
        wrote(
            r,
            old(writer)@,
            final(writer)@,
            encoded_mapping(entries_view(entries@), opts.model()),
        ),
    decreases entries, 4int,
{
    if !opts.is_lean() {
        match get_field(entries, &struct_name()) {
            Some(struct_name_term) => {
                match try_format_special_struct_from_name(
                    entries,
                    struct_name_term,
                    writer,
                    opts,
                ) {
                    Ok(done) => {
                        if done {
                            return Ok(());
                        }
                    },
                    Err(e) => {
                        return Err(e);
                    },
                }
            },
            None => {},
        }
    }
    if opts.sort_keys() {
        write_map_sorted(entries, writer, opts)
    } else {
        write_map_unsorted(entries, writer, opts)
    }
}

/// Writes the record `entries` whose name is `struct_name_term`, where the
/// name is one that is known: decimals, dates, times and URIs as strings,
/// ordered sets as arrays, ranges as objects, fragments as they are.
pub fn try_format_special_struct_from_name(
    entries: &Vec<(Term, Term)>,
    struct_name_term: &Term,
    writer: &mut Vec<u8>,
    opts: FormatOptions<'_>,
) -> (r: Result<bool, EncodeError>)
    requires
        opts.depth <= MAX_DEPTH,
    ensures
        wrote_record(
            r,
            old(writer)@,
            final(writer)@,
            match struct_name_term@ {
                TermV::Atom(name) => encoded_named(name, entries_view(entries@), opts.model()),
                _ => None,
            },
        ),
    decreases entries, 3int,
{
    let name = match struct_name_term {
        Term::Atom(name) => name.as_slice(),
        _ => {
            return Ok(false);
        },
    };
    if bytes_eq(name, &mapset_name()) {
        try_format_mapset(entries, writer, opts)
    } else {
        write_plain_record(entries, name, writer, opts)
    }
}

/// Writes an ordered-set record as the array of its elements, which are the
/// keys of the mapping in its field `map`; writes nothing and says so where
/// the field is missing or no mapping.
pub fn try_format_mapset(entries: &Vec<(Term, Term)>, writer: &mut Vec<u8>, opts: FormatOptions<'_>) -> (r:
    Result<bool, EncodeError>)
    requires
        opts.depth <= MAX_DEPTH,
    ensures
        wrote_record(
            r,
            old(writer)@,
            final(writer)@,
            encoded_named(name_mapset(), entries_view(entries@), opts.model()),
        ),
    decreases entries, 0int,
{
    let ghost ev = entries_view(entries@);
    let ghost f = opts.model();
    let ghost at = field_index(ev, name_map(), 0);
    proof {
        crate::fields::lemma_field_index(ev, name_map(), 0);
    }
    let map_term = match get_field(entries, &map_name()) {
        Some(t) => t,
        None => {
            return Ok(false);
        },
    };
    proof {
        lemma_view_children(*map_term);
        vstd::std_specs::vec::axiom_vec_index_decreases(*entries, at);
        assert(ev[at].1 == entries@[at].1@);
    }
    let inner = match map_term {
        Term::Mapping(inner) => inner,
        _ => {
            return Ok(false);
        },
    };
    let ghost iv = entries_view(inner@);
    let nested = opts.nested();
    let ghost nf = nested.model();
    writer.push(0x5b);
    let ghost mut acc = seq![0x5bu8];
    assert(writer@ =~= old(writer)@ + acc);
    let mut i: usize = 0;
    while i < inner.len()
        invariant
            i <= inner@.len(),
            iv == entries_view(inner@),
            ev == entries_view(entries@),
            f == opts.model(),
            nf == nested.model(),
            nf == crate::encoding::nested(f),
            0 <= at < entries@.len(),
            at == field_index(ev, name_map(), 0),
            entries@[at].1 == Term::Mapping(*inner),
            ev[at].1 == TermV::Mapping(iv),
            writer@ == old(writer)@ + acc,
            encoded_keys(iv, 0, nf, seq![0x5bu8]) == encoded_keys(iv, i as int, nf, acc),
        decreases inner@.len() - i,
    {
        if i > 0 {
            writer.push(0x2c);
        }
        nested.write_newline(writer);
        proof {
            vstd::std_specs::vec::axiom_vec_index_decreases(*entries, at);
            vstd::std_specs::vec::axiom_vec_index_decreases(*inner, i as int);
            assert(decreases_to!(entries => entries[at]));
            assert(decreases_to!(entries[at] => entries[at].1));
            assert(decreases_to!(entries[at].1 => entries[at].1->Mapping_0));
            assert(entries[at].1->Mapping_0 == *inner);
            assert(decreases_to!(inner => inner[i as int]));
            assert(decreases_to!(inner[i as int] => inner[i as int].0));
            assert(iv[i as int].0 == inner@[i as int].0@);
        }
        let ghost head = acc + (if i > 0 {
            seq![0x2cu8]
        } else {
            Seq::<u8>::empty()
        }) + newline(nf);
        assert(writer@ =~= old(writer)@ + head);
        match term_to_json(&inner[i].0, writer, nested) {
            Ok(()) => {},
            Err(e) => {
                return Err(e);
            },
        }
        proof {
            let x = encoded_term(iv[i as int].0, nf).unwrap();
            assert(writer@ =~= old(writer)@ + (head + x));
            acc = head + x;
        }
        i = i + 1;
    }
    opts.write_newline(writer);
    writer.push(0x5d);
    assert(writer@ =~= old(writer)@ + (acc + newline(f) + seq![0x5du8]));
    Ok(true)
}

/// Writes the start of a member after what was written before: the opening
/// brace or a comma, a line start, the key, a colon and what follows it.
fn write_member_start(
    writer: &mut Vec<u8>,
    started: bool,
    key: &[u8],
    nested: FormatOptions<'_>,
    Ghost(acc): Ghost<Seq<u8>>,
    Ghost(base): Ghost<Seq<u8>>,
)
    requires
        valid_utf8(key@),
        old(writer)@ == base + acc,
    ensures
        final(writer)@ == base + member_start(acc, started, key@, nested.model()),
{
    if !started {
        writer.push(0x7b);
    } else {
        writer.push(0x2c);
    }
    nested.write_newline(writer);
    write_escaped_bytes(key, writer, nested.escape_mode());
    writer.push(0x3a);
    nested.write_space(writer);
    assert(writer@ =~= base + member_start(acc, started, key@, nested.model()));
}

/// Writes the members of a mapping as an object, in the order of its
/// entries.
pub fn write_map_unsorted(entries: &Vec<(Term, Term)>, writer: &mut Vec<u8>, opts: FormatOptions<'_>) -> (r:
    Result<(), EncodeError>)
    requires
        opts.depth <= MAX_DEPTH,
    ensures
        wrote(
            r,
            old(writer)@,
            final(writer)@,
            encoded_members(
                entries_view(entries@),
                0,
                opts.model(),
                false,
                Seq::empty(),
                Seq::empty(),
            ),
        ),
    decreases entries, 0int,
{
    let ghost ev = entries_view(entries@);
    let ghost f = opts.model();
    let nested = opts.nested();
    let ghost nf = nested.model();
    let strict = opts.strict_keys();
    let mut seen_keys: Option<Vec<Vec<u8>>> = if strict {
        Some(Vec::new())
    } else {
        None
    };
    let ghost mut seen = Seq::<Seq<u8>>::empty();
    let ghost mut acc = Seq::<u8>::empty();
    let mut started = false;
    let mut i: usize = 0;
    proof {
        assert(writer@ =~= old(writer)@ + acc);
        if strict {
            assert(key_set(seen_keys.unwrap()@) =~= seen);
        }
    }
    while i < entries.len()
        invariant
            i <= entries@.len(),
            ev == entries_view(entries@),
            f == opts.model(),
            nf == nested.model(),
            nf == crate::encoding::nested(f),
            strict == f.strict_keys,
            writer@ == old(writer)@ + acc,
            !started ==> acc == Seq::<u8>::empty(),
            strict ==> seen_keys is Some && key_set(seen_keys.unwrap()@) == seen,
            !strict ==> seen_keys is None,
            encoded_members(ev, 0, f, false, Seq::empty(), Seq::empty()) == encoded_members(
                ev,
                i as int,
                f,
                started,
                seen,
                acc,
            ),
        decreases entries@.len() - i,
    {
        proof {
            vstd::std_specs::vec::axiom_vec_index_decreases(*entries, i as int);
            assert(ev[i as int] == (entries@[i as int].0@, entries@[i as int].1@));
        }
        let key = match key_to_string(&entries[i].0) {
            Ok(k) => k,
            Err(e) => {
                return Err(e);
            },
        };
        match key {
            None => {},
            Some(k) => {
                match check_strict_key(&mut seen_keys, k.as_slice()) {
                    Ok(()) => {},
                    Err(e) => {
                        return Err(e);
                    },
                }
                write_member_start(
                    writer,
                    started,
                    k.as_slice(),
                    nested,
                    Ghost(acc),
                    Ghost(old(writer)@),
                );
                let ghost head = member_start(acc, started, k@, nf);
                match term_to_json(&entries[i].1, writer, nested) {
                    Ok(()) => {},
                    Err(e) => {
                        return Err(e);
                    },
                }
                proof {
                    let x = encoded_term(ev[i as int].1, nf).unwrap();
                    assert(writer@ =~= old(writer)@ + (head + x));
                    acc = head + x;
                    seen = seen.push(k@);
                }
                started = true;
            },
        }
        i = i + 1;
    }
    if started {
        opts.write_newline(writer);
        writer.push(0x7d);
        assert(writer@ =~= old(writer)@ + (acc + newline(f) + seq![0x7du8]));
    } else {
        writer.push(0x7b);
        writer.push(0x7d);
        assert(writer@ =~= old(writer)@ + seq![0x7bu8, 0x7d]);
    }
    Ok(())
}

/// Writes the start of a member of a sorted object after what was written
/// before: a comma but for the first member, a line start, the key, a colon
/// and what follows it.
fn write_sorted_start(
    writer: &mut Vec<u8>,
    first: bool,
    key: &[u8],
    nested: FormatOptions<'_>,
    Ghost(acc): Ghost<Seq<u8>>,
    Ghost(base): Ghost<Seq<u8>>,
)
    requires
        valid_utf8(key@),
        old(writer)@ == base + acc,
    ensures
        final(writer)@ == base + (acc + (if !first {
            seq![0x2cu8]
        } else {
            Seq::<u8>::empty()
        }) + newline(nested.model()) + quoted(key@, nested.model().escape) + seq![0x3au8] + space(
            nested.model(),
        )),
{
    if !first {
        writer.push(0x2c);
    }
    nested.write_newline(writer);
    write_escaped_bytes(key, writer, nested.escape_mode());
    writer.push(0x3a);
    nested.write_space(writer);
    assert(writer@ =~= base + (acc + (if !first {
        seq![0x2cu8]
    } else {
        Seq::<u8>::empty()
    }) + newline(nested.model()) + quoted(key@, nested.model().escape) + seq![0x3au8] + space(
        nested.model(),
    )));
}

/// The keys of the entries by their index, empty where an entry has none,
/// and with them the order of the entries by key.  Fails like the first
/// entry whose key fails, or on a key that comes twice under strict keys.
fn sort_entries(entries: &Vec<(Term, Term)>, strict: bool, Ghost(f): Ghost<Format>) -> (r: Result<
    (Vec<Vec<u8>>, Vec<usize>),
    EncodeError,
>)
    requires
        strict == f.strict_keys,
    ensures
        match r {
            Ok((keys, order)) => {
                &&& sorted_order(entries_view(entries@), 0, f, Seq::empty(), Seq::empty()) == Ok::<
                    Seq<int>,
                    ErrorKind,
                >(order_view(order@))
                &&& key_set(keys@) == sort_keys_of(entries_view(entries@))
                &&& keys@.len() == entries@.len()
                &&& order@.len() <= entries@.len()
                &&& forall|k: int| 0 <= k < keys@.len() ==> valid_utf8(#[trigger] keys@[k]@)
                &&& forall|k: int| 0 <= k < order@.len() ==> (#[trigger] order@[k]) < entries@.len()
            },
            Err(e) => sorted_order(entries_view(entries@), 0, f, Seq::empty(), Seq::empty())
                == Err::<Seq<int>, ErrorKind>(e.kind),
        },
{
    let ghost ev = entries_view(entries@);
    let n = entries.len();
    let mut keys: Vec<Vec<u8>> = Vec::with_capacity(n);
    let mut i: usize = 0;
    while i < n
        invariant
            i <= n == entries@.len(),
            ev == entries_view(entries@),
            keys@.len() == i,
            forall|j: int| 0 <= j < i ==> (#[trigger] keys@[j])@ == sort_key(ev, j),
            forall|j: int| 0 <= j < i ==> valid_utf8(#[trigger] keys@[j]@),
        decreases n - i,
    {
        proof {
            assert(ev[i as int] == (entries@[i as int].0@, entries@[i as int].1@));
            lemma_ascii_is_utf8(Seq::<u8>::empty());
        }
        let key = match key_to_string(&entries[i].0) {
            Ok(Some(k)) => k,
            _ => Vec::new(),
        };
        keys.push(key);
        i = i + 1;
    }
    assert(key_set(keys@) =~= sort_keys_of(ev));
    let mut seen_keys: Option<Vec<Vec<u8>>> = if strict {
        Some(Vec::new())
    } else {
        None
    };
    let ghost mut seen = Seq::<Seq<u8>>::empty();
    let mut order: Vec<usize> = Vec::with_capacity(n);
    i = 0;
    proof {
        assert(order_view(order@) =~= Seq::<int>::empty());
        if strict {
            assert(key_set(seen_keys.unwrap()@) =~= seen);
        }
    }
    while i < n
        invariant
            i <= n == entries@.len(),
            ev == entries_view(entries@),
            strict == f.strict_keys,
            keys@.len() == n,
            key_set(keys@) == sort_keys_of(ev),
            order@.len() <= i,
            forall|j: int| 0 <= j < order@.len() ==> (#[trigger] order@[j]) < n,
            strict ==> seen_keys is Some && key_set(seen_keys.unwrap()@) == seen,
            !strict ==> seen_keys is None,
            sorted_order(ev, 0, f, Seq::empty(), Seq::empty()) == sorted_order(
                ev,
                i as int,
                f,
                seen,
                order_view(order@),
            ),
        decreases n - i,
    {
        proof {
            assert(ev[i as int] == (entries@[i as int].0@, entries@[i as int].1@));
        }
        let key = match key_to_string(&entries[i].0) {
            Ok(k) => k,
            Err(e) => {
                return Err(e);
            },
        };
        match key {
            None => {},
            Some(k) => {
                match check_strict_key(&mut seen_keys, k.as_slice()) {
                    Ok(()) => {},
                    Err(e) => {
                        return Err(e);
                    },
                }
                insert_by_key(&mut order, &keys, i);
                proof {
                    seen = seen.push(k@);
                }
            },
        }
        i = i + 1;
    }
    Ok((keys, order))
}

/// Writes the members of a mapping as an object, in the order of their
/// keys, equal keys in the order of the entries.
pub fn write_map_sorted(entries: &Vec<(Term, Term)>, writer: &mut Vec<u8>, opts: FormatOptions<'_>) -> (r:
    Result<(), EncodeError>)
    requires
        opts.depth <= MAX_DEPTH,
    ensures
        wrote(
            r,
            old(writer)@,
            final(writer)@,
            match sorted_order(entries_view(entries@), 0, opts.model(), Seq::empty(), Seq::empty()) {
                Err(e) => Err::<Seq<u8>, ErrorKind>(e),
                Ok(order) => if order.len() == 0 {
                    Ok::<Seq<u8>, ErrorKind>(seq![0x7bu8, 0x7d])
                } else if order.len() <= entries@.len() {
                    encoded_sorted(entries_view(entries@), order, 0, opts.model(), seq![0x7bu8])
                } else {
                    Err::<Seq<u8>, ErrorKind>(ErrorKind::UnsupportedTerm)
                },
            },
        ),
    decreases entries, 0int,
{
    let ghost ev = entries_view(entries@);
    let ghost f = opts.model();
    let n = entries.len();
    let (keys, order) = match sort_entries(entries, opts.strict_keys(), Ghost(f)) {
        Ok(sorted) => sorted,
        Err(e) => {
            return Err(e);
        },
    };
    let ghost ov = order_view(order@);
    if order.len() == 0 {
        writer.push(0x7b);
        writer.push(0x7d);
        assert(writer@ =~= old(writer)@ + seq![0x7bu8, 0x7d]);
        return Ok(());
    }
    let nested = opts.nested();
    let ghost nf = nested.model();
    writer.push(0x7b);
    let ghost mut acc = seq![0x7bu8];
    assert(writer@ =~= old(writer)@ + acc);
    let mut j: usize = 0;
    while j < order.len()
        invariant
            j <= order@.len(),
            order@.len() > 0,
            order@.len() <= n,
            ov == order_view(order@),
            ev == entries_view(entries@),
            f == opts.model(),
            nf == nested.model(),
            nf == crate::encoding::nested(f),
            keys@.len() == n,
            n == entries@.len(),
            key_set(keys@) == sort_keys_of(ev),
            sorted_order(ev, 0, f, Seq::empty(), Seq::empty()) == Ok::<Seq<int>, ErrorKind>(ov),
            forall|k: int| 0 <= k < n ==> valid_utf8(#[trigger] keys@[k]@),
            forall|k: int| 0 <= k < order@.len() ==> (#[trigger] order@[k]) < n,
            writer@ == old(writer)@ + acc,
            encoded_sorted(ev, ov, 0, f, seq![0x7bu8]) == encoded_sorted(ev, ov, j as int, f, acc),
        decreases order@.len() - j,
    {
        let idx = order[j];
        proof {
            assert(ov[j as int] == idx as int);
            vstd::std_specs::vec::axiom_vec_index_decreases(*entries, idx as int);
            assert(ev[idx as int] == (entries@[idx as int].0@, entries@[idx as int].1@));
            assert(key_set(keys@)[idx as int] == keys@[idx as int]@);
            assert(sort_keys_of(ev)[idx as int] == sort_key(ev, idx as int));
        }
        write_sorted_start(
            writer,
            j == 0,
            keys[idx].as_slice(),
            nested,
            Ghost(acc),
            Ghost(old(writer)@),
        );
        let ghost head = acc + (if j > 0 {
            seq![0x2cu8]
        } else {
            Seq::<u8>::empty()
        }) + newline(nf) + quoted(sort_key(ev, idx as int), f.escape) + seq![0x3au8] + space(nf);
        match term_to_json(&entries[idx].1, writer, nested) {
            Ok(()) => {},
            Err(e) => {
                return Err(e);
            },
        }
        proof {
            let x = encoded_term(ev[idx as int].1, nf).unwrap();
            assert(writer@ =~= old(writer)@ + (head + x));
            acc = head + x;
        }
        j = j + 1;
    }
    opts.write_newline(writer);
    writer.push(0x7d);
    assert(writer@ =~= old(writer)@ + (acc + newline(f) + seq![0x7du8]));
    Ok(())
}

} // verus!
