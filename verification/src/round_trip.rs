//! The round trip: what the decoder makes of what the encoder writes.

use crate::digits::{
    all_digits, dec_digits, dec_value, int_text, int_text_value, is_canonical_integer_text,
    is_integer_text, lemma_canonical_text_round_trip, lemma_dec_digits_shape,
    lemma_int_text_round_trip,
};
use crate::direct_decode::DecodeOptions;
use crate::encoding::{
    encoded_items, encoded_members, encoded_record, encoded_term, escaped, key_text, member_start,
    nested, newline, quoted, space, EscapeMode, Format,
};
use crate::error::ErrorKind;
use crate::fields::{field, field_index};
use crate::grammar::{
    byte_at, digits_end, exponent_digits_start, has_literal, integer_term, is_exp_mark, mapping_of,
    object_term, parse_document, parse_elements, parse_members, parse_number, parse_string,
    parse_value, put_entry, raw_key, scan_integer_part, scan_number, scan_string_body, skip_ws,
    Failure, NumberScan, MAX_DEPTH,
};
use crate::laws::{
    lemma_escaped_reads_back, lemma_scan_passes_escaped, lemma_utf8_high_bytes_clean,
};
use crate::names::{name_false, name_nil, name_null, name_struct, name_true};
use crate::simd_utils::{
    is_digit, is_whitespace, lemma_run_end_bounds, lemma_run_end_unique, ByteClass,
};
use crate::term::TermV;
use vstd::prelude::*;
use vstd::utf8::valid_utf8;

verus! {

/// The byte at `q` of `s`, if there is one, ends a value: it is a comma or
/// a closing bracket.
pub open spec fn delimited(s: Seq<u8>, q: int) -> bool {
    q == s.len() || (0 <= q < s.len() && (s[q] == 0x2c || s[q] == 0x5d || s[q] == 0x7d))
}

/// Nothing is skipped in front of a byte that is no whitespace, nor at the
/// end of the input.
pub proof fn lemma_skip_ws_stays(s: Seq<u8>, q: int)
    requires
        q >= s.len() || (0 <= q && !is_whitespace(s[q])),
    ensures
        skip_ws(s, q) == q,
{
}

/// A run of digits in the input that is followed by no digit is as far as
/// the digits go.
pub proof fn lemma_digits_end_at(s: Seq<u8>, from: int, to: int)
    requires
        0 <= from <= to <= s.len(),
        all_digits(s.subrange(from, to)),
        to < s.len() ==> !is_digit(s[to]),
    ensures
        digits_end(s, from) == to,
{
    assert forall|i: int| from <= i < to implies ByteClass::Digit.contains(#[trigger] s[i]) by {
        assert(s.subrange(from, to)[i - from] == s[i]);
    }
    lemma_run_end_unique(s, from, ByteClass::Digit, to);
}

/// The number of digits of an integer text.
pub open spec fn digit_count(text: Seq<u8>) -> int {
    if text.len() > 0 && text[0] == 0x2d {
        text.len() - 1
    } else {
        text.len() as int
    }
}

/// The decimal text of an integer, where it stands in the input in front
/// of a delimiter, is read as the integer.
pub proof fn lemma_parse_int_text(s: Seq<u8>, p: int, text: Seq<u8>, o: DecodeOptions)
    requires
        0 <= p,
        p + text.len() <= s.len(),
        s.subrange(p, p + text.len()) == text,
        is_canonical_integer_text(text),
        delimited(s, p + text.len()),
        o.integer_digit_limit == 0 || digit_count(text) <= o.integer_digit_limit,
    ensures
        parse_number(s, p, o) == Ok::<(TermV, int), Failure>(
            (integer_term(int_text_value(text)), p + text.len()),
        ),
        0 <= p < s.len() && (s[p] == 0x2d || is_digit(s[p])),
{
    let end = p + text.len();
    assert(s[p] == text[0]) by {
        assert(s.subrange(p, end)[0] == s[p]);
    }
    let negative = text[0] == 0x2d;
    let start = if negative {
        p + 1
    } else {
        p
    };
    let digits = s.subrange(start, end);
    if negative {
        assert(digits =~= text.skip(1));
    } else {
        assert(digits =~= text);
    }
    assert(all_digits(digits));
    assert(digits.len() >= 1);
    assert(s[start] == digits[0]);
    assert(is_digit(digits[0]));
    lemma_digits_end_at(s, start, end);
    if s[start] == 0x30 {
        // A leading zero is the whole integer.
        assert(digits.len() == 1) by {
            if negative {
                assert(text[1] == digits[0]);
            }
        }
    }
    assert(scan_integer_part(s, p) == Some((start, end)));
    assert(scan_number(s, p) == Some(
        NumberScan { int_start: start, int_end: end, frac_end: end, end, is_float: false },
    ));
}

/// The text of a float, where it stands in the input in front of a
/// delimiter, is read as the float of that text.
pub proof fn lemma_parse_float_text(s: Seq<u8>, p: int, text: Seq<u8>, o: DecodeOptions)
    requires
        0 <= p,
        p + text.len() <= s.len(),
        s.subrange(p, p + text.len()) == text,
        scan_number(text, 0) is Some,
        scan_number(text, 0).unwrap().end == text.len(),
        scan_number(text, 0).unwrap().is_float,
        delimited(s, p + text.len()),
        o.integer_digit_limit == 0 || scan_number(text, 0).unwrap().int_end - scan_number(
            text,
            0,
        ).unwrap().int_start <= o.integer_digit_limit,
        !o.floats_decimals,
    ensures
        parse_number(s, p, o) == Ok::<(TermV, int), Failure>((TermV::Float(text), p + text.len())),
        0 <= p < s.len() && (s[p] == 0x2d || is_digit(s[p])),
{
    let n = scan_number(text, 0).unwrap();
    let len = text.len() as int;
    crate::numbers::lemma_scan_number_shape(text, 0);
    assert forall|i: int| 0 <= i < len implies s[p + i] == #[trigger] text[i] by {
        assert(s.subrange(p, p + len)[i] == s[p + i]);
    }
    assert(text[0] == s[p + 0]);
    // The integer part.
    assert(s.subrange(p + n.int_start, p + n.int_end) =~= text.subrange(n.int_start, n.int_end));
    assert(text[n.int_start] == s[p + n.int_start]);
    assert(text[n.int_end] == s[p + n.int_end]);
    assert(n.int_end < len);
    assert(!is_digit(text[n.int_end]));
    lemma_digits_end_at(s, p + n.int_start, p + n.int_end);
    assert(scan_integer_part(s, p) == Some((p + n.int_start, p + n.int_end)));
    // The fraction.
    if n.frac_end > n.int_end {
        assert(text[n.int_end + 1] == s[p + (n.int_end + 1)]);
        assert(s.subrange(p + n.int_end + 1, p + n.frac_end) =~= text.subrange(
            n.int_end + 1,
            n.frac_end,
        ));
        assert(all_digits(text.subrange(n.int_end + 1, n.frac_end)));
        if n.frac_end < len {
            assert(text[n.frac_end] == s[p + n.frac_end]);
            lemma_run_end_bounds(text, n.int_end + 1, ByteClass::Digit);
        }
        lemma_digits_end_at(s, p + n.int_end + 1, p + n.frac_end);
        assert(is_digit(s[p + n.int_end + 1]));
    }
    // The exponent.
    if n.end > n.frac_end {
        let mark = n.frac_end;
        assert(text[mark] == s[p + mark]);
        assert(text[mark + 1] == s[p + (mark + 1)]);
        let from = exponent_digits_start(text, mark);
        assert(exponent_digits_start(s, p + mark) == p + from);
        assert(text[from] == s[p + from]);
        assert(s.subrange(p + from, p + n.end) =~= text.subrange(from, n.end));
        lemma_digits_end_at(s, p + from, p + n.end);
    } else {
        if n.frac_end < len {
            assert(false);
        }
    }
    assert(scan_number(s, p) == Some(
        NumberScan {
            int_start: p + n.int_start,
            int_end: p + n.int_end,
            frac_end: p + n.frac_end,
            end: p + n.end,
            is_float: true,
        },
    ));
}

/// Where two texts stand in the input one after the other, each of them
/// stands in its place.
pub proof fn lemma_split(s: Seq<u8>, p: int, a: Seq<u8>, b: Seq<u8>)
    requires
        0 <= p,
        p + a.len() + b.len() <= s.len(),
        s.subrange(p, p + a.len() + b.len()) == a + b,
    ensures
        s.subrange(p, p + a.len()) == a,
        s.subrange(p + a.len(), p + a.len() + b.len()) == b,
{
    let whole = s.subrange(p, p + a.len() + b.len());
    assert(s.subrange(p, p + a.len()) =~= whole.subrange(0, a.len() as int));
    assert(whole.subrange(0, a.len() as int) =~= a);
    assert(s.subrange(p + a.len(), p + a.len() + b.len()) =~= whole.subrange(
        a.len() as int,
        (a.len() + b.len()) as int,
    ));
    assert(whole.subrange(a.len() as int, (a.len() + b.len()) as int) =~= b);
}

/// A string that the encoder wrote, where it stands in the input, is read
/// as the string that was written; between its quotes stands its escaped
/// body.
pub proof fn lemma_parse_quoted(s: Seq<u8>, p: int, b: Seq<u8>, mode: EscapeMode, validate: bool)
    requires
        0 <= p,
        p + quoted(b, mode).len() <= s.len(),
        s.subrange(p, p + quoted(b, mode).len()) == quoted(b, mode),
        valid_utf8(b),
    ensures
        parse_string(s, p, validate) == Ok::<(Seq<u8>, int), Failure>(
            (b, p + quoted(b, mode).len()),
        ),
        byte_at(s, p, 0x22),
        raw_key(s, p, p + quoted(b, mode).len()) == escaped(b, mode),
{
    let e = escaped(b, mode);
    let q = quoted(b, mode);
    let closing: int = p + 1 + e.len();
    assert(q.len() == e.len() + 2);
    assert(q =~= seq![0x22u8] + (e + seq![0x22u8]));
    lemma_split(s, p, seq![0x22u8], e + seq![0x22u8]);
    lemma_split(s, p + 1, e, seq![0x22u8]);
    assert(s[p] == 0x22) by {
        assert(s.subrange(p, p + 1)[0] == s[p]);
    }
    assert(s[closing] == 0x22) by {
        assert(s.subrange(closing, closing + 1)[0] == s[closing]);
    }
    lemma_utf8_high_bytes_clean(b);
    lemma_scan_passes_escaped(s, p + 1, b, mode);
    let scan = scan_string_body(s, p + 1, false);
    assert(scan_string_body(s, closing, false).stop is Closed);
    assert(scan.stop is Closed && scan.at == closing);
    lemma_escaped_reads_back(b, mode);
}

/// The texts of the three atoms that the decoder makes.
pub open spec fn atom_text(a: Seq<u8>) -> Seq<u8> {
    if a == name_nil() {
        name_null()
    } else {
        a
    }
}

/// The integer part of a number text is within the digit limit.
pub open spec fn within_limit(digits: int, o: DecodeOptions) -> bool {
    o.integer_digit_limit == 0 || digits <= o.integer_digit_limit
}

/// `text` is the literal of a float under the options `o`: a whole number
/// literal with a fraction or an exponent, its integer part within the
/// digit limit.
pub open spec fn is_float_text(text: Seq<u8>, o: DecodeOptions) -> bool {
    &&& scan_number(text, 0) is Some
    &&& scan_number(text, 0).unwrap().end == text.len()
    &&& scan_number(text, 0).unwrap().is_float
    &&& within_limit(
        scan_number(text, 0).unwrap().int_end - scan_number(text, 0).unwrap().int_start,
        o,
    )
}

/// The keys of the entries before `i` are all other than the key of entry
/// `i`.
pub open spec fn key_is_new(entries: Seq<(TermV, TermV)>, i: int) -> bool {
    forall|j: int| 0 <= j < i ==> (#[trigger] entries[j]).0 != entries[i].0
}

/// `v` is a value that the decoder makes, `depth` containers deep, under
/// options that ask for neither decimals nor ordered objects: `nil`, `true`
/// or `false`, an integer in the form that its size asks for, a float by
/// its literal, a string that is UTF-8, a list of such values, or a mapping
/// of such values under keys that are strings and all different.
pub open spec fn decodable(v: TermV, depth: int, o: DecodeOptions) -> bool
    decreases v,
{
    match v {
        TermV::Atom(a) => a == name_nil() || a == name_true() || a == name_false(),
        TermV::Integer(n) => -0x8000_0000_0000_0000 <= n <= 0xffff_ffff_ffff_ffff && within_limit(
            digit_count(int_text(n)),
            o,
        ),
        TermV::BigInteger(t) => is_canonical_integer_text(t) && !(-0x8000_0000_0000_0000
            <= int_text_value(t) <= 0xffff_ffff_ffff_ffff) && within_limit(digit_count(t), o),
        TermV::Float(t) => is_float_text(t, o),
        TermV::Binary(b) => valid_utf8(b),
        TermV::List(items) => depth < MAX_DEPTH && forall|i: int|
            0 <= i < items.len() ==> decodable(#[trigger] items[i], depth + 1, o),
        TermV::Mapping(entries) => depth < MAX_DEPTH && forall|i: int|
            0 <= i < entries.len() ==> {
                &&& (#[trigger] entries[i]).0 is Binary
                &&& valid_utf8(entries[i].0->Binary_0)
                &&& decodable(entries[i].1, depth + 1, o)
                &&& key_is_new(entries, i)
            },
        _ => false,
    }
}

/// The compact text of a value that the decoder makes.
pub open spec fn compact(v: TermV, mode: EscapeMode) -> Seq<u8>
    decreases v, 0int,
{
    match v {
        TermV::Atom(a) => atom_text(a),
        TermV::Integer(n) => int_text(n),
        TermV::BigInteger(t) => t,
        TermV::Float(t) => t,
        TermV::Binary(b) => quoted(b, mode),
        TermV::List(items) => seq![0x5bu8] + (if items.len() == 0 {
            seq![0x5du8]
        } else {
            items_rest(items, 0, mode)
        }),
        TermV::Mapping(entries) => seq![0x7bu8] + (if entries.len() == 0 {
            seq![0x7du8]
        } else {
            members_rest(entries, 0, mode)
        }),
        _ => Seq::empty(),
    }
}

/// The text of an array from its element `i` on, closing bracket included.
pub open spec fn items_rest(items: Seq<TermV>, i: int, mode: EscapeMode) -> Seq<u8>
    decreases items, items.len() - i,
{
    if i < 0 || i >= items.len() {
        Seq::empty()
    } else {
        compact(items[i], mode) + (if i + 1 < items.len() {
            seq![0x2cu8] + items_rest(items, i + 1, mode)
        } else {
            seq![0x5du8]
        })
    }
}

/// The key of an entry whose key is a string.
pub open spec fn key_bytes(entry: (TermV, TermV)) -> Seq<u8> {
    match entry.0 {
        TermV::Binary(b) => b,
        _ => Seq::empty(),
    }
}

/// The text of an object from its member `i` on, closing brace included.
pub open spec fn members_rest(entries: Seq<(TermV, TermV)>, i: int, mode: EscapeMode) -> Seq<u8>
    decreases entries, entries.len() - i,
{
    if i < 0 || i >= entries.len() {
        Seq::empty()
    } else {
        quoted(key_bytes(entries[i]), mode) + seq![0x3au8] + compact(entries[i].1, mode) + (if i + 1
            < entries.len() {
            seq![0x2cu8] + members_rest(entries, i + 1, mode)
        } else {
            seq![0x7du8]
        })
    }
}

/// The format is compact: no line breaks, and the entries of a mapping in
/// their own order.
pub open spec fn is_compact(f: Format) -> bool {
    !f.pretty && !f.sort_keys && 0 <= f.depth <= MAX_DEPTH
}

/// The compact text of a value that the decoder makes starts with a byte
/// that is no whitespace.
pub proof fn lemma_compact_start(v: TermV, depth: int, o: DecodeOptions, mode: EscapeMode)
    requires
        decodable(v, depth, o),
    ensures
        compact(v, mode).len() > 0,
        !is_whitespace(compact(v, mode)[0]),
        compact(v, mode)[0] != 0x5d,
        compact(v, mode)[0] != 0x7d,
        compact(v, mode)[0] != 0x2c,
{
    match v {
        TermV::Integer(n) => {
            lemma_int_text_round_trip(n);
            if n < 0 {
            } else {
                lemma_dec_digits_shape(n as nat);
                assert(is_digit(dec_digits(n as nat)[0]));
            }
        },
        TermV::BigInteger(t) => {
            if t[0] != 0x2d {
                assert(is_digit(t[0]));
            }
        },
        TermV::Float(t) => {
            crate::numbers::lemma_scan_number_shape(t, 0);
            let n = scan_number(t, 0).unwrap();
            if n.int_start == 0 {
                assert(t.subrange(n.int_start, n.int_end)[0] == t[0]);
                assert(is_digit(t[0]));
            }
        },
        _ => {},
    }
}

/// The keys of the entries before `i`, as byte strings.
pub open spec fn keys_before(entries: Seq<(TermV, TermV)>, i: int) -> Seq<Seq<u8>> {
    Seq::new(
        if i >= 0 {
            i as nat
        } else {
            0
        },
        |j: int| key_bytes(entries[j]),
    )
}

/// A mapping whose keys are all strings has no field of any name, and so
/// is no record.
pub proof fn lemma_no_field(entries: Seq<(TermV, TermV)>, name: Seq<u8>, from: int)
    requires
        0 <= from,
        forall|i: int| 0 <= i < entries.len() ==> (#[trigger] entries[i]).0 is Binary,
    ensures
        field_index(entries, name, from) == entries.len(),
    decreases entries.len() - from,
{
    if from < entries.len() {
        assert(entries[from].0 is Binary);
        lemma_no_field(entries, name, from + 1);
    }
}

/// The encoder writes a value that the decoder makes as its compact text.
pub proof fn lemma_encoded_is_compact(v: TermV, f: Format, o: DecodeOptions)
    requires
        decodable(v, f.depth, o),
        is_compact(f),
    ensures
        encoded_term(v, f) == Ok::<Seq<u8>, ErrorKind>(compact(v, f.escape)),
    decreases v, 1int,
{
    let mode = f.escape;
    match v {
        TermV::Atom(a) => {
            assert(name_true().len() == 4 && name_nil().len() == 3 && name_false().len() == 5
                && name_null().len() == 4);
            assert(name_true()[0] != name_null()[0]);
        },
        TermV::Integer(n) => {},
        TermV::BigInteger(t) => {
            lemma_canonical_text_round_trip(t);
        },
        TermV::Float(t) => {},
        TermV::Binary(b) => {},
        TermV::List(items) => {
            if items.len() == 0 {
                assert(seq![0x5bu8] + seq![0x5du8] =~= seq![0x5bu8, 0x5d]);
            } else {
                lemma_encoded_items(items, 0, nested(f), o, seq![0x5bu8]);
                let body = encoded_items(items, 0, nested(f), seq![0x5bu8]).unwrap();
                assert(newline(f) =~= Seq::<u8>::empty());
                assert(body + newline(f) + seq![0x5du8] =~= body + seq![0x5du8]);
                assert(seq![0x5bu8] + Seq::<u8>::empty() + items_rest(items, 0, mode)
                    =~= seq![0x5bu8] + items_rest(items, 0, mode));
            }
        },
        TermV::Mapping(entries) => {
            lemma_no_field(entries, name_struct(), 0);
            assert(encoded_record(entries, f) is None);
            if entries.len() == 0 {
                assert(seq![0x7bu8] + seq![0x7du8] =~= seq![0x7bu8, 0x7d]);
            } else {
                assert(keys_before(entries, 0) =~= Seq::<Seq<u8>>::empty());
                lemma_encoded_members(entries, 0, f, o, Seq::empty());
                assert(Seq::<u8>::empty() + seq![0x7bu8] + members_rest(entries, 0, mode)
                    =~= seq![0x7bu8] + members_rest(entries, 0, mode));
            }
        },
        _ => {},
    }
}

/// The encoder writes the elements of an array from element `i` on, after
/// `acc`, as their compact text.
pub proof fn lemma_encoded_items(
    items: Seq<TermV>,
    i: int,
    nf: Format,
    o: DecodeOptions,
    acc: Seq<u8>,
)
    requires
        0 <= i < items.len(),
        forall|j: int| 0 <= j < items.len() ==> decodable(#[trigger] items[j], nf.depth, o),
        is_compact(nf),
    ensures
        encoded_items(items, i, nf, acc) is Ok,
        encoded_items(items, i, nf, acc).unwrap() + seq![0x5du8] == acc + (if i > 0 {
            seq![0x2cu8]
        } else {
            Seq::<u8>::empty()
        }) + items_rest(items, i, nf.escape),
    decreases items, items.len() - i,
{
    let mode = nf.escape;
    let comma = if i > 0 {
        seq![0x2cu8]
    } else {
        Seq::<u8>::empty()
    };
    lemma_encoded_is_compact(items[i], nf, o);
    let x = compact(items[i], mode);
    assert(newline(nf) =~= Seq::<u8>::empty());
    let next = acc + comma + newline(nf) + x;
    assert(next =~= acc + comma + x);
    if i + 1 < items.len() {
        lemma_encoded_items(items, i + 1, nf, o, next);
        let body = encoded_items(items, i + 1, nf, next).unwrap();
        assert(next + seq![0x2cu8] + items_rest(items, i + 1, mode) =~= acc + comma + (x + (
        seq![0x2cu8] + items_rest(items, i + 1, mode))));
    } else {
        assert(next + seq![0x5du8] =~= acc + comma + (x + seq![0x5du8]));
    }
}

/// The encoder writes the members of an object from member `i` on, after
/// `acc`, as their compact text.
pub proof fn lemma_encoded_members(
    entries: Seq<(TermV, TermV)>,
    i: int,
    f: Format,
    o: DecodeOptions,
    acc: Seq<u8>,
)
    requires
        0 <= i < entries.len(),
        decodable(TermV::Mapping(entries), f.depth, o),
        is_compact(f),
    ensures
        encoded_members(entries, i, f, i > 0, keys_before(entries, i), acc) == Ok::<
            Seq<u8>,
            ErrorKind,
        >(
            acc + (if i > 0 {
                seq![0x2cu8]
            } else {
                seq![0x7bu8]
            }) + members_rest(entries, i, f.escape),
        ),
    decreases entries, entries.len() - i,
{
    let mode = f.escape;
    let nf = nested(f);
    let seen = keys_before(entries, i);
    let k = key_bytes(entries[i]);
    let opener = if i > 0 {
        seq![0x2cu8]
    } else {
        seq![0x7bu8]
    };
    assert(entries[i].0 == TermV::Binary(k));
    assert(key_text(entries[i].0) == Some(Ok::<Seq<u8>, ErrorKind>(k)));
    assert(!seen.contains(k)) by {
        if seen.contains(k) {
            let j = choose|j: int| 0 <= j < seen.len() && seen[j] == k;
            assert(entries[j].0 is Binary);
            assert(key_is_new(entries, i));
            assert(entries[j].0 != entries[i].0);
        }
    }
    lemma_encoded_is_compact(entries[i].1, nf, o);
    let x = compact(entries[i].1, mode);
    assert(newline(nf) =~= Seq::<u8>::empty());
    assert(space(nf) =~= Seq::<u8>::empty());
    let head = member_start(acc, i > 0, k, nf);
    assert(head =~= acc + opener + quoted(k, mode) + seq![0x3au8]);
    assert(keys_before(entries, i + 1) =~= seen.push(k));
    if i + 1 < entries.len() {
        lemma_encoded_members(entries, i + 1, f, o, head + x);
        assert(head + x + seq![0x2cu8] + members_rest(entries, i + 1, mode) =~= acc + opener + (
        quoted(k, mode) + seq![0x3au8] + x + (seq![0x2cu8] + members_rest(entries, i + 1, mode))));
    } else {
        assert(newline(f) =~= Seq::<u8>::empty());
        assert(head + x + newline(f) + seq![0x7du8] =~= acc + opener + (quoted(k, mode)
            + seq![0x3au8] + x + seq![0x7du8]));
    }
}

/// The keys of the entries before `i`, as terms.
pub open spec fn key_terms_before(entries: Seq<(TermV, TermV)>, i: int) -> Seq<TermV> {
    Seq::new(
        if i >= 0 {
            i as nat
        } else {
            0
        },
        |j: int| entries[j].0,
    )
}

/// The values of the entries before `i`.
pub open spec fn values_before(entries: Seq<(TermV, TermV)>, i: int) -> Seq<TermV> {
    Seq::new(
        if i >= 0 {
            i as nat
        } else {
            0
        },
        |j: int| entries[j].1,
    )
}

/// The keys of the entries before `i`, as the encoder writes them between
/// their quotes.
pub open spec fn raws_before(entries: Seq<(TermV, TermV)>, i: int, mode: EscapeMode) -> Seq<
    Seq<u8>,
> {
    Seq::new(
        if i >= 0 {
            i as nat
        } else {
            0
        },
        |j: int| escaped(key_bytes(entries[j]), mode),
    )
}

/// A key that is none of the keys of a mapping is not found in it.
pub proof fn lemma_key_not_found(acc: Seq<(TermV, TermV)>, key: TermV, from: int)
    requires
        0 <= from,
        forall|j: int| 0 <= j < acc.len() ==> (#[trigger] acc[j]).0 != key,
    ensures
        crate::grammar::key_index(acc, key, from) == acc.len(),
    decreases acc.len() - from,
{
    if from < acc.len() {
        assert(acc[from].0 != key);
        lemma_key_not_found(acc, key, from + 1);
    }
}

/// The mapping of entries whose keys are all different is the entries.
pub proof fn lemma_mapping_of_entries(entries: Seq<(TermV, TermV)>, i: int)
    requires
        0 <= i <= entries.len(),
        forall|k: int| 0 <= k < entries.len() ==> key_is_new(entries, k),
    ensures
        mapping_of(
            key_terms_before(entries, entries.len() as int),
            values_before(entries, entries.len() as int),
            i,
            entries.subrange(0, i),
        ) == entries,
    decreases entries.len() - i,
{
    let keys = key_terms_before(entries, entries.len() as int);
    let values = values_before(entries, entries.len() as int);
    let acc = entries.subrange(0, i);
    if i < entries.len() {
        assert(key_is_new(entries, i));
        assert forall|j: int| 0 <= j < acc.len() implies (#[trigger] acc[j]).0 != keys[i] by {
            assert(acc[j] == entries[j]);
            assert(entries[j].0 != entries[i].0);
        }
        lemma_key_not_found(acc, keys[i], 0);
        assert(put_entry(acc, keys[i], values[i]) =~= entries.subrange(0, i + 1));
        lemma_mapping_of_entries(entries, i + 1);
    } else {
        assert(acc =~= entries);
    }
}

/// The decoder reads the compact text of a value that it makes, where the
/// text stands in the input in front of a delimiter, as the value.
pub proof fn lemma_parse_compact(
    s: Seq<u8>,
    p: int,
    v: TermV,
    depth: int,
    o: DecodeOptions,
    mode: EscapeMode,
)
    requires
        decodable(v, depth, o),
        !o.floats_decimals,
        !o.ordered_objects,
        0 <= depth,
        0 <= p,
        p + compact(v, mode).len() <= s.len(),
        s.subrange(p, p + compact(v, mode).len()) == compact(v, mode),
        delimited(s, p + compact(v, mode).len()),
    ensures
        parse_value(s, p, depth, o) == Ok::<(TermV, int), Failure>(
            (v, p + compact(v, mode).len()),
        ),
    decreases v, 1int,
{
    let c = compact(v, mode);
    let end = p + c.len();
    lemma_compact_start(v, depth, o, mode);
    assert(s[p] == c[0]) by {
        assert(s.subrange(p, end)[0] == s[p]);
    }
    match v {
        TermV::Atom(a) => {
            assert(name_true().len() == 4 && name_nil().len() == 3 && name_false().len() == 5
                && name_null().len() == 4);
            assert(name_true()[0] == 0x74 && name_false()[0] == 0x66 && name_null()[0] == 0x6e);
            if a == name_nil() {
                assert(has_literal(s, p, name_null()));
            } else if a == name_true() {
                assert(has_literal(s, p, name_true()));
            } else {
                assert(has_literal(s, p, name_false()));
            }
        },
        TermV::Integer(n) => {
            lemma_int_text_round_trip(n);
            lemma_parse_int_text(s, p, c, o);
        },
        TermV::BigInteger(t) => {
            lemma_canonical_text_round_trip(t);
            lemma_parse_int_text(s, p, c, o);
        },
        TermV::Float(t) => {
            lemma_parse_float_text(s, p, t, o);
        },
        TermV::Binary(b) => {
            lemma_parse_quoted(s, p, b, mode, o.validate_strings);
        },
        TermV::List(items) => {
            if items.len() == 0 {
                assert(c =~= seq![0x5bu8, 0x5d]);
                assert(s[p + 1] == c[1]) by {
                    assert(s.subrange(p, end)[1] == s[p + 1]);
                }
                lemma_skip_ws_stays(s, p + 1);
                assert(items =~= Seq::<TermV>::empty());
            } else {
                let rest = items_rest(items, 0, mode);
                lemma_split(s, p, seq![0x5bu8], rest);
                lemma_compact_start(items[0], depth + 1, o, mode);
                assert(rest[0] == compact(items[0], mode)[0]);
                assert(s[p + 1] == rest[0]) by {
                    assert(s.subrange(p + 1, p + 1 + rest.len())[0] == s[p + 1]);
                }
                lemma_skip_ws_stays(s, p + 1);
                lemma_parse_items(s, p + 1, items, 0, depth, o, mode);
                assert(Seq::<TermV>::empty() + items.skip(0) =~= items);
                assert(items.subrange(0, 0) =~= Seq::<TermV>::empty());
            }
        },
        TermV::Mapping(entries) => {
            if entries.len() == 0 {
                assert(c =~= seq![0x7bu8, 0x7d]);
                assert(s[p + 1] == c[1]) by {
                    assert(s.subrange(p, end)[1] == s[p + 1]);
                }
                lemma_skip_ws_stays(s, p + 1);
                assert(entries =~= Seq::<(TermV, TermV)>::empty());
                assert(mapping_of(Seq::empty(), Seq::empty(), 0, Seq::empty()) =~= entries);
            } else {
                let rest = members_rest(entries, 0, mode);
                lemma_split(s, p, seq![0x7bu8], rest);
                assert(rest[0] == 0x22);
                assert(s[p + 1] == rest[0]) by {
                    assert(s.subrange(p + 1, p + 1 + rest.len())[0] == s[p + 1]);
                }
                lemma_skip_ws_stays(s, p + 1);
                assert(key_terms_before(entries, 0) =~= Seq::<TermV>::empty());
                assert(values_before(entries, 0) =~= Seq::<TermV>::empty());
                assert(raws_before(entries, 0, mode) =~= Seq::<Seq<u8>>::empty());
                lemma_parse_members(s, p + 1, entries, 0, depth, o, mode);
            }
        },
        _ => {},
    }
}

/// The decoder reads the elements of an array from element `i` on, where
/// their compact text stands in the input, as the elements.
pub proof fn lemma_parse_items(
    s: Seq<u8>,
    pos: int,
    items: Seq<TermV>,
    i: int,
    depth: int,
    o: DecodeOptions,
    mode: EscapeMode,
)
    requires
        0 <= i < items.len(),
        depth < MAX_DEPTH,
        forall|j: int| 0 <= j < items.len() ==> decodable(#[trigger] items[j], depth + 1, o),
        !o.floats_decimals,
        !o.ordered_objects,
        0 <= depth,
        0 <= pos,
        pos + items_rest(items, i, mode).len() <= s.len(),
        s.subrange(pos, pos + items_rest(items, i, mode).len()) == items_rest(items, i, mode),
    ensures
        parse_elements(s, pos, depth + 1, o, items.subrange(0, i)) == Ok::<(TermV, int), Failure>(
            (TermV::List(items), pos + items_rest(items, i, mode).len()),
        ),
    decreases items, items.len() - i,
{
    let acc = items.subrange(0, i);
    let c = compact(items[i], mode);
    let last = i + 1 == items.len();
    let tail = if !last {
        seq![0x2cu8] + items_rest(items, i + 1, mode)
    } else {
        seq![0x5du8]
    };
    assert(items_rest(items, i, mode) == c + tail);
    lemma_split(s, pos, c, tail);
    let after = pos + c.len();
    assert(s[after] == tail[0]) by {
        assert(s.subrange(after, after + tail.len())[0] == s[after]);
    }
    assert(decodable(items[i], depth + 1, o));
    lemma_compact_start(items[i], depth + 1, o, mode);
    lemma_parse_compact(s, pos, items[i], depth + 1, o, mode);
    lemma_skip_ws_stays(s, after);
    assert(acc.push(items[i]) =~= items.subrange(0, i + 1));
    if last {
        assert(items.subrange(0, i + 1) =~= items);
    } else {
        let rest = items_rest(items, i + 1, mode);
        lemma_split(s, after, seq![0x2cu8], rest);
        lemma_compact_start(items[i + 1], depth + 1, o, mode);
        assert(rest[0] == compact(items[i + 1], mode)[0]);
        assert(s[after + 1] == rest[0]) by {
            assert(s.subrange(after + 1, after + 1 + rest.len())[0] == s[after + 1]);
        }
        lemma_skip_ws_stays(s, after + 1);
        lemma_parse_items(s, after + 1, items, i + 1, depth, o, mode);
    }
}

/// The decoder reads the members of an object from member `i` on, where
/// their compact text stands in the input, as the members.
pub proof fn lemma_parse_members(
    s: Seq<u8>,
    pos: int,
    entries: Seq<(TermV, TermV)>,
    i: int,
    depth: int,
    o: DecodeOptions,
    mode: EscapeMode,
)
    requires
        0 <= i < entries.len(),
        decodable(TermV::Mapping(entries), depth, o),
        !o.floats_decimals,
        !o.ordered_objects,
        0 <= depth,
        0 <= pos,
        pos + members_rest(entries, i, mode).len() <= s.len(),
        s.subrange(pos, pos + members_rest(entries, i, mode).len()) == members_rest(
            entries,
            i,
            mode,
        ),
    ensures
        parse_members(
            s,
            pos,
            depth + 1,
            o,
            key_terms_before(entries, i),
            raws_before(entries, i, mode),
            values_before(entries, i),
        ) == Ok::<(TermV, int), Failure>(
            (TermV::Mapping(entries), pos + members_rest(entries, i, mode).len()),
        ),
    decreases entries, entries.len() - i,
{
    let k = key_bytes(entries[i]);
    let q = quoted(k, mode);
    let c = compact(entries[i].1, mode);
    let last = i + 1 == entries.len();
    let tail = if !last {
        seq![0x2cu8] + members_rest(entries, i + 1, mode)
    } else {
        seq![0x7du8]
    };
    let colon = seq![0x3au8];
    assert(entries[i].0 == TermV::Binary(k));
    assert(members_rest(entries, i, mode) =~= q + (colon + (c + tail)));
    lemma_split(s, pos, q, colon + (c + tail));
    let key_end = pos + q.len();
    lemma_split(s, key_end, colon, c + tail);
    lemma_split(s, key_end + 1, c, tail);
    let after = key_end + 1 + c.len();
    assert(s[key_end] == 0x3a) by {
        assert(s.subrange(key_end, key_end + 1)[0] == s[key_end]);
    }
    assert(s[after] == tail[0]) by {
        assert(s.subrange(after, after + tail.len())[0] == s[after]);
    }
    lemma_parse_quoted(s, pos, k, mode, o.validate_strings);
    // The key was not written before.
    let raws = raws_before(entries, i, mode);
    assert(!raws.contains(escaped(k, mode))) by {
        if raws.contains(escaped(k, mode)) {
            let j = choose|j: int| 0 <= j < raws.len() && raws[j] == escaped(k, mode);
            let kj = key_bytes(entries[j]);
            assert(entries[j].0 == TermV::Binary(kj));
            assert(key_is_new(entries, i));
            assert(entries[j].0 != entries[i].0);
            lemma_utf8_high_bytes_clean(kj);
            lemma_utf8_high_bytes_clean(k);
            lemma_escaped_reads_back(kj, mode);
            lemma_escaped_reads_back(k, mode);
        }
    }
    lemma_skip_ws_stays(s, key_end);
    assert(decodable(entries[i].1, depth + 1, o));
    lemma_compact_start(entries[i].1, depth + 1, o, mode);
    assert(s[key_end + 1] == c[0]) by {
        assert(s.subrange(key_end + 1, after)[0] == s[key_end + 1]);
    }
    lemma_skip_ws_stays(s, key_end + 1);
    lemma_parse_compact(s, key_end + 1, entries[i].1, depth + 1, o, mode);
    lemma_skip_ws_stays(s, after);
    let keys2 = key_terms_before(entries, i).push(TermV::Binary(k));
    let values2 = values_before(entries, i).push(entries[i].1);
    assert(keys2 =~= key_terms_before(entries, i + 1));
    assert(values2 =~= values_before(entries, i + 1));
    assert(raws.push(escaped(k, mode)) =~= raws_before(entries, i + 1, mode));
    if last {
        assert forall|j: int| 0 <= j < entries.len() implies key_is_new(entries, j) by {
            assert(entries[j].0 is Binary);
        }
        lemma_mapping_of_entries(entries, 0);
        assert(entries.subrange(0, 0) =~= Seq::<(TermV, TermV)>::empty());
        assert(object_term(keys2, values2, o) == TermV::Mapping(entries));
    } else {
        let rest = members_rest(entries, i + 1, mode);
        lemma_split(s, after, seq![0x2cu8], rest);
        assert(rest[0] == 0x22);
        assert(s[after + 1] == rest[0]) by {
            assert(s.subrange(after + 1, after + 1 + rest.len())[0] == s[after + 1]);
        }
        lemma_skip_ws_stays(s, after + 1);
        lemma_parse_members(s, after + 1, entries, i + 1, depth, o, mode);
    }
}

/// Round trip.  A value that the decoder makes, written by the encoder in
/// a compact format and in any escape mode, is read by the decoder as the
/// same value, the entries of every mapping in their order.
pub proof fn lemma_round_trip(v: TermV, f: Format, o: DecodeOptions)
    requires
        decodable(v, 0, o),
        is_compact(f),
        f.depth == 0,
        !o.floats_decimals,
        !o.ordered_objects,
    ensures
        encoded_term(v, f) is Ok,
        o.max_bytes == 0 || encoded_term(v, f).unwrap().len() <= o.max_bytes ==> parse_document(
            encoded_term(v, f).unwrap(),
            o,
        ) == Ok::<TermV, Failure>(v),
{
    lemma_encoded_is_compact(v, f, o);
    let text = compact(v, f.escape);
    assert(text.subrange(0, text.len() as int) =~= text);
    lemma_compact_start(v, 0, o, f.escape);
    lemma_parse_compact(text, 0, v, 0, o, f.escape);
    lemma_skip_ws_stays(text, 0);
    lemma_skip_ws_stays(text, text.len() as int);
}

/// The text of a number literal in the input, taken on its own, is laid
/// out like the literal.
pub proof fn lemma_number_text(s: Seq<u8>, p: int)
    requires
        0 <= p,
        scan_number(s, p) is Some,
    ensures
        ({
            let n = scan_number(s, p).unwrap();
            let text = s.subrange(p, n.end);
            scan_number(text, 0) == Some(
                NumberScan {
                    int_start: n.int_start - p,
                    int_end: n.int_end - p,
                    frac_end: n.frac_end - p,
                    end: n.end - p,
                    is_float: n.is_float,
                },
            )
        }),
{
    let n = scan_number(s, p).unwrap();
    crate::numbers::lemma_scan_number_shape(s, p);
    let text = s.subrange(p, n.end);
    let len = text.len() as int;
    assert(len == n.end - p);
    assert forall|i: int| 0 <= i < len implies #[trigger] text[i] == s[p + i] by {}
    let a = n.int_start - p;
    let b = n.int_end - p;
    let c = n.frac_end - p;
    assert(text[0] == s[p + 0]);
    assert(text[a] == s[p + a]);
    // The integer part.
    assert(text.subrange(a, b) =~= s.subrange(n.int_start, n.int_end));
    if b < len {
        assert(text[b] == s[p + b]);
        assert(!is_digit(s[n.int_end])) by {
            if n.frac_end > n.int_end {
            } else {
                assert(n.end > n.frac_end);
            }
        }
    }
    lemma_digits_end_at(text, a, b);
    assert(scan_integer_part(text, 0) == Some((a, b)));
    // The fraction.
    let has_frac = byte_at(text, b, 0x2e);
    assert(has_frac == (n.frac_end > n.int_end));
    if has_frac {
        assert(text[b + 1] == s[p + (b + 1)]);
        assert(text.subrange(b + 1, c) =~= s.subrange(n.int_end + 1, n.frac_end));
        assert(crate::grammar::fraction_digits(s, n) == s.subrange(n.int_end + 1, n.frac_end));
        assert(is_digit(s[n.int_end + 1])) by {
            assert(s.subrange(n.int_end + 1, n.frac_end)[0] == s[n.int_end + 1]);
        }
        if c < len {
            assert(text[c] == s[p + c]);
            assert(n.end > n.frac_end);
            assert(!is_digit(s[n.frac_end]));
        }
        lemma_digits_end_at(text, b + 1, c);
    }
    // The exponent.
    let has_exp = 0 <= c < len && is_exp_mark(text[c]);
    if c < len {
        assert(text[c] == s[p + c]);
    }
    assert(has_exp == (n.end > n.frac_end));
    if has_exp {
        let from = exponent_digits_start(s, n.frac_end);
        assert(c + 1 < len);
        assert(text[c + 1] == s[p + (c + 1)]);
        assert(exponent_digits_start(text, c) == from - p);
        assert(text[from - p] == s[p + (from - p)]);
        assert(text.subrange(from - p, len) =~= s.subrange(from, n.end));
        assert(is_digit(s[from])) by {
            assert(s.subrange(from, n.end)[0] == s[from]);
        }
        lemma_digits_end_at(text, from - p, len);
        assert(digits_end(text, from - p) == len);
    }
    let frac_end_text = if has_frac {
        digits_end(text, b + 1)
    } else {
        b
    };
    assert(frac_end_text == c);
    if has_frac {
        assert(b + 1 < text.len() && is_digit(text[b + 1]));
    }
    if !has_exp {
        assert(c == len);
        assert(n.is_float == has_frac);
        assert(scan_number(text, 0) == Some(
            NumberScan { int_start: a, int_end: b, frac_end: c, end: c, is_float: has_frac },
        ));
    } else {
        let from = exponent_digits_start(text, c);
        assert(from < text.len() && is_digit(text[from]));
        assert(n.is_float);
        assert(scan_number(text, 0) == Some(
            NumberScan { int_start: a, int_end: b, frac_end: c, end: len, is_float: true },
        ));
    }
}

/// The text of an integer literal is canonical, or it is `-0`.
pub proof fn lemma_integer_literal_text(s: Seq<u8>, p: int)
    requires
        0 <= p,
        scan_number(s, p) is Some,
        !scan_number(s, p).unwrap().is_float,
    ensures
        ({
            let n = scan_number(s, p).unwrap();
            let text = s.subrange(p, n.end);
            &&& is_integer_text(text)
            &&& digit_count(text) == n.int_end - n.int_start
            &&& (is_canonical_integer_text(text) || int_text_value(text) == 0)
        }),
{
    let n = scan_number(s, p).unwrap();
    crate::numbers::lemma_scan_number_shape(s, p);
    crate::numbers::lemma_integer_literal(s, p);
    let text = s.subrange(p, n.end);
    let digits = s.subrange(n.int_start, n.int_end);
    assert(text[0] == s[p + 0]);
    if s[p] == 0x2d {
        assert(text.skip(1) =~= digits);
        assert(text[1] == digits[0]);
        assert(digits[0] == s[n.int_start + 0]);
        if text[1] == 0x30 {
            assert(digits.len() == 1);
            assert(digits.drop_last() =~= Seq::<u8>::empty());
            assert(dec_value(digits.drop_last()) == 0);
        }
    } else {
        assert(text =~= digits);
    }
}

/// The text of an integer has as many digits as it needs: no canonical
/// text of the same integer has fewer.
pub proof fn lemma_integer_term_decodable(s: Seq<u8>, p: int, o: DecodeOptions)
    requires
        0 <= p,
        scan_number(s, p) is Some,
        !scan_number(s, p).unwrap().is_float,
        within_limit(scan_number(s, p).unwrap().int_end - scan_number(s, p).unwrap().int_start, o),
    ensures
        decodable(
            integer_term(int_text_value(s.subrange(p, scan_number(s, p).unwrap().end))),
            0,
            o,
        ),
{
    let n = scan_number(s, p).unwrap();
    let text = s.subrange(p, n.end);
    let value = int_text_value(text);
    lemma_integer_literal_text(s, p);
    lemma_int_text_round_trip(value);
    if is_canonical_integer_text(text) {
        lemma_canonical_text_round_trip(text);
    } else {
        assert(value == 0);
        assert(int_text(0).len() == 1);
    }
}

/// What the mapping of parsed members is made of: keys that are strings of
/// UTF-8 and all different, and values that the decoder makes.
pub open spec fn entries_decodable(acc: Seq<(TermV, TermV)>, depth: int, o: DecodeOptions) -> bool {
    forall|i: int|
        0 <= i < acc.len() ==> {
            &&& (#[trigger] acc[i]).0 is Binary
            &&& valid_utf8(acc[i].0->Binary_0)
            &&& decodable(acc[i].1, depth, o)
            &&& key_is_new(acc, i)
        }
}

/// A key that is not found in a mapping is none of its keys, and a key
/// that is found is the key of the entry where it is found.
pub proof fn lemma_key_index(acc: Seq<(TermV, TermV)>, key: TermV, from: int)
    requires
        0 <= from <= acc.len(),
    ensures
        from <= crate::grammar::key_index(acc, key, from) <= acc.len(),
        crate::grammar::key_index(acc, key, from) < acc.len() ==> acc[crate::grammar::key_index(
            acc,
            key,
            from,
        )].0 == key,
        forall|j: int|
            from <= j < crate::grammar::key_index(acc, key, from) ==> (#[trigger] acc[j]).0 != key,
    decreases acc.len() - from,
{
    if from < acc.len() && acc[from].0 != key {
        lemma_key_index(acc, key, from + 1);
    }
}

/// Putting a member into a mapping of members keeps it a mapping of
/// members.
pub proof fn lemma_put_keeps_decodable(
    acc: Seq<(TermV, TermV)>,
    key: Seq<u8>,
    value: TermV,
    depth: int,
    o: DecodeOptions,
)
    requires
        entries_decodable(acc, depth, o),
        valid_utf8(key),
        decodable(value, depth, o),
    ensures
        entries_decodable(put_entry(acc, TermV::Binary(key), value), depth, o),
{
    let k = TermV::Binary(key);
    let i = crate::grammar::key_index(acc, k, 0);
    lemma_key_index(acc, k, 0);
    let out = put_entry(acc, k, value);
    assert forall|j: int| 0 <= j < out.len() implies {
        &&& (#[trigger] out[j]).0 is Binary
        &&& valid_utf8(out[j].0->Binary_0)
        &&& decodable(out[j].1, depth, o)
        &&& key_is_new(out, j)
    } by {
        if j < acc.len() {
            assert(acc[j].0 is Binary);
            assert(key_is_new(acc, j));
        }
        assert forall|m: int| 0 <= m < j implies (#[trigger] out[m]).0 != out[j].0 by {
            if j < acc.len() {
                assert(acc[m].0 != acc[j].0);
                assert(out[m].0 == acc[m].0);
                assert(out[j].0 == acc[j].0);
            } else {
                assert(acc[m].0 != k);
            }
        }
    }
}

/// The mapping of members that the decoder parsed is a mapping that the
/// decoder makes.
pub proof fn lemma_mapping_decodable(
    keys: Seq<TermV>,
    values: Seq<TermV>,
    i: int,
    acc: Seq<(TermV, TermV)>,
    depth: int,
    o: DecodeOptions,
)
    requires
        0 <= i,
        keys.len() == values.len(),
        forall|j: int|
            0 <= j < keys.len() ==> (#[trigger] keys[j]) is Binary && valid_utf8(
                keys[j]->Binary_0,
            ),
        forall|j: int| 0 <= j < values.len() ==> decodable(#[trigger] values[j], depth, o),
        entries_decodable(acc, depth, o),
    ensures
        entries_decodable(mapping_of(keys, values, i, acc), depth, o),
    decreases keys.len() - i,
{
    if i < keys.len() {
        assert(keys[i] is Binary);
        assert(keys[i] == TermV::Binary(keys[i]->Binary_0));
        lemma_put_keeps_decodable(acc, keys[i]->Binary_0, values[i], depth, o);
        lemma_mapping_decodable(keys, values, i + 1, put_entry(acc, keys[i], values[i]), depth, o);
    }
}

/// A value that the decoder makes at one depth it also makes at every
/// depth above.
pub proof fn lemma_decodable_shallower(v: TermV, depth: int, above: int, o: DecodeOptions)
    requires
        decodable(v, depth, o),
        above <= depth,
    ensures
        decodable(v, above, o),
    decreases v,
{
    match v {
        TermV::List(items) => {
            assert forall|i: int| 0 <= i < items.len() implies decodable(
                #[trigger] items[i],
                above + 1,
                o,
            ) by {
                lemma_decodable_shallower(items[i], depth + 1, above + 1, o);
            }
        },
        TermV::Mapping(entries) => {
            assert forall|i: int| 0 <= i < entries.len() implies {
                &&& (#[trigger] entries[i]).0 is Binary
                &&& valid_utf8(entries[i].0->Binary_0)
                &&& decodable(entries[i].1, above + 1, o)
                &&& key_is_new(entries, i)
            } by {
                lemma_decodable_shallower(entries[i].1, depth + 1, above + 1, o);
            }
        },
        _ => {},
    }
}

/// What the decoder reads is a value that the decoder makes.
pub proof fn lemma_parsed_is_decodable(s: Seq<u8>, pos: int, depth: int, o: DecodeOptions)
    requires
        !o.floats_decimals,
        !o.ordered_objects,
        o.validate_strings,
        0 <= depth,
        parse_value(s, pos, depth, o) is Ok,
    ensures
        decodable(parse_value(s, pos, depth, o)->Ok_0.0, depth, o),
    decreases s.len() - pos, 2int,
{
    let b = s[pos];
    let v = parse_value(s, pos, depth, o)->Ok_0.0;
    if b == 0x5b {
        lemma_run_end_bounds(s, pos + 1, ByteClass::Whitespace);
        let first = skip_ws(s, pos + 1);
        if byte_at(s, first, 0x5d) {
            assert(v == TermV::List(Seq::<TermV>::empty()));
        } else {
            lemma_elements_decodable(s, first, depth + 1, o, Seq::empty());
        }
    } else if b == 0x7b {
        lemma_run_end_bounds(s, pos + 1, ByteClass::Whitespace);
        let first = skip_ws(s, pos + 1);
        if byte_at(s, first, 0x7d) {
            assert(mapping_of(Seq::empty(), Seq::empty(), 0, Seq::empty()) =~= Seq::<
                (TermV, TermV),
            >::empty());
        } else {
            lemma_members_decodable(s, first, depth + 1, o, Seq::empty(), Seq::empty(), Seq::empty());
        }
    } else if b == 0x2d || is_digit(b) {
        assert(scan_number(s, pos) is Some);
        let n = scan_number(s, pos).unwrap();
        if n.is_float {
            lemma_number_text(s, pos);
            let text = s.subrange(pos, n.end);
            crate::numbers::lemma_scan_number_shape(s, pos);
            assert(v == TermV::Float(text));
            assert(scan_number(text, 0) is Some);
            assert(scan_number(text, 0).unwrap().end == text.len());
            assert(is_float_text(text, o));
        } else {
            crate::numbers::lemma_scan_number_shape(s, pos);
            lemma_integer_term_decodable(s, pos, o);
            lemma_decodable_at_any_depth(
                integer_term(int_text_value(s.subrange(pos, n.end))),
                depth,
                o,
            );
        }
    }
}

/// A number that the decoder makes it makes at every depth.
pub proof fn lemma_decodable_at_any_depth(v: TermV, depth: int, o: DecodeOptions)
    requires
        decodable(v, 0, o),
        v is Integer || v is BigInteger,
    ensures
        decodable(v, depth, o),
{
}

/// The array that the decoder reads from the elements that are parsed and
/// the ones that are still to come is an array that the decoder makes.
pub proof fn lemma_elements_decodable(
    s: Seq<u8>,
    pos: int,
    depth: int,
    o: DecodeOptions,
    acc: Seq<TermV>,
)
    requires
        !o.floats_decimals,
        !o.ordered_objects,
        o.validate_strings,
        1 <= depth <= MAX_DEPTH,
        forall|i: int| 0 <= i < acc.len() ==> decodable(#[trigger] acc[i], depth, o),
        parse_elements(s, pos, depth, o, acc) is Ok,
    ensures
        decodable(parse_elements(s, pos, depth, o, acc)->Ok_0.0, depth - 1, o),
    decreases s.len() - pos, 3int,
{
    lemma_parsed_is_decodable(s, pos, depth, o);
    let (v, after) = parse_value(s, pos, depth, o)->Ok_0;
    let next = skip_ws(s, after);
    let acc2 = acc.push(v);
    assert forall|i: int| 0 <= i < acc2.len() implies decodable(#[trigger] acc2[i], depth, o) by {
        if i < acc.len() {
            assert(acc2[i] == acc[i]);
        }
    }
    if byte_at(s, next, 0x5d) {
    } else {
        lemma_run_end_bounds(s, next + 1, ByteClass::Whitespace);
        lemma_elements_decodable(s, skip_ws(s, next + 1), depth, o, acc2);
    }
}

/// The object that the decoder reads from the members that are parsed and
/// the ones that are still to come is an object that the decoder makes.
pub proof fn lemma_members_decodable(
    s: Seq<u8>,
    pos: int,
    depth: int,
    o: DecodeOptions,
    keys: Seq<TermV>,
    raws: Seq<Seq<u8>>,
    values: Seq<TermV>,
)
    requires
        !o.floats_decimals,
        !o.ordered_objects,
        o.validate_strings,
        1 <= depth <= MAX_DEPTH,
        keys.len() == values.len(),
        forall|j: int|
            0 <= j < keys.len() ==> (#[trigger] keys[j]) is Binary && valid_utf8(
                keys[j]->Binary_0,
            ),
        forall|j: int| 0 <= j < values.len() ==> decodable(#[trigger] values[j], depth, o),
        parse_members(s, pos, depth, o, keys, raws, values) is Ok,
    ensures
        decodable(parse_members(s, pos, depth, o, keys, raws, values)->Ok_0.0, depth - 1, o),
    decreases s.len() - pos, 3int,
{
    let (key, key_end) = parse_string(s, pos, o.validate_strings)->Ok_0;
    lemma_run_end_bounds(s, key_end, ByteClass::Whitespace);
    let colon = skip_ws(s, key_end);
    lemma_run_end_bounds(s, colon + 1, ByteClass::Whitespace);
    let value_start = skip_ws(s, colon + 1);
    lemma_parsed_is_decodable(s, value_start, depth, o);
    let (v, after) = parse_value(s, value_start, depth, o)->Ok_0;
    let next = skip_ws(s, after);
    let keys2 = keys.push(TermV::Binary(key));
    let values2 = values.push(v);
    assert forall|j: int| 0 <= j < keys2.len() implies (#[trigger] keys2[j]) is Binary
        && valid_utf8(keys2[j]->Binary_0) by {
        if j < keys.len() {
            assert(keys2[j] == keys[j]);
        }
    }
    assert forall|j: int| 0 <= j < values2.len() implies decodable(
        #[trigger] values2[j],
        depth,
        o,
    ) by {
        if j < values.len() {
            assert(values2[j] == values[j]);
        }
    }
    if byte_at(s, next, 0x7d) {
        lemma_mapping_decodable(keys2, values2, 0, Seq::empty(), depth, o);
        let entries = mapping_of(keys2, values2, 0, Seq::empty());
        assert(entries_decodable(entries, depth, o));
        assert forall|i: int| 0 <= i < entries.len() implies {
            &&& (#[trigger] entries[i]).0 is Binary
            &&& valid_utf8(entries[i].0->Binary_0)
            &&& decodable(entries[i].1, (depth - 1) + 1, o)
            &&& key_is_new(entries, i)
        } by {}
    } else {
        lemma_run_end_bounds(s, next + 1, ByteClass::Whitespace);
        lemma_members_decodable(
            s,
            skip_ws(s, next + 1),
            depth,
            o,
            keys2,
            raws.push(raw_key(s, pos, key_end)),
            values2,
        );
    }
}

/// Round trip of what was decoded.  Under options that check strings and
/// ask for neither decimals nor ordered objects, every value that the
/// decoder reads from some document is written by the encoder, in a
/// compact format and any escape mode, as a document that the decoder
/// reads as the same value, provided that the document is not too long for
/// the options.
pub proof fn lemma_decoded_round_trip(s: Seq<u8>, f: Format, o: DecodeOptions)
    requires
        parse_document(s, o) is Ok,
        is_compact(f),
        f.depth == 0,
        !o.floats_decimals,
        !o.ordered_objects,
        o.validate_strings,
    ensures
        encoded_term(parse_document(s, o)->Ok_0, f) is Ok,
        o.max_bytes == 0 || encoded_term(parse_document(s, o)->Ok_0, f).unwrap().len()
            <= o.max_bytes ==> parse_document(
            encoded_term(parse_document(s, o)->Ok_0, f).unwrap(),
            o,
        ) == parse_document(s, o),
{
    lemma_parsed_is_decodable(s, skip_ws(s, 0), 0, o);
    lemma_round_trip(parse_document(s, o)->Ok_0, f, o);
}

/// The options of a decode where none are given.
pub open spec fn default_options() -> DecodeOptions {
    DecodeOptions {
        intern_keys: false,
        floats_decimals: false,
        ordered_objects: false,
        integer_digit_limit: 1024,
        max_bytes: 0,
        reject_duplicate_keys: false,
        validate_strings: true,
    }
}

/// The format of an encode where no options are given.
pub open spec fn default_format() -> Format {
    Format {
        pretty: false,
        depth: 0,
        lean: false,
        escape: EscapeMode::Json,
        line_separator: seq![0x0au8],
        after_colon: seq![0x20u8],
        indent: seq![0x20u8, 0x20],
        strict_keys: false,
        sort_keys: false,
    }
}

/// Round trip under the default options.  Every value that the decoder
/// reads from some document is written by the encoder as a document that
/// the decoder reads as the same value.
pub proof fn lemma_default_round_trip(s: Seq<u8>)
    requires
        parse_document(s, default_options()) is Ok,
    ensures
        encoded_term(parse_document(s, default_options())->Ok_0, default_format()) is Ok,
        parse_document(
            encoded_term(parse_document(s, default_options())->Ok_0, default_format()).unwrap(),
            default_options(),
        ) == parse_document(s, default_options()),
{
    lemma_decoded_round_trip(s, default_format(), default_options());
}

/// The containers of `v` are nested at most `levels` deep.
pub open spec fn nests_within(v: TermV, levels: int) -> bool
    decreases v,
{
    match v {
        TermV::List(items) => levels >= 1 && forall|i: int|
            0 <= i < items.len() ==> nests_within(#[trigger] items[i], levels - 1),
        TermV::Mapping(entries) => levels >= 1 && forall|i: int|
            0 <= i < entries.len() ==> nests_within((#[trigger] entries[i]).1, levels - 1),
        _ => true,
    }
}

/// A value that the decoder makes `depth` containers deep is nested no
/// deeper than the limit leaves room for.
pub proof fn lemma_decodable_nesting(v: TermV, depth: int, o: DecodeOptions)
    requires
        decodable(v, depth, o),
    ensures
        nests_within(v, MAX_DEPTH - depth),
    decreases v,
{
    match v {
        TermV::List(items) => {
            assert forall|i: int| 0 <= i < items.len() implies nests_within(
                #[trigger] items[i],
                MAX_DEPTH - depth - 1,
            ) by {
                lemma_decodable_nesting(items[i], depth + 1, o);
            }
        },
        TermV::Mapping(entries) => {
            assert forall|i: int| 0 <= i < entries.len() implies nests_within(
                (#[trigger] entries[i]).1,
                MAX_DEPTH - depth - 1,
            ) by {
                lemma_decodable_nesting(entries[i].1, depth + 1, o);
            }
        },
        _ => {},
    }
}

/// Depth safety of what is decoded.  Under options that check strings and
/// ask for neither decimals nor ordered objects, the containers of every
/// value that the decoder reads are nested at most 128 deep.
pub proof fn lemma_decoded_nesting(s: Seq<u8>, o: DecodeOptions)
    requires
        parse_document(s, o) is Ok,
        !o.floats_decimals,
        !o.ordered_objects,
        o.validate_strings,
    ensures
        nests_within(parse_document(s, o)->Ok_0, MAX_DEPTH as int),
{
    lemma_parsed_is_decodable(s, skip_ws(s, 0), 0, o);
    lemma_decodable_nesting(parse_document(s, o)->Ok_0, 0, o);
}

} // verus!
