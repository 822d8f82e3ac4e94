//! A JSON codec core: a decoder that builds a value tree from UTF-8 bytes and
//! an encoder that writes a value tree back out, with the scanners, the
//! structural index and the number and string codecs they share.
//!
//! The entry points of this file take their options the way the host hands
//! them over: as a mapping from option names to values, in which a missing
//! or unfit value stands for the default.

pub mod compression;
pub mod counting;
pub mod decimal;
pub mod digits;
pub mod direct_decode;
pub mod direct_json;
pub mod encoding;
pub mod error;
pub mod escaped_utf8;
pub mod fields;
pub mod floats;
pub mod grammar;
pub mod intern;
pub mod laws;
pub mod names;
pub mod nif_binary_writer;
pub mod numbers;
pub mod outside;
pub mod round_trip;
pub mod simd_utils;
pub mod sorting;
pub mod strings;
pub mod structural;
pub mod term;

use crate::compression::{finished, get_writer, Algs, DEFAULT_GZIP_LEVEL};
use crate::direct_decode::{json_to_term, DecodeOptions};
use crate::direct_json::{
    term_to_json, write_escaped_bytes, write_integer, wrote, EscapeMode, FormatContext,
    FormatOptions,
};
use crate::encoding::{encoded_integer, encoded_term, quoted, repeated, Encoded, Format};
use crate::error::{DecodeError, EncodeError, ErrorKind};
use crate::fields::{as_integer_within, field, get_field, is_nil, is_nil_term, read_i128, read_u32};
use crate::grammar::{parse_document, Failure};
use crate::names::{
    after_colon_name, compression_name, escape_name, false_name, floats_decimals_name, gzip_name,
    html_safe_name, indent_name, integer_digit_limit_name, intern_keys_name, javascript_safe_name,
    lean_name, line_separator_name, max_bytes_name, name_after_colon, name_compression, name_escape,
    name_false, name_floats_decimals, name_gzip, name_html_safe, name_indent,
    name_integer_digit_limit, name_intern_keys, name_javascript_safe, name_lean,
    name_line_separator, name_max_bytes, name_nil, name_null, name_ordered_objects,
    name_pre_encoded, name_pretty_opts, name_reject_duplicate_keys, name_sort_keys,
    name_strict_keys, name_true, name_unicode_safe, name_validate_strings, nil_name, null_name,
    ordered_objects_name, pre_encoded_name, pretty_opts_name, reject_duplicate_keys_name,
    sort_keys_name, strict_keys_name, true_name, unicode_safe_name, validate_strings_name,
};
use crate::outside::{is_valid_utf8, small_from_slice};
use crate::term::{append, bytes_eq, lemma_view_children, terms_view, Term, TermV};
use crate::floats::{checked_document, settle_floats};
use vstd::prelude::*;
use vstd::utf8::valid_utf8;

verus! {

/// The value of the option `name` in an option mapping, if it is there.
pub open spec fn option_value(map: TermV, name: Seq<u8>) -> Option<TermV> {
    match map {
        TermV::Mapping(entries) => field(entries, name),
        _ => None,
    }
}

/// The truth value of the option `name`; `default` where the option is
/// missing or neither `true` nor `false`.
pub open spec fn option_bool(map: TermV, name: Seq<u8>, default: bool) -> bool {
    match option_value(map, name) {
        Some(TermV::Atom(a)) => if a == name_true() {
            true
        } else if a == name_false() {
            false
        } else {
            default
        },
        _ => default,
    }
}

/// The number of the option `name`; `default` where the option is missing
/// or no number from 0 to `max`.
pub open spec fn option_number(map: TermV, name: Seq<u8>, max: int, default: int) -> int {
    match option_value(map, name) {
        Some(t) => match as_integer_within(t, 0, max) {
            Some(n) => n,
            None => default,
        },
        None => default,
    }
}

/// Looks up the option `name` in an option mapping.
pub fn get_opt<'a>(map: &'a Term, key: &[u8]) -> (r: Option<&'a Term>)
    ensures
        match r {
            Some(t) => option_value(map@, key@) == Some(t@),
            None => option_value(map@, key@) is None,
        },
{
    proof {
        lemma_view_children(*map);
    }
    match map {
        Term::Mapping(entries) => get_field(entries, key),
        _ => None,
    }
}

/// The truth value of the option `name`.
pub fn get_opt_bool(map: &Term, key: &[u8], default: bool) -> (r: bool)
    ensures
        r == option_bool(map@, key@, default),
{
    match get_opt(map, key) {
        Some(Term::Atom(a)) => {
            if bytes_eq(a.as_slice(), &true_name()) {
                true
            } else if bytes_eq(a.as_slice(), &false_name()) {
                false
            } else {
                default
            }
        },
        _ => default,
    }
}

/// The size of the option `name`.
pub fn get_opt_usize(map: &Term, key: &[u8], default: usize) -> (r: usize)
    ensures
        r == option_number(map@, key@, usize::MAX as int, default as int),
{
    match get_opt(map, key) {
        Some(t) => match read_i128(t) {
            Some(n) => if 0 <= n && n <= usize::MAX as i128 {
                n as usize
            } else {
                default
            },
            None => default,
        },
        None => default,
    }
}

/// The decode options that an option mapping asks for.
pub open spec fn decode_options(map: TermV) -> DecodeOptions {
    DecodeOptions {
        intern_keys: option_bool(map, name_intern_keys(), false),
        floats_decimals: option_bool(map, name_floats_decimals(), false),
        ordered_objects: option_bool(map, name_ordered_objects(), false),
        integer_digit_limit: option_number(
            map,
            name_integer_digit_limit(),
            usize::MAX as int,
            1024,
        ) as usize,
        max_bytes: option_number(map, name_max_bytes(), usize::MAX as int, 0) as usize,
        reject_duplicate_keys: option_bool(map, name_reject_duplicate_keys(), false),
        validate_strings: option_bool(map, name_validate_strings(), true),
    }
}

/// Decodes the document `input` under the options of `opts_map`.
pub fn decode_impl(input: &[u8], opts_map: &Term) -> (r: Result<Term, DecodeError>)
    ensures
        match r {
            Ok(t) => parse_document(input@, decode_options(opts_map@)) == Ok::<TermV, Failure>(t@),
            Err(e) => parse_document(input@, decode_options(opts_map@)) == Err::<TermV, Failure>(
                (e.kind, e.offset as int),
            ),
        },
{
    let decode_opts = DecodeOptions {
        intern_keys: get_opt_bool(opts_map, &intern_keys_name(), false),
        floats_decimals: get_opt_bool(opts_map, &floats_decimals_name(), false),
        ordered_objects: get_opt_bool(opts_map, &ordered_objects_name(), false),
        integer_digit_limit: get_opt_usize(opts_map, &integer_digit_limit_name(), 1024),
        max_bytes: get_opt_usize(opts_map, &max_bytes_name(), 0),
        reject_duplicate_keys: get_opt_bool(opts_map, &reject_duplicate_keys_name(), false),
        validate_strings: get_opt_bool(opts_map, &validate_strings_name(), true),
    };
    json_to_term(input, decode_opts)
}

/// Decodes the document `input` under the options of `opts_map`, where
/// `unreadable` is the place of the first float literal of the document
/// that has no finite double, if there is one.
pub fn decode_checked(input: &[u8], opts_map: &Term, unreadable: Option<usize>) -> (r: Result<
    Term,
    DecodeError,
>)
    ensures
        match r {
            Ok(t) => checked_document(
                input@,
                decode_options(opts_map@),
                match unreadable {
                    Some(at) => Some(at as int),
                    None => None,
                },
            ) == Ok::<TermV, Failure>(t@),
            Err(e) => checked_document(
                input@,
                decode_options(opts_map@),
                match unreadable {
                    Some(at) => Some(at as int),
                    None => None,
                },
            ) == Err::<TermV, Failure>((e.kind, e.offset as int)),
        },
{
    let floats_decimals = get_opt_bool(opts_map, &floats_decimals_name(), false);
    settle_floats(decode_impl(input, opts_map), floats_decimals, unreadable)
}

/// The escape mode that a term names: `html_safe`, `unicode_safe` or
/// `javascript_safe`, and the plain mode for anything else.
pub open spec fn escape_mode_of(t: TermV) -> EscapeMode {
    match t {
        TermV::Atom(a) => if a == name_html_safe() {
            EscapeMode::HtmlSafe
        } else if a == name_unicode_safe() {
            EscapeMode::UnicodeSafe
        } else if a == name_javascript_safe() {
            EscapeMode::JavaScriptSafe
        } else {
            EscapeMode::Json
        },
        _ => EscapeMode::Json,
    }
}

impl EscapeMode {
    /// The escape mode that `term` names.
    pub fn from_term(term: &Term) -> (r: EscapeMode)
        ensures
            r == escape_mode_of(term@),
    {
        match term {
            Term::Atom(a) => {
                if bytes_eq(a.as_slice(), &html_safe_name()) {
                    EscapeMode::HtmlSafe
                } else if bytes_eq(a.as_slice(), &unicode_safe_name()) {
                    EscapeMode::UnicodeSafe
                } else if bytes_eq(a.as_slice(), &javascript_safe_name()) {
                    EscapeMode::JavaScriptSafe
                } else {
                    EscapeMode::Json
                }
            },
            _ => EscapeMode::Json,
        }
    }
}

/// The indent size that an option mapping asks for: the number in its
/// option `indent`, where there is one of 32 bits.
pub open spec fn indent_size_of(map: TermV) -> Option<int> {
    match option_value(map, name_indent()) {
        Some(t) => as_integer_within(t, 0, 0xffff_ffff),
        None => None,
    }
}

/// The bytes of the pretty-print option `name`, where the pretty-print
/// options hold a byte string under it; `default` otherwise.
pub open spec fn pretty_bytes(map: TermV, name: Seq<u8>, default: Seq<u8>) -> Seq<u8> {
    match option_value(map, name_pretty_opts()) {
        Some(pretty) => match option_value(pretty, name) {
            Some(TermV::Binary(b)) => b,
            _ => default,
        },
        None => default,
    }
}

/// The indent unit that an option mapping asks for: the one of the
/// pretty-print options where they name one, else as many spaces as the
/// indent size says, and two spaces without an indent size.
pub open spec fn indent_unit_of(map: TermV) -> Seq<u8> {
    let custom = match option_value(map, name_pretty_opts()) {
        Some(pretty) => option_value(pretty, name_indent()),
        None => None,
    };
    match custom {
        Some(TermV::Binary(b)) => b,
        Some(_) => seq![0x20u8, 0x20],
        None => match indent_size_of(map) {
            Some(n) => if n > 0 {
                repeated(seq![0x20u8], n)
            } else {
                seq![0x20u8, 0x20]
            },
            None => seq![0x20u8, 0x20],
        },
    }
}

/// The format that an option mapping asks for.
pub open spec fn encode_format(map: TermV) -> Format {
    Format {
        pretty: indent_size_of(map) matches Some(n) && n > 0,
        depth: 0,
        lean: option_bool(map, name_lean(), false),
        escape: match option_value(map, name_escape()) {
            Some(t) => escape_mode_of(t),
            None => EscapeMode::Json,
        },
        line_separator: pretty_bytes(map, name_line_separator(), seq![0x0au8]),
        after_colon: pretty_bytes(map, name_after_colon(), seq![0x20u8]),
        indent: indent_unit_of(map),
        strict_keys: option_bool(map, name_strict_keys(), false),
        sort_keys: option_bool(map, name_sort_keys(), false),
    }
}

/// The level of the gzip compression that an option mapping asks for;
/// `None` where it asks for none.  The option `compression` is a pair of
/// the algorithm and the level, the level `nil` for the default one.
pub open spec fn compression_of(map: TermV) -> Option<u32> {
    match option_value(map, name_compression()) {
        Some(TermV::Tuple(pair)) => if pair.len() == 2 && pair[0] == TermV::Atom(name_gzip()) {
            if is_nil(pair[1]) {
                Some(DEFAULT_GZIP_LEVEL)
            } else {
                match as_integer_within(pair[1], 0, 0xffff_ffff) {
                    Some(l) => Some(l as u32),
                    None => None,
                }
            }
        } else {
            None
        },
        _ => None,
    }
}

/// The compression that an option mapping asks for.
pub fn get_opt_compression(map: &Term) -> (r: Option<(Algs, Option<u32>)>)
    ensures
        match r {
            Some((Algs::Gzip, Some(l))) => compression_of(map@) == Some(l),
            Some((Algs::Gzip, None)) => compression_of(map@) == Some(DEFAULT_GZIP_LEVEL),
            _ => compression_of(map@) is None,
        },
{
    match get_opt(map, &compression_name()) {
        Some(t) => {
            proof {
                lemma_view_children(*t);
            }
            match t {
                Term::Tuple(items) => {
                    if items.len() != 2 {
                        return None;
                    }
                    assert(terms_view(items@)[0] == items@[0]@);
                    assert(terms_view(items@)[1] == items@[1]@);
                    let gzip = match &items[0] {
                        Term::Atom(a) => bytes_eq(a.as_slice(), &gzip_name()),
                        _ => false,
                    };
                    if !gzip {
                        return None;
                    }
                    if is_nil_term(&items[1]) {
                        return Some((Algs::Gzip, None));
                    }
                    match read_u32(&items[1]) {
                        Some(l) => Some((Algs::Gzip, Some(l))),
                        None => None,
                    }
                },
                _ => None,
            }
        },
        None => None,
    }
}

/// The bytes of the pretty-print option `name`.
fn get_pretty_bytes(map: &Term, name: &[u8], default: &[u8]) -> (r: Vec<u8>)
    ensures
        r@ == pretty_bytes(map@, name@, default@),
{
    match get_opt(map, &pretty_opts_name()) {
        Some(pretty) => match get_opt(pretty, name) {
            Some(Term::Binary(b)) => crate::term::copy_bytes(b.as_slice()),
            _ => crate::term::copy_bytes(default),
        },
        None => crate::term::copy_bytes(default),
    }
}

/// `n` spaces.
fn spaces(n: u32) -> (r: Vec<u8>)
    ensures
        r@ == repeated(seq![0x20u8], n as int),
{
    let mut r: Vec<u8> = Vec::new();
    let mut i: u32 = 0;
    assert(r@ =~= repeated(seq![0x20u8], 0));
    while i < n
        invariant
            i <= n,
            r@ == repeated(seq![0x20u8], i as int),
        decreases n - i,
    {
        r.push(0x20);
        i = i + 1;
        assert(r@ =~= repeated(seq![0x20u8], i as int));
    }
    r
}

/// The indent unit that an option mapping asks for.
fn get_indent_unit(map: &Term, indent_size: Option<u32>) -> (r: Vec<u8>)
    requires
        indent_size_of(map@) == (match indent_size {
            Some(n) => Some(n as int),
            None => None::<int>,
        }),
    ensures
        r@ == indent_unit_of(map@),
{
    let two: [u8; 2] = [0x20, 0x20];
    assert(two@ =~= seq![0x20u8, 0x20]);
    let custom = match get_opt(map, &pretty_opts_name()) {
        Some(pretty) => get_opt(pretty, &indent_name()),
        None => None,
    };
    match custom {
        Some(Term::Binary(b)) => crate::term::copy_bytes(b.as_slice()),
        Some(_) => crate::term::copy_bytes(&two),
        None => match indent_size {
            Some(n) => if n > 0 {
                spaces(n)
            } else {
                crate::term::copy_bytes(&two)
            },
            None => crate::term::copy_bytes(&two),
        },
    }
}

/// What an encode under the options of an option mapping gives: the value
/// written in the format of the options, as it is or as a gzip stream.
pub open spec fn encode_output(term: TermV, map: TermV) -> Encoded {
    match encoded_term(term, encode_format(map)) {
        Ok(bytes) => Ok(finished(bytes, compression_of(map))),
        Err(e) => Err(e),
    }
}

/// Encodes `term` under the options of `opts_map`.
pub fn encode_direct_impl(term: &Term, opts_map: &Term) -> (r: Result<Vec<u8>, EncodeError>)
    ensures
        match r {
            Ok(out) => encode_output(term@, opts_map@) == Ok::<Seq<u8>, ErrorKind>(out@),
            Err(e) => encode_output(term@, opts_map@) == Err::<Seq<u8>, ErrorKind>(e.kind),
        },
{
    let indent_size: Option<u32> = match get_opt(opts_map, &indent_name()) {
        Some(t) => read_u32(t),
        None => None,
    };
    let comp_opts = get_opt_compression(opts_map);
    let lean = get_opt_bool(opts_map, &lean_name(), false);
    let strict_keys = get_opt_bool(opts_map, &strict_keys_name(), false);
    let sort_keys = get_opt_bool(opts_map, &sort_keys_name(), false);
    let escape_mode = match get_opt(opts_map, &escape_name()) {
        Some(t) => EscapeMode::from_term(t),
        None => EscapeMode::Json,
    };
    let line: [u8; 1] = [0x0a];
    let colon: [u8; 1] = [0x20];
    assert(line@ =~= seq![0x0au8]);
    assert(colon@ =~= seq![0x20u8]);
    let line_separator = get_pretty_bytes(opts_map, &line_separator_name(), &line);
    let after_colon = get_pretty_bytes(opts_map, &after_colon_name(), &colon);
    let indent = get_indent_unit(opts_map, indent_size);
    let ctx = FormatContext {
        line_separator: small_from_slice(line_separator.as_slice()),
        after_colon: small_from_slice(after_colon.as_slice()),
        indent: small_from_slice(indent.as_slice()),
        strict_keys,
        sort_keys,
    };
    let pretty = match indent_size {
        Some(n) => n > 0,
        None => false,
    };
    let opts = if pretty {
        FormatOptions::pretty(&ctx).with_lean(lean).with_escape(escape_mode)
    } else {
        FormatOptions::compact(&ctx).with_lean(lean).with_escape(escape_mode)
    };
    assert(opts.model() == encode_format(opts_map@));
    let mut output: Vec<u8> = Vec::with_capacity(128);
    match term_to_json(term, &mut output, opts) {
        Ok(()) => {},
        Err(e) => {
            return Err(e);
        },
    }
    assert(output@ =~= encoded_term(term@, encode_format(opts_map@)).unwrap());
    let mut writer = get_writer(comp_opts);
    let _ = writer.write_all(output.as_slice());
    assert(writer.written() =~= output@);
    writer.get_buf()
}

/// What a field value of the struct-fields shortcut is written as: `true`,
/// `false` and `nil` as the literals, a byte string as a JSON string, an
/// integer as its text, and a pair tagged `__pre_encoded__` as the bytes of
/// its second part.
pub open spec fn encoded_field_value(t: TermV, mode: EscapeMode) -> Encoded {
    match t {
        TermV::Atom(a) => if a == name_true() {
            Ok(name_true())
        } else if a == name_false() {
            Ok(name_false())
        } else if a == name_nil() {
            Ok(name_null())
        } else {
            Err(ErrorKind::UnsupportedTerm)
        },
        TermV::Binary(b) => if valid_utf8(b) {
            Ok(quoted(b, mode))
        } else {
            Err(ErrorKind::InvalidUtf8)
        },
        TermV::Integer(_) => encoded_integer(t),
        TermV::BigInteger(_) => encoded_integer(t),
        TermV::Tuple(items) => if items.len() == 2 && items[0] == TermV::Atom(name_pre_encoded()) {
            match items[1] {
                TermV::Binary(b) => Ok(b),
                _ => Err(ErrorKind::UnsupportedTerm),
            }
        } else {
            Err(ErrorKind::UnsupportedTerm)
        },
        _ => Err(ErrorKind::UnsupportedTerm),
    }
}

/// Writes a field value of the struct-fields shortcut.
pub fn write_field_value(output: &mut Vec<u8>, term: &Term, escape_mode: EscapeMode) -> (r: Result<
    (),
    EncodeError,
>)
    ensures
        wrote(r, old(output)@, final(output)@, encoded_field_value(term@, escape_mode)),
{
    proof {
        lemma_view_children(*term);
    }
    match term {
        Term::Atom(a) => {
            if bytes_eq(a.as_slice(), &true_name()) {
                append(output, &true_name());
            } else if bytes_eq(a.as_slice(), &false_name()) {
                append(output, &false_name());
            } else if bytes_eq(a.as_slice(), &nil_name()) {
                append(output, &null_name());
            } else {
                return Err(EncodeError::new(ErrorKind::UnsupportedTerm));
            }
            Ok(())
        },
        Term::Binary(bytes) => {
            if is_valid_utf8(bytes.as_slice()) {
                write_escaped_bytes(bytes.as_slice(), output, escape_mode);
                Ok(())
            } else {
                Err(EncodeError::new(ErrorKind::InvalidUtf8))
            }
        },
        Term::Integer(_) => write_integer(term, output),
        Term::Unsigned(_) => write_integer(term, output),
        Term::BigInteger(_) => write_integer(term, output),
        Term::Tuple(items) => {
            if items.len() != 2 {
                return Err(EncodeError::new(ErrorKind::UnsupportedTerm));
            }
            assert(terms_view(items@)[0] == items@[0]@);
            assert(terms_view(items@)[1] == items@[1]@);
            let tagged = match &items[0] {
                Term::Atom(a) => bytes_eq(a.as_slice(), &pre_encoded_name()),
                _ => false,
            };
            if !tagged {
                return Err(EncodeError::new(ErrorKind::UnsupportedTerm));
            }
            match &items[1] {
                Term::Binary(b) => {
                    append(output, b.as_slice());
                    Ok(())
                },
                _ => Err(EncodeError::new(ErrorKind::UnsupportedTerm)),
            }
        },
        _ => Err(EncodeError::new(ErrorKind::UnsupportedTerm)),
    }
}

/// The fields from `i` on of the struct-fields shortcut, each a key that is
/// written as it is and a value, with a comma between two, written after
/// `acc`.
pub open spec fn encoded_fields(
    keys: Seq<TermV>,
    values: Seq<TermV>,
    i: int,
    mode: EscapeMode,
    acc: Seq<u8>,
) -> Encoded
    decreases keys.len() - i,
{
    if i < 0 || i >= keys.len() {
        Ok(acc + seq![0x7du8])
    } else {
        match keys[i] {
            TermV::Binary(k) => match encoded_field_value(values[i], mode) {
                Ok(x) => encoded_fields(
                    keys,
                    values,
                    i + 1,
                    mode,
                    acc + (if i > 0 {
                        seq![0x2cu8]
                    } else {
                        Seq::<u8>::empty()
                    }) + k + x,
                ),
                Err(e) => Err(e),
            },
            _ => Err(ErrorKind::UnsupportedTerm),
        }
    }
}

/// What the struct-fields shortcut gives: one object of the fields, the
/// keys as they are handed over, quotes and colon included.  Keys and
/// values have to be lists of the same length.
pub open spec fn encoded_struct(keys: TermV, values: TermV, mode: EscapeMode) -> Encoded {
    match (keys, values) {
        (TermV::List(ks), TermV::List(vs)) => if ks.len() == vs.len() {
            encoded_fields(ks, vs, 0, mode, seq![0x7bu8])
        } else {
            Err(ErrorKind::UnsupportedTerm)
        },
        _ => Err(ErrorKind::UnsupportedTerm),
    }
}

/// Encodes the fields of a record the short way: `keys` are the keys as
/// they are to be written, `values` the values, each a scalar or a pair
/// tagged `__pre_encoded__`.
pub fn encode_fields_impl(
    keys: &Term,
    values: &Term,
    escape_mode_term: &Term,
    _strict_keys: &Term,
) -> (r: Result<Vec<u8>, EncodeError>)
    ensures
        match r {
            Ok(out) => encoded_struct(keys@, values@, escape_mode_of(escape_mode_term@)) == Ok::<
                Seq<u8>,
                ErrorKind,
            >(out@),
            Err(e) => encoded_struct(keys@, values@, escape_mode_of(escape_mode_term@)) == Err::<
                Seq<u8>,
                ErrorKind,
            >(e.kind),
        },
{
    proof {
        lemma_view_children(*keys);
        lemma_view_children(*values);
    }
    let keys_list = match keys {
        Term::List(items) => items,
        _ => {
            return Err(EncodeError::new(ErrorKind::UnsupportedTerm));
        },
    };
    let values_list = match values {
        Term::List(items) => items,
        _ => {
            return Err(EncodeError::new(ErrorKind::UnsupportedTerm));
        },
    };
    if keys_list.len() != values_list.len() {
        return Err(EncodeError::new(ErrorKind::UnsupportedTerm));
    }
    let escape_mode = EscapeMode::from_term(escape_mode_term);
    let ghost kv = terms_view(keys_list@);
    let ghost vv = terms_view(values_list@);
    let mut output: Vec<u8> = Vec::with_capacity(64);
    output.push(0x7b);
    let ghost mut acc = seq![0x7bu8];
    assert(output@ =~= acc);
    let mut i: usize = 0;
    while i < keys_list.len()
        invariant
            i <= keys_list@.len() == values_list@.len(),
            kv == terms_view(keys_list@),
            vv == terms_view(values_list@),
            keys@ == TermV::List(kv),
            values@ == TermV::List(vv),
            escape_mode == escape_mode_of(escape_mode_term@),
            output@ == acc,
            encoded_fields(kv, vv, 0, escape_mode, seq![0x7bu8]) == encoded_fields(
                kv,
                vv,
                i as int,
                escape_mode,
                acc,
            ),
        decreases keys_list@.len() - i,
    {
        proof {
            assert(kv[i as int] == keys_list@[i as int]@);
            assert(vv[i as int] == values_list@[i as int]@);
        }
        if i > 0 {
            output.push(0x2c);
        }
        match &keys_list[i] {
            Term::Binary(k) => {
                append(&mut output, k.as_slice());
            },
            _ => {
                return Err(EncodeError::new(ErrorKind::UnsupportedTerm));
            },
        }
        let ghost head = acc + (if i > 0 {
            seq![0x2cu8]
        } else {
            Seq::<u8>::empty()
        }) + kv[i as int]->Binary_0;
        assert(output@ =~= head);
        match write_field_value(&mut output, &values_list[i], escape_mode) {
            Ok(()) => {},
            Err(e) => {
                return Err(e);
            },
        }
        proof {
            acc = head + encoded_field_value(vv[i as int], escape_mode).unwrap();
        }
        i = i + 1;
    }
    output.push(0x7d);
    assert(output@ =~= acc + seq![0x7du8]);
    Ok(output)
}

} // verus!
