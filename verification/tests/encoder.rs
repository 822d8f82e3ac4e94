use rustyjson::decimal::{format_decimal, try_format_decimal};
use rustyjson::direct_decode::{json_to_term, DecodeOptions};
use rustyjson::direct_json::bench_helpers::{
    escape_string_html, escape_string_javascript, escape_string_json, escape_string_unicode,
};
use rustyjson::direct_json::{
    term_to_json, write_json_string_escaped_pub, EscapeMode, FormatContext, FormatOptions,
};
use rustyjson::error::ErrorKind;
use rustyjson::nif_binary_writer::NifBinaryWriter;
use rustyjson::term::Term;

fn bin(s: &str) -> Term {
    Term::Binary(s.as_bytes().to_vec())
}

fn atom(s: &str) -> Term {
    Term::Atom(s.as_bytes().to_vec())
}

fn record(name: &str, fields: Vec<(&str, Term)>) -> Term {
    let mut entries = vec![(atom("__struct__"), atom(name))];
    entries.extend(fields.into_iter().map(|(k, v)| (atom(k), v)));
    Term::Mapping(entries)
}

fn encode_in(term: &Term, ctx: &FormatContext, pretty: bool, lean: bool, escape: EscapeMode) -> Result<String, ErrorKind> {
    let base = if pretty { FormatOptions::pretty(ctx) } else { FormatOptions::compact(ctx) };
    let mut out = Vec::new();
    match term_to_json(term, &mut out, base.with_lean(lean).with_escape(escape)) {
        Ok(()) => Ok(String::from_utf8(out).unwrap()),
        Err(e) => Err(e.kind),
    }
}

fn encode(term: &Term) -> String {
    encode_in(term, &FormatContext::default(), false, false, EscapeMode::Json).unwrap()
}

fn encode_err(term: &Term) -> ErrorKind {
    encode_in(term, &FormatContext::default(), false, false, EscapeMode::Json).unwrap_err()
}

fn backslash(rest: &str) -> String {
    format!("{}{}", '\\', rest)
}

#[test]
fn encodes_scalars() {
    assert_eq!(encode(&atom("true")), "true");
    assert_eq!(encode(&atom("false")), "false");
    assert_eq!(encode(&atom("nil")), "null");
    assert_eq!(encode(&atom("null")), "null");
    assert_eq!(encode(&atom("ok")), "\"ok\"");
    assert_eq!(encode(&Term::Integer(0)), "0");
    assert_eq!(encode(&Term::Integer(128)), "128");
    assert_eq!(encode(&Term::Integer(i64::MIN)), "-9223372036854775808");
    assert_eq!(encode(&Term::Unsigned(u64::MAX)), "18446744073709551615");
    assert_eq!(encode(&Term::BigInteger(b"-340282366920938463463374607431768211456".to_vec())),
        "-340282366920938463463374607431768211456");
    assert_eq!(encode(&bin("")), "\"\"");
    assert_eq!(encode(&bin("a/b")), "\"a/b\"");
    assert_eq!(encode_err(&Term::Binary(vec![0xff])), ErrorKind::InvalidUtf8);
    assert_eq!(encode_err(&Term::Atom(vec![0xc0])), ErrorKind::InvalidUtf8);
    assert_eq!(encode_err(&Term::Other), ErrorKind::UnsupportedTerm);
}

#[test]
fn escapes_of_the_plain_mode() {
    let all = "\" \\ \n \r \t \x08 \x0c \x00 \x1f / < \u{e9} \u{2028} \u{1F600}";
    let expected = format!(
        "\"{q} {b} {n} {r} {t} {bs} {f} {z} {us} / < \u{e9} \u{2028} \u{1F600}\"",
        q = backslash("\""),
        b = backslash("\\"),
        n = backslash("n"),
        r = backslash("r"),
        t = backslash("t"),
        bs = backslash("b"),
        f = backslash("f"),
        z = backslash("u0000"),
        us = backslash("u001f"),
    );
    assert_eq!(String::from_utf8(escape_string_json(all)).unwrap(), expected);
}

#[test]
fn escapes_of_the_other_modes() {
    let text = "a<b>&c/d \u{e9} \u{2028}\u{2029} \u{20ac} \u{1F600}\n";
    let html = format!(
        "\"a{lt}b{gt}{amp}c{sl}d \u{e9} {ls}{ps} \u{20ac} \u{1F600}{n}\"",
        lt = backslash("u003c"),
        gt = backslash("u003e"),
        amp = backslash("u0026"),
        sl = backslash("/"),
        ls = backslash("u2028"),
        ps = backslash("u2029"),
        n = backslash("n"),
    );
    assert_eq!(String::from_utf8(escape_string_html(text)).unwrap(), html);
    let js = format!(
        "\"a<b>&c/d \u{e9} {ls}{ps} \u{20ac} \u{1F600}{n}\"",
        ls = backslash("u2028"),
        ps = backslash("u2029"),
        n = backslash("n"),
    );
    assert_eq!(String::from_utf8(escape_string_javascript(text)).unwrap(), js);
    let unicode = format!(
        "\"a<b>&c/d {e9} {ls}{ps} {euro} {hi}{lo}{n}\"",
        e9 = backslash("u00e9"),
        ls = backslash("u2028"),
        ps = backslash("u2029"),
        euro = backslash("u20ac"),
        hi = backslash("ud83d"),
        lo = backslash("ude00"),
        n = backslash("n"),
    );
    let out = escape_string_unicode(text);
    assert!(out.is_ascii());
    assert_eq!(String::from_utf8(out).unwrap(), unicode);
    let mut buf = b"x".to_vec();
    write_json_string_escaped_pub("<", &mut buf, EscapeMode::HtmlSafe).unwrap();
    assert_eq!(String::from_utf8(buf).unwrap(), format!("x\"{}\"", backslash("u003c")));
}

#[test]
fn long_strings_are_escaped_across_chunks() {
    let text = format!("{}\"{}\u{e9}{}<{}", "a".repeat(31), "b".repeat(17), "c".repeat(40), "d".repeat(3));
    let expected = format!("\"{}{}{}\u{e9}{}<{}\"", "a".repeat(31), backslash("\""), "b".repeat(17), "c".repeat(40), "d".repeat(3));
    assert_eq!(String::from_utf8(escape_string_json(&text)).unwrap(), expected);
    let html = format!(
        "\"{}{}{}\u{e9}{}{}{}\"",
        "a".repeat(31),
        backslash("\""),
        "b".repeat(17),
        "c".repeat(40),
        backslash("u003c"),
        "d".repeat(3)
    );
    assert_eq!(String::from_utf8(escape_string_html(&text)).unwrap(), html);
}

#[test]
fn every_mode_reads_back_as_the_string() {
    let samples = [
        "",
        "plain",
        "\" \\ / \x08 \x0c \n \r \t \x00 \x1f \x7f",
        "<a href=\"x\">&amp;</a>",
        "\u{e9}\u{df}\u{7ff}\u{800}\u{2027}\u{2028}\u{2029}\u{202a}\u{e000}\u{ffff}",
        "\u{10000}\u{1F600}\u{10ffff}",
        "mixed \u{e2}\u{80} text \u{1F600}/",
    ];
    for s in samples {
        for out in [escape_string_json(s), escape_string_html(s), escape_string_unicode(s), escape_string_javascript(s)] {
            assert_eq!(json_to_term(&out, DecodeOptions::default()).unwrap(), bin(s), "{:?}", s);
        }
    }
}

#[test]
fn encodes_containers() {
    assert_eq!(encode(&Term::List(vec![])), "[]");
    assert_eq!(encode(&Term::Tuple(vec![])), "[]");
    assert_eq!(encode(&Term::Mapping(vec![])), "{}");
    assert_eq!(encode(&Term::Tuple(vec![Term::Integer(1), atom("nil")])), "[1,null]");
    assert_eq!(
        encode(&Term::Mapping(vec![
            (atom("a"), Term::Integer(1)),
            (bin("b"), Term::List(vec![atom("true")])),
            (Term::Integer(-7), bin("x")),
            (Term::Unsigned(9), bin("y")),
        ])),
        r#"{"a":1,"b":[true],"-7":"x","9":"y"}"#
    );
    assert_eq!(
        encode_err(&Term::Mapping(vec![(Term::List(vec![]), Term::Integer(1))])),
        ErrorKind::InvalidMapKeyType
    );
    assert_eq!(
        encode_err(&Term::Mapping(vec![(Term::Unsigned(u64::MAX), Term::Integer(1))])),
        ErrorKind::InvalidMapKeyType
    );
    assert_eq!(
        encode_err(&Term::Mapping(vec![(Term::Float(b"1.5".to_vec()), Term::Integer(1))])),
        ErrorKind::InvalidMapKeyType
    );
    assert_eq!(
        encode_err(&Term::Mapping(vec![(Term::Binary(vec![0xff]), Term::Integer(1))])),
        ErrorKind::InvalidUtf8
    );
    assert_eq!(encode_err(&Term::List(vec![Term::Integer(1), Term::Other])), ErrorKind::UnsupportedTerm);
}

#[test]
fn nesting_limit_of_the_encoder() {
    let mut term = Term::Integer(1);
    for _ in 0..128 {
        term = Term::List(vec![term]);
    }
    assert_eq!(encode(&term), format!("{}1{}", "[".repeat(128), "]".repeat(128)));
    let deeper = Term::List(vec![term]);
    assert_eq!(encode_err(&deeper), ErrorKind::NestingDepthExceeded);
}

#[test]
fn pretty_output() {
    let ctx = FormatContext::default();
    let term = Term::Mapping(vec![
        (bin("a"), Term::List(vec![Term::Integer(1), Term::Mapping(vec![(bin("b"), Term::List(vec![]))])])),
        (bin("c"), Term::Mapping(vec![])),
    ]);
    let out = encode_in(&term, &ctx, true, false, EscapeMode::Json).unwrap();
    assert_eq!(out, "{\n  \"a\": [\n    1,\n    {\n      \"b\": []\n    }\n  ],\n  \"c\": {}\n}");
    let range = record("Elixir.Range", vec![("first", Term::Integer(1)), ("last", Term::Integer(3)), ("step", Term::Integer(-1))]);
    let out = encode_in(&range, &ctx, true, false, EscapeMode::Json).unwrap();
    assert_eq!(out, "{\n  \"first\": 1,\n  \"last\": 3,\n  \"step\": -1\n}");
    let set = record("Elixir.MapSet", vec![("map", Term::Mapping(vec![]))]);
    assert_eq!(encode_in(&set, &ctx, true, false, EscapeMode::Json).unwrap(), "[\n]");
}

#[test]
fn strict_keys_reject_a_key_that_comes_twice() {
    let term = Term::Mapping(vec![(atom("a"), Term::Integer(1)), (bin("a"), Term::Integer(2))]);
    assert_eq!(encode(&term), r#"{"a":1,"a":2}"#);
    let ctx = FormatContext { strict_keys: true, ..FormatContext::default() };
    assert_eq!(encode_in(&term, &ctx, false, false, EscapeMode::Json), Err(ErrorKind::DuplicateOutputKey));
    let numbers = Term::Mapping(vec![(Term::Integer(1), Term::Integer(1)), (bin("1"), Term::Integer(2))]);
    assert_eq!(encode_in(&numbers, &ctx, false, false, EscapeMode::Json), Err(ErrorKind::DuplicateOutputKey));
    let fine = Term::Mapping(vec![(atom("a"), Term::Integer(1)), (bin("b"), Term::Integer(2))]);
    assert_eq!(encode_in(&fine, &ctx, false, false, EscapeMode::Json).unwrap(), r#"{"a":1,"b":2}"#);
    let sorted = FormatContext { strict_keys: true, sort_keys: true, ..FormatContext::default() };
    assert_eq!(encode_in(&term, &sorted, false, false, EscapeMode::Json), Err(ErrorKind::DuplicateOutputKey));
}

#[test]
fn sorted_keys_come_in_byte_order() {
    let ctx = FormatContext { sort_keys: true, ..FormatContext::default() };
    let term = Term::Mapping(vec![
        (bin("b"), Term::Integer(1)),
        (atom("a"), Term::Integer(2)),
        (bin("B"), Term::Integer(3)),
        (Term::Integer(10), Term::Integer(4)),
        (bin("ab"), Term::Integer(5)),
        (atom("__struct__"), atom("Unknown")),
        (bin(""), Term::Integer(6)),
        (atom("a"), Term::Integer(7)),
        (bin("\u{e9}"), Term::Integer(8)),
    ]);
    assert_eq!(
        encode_in(&term, &ctx, false, false, EscapeMode::Json).unwrap(),
        "{\"\":6,\"10\":4,\"B\":3,\"a\":2,\"a\":7,\"ab\":5,\"b\":1,\"\u{e9}\":8}"
    );
    assert_eq!(encode_in(&Term::Mapping(vec![]), &ctx, false, false, EscapeMode::Json).unwrap(), "{}");
    let only_name = Term::Mapping(vec![(atom("__struct__"), atom("Unknown"))]);
    assert_eq!(encode_in(&only_name, &ctx, false, false, EscapeMode::Json).unwrap(), "{}");
    assert_eq!(
        encode_in(&term, &ctx, true, false, EscapeMode::Json).unwrap().lines().count(),
        10
    );
    let bad = Term::Mapping(vec![(bin("b"), Term::Other), (bin("a"), Term::List(vec![]))]);
    assert_eq!(encode_in(&bad, &ctx, false, false, EscapeMode::Json), Err(ErrorKind::UnsupportedTerm));
}

#[test]
fn decimals() {
    assert_eq!(format_decimal(0, 0, 1), "0");
    assert_eq!(format_decimal(5, 0, -1), "-5");
    assert_eq!(format_decimal(12345, -5, 1), "0.12345");
    assert_eq!(format_decimal(12345, -1, 1), "1234.5");
    assert_eq!(format_decimal(7, 2, -1), "-700");
    assert_eq!(format_decimal(i128::MAX, -3, 1), "170141183460469231731687303715884105.727");
    let d = record("Elixir.Decimal", vec![("coef", Term::Integer(12345)), ("exp", Term::Integer(-2)), ("sign", Term::Integer(-1))]);
    assert_eq!(try_format_decimal(&d), Some("-123.45".to_string()));
    assert_eq!(encode(&d), "\"-123.45\"");
    let big = record(
        "Elixir.Decimal",
        vec![("coef", Term::BigInteger(b"100000000000000000000000000000".to_vec())), ("exp", Term::Integer(-30)), ("sign", Term::Integer(1))],
    );
    assert_eq!(encode(&big), "\"0.100000000000000000000000000000\"");
    let not_decimal = record("Elixir.Other", vec![("coef", Term::Integer(1)), ("exp", Term::Integer(0)), ("sign", Term::Integer(1))]);
    assert_eq!(try_format_decimal(&not_decimal), None);
    assert_eq!(try_format_decimal(&Term::Integer(1)), None);
    // A coefficient beyond 128 bits is no decimal: the record is written as a mapping.
    let too_big = record(
        "Elixir.Decimal",
        vec![("coef", Term::BigInteger(b"340282366920938463463374607431768211456".to_vec())), ("exp", Term::Integer(0)), ("sign", Term::Integer(1))],
    );
    assert_eq!(try_format_decimal(&too_big), None);
    assert_eq!(encode(&too_big), r#"{"coef":340282366920938463463374607431768211456,"exp":0,"sign":1}"#);
    let lean = encode_in(&d, &FormatContext::default(), false, true, EscapeMode::Json).unwrap();
    assert_eq!(lean, r#"{"coef":12345,"exp":-2,"sign":-1}"#);
}

#[test]
fn dates_and_times() {
    let date = |y: i64, m: i64, d: i64| record("Elixir.Date", vec![("year", Term::Integer(y)), ("month", Term::Integer(m)), ("day", Term::Integer(d)), ("calendar", atom("Elixir.Calendar.ISO"))]);
    assert_eq!(encode(&date(2024, 2, 29)), "\"2024-02-29\"");
    assert_eq!(encode(&date(5, 1, 1)), "\"0005-01-01\"");
    assert_eq!(encode(&date(-44, 3, 15)), "\"-0044-03-15\"");
    let time = |h: i64, m: i64, s: i64, us: i64, p: i64| {
        vec![
            ("hour", Term::Integer(h)),
            ("minute", Term::Integer(m)),
            ("second", Term::Integer(s)),
            ("microsecond", Term::Tuple(vec![Term::Integer(us), Term::Integer(p)])),
        ]
    };
    assert_eq!(encode(&record("Elixir.Time", time(7, 5, 9, 0, 0))), "\"07:05:09\"");
    assert_eq!(encode(&record("Elixir.Time", time(23, 59, 59, 123456, 6))), "\"23:59:59.123456\"");
    assert_eq!(encode(&record("Elixir.Time", time(1, 2, 3, 120000, 3))), "\"01:02:03.120\"");
    assert_eq!(encode(&record("Elixir.Time", time(1, 2, 3, 7, 6))), "\"01:02:03.000007\"");
    let mut naive = time(13, 0, 1, 500000, 1);
    naive.extend(vec![("year", Term::Integer(1999)), ("month", Term::Integer(12)), ("day", Term::Integer(31))]);
    assert_eq!(encode(&record("Elixir.NaiveDateTime", naive)), "\"1999-12-31T13:00:01.5\"");
    let with_zone = |std: i64, utc: i64| {
        let mut f = time(8, 30, 0, 0, 0);
        f.extend(vec![
            ("year", Term::Integer(2020)),
            ("month", Term::Integer(6)),
            ("day", Term::Integer(1)),
            ("std_offset", Term::Integer(std)),
            ("utc_offset", Term::Integer(utc)),
        ]);
        record("Elixir.DateTime", f)
    };
    assert_eq!(encode(&with_zone(0, 0)), "\"2020-06-01T08:30:00Z\"");
    assert_eq!(encode(&with_zone(3600, 3600)), "\"2020-06-01T08:30:00+02:00\"");
    assert_eq!(encode(&with_zone(0, -12600)), "\"2020-06-01T08:30:00-03:30\"");
    assert_eq!(encode(&with_zone(3600, -3600)), "\"2020-06-01T08:30:00Z\"");
    // A field that is missing or unfit leaves a plain mapping.
    let broken = record("Elixir.Date", vec![("year", Term::Integer(2024)), ("month", bin("2")), ("day", Term::Integer(1))]);
    assert_eq!(encode(&broken), r#"{"year":2024,"month":"2","day":1}"#);
    let no_precision = record("Elixir.Time", time(1, 2, 3, 4, 7));
    assert_eq!(encode(&no_precision), r#"{"hour":1,"minute":2,"second":3,"microsecond":[4,7]}"#);
}

#[test]
fn uris() {
    let uri = |fields: Vec<(&str, Term)>| record("Elixir.URI", fields);
    assert_eq!(
        encode(&uri(vec![
            ("scheme", bin("https")),
            ("userinfo", bin("me")),
            ("host", bin("example.com")),
            ("port", Term::Integer(8443)),
            ("path", bin("/a b")),
            ("query", bin("q=\"1\"")),
            ("fragment", bin("top")),
        ])),
        format!("\"https://me@example.com:8443/a b?q={0}\"1{0}\"#top\"", '\\')
    );
    assert_eq!(
        encode(&uri(vec![("scheme", bin("http")), ("host", bin("h")), ("port", Term::Integer(80)), ("path", atom("nil"))])),
        "\"http://h\""
    );
    assert_eq!(
        encode(&uri(vec![("scheme", bin("https")), ("host", bin("h")), ("port", Term::Integer(443))])),
        "\"https://h\""
    );
    assert_eq!(
        encode(&uri(vec![("scheme", bin("https")), ("host", bin("h")), ("port", Term::Integer(80))])),
        "\"https://h:80\""
    );
    assert_eq!(encode(&uri(vec![("host", bin("h")), ("port", Term::Integer(80))])), "\"h:80\"");
    assert_eq!(encode(&uri(vec![])), "\"\"");
    let html = encode_in(&uri(vec![("path", bin("/a"))]), &FormatContext::default(), false, false, EscapeMode::HtmlSafe).unwrap();
    assert_eq!(html, format!("\"{}/a\"", '\\'));
}

#[test]
fn sets_ranges_and_fragments() {
    let set = record(
        "Elixir.MapSet",
        vec![("map", Term::Mapping(vec![(Term::Integer(1), Term::List(vec![])), (bin("x"), Term::List(vec![]))]))],
    );
    assert_eq!(encode(&set), "[1,\"x\"]");
    let no_map = record("Elixir.MapSet", vec![("map", Term::Integer(1))]);
    assert_eq!(encode(&no_map), r#"{"map":1}"#);
    let bad_element = record("Elixir.MapSet", vec![("map", Term::Mapping(vec![(Term::Other, Term::List(vec![]))]))]);
    assert_eq!(encode_err(&bad_element), ErrorKind::UnsupportedTerm);
    let range = record("Elixir.Range", vec![("first", Term::Integer(-3)), ("last", Term::Integer(3))]);
    assert_eq!(encode(&range), r#"{"first":-3,"last":3}"#);
    let open_range = record("Elixir.Range", vec![("first", Term::Integer(1))]);
    assert_eq!(encode(&open_range), r#"{"first":1}"#);
    for name in ["Elixir.RustyJson.Fragment", "Elixir.Jason.Fragment"] {
        let fragment = record(
            name,
            vec![(
                "encode",
                Term::List(vec![bin("{\"a\":"), Term::List(vec![Term::Integer(49), bin(",")]), Term::Integer(50), bin("}")]),
            )],
        );
        let wrapped = Term::List(vec![fragment]);
        assert_eq!(encode(&wrapped), "[{\"a\":1,2}]");
    }
    let raw = record("Elixir.RustyJson.Fragment", vec![("encode", Term::Binary(vec![0xff, 0x00]))]);
    let mut out = Vec::new();
    let ctx = FormatContext::default();
    term_to_json(&raw, &mut out, FormatOptions::compact(&ctx)).unwrap();
    assert_eq!(out, vec![0xff, 0x00]);
    let bad = record("Elixir.RustyJson.Fragment", vec![("encode", Term::Integer(256))]);
    assert_eq!(encode_err(&bad), ErrorKind::UnsupportedTerm);
    let none = record("Elixir.RustyJson.Fragment", vec![("other", Term::Integer(1))]);
    assert_eq!(encode(&none), r#"{"other":1}"#);
}

#[test]
fn decoded_values_encode_and_decode_back() {
    let documents = [
        r#"null"#,
        r#"[true,false,null,0,-1,1.5e300,18446744073709551615,123456789012345678901234567890]"#,
        "{\"a\":{\"b\":{\"c\":[[],{},[{}]]}},\"\":\"\",\"k\\n\":\"v\\t\",\"\u{e9}\":\"\u{1F600}\"}",
        r#"[{"id":1,"name":"x"},{"id":2,"name":"y"},{"name":"z","id":3}]"#,
        r#""\u0000\u001f\"\\/""#,
    ];
    for doc in documents {
        let value = json_to_term(doc.as_bytes(), DecodeOptions::default()).unwrap();
        let ctx = FormatContext::default();
        for escape in [EscapeMode::Json, EscapeMode::HtmlSafe, EscapeMode::UnicodeSafe, EscapeMode::JavaScriptSafe] {
            for pretty in [false, true] {
                let text = encode_in(&value, &ctx, pretty, false, escape).unwrap();
                let again = json_to_term(text.as_bytes(), DecodeOptions::default()).unwrap();
                assert_eq!(again, value, "{} as {}", doc, text);
            }
        }
    }
}

#[test]
fn format_options_accessors() {
    let ctx = FormatContext { strict_keys: true, sort_keys: true, ..FormatContext::default() };
    let opts = FormatOptions::pretty(&ctx).with_lean(true).with_escape(EscapeMode::UnicodeSafe);
    assert!(opts.is_pretty());
    assert!(opts.is_lean());
    assert!(opts.strict_keys());
    assert!(opts.sort_keys());
    assert!(opts.escape_mode() == EscapeMode::UnicodeSafe);
    assert_eq!(opts.depth, 0);
    let inner = opts.nested().nested();
    assert_eq!(inner.depth, 2);
    let mut out = Vec::new();
    inner.write_newline(&mut out);
    inner.write_space(&mut out);
    assert_eq!(out, b"\n     ".to_vec());
    let compact = FormatOptions::compact(&ctx);
    assert!(!compact.is_pretty());
    assert!(compact.escape_mode() == EscapeMode::Json);
    let mut out = Vec::new();
    compact.nested().write_newline(&mut out);
    compact.write_space(&mut out);
    assert!(out.is_empty());
    assert!(EscapeMode::from_term(&atom("html_safe")) == EscapeMode::HtmlSafe);
    assert!(EscapeMode::from_term(&atom("unicode_safe")) == EscapeMode::UnicodeSafe);
    assert!(EscapeMode::from_term(&atom("javascript_safe")) == EscapeMode::JavaScriptSafe);
    assert!(EscapeMode::from_term(&atom("json")) == EscapeMode::Json);
    assert!(EscapeMode::from_term(&bin("html_safe")) == EscapeMode::Json);
}

#[test]
fn binary_writer_grows_and_ends_exact() {
    let mut w = NifBinaryWriter::new(0);
    assert_eq!(w.inner.len(), 0);
    w.write_all(b"abc").unwrap();
    assert_eq!(w.inner.len(), 128);
    assert_eq!(w.pos, 3);
    assert_eq!(w.write(&[b'x'; 125]).unwrap(), 125);
    assert_eq!(w.inner.len(), 128);
    w.write_all(b"y").unwrap();
    assert_eq!(w.inner.len(), 256);
    w.write_all(&[b'z'; 1000]).unwrap();
    assert_eq!(w.inner.len(), 1129);
    w.flush().unwrap();
    w.reserve(10).unwrap();
    assert_eq!(w.inner.len(), 2258);
    assert_eq!(w.reserve(usize::MAX).unwrap_err().kind, ErrorKind::IoOrAllocation);
    let out = w.into_binary();
    assert_eq!(out.len(), 1129);
    assert_eq!(&out[..4], b"abcx");
    assert_eq!(out[128], b'y');
    assert_eq!(out[1128], b'z');
    let exact = NifBinaryWriter::new(4);
    assert_eq!(exact.into_binary(), Vec::<u8>::new());
}
