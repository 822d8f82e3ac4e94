use rustyjson::compression::{get_writer, Algs, Writer};
use rustyjson::direct_decode::{json_to_term, DecodeOptions};
use rustyjson::direct_json::{term_to_json, EscapeMode, FormatContext, FormatOptions};
use rustyjson::error::ErrorKind;
use rustyjson::term::Term;
use rustyjson::{decode_impl, encode_direct_impl, encode_fields_impl};

fn bin(s: &str) -> Term {
    Term::Binary(s.as_bytes().to_vec())
}

fn atom(s: &str) -> Term {
    Term::Atom(s.as_bytes().to_vec())
}

fn decode(input: &str) -> Result<Term, rustyjson::error::DecodeError> {
    json_to_term(input.as_bytes(), DecodeOptions::default())
}

fn encode_with(term: &Term, escape: EscapeMode) -> String {
    let ctx = FormatContext::default();
    let opts = FormatOptions::compact(&ctx).with_escape(escape);
    let mut out = Vec::new();
    term_to_json(term, &mut out, opts).unwrap();
    String::from_utf8(out).unwrap()
}

fn encode(term: &Term) -> String {
    encode_with(term, EscapeMode::Json)
}

fn options(pairs: Vec<(&str, Term)>) -> Term {
    Term::Mapping(pairs.into_iter().map(|(k, v)| (atom(k), v)).collect())
}

#[test]
fn object_with_nested_array_decodes_and_encodes_back() {
    let input = r#"{"a":1,"b":[2,3]}"#;
    let term = decode(input).unwrap();
    assert_eq!(
        term,
        Term::Mapping(vec![
            (bin("a"), Term::Integer(1)),
            (bin("b"), Term::List(vec![Term::Integer(2), Term::Integer(3)])),
        ])
    );
    assert_eq!(encode(&term), input);
}

#[test]
fn surrogate_pair_decodes_to_one_emoji() {
    let term = decode(r#""\uD83D\uDE00""#).unwrap();
    assert_eq!(term, Term::Binary(vec![0xF0, 0x9F, 0x98, 0x80]));
    assert_eq!(encode_with(&term, EscapeMode::UnicodeSafe), r#""\ud83d\ude00""#);
    let mut out = Vec::new();
    let ctx = FormatContext::default();
    term_to_json(&term, &mut out, FormatOptions::compact(&ctx)).unwrap();
    assert_eq!(out, vec![0x22, 0xF0, 0x9F, 0x98, 0x80, 0x22]);
}

#[test]
fn lone_high_surrogate_is_rejected() {
    let err = decode(r#""\uD83D""#).unwrap_err();
    assert_eq!(err.kind, ErrorKind::LoneSurrogate);
    assert_eq!(err.offset, 0);
}

#[test]
fn lone_low_surrogate_is_rejected() {
    let err = decode(r#"["\uDE00"]"#).unwrap_err();
    assert_eq!(err.kind, ErrorKind::LoneSurrogate);
    assert_eq!(err.offset, 1);
}

#[test]
fn one_past_i64_max_keeps_its_digits() {
    let term = decode("9223372036854775808").unwrap();
    assert_eq!(term, Term::Unsigned(9223372036854775808));
    assert_eq!(encode(&term), "9223372036854775808");
}

#[test]
fn integers_beyond_64_bits_keep_their_digits() {
    let digits = "123456789012345678901234567890";
    let term = decode(digits).unwrap();
    assert_eq!(term, Term::BigInteger(digits.as_bytes().to_vec()));
    assert_eq!(encode(&term), digits);
    let negative = "-18446744073709551616";
    let term = decode(negative).unwrap();
    assert_eq!(term, Term::BigInteger(negative.as_bytes().to_vec()));
    assert_eq!(encode(&term), negative);
}

#[test]
fn big_integer_digits_are_written_canonically() {
    assert_eq!(encode(&Term::BigInteger(b"000123456789012345678901234567890".to_vec())),
        "123456789012345678901234567890");
    let ctx = FormatContext::default();
    let mut out = Vec::new();
    let err = term_to_json(&Term::BigInteger(b"12x".to_vec()), &mut out, FormatOptions::compact(&ctx))
        .unwrap_err();
    assert_eq!(err.kind, ErrorKind::UnsupportedTerm);
}

#[test]
fn fraction_becomes_a_decimal_record() {
    let opts = DecodeOptions { floats_decimals: true, ..DecodeOptions::default() };
    let term = json_to_term(b"0.1", opts).unwrap();
    assert_eq!(
        term,
        Term::Mapping(vec![
            (atom("__struct__"), atom("Elixir.Decimal")),
            (atom("coef"), Term::Integer(1)),
            (atom("exp"), Term::Integer(-1)),
            (atom("sign"), Term::Integer(1)),
        ])
    );
    assert_eq!(encode(&term), "\"0.1\"");
}

#[test]
fn decimal_records_of_other_literals() {
    let opts = DecodeOptions { floats_decimals: true, ..DecodeOptions::default() };
    let fields = |input: &str| match json_to_term(input.as_bytes(), opts).unwrap() {
        Term::Mapping(entries) => (entries[1].1.duplicate(), entries[2].1.duplicate(), entries[3].1.duplicate()),
        other => panic!("no record: {:?}", other),
    };
    assert_eq!(fields("-12.50"), (Term::Integer(1250), Term::Integer(-2), Term::Integer(-1)));
    assert_eq!(fields("1e3"), (Term::Integer(1), Term::Integer(3), Term::Integer(1)));
    assert_eq!(fields("0.00123E+2"), (Term::Integer(123), Term::Integer(-3), Term::Integer(1)));
    assert_eq!(fields("0.0"), (Term::Integer(0), Term::Integer(-1), Term::Integer(1)));
    let err = json_to_term(b"1e99999999999999999999", opts).unwrap_err();
    assert_eq!(err.kind, ErrorKind::InvalidNumber);
    // An integer stays an integer.
    assert_eq!(json_to_term(b"12", opts).unwrap(), Term::Integer(12));
}

#[test]
fn floats_keep_their_literal() {
    assert_eq!(decode("1.5e3").unwrap(), Term::Float(b"1.5e3".to_vec()));
    assert_eq!(encode(&Term::Float(b"1.5".to_vec())), "1.5");
    let ctx = FormatContext::default();
    for text in ["NaN", "inf", "-inf", "1.", ""] {
        let mut out = Vec::new();
        let err = term_to_json(&Term::Float(text.as_bytes().to_vec()), &mut out, FormatOptions::compact(&ctx))
            .unwrap_err();
        assert_eq!(err.kind, ErrorKind::NonFiniteFloat);
    }
}

#[test]
fn objects_of_one_shape_in_an_array() {
    let term = decode(r#"[{"k":1},{"k":2},{"k":3}]"#).unwrap();
    let obj = |n: i64| Term::Mapping(vec![(bin("k"), Term::Integer(n))]);
    assert_eq!(term, Term::List(vec![obj(1), obj(2), obj(3)]));
}

#[test]
fn shape_mismatch_falls_back_to_the_generic_parse() {
    let term = decode(r#"[{"k":1},{"j":2},{"k":3}]"#).unwrap();
    assert_eq!(
        term,
        Term::List(vec![
            Term::Mapping(vec![(bin("k"), Term::Integer(1))]),
            Term::Mapping(vec![(bin("j"), Term::Integer(2))]),
            Term::Mapping(vec![(bin("k"), Term::Integer(3))]),
        ])
    );
    // Fewer keys, more keys, another order, and an empty object.
    let term = decode(r#"[{"a":1,"b":[2]},{"a":1},{"a":1,"b":2,"c":3},{"b":1,"a":2},{}]"#).unwrap();
    assert_eq!(
        term,
        Term::List(vec![
            Term::Mapping(vec![(bin("a"), Term::Integer(1)), (bin("b"), Term::List(vec![Term::Integer(2)]))]),
            Term::Mapping(vec![(bin("a"), Term::Integer(1))]),
            Term::Mapping(vec![
                (bin("a"), Term::Integer(1)),
                (bin("b"), Term::Integer(2)),
                (bin("c"), Term::Integer(3)),
            ]),
            Term::Mapping(vec![(bin("b"), Term::Integer(1)), (bin("a"), Term::Integer(2))]),
            Term::Mapping(vec![]),
        ])
    );
}

#[test]
fn html_safe_mode_escapes_inside_a_mapping() {
    let term = Term::Mapping(vec![(atom("a"), bin("<script>"))]);
    assert_eq!(encode_with(&term, EscapeMode::HtmlSafe), r#"{"a":"\u003cscript\u003e"}"#);
}

#[test]
fn range_with_step_one_leaves_the_step_out() {
    let range = |step: i64| {
        Term::Mapping(vec![
            (atom("__struct__"), atom("Elixir.Range")),
            (atom("step"), Term::Integer(step)),
            (atom("first"), Term::Integer(1)),
            (atom("last"), Term::Integer(5)),
        ])
    };
    assert_eq!(encode(&range(1)), r#"{"first":1,"last":5}"#);
    assert_eq!(encode(&range(2)), r#"{"first":1,"last":5,"step":2}"#);
}

#[test]
fn decode_through_the_option_mapping() {
    let opts = options(vec![("floats_decimals", atom("true")), ("max_bytes", Term::Integer(3))]);
    assert!(decode_impl(b"1.5", &opts).is_ok());
    let err = decode_impl(b"1.25", &opts).unwrap_err();
    assert_eq!(err.kind, ErrorKind::InputTooLarge);
    assert_eq!(err.offset, 0);
    let none = Term::Mapping(vec![]);
    assert_eq!(decode_impl(b" [true, false, null] ", &none).unwrap(),
        Term::List(vec![atom("true"), atom("false"), atom("nil")]));
}

#[test]
fn encode_through_the_option_mapping() {
    let term = Term::Mapping(vec![(bin("a"), Term::List(vec![Term::Integer(1), Term::Integer(2)]))]);
    let compact = encode_direct_impl(&term, &Term::Mapping(vec![])).unwrap();
    assert_eq!(String::from_utf8(compact).unwrap(), r#"{"a":[1,2]}"#);
    let pretty = encode_direct_impl(&term, &options(vec![("indent", Term::Integer(2))])).unwrap();
    assert_eq!(String::from_utf8(pretty).unwrap(), "{\n  \"a\": [\n    1,\n    2\n  ]\n}");
    let custom = options(vec![
        ("indent", Term::Integer(1)),
        (
            "pretty_opts",
            options(vec![
                ("line_separator", bin("\r\n")),
                ("after_colon", bin("")),
                ("indent", bin("\t")),
            ]),
        ),
    ]);
    let out = encode_direct_impl(&term, &custom).unwrap();
    assert_eq!(String::from_utf8(out).unwrap(), "{\r\n\t\"a\":[\r\n\t\t1,\r\n\t\t2\r\n\t]\r\n}");
    let wide = encode_direct_impl(&Term::List(vec![Term::Integer(1)]), &options(vec![("indent", Term::Integer(4))]))
        .unwrap();
    assert_eq!(String::from_utf8(wide).unwrap(), "[\n    1\n]");
}

#[test]
fn gzip_output_is_a_gzip_stream_of_the_json() {
    let term = Term::List((0..200).map(Term::Integer).collect());
    let plain = encode_direct_impl(&term, &Term::Mapping(vec![])).unwrap();
    let opts = options(vec![("compression", Term::Tuple(vec![atom("gzip"), Term::Integer(9)]))]);
    let packed = encode_direct_impl(&term, &opts).unwrap();
    assert_eq!(&packed[..2], &[0x1f, 0x8b]);
    assert_ne!(packed, plain);
    assert!(packed.len() < plain.len());
    let default_level = options(vec![("compression", Term::Tuple(vec![atom("gzip"), atom("nil")]))]);
    let packed = encode_direct_impl(&term, &default_level).unwrap();
    assert_eq!(&packed[..2], &[0x1f, 0x8b]);
    let mut unpacked = Vec::new();
    std::io::Read::read_to_end(&mut flate2::read::GzDecoder::new(&packed[..]), &mut unpacked).unwrap();
    assert_eq!(unpacked, plain);
}

#[test]
fn gzip_levels_above_the_highest() {
    let term = Term::List((0..500).map(Term::Integer).collect());
    let at = |level: i64| {
        let opts = options(vec![("compression", Term::Tuple(vec![atom("gzip"), Term::Integer(level)]))]);
        encode_direct_impl(&term, &opts).unwrap()
    };
    // A level above the highest is taken as the highest.
    assert_eq!(at(11), at(10));
    assert_eq!(at(255), at(10));
    assert_eq!(at(100_000), at(10));
    assert_ne!(at(1), at(10));
    assert_eq!(rustyjson::compression::gzip_level(0), 0);
    assert_eq!(rustyjson::compression::gzip_level(10), 10);
    assert_eq!(rustyjson::compression::gzip_level(11), 10);
    assert_eq!(rustyjson::compression::gzip_level(4_000_000_000), 10);
    let mut gz = get_writer(Some((Algs::Gzip, Some(77))));
    gz.write_all(b"abcabcabcabc").unwrap();
    let out = gz.get_buf().unwrap();
    let mut unpacked = Vec::new();
    std::io::Read::read_to_end(&mut flate2::read::GzDecoder::new(&out[..]), &mut unpacked).unwrap();
    assert_eq!(unpacked, b"abcabcabcabc".to_vec());
}

#[test]
fn writers_hand_out_what_was_written() {
    let mut plain = get_writer(None);
    plain.write_all(b"abc").unwrap();
    assert_eq!(plain.write(b"de").unwrap(), 2);
    plain.flush().unwrap();
    assert_eq!(plain.get_buf().unwrap(), b"abcde".to_vec());
    let mut other = get_writer(Some((Algs::Uncompressed, Some(3))));
    other.write_all(b"x").unwrap();
    assert!(matches!(other, Writer::Plain(_)));
    assert_eq!(other.get_buf().unwrap(), b"x".to_vec());
    let mut gz = get_writer(Some((Algs::Gzip, None)));
    gz.write_all(b"hello hello hello").unwrap();
    let out = gz.get_buf().unwrap();
    assert_eq!(&out[..2], &[0x1f, 0x8b]);
}

#[test]
fn struct_fields_shortcut() {
    let keys = Term::List(vec![bin("\"name\":"), bin("\"age\":"), bin("\"raw\":"), bin("\"ok\":")]);
    let values = Term::List(vec![
        bin("A<b"),
        Term::Integer(7),
        Term::Tuple(vec![atom("__pre_encoded__"), bin("[1,2]")]),
        atom("nil"),
    ]);
    let out = encode_fields_impl(&keys, &values, &atom("html_safe"), &atom("false")).unwrap();
    assert_eq!(String::from_utf8(out).unwrap(), r#"{"name":"A\u003cb","age":7,"raw":[1,2],"ok":null}"#);
    let short = Term::List(vec![bin("1")]);
    let err = encode_fields_impl(&keys, &short, &atom("json"), &atom("false")).unwrap_err();
    assert_eq!(err.kind, ErrorKind::UnsupportedTerm);
    let bad = Term::List(vec![atom("other"), Term::Integer(1), Term::Integer(1), Term::Integer(1)]);
    assert_eq!(
        encode_fields_impl(&keys, &bad, &atom("json"), &atom("false")).unwrap_err().kind,
        ErrorKind::UnsupportedTerm
    );
}
