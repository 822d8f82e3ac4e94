use rustyjson::direct_decode::bench_helpers;
use rustyjson::direct_decode::{json_to_term, DecodeOptions, DirectParser};
use rustyjson::error::{DecodeError, ErrorKind};
use rustyjson::decode_checked;
use rustyjson::floats::float_literal_ranges;
use rustyjson::term::Term;

fn bin(s: &str) -> Term {
    Term::Binary(s.as_bytes().to_vec())
}

fn atom(s: &str) -> Term {
    Term::Atom(s.as_bytes().to_vec())
}

fn decode(input: &[u8]) -> Result<Term, DecodeError> {
    json_to_term(input, DecodeOptions::default())
}

fn failure(input: &[u8]) -> (ErrorKind, usize) {
    let e = decode(input).unwrap_err();
    (e.kind, e.offset)
}

#[test]
fn default_options() {
    let o = DecodeOptions::default();
    assert!(!o.intern_keys);
    assert!(!o.floats_decimals);
    assert!(!o.ordered_objects);
    assert_eq!(o.integer_digit_limit, 1024);
    assert_eq!(o.max_bytes, 0);
    assert!(!o.reject_duplicate_keys);
    assert!(o.validate_strings);
}

#[test]
fn decodes_scalars() {
    assert_eq!(decode(b"null").unwrap(), atom("nil"));
    assert_eq!(decode(b"true").unwrap(), atom("true"));
    assert_eq!(decode(b"false").unwrap(), atom("false"));
    assert_eq!(decode(b"0").unwrap(), Term::Integer(0));
    assert_eq!(decode(b"-0").unwrap(), Term::Integer(0));
    assert_eq!(decode(b"-9223372036854775808").unwrap(), Term::Integer(i64::MIN));
    assert_eq!(decode(b"9223372036854775807").unwrap(), Term::Integer(i64::MAX));
    assert_eq!(decode(b"18446744073709551615").unwrap(), Term::Unsigned(u64::MAX));
    assert_eq!(decode(b"18446744073709551616").unwrap(), Term::BigInteger(b"18446744073709551616".to_vec()));
    assert_eq!(decode(b"-9223372036854775809").unwrap(), Term::BigInteger(b"-9223372036854775809".to_vec()));
    assert_eq!(decode(b"999999999999999999").unwrap(), Term::Integer(999_999_999_999_999_999));
    assert_eq!(decode(b"1000000000000000000").unwrap(), Term::Integer(1_000_000_000_000_000_000));
    assert_eq!(decode(b"\"\"").unwrap(), bin(""));
    assert_eq!(decode(b" \t\r\n\"a b\"\n").unwrap(), bin("a b"));
}

#[test]
fn escapes_are_decoded() {
    assert_eq!(
        decode(br#""\" \\ \/ \b \f \n \r \t""#).unwrap(),
        Term::Binary(b"\" \\ / \x08 \x0c \n \r \t".to_vec())
    );
    let u = |hex: &str| decode(format!("\"{}u{}\"", '\\', hex).as_bytes());
    assert_eq!(u("0041").unwrap(), bin("A"));
    assert_eq!(u("00e9").unwrap(), bin("\u{e9}"));
    assert_eq!(u("00E9").unwrap(), bin("\u{e9}"));
    assert_eq!(u("20AC").unwrap(), bin("\u{20ac}"));
    assert_eq!(u("0000").unwrap(), Term::Binary(vec![0]));
    assert_eq!(u("ffff").unwrap(), bin("\u{ffff}"));
    let pair = format!("\"{0}uD834{0}uDD1E\"", '\\');
    assert_eq!(decode(pair.as_bytes()).unwrap(), bin("\u{1D11E}"));
    assert_eq!(
        bench_helpers::decode_escaped_string(br#"a\nb"#, 0, 4).unwrap(),
        b"a\nb".to_vec()
    );
    // A backslash that ends the range stands for itself.
    assert_eq!(bench_helpers::decode_escaped_string(b"ab\\", 0, 3).unwrap(), b"ab\\".to_vec());
    assert_eq!(bench_helpers::decode_escaped_string(b"xx\\tyy", 2, 4).unwrap(), b"\t".to_vec());
    assert_eq!(bench_helpers::decode_escaped_string(b"abc", 1, 1).unwrap(), Vec::<u8>::new());
}

#[test]
fn long_strings_with_escapes_far_apart() {
    let body = format!("{}{}n{}{}t{}", "a".repeat(70), '\\', "b".repeat(33), '\\', "c".repeat(5));
    let input = format!("\"{}\"", body);
    let expected = format!("{}\n{}\t{}", "a".repeat(70), "b".repeat(33), "c".repeat(5));
    assert_eq!(decode(input.as_bytes()).unwrap(), bin(&expected));
    assert_eq!(
        bench_helpers::decode_escaped_string(input.as_bytes(), 1, input.len() - 1).unwrap(),
        expected.as_bytes().to_vec()
    );
}

#[test]
fn string_errors() {
    assert_eq!(failure(b"\"abc"), (ErrorKind::UnterminatedString, 0));
    assert_eq!(failure(b"  \"abc\\"), (ErrorKind::UnterminatedString, 2));
    assert_eq!(failure(b"\"abc\\\""), (ErrorKind::UnterminatedString, 0));
    assert_eq!(failure(b"\"a\x01b\""), (ErrorKind::UnescapedControlCharacter, 2));
    assert_eq!(failure(b"[\"a\nb\"]"), (ErrorKind::UnescapedControlCharacter, 3));
    assert_eq!(failure(br#""\x""#), (ErrorKind::InvalidEscapeSequence, 0));
    assert_eq!(failure(br#"["a", "\q"]"#), (ErrorKind::InvalidEscapeSequence, 6));
    let u = |rest: &str| failure(format!("\"{}u{}\"", '\\', rest).as_bytes());
    assert_eq!(u("12"), (ErrorKind::InvalidUnicodeEscape, 0));
    assert_eq!(u("12G4"), (ErrorKind::InvalidUnicodeEscape, 0));
    assert_eq!(u(""), (ErrorKind::InvalidUnicodeEscape, 0));
    assert_eq!(u("D800"), (ErrorKind::LoneSurrogate, 0));
    assert_eq!(u("DFFF"), (ErrorKind::LoneSurrogate, 0));
    let high_then_bmp = format!("\"{0}uD800{0}u0041\"", '\\');
    assert_eq!(failure(high_then_bmp.as_bytes()), (ErrorKind::LoneSurrogate, 0));
    let high_then_text = format!("\"{0}uD800abcdef\"", '\\');
    assert_eq!(failure(high_then_text.as_bytes()), (ErrorKind::LoneSurrogate, 0));
    assert_eq!(failure(b"\"\xff\""), (ErrorKind::InvalidUtf8, 0));
    assert_eq!(failure(b"[1, \"\xc3\"]"), (ErrorKind::InvalidUtf8, 4));
    assert_eq!(
        bench_helpers::decode_escaped_string(br#"\u12"#, 0, 4),
        Err(ErrorKind::InvalidUnicodeEscape)
    );
    assert_eq!(bench_helpers::decode_escaped_string(br#"\z"#, 0, 2), Err(ErrorKind::InvalidEscapeSequence));
}

#[test]
fn unvalidated_strings_keep_their_bytes() {
    let opts = DecodeOptions { validate_strings: false, ..DecodeOptions::default() };
    assert_eq!(json_to_term(b"\"\xff\xfe\"", opts).unwrap(), Term::Binary(vec![0xff, 0xfe]));
}

#[test]
fn number_errors() {
    assert_eq!(failure(b"-"), (ErrorKind::InvalidNumber, 0));
    assert_eq!(failure(b"-x"), (ErrorKind::InvalidNumber, 0));
    assert_eq!(failure(b"[1.]"), (ErrorKind::InvalidNumber, 1));
    assert_eq!(failure(b"1.e5"), (ErrorKind::InvalidNumber, 0));
    assert_eq!(failure(b"2e"), (ErrorKind::InvalidNumber, 0));
    assert_eq!(failure(b"2e+"), (ErrorKind::InvalidNumber, 0));
    assert_eq!(failure(b"[1, 2E-]"), (ErrorKind::InvalidNumber, 4));
    // A leading zero ends the number: what follows is out of place.
    assert_eq!(failure(b"01"), (ErrorKind::TrailingCharacters, 1));
    assert_eq!(failure(b"[01]"), (ErrorKind::UnexpectedCharacter, 2));
    assert_eq!(failure(b"+1"), (ErrorKind::UnexpectedCharacter, 0));
    assert_eq!(failure(b".5"), (ErrorKind::UnexpectedCharacter, 0));
}

#[test]
fn digit_limit_counts_the_integer_part() {
    let opts = DecodeOptions { integer_digit_limit: 3, ..DecodeOptions::default() };
    assert_eq!(json_to_term(b"123", opts).unwrap(), Term::Integer(123));
    assert_eq!(json_to_term(b"-123", opts).unwrap(), Term::Integer(-123));
    assert_eq!(json_to_term(b"123.456789", opts).unwrap(), Term::Float(b"123.456789".to_vec()));
    let e = json_to_term(b"1234", opts).unwrap_err();
    assert_eq!((e.kind, e.offset), (ErrorKind::NumberDigitLimitExceeded, 0));
    let e = json_to_term(b"[1, -1234.5]", opts).unwrap_err();
    assert_eq!((e.kind, e.offset), (ErrorKind::NumberDigitLimitExceeded, 4));
    // The limit is looked at before the fraction is.
    let e = json_to_term(b"1234.", opts).unwrap_err();
    assert_eq!(e.kind, ErrorKind::NumberDigitLimitExceeded);
    let unlimited = DecodeOptions { integer_digit_limit: 0, ..DecodeOptions::default() };
    let long = "7".repeat(2000);
    assert_eq!(json_to_term(long.as_bytes(), unlimited).unwrap(), Term::BigInteger(long.clone().into_bytes()));
    let e = decode(long.as_bytes()).unwrap_err();
    assert_eq!(e.kind, ErrorKind::NumberDigitLimitExceeded);
}

#[test]
fn structure_errors() {
    assert_eq!(failure(b""), (ErrorKind::UnexpectedEndOfInput, 0));
    assert_eq!(failure(b"   "), (ErrorKind::UnexpectedEndOfInput, 3));
    assert_eq!(failure(b"["), (ErrorKind::UnexpectedEndOfInput, 1));
    assert_eq!(failure(b"[1,"), (ErrorKind::UnexpectedEndOfInput, 3));
    assert_eq!(failure(b"{\"a\":"), (ErrorKind::UnexpectedEndOfInput, 5));
    assert_eq!(failure(b"?"), (ErrorKind::UnexpectedCharacter, 0));
    assert_eq!(failure(b"nul"), (ErrorKind::UnexpectedCharacter, 0));
    assert_eq!(failure(b"[tru]"), (ErrorKind::UnexpectedCharacter, 1));
    assert_eq!(failure(b"falsy"), (ErrorKind::UnexpectedCharacter, 0));
    assert_eq!(failure(b"[1 2]"), (ErrorKind::UnexpectedCharacter, 3));
    assert_eq!(failure(b"[1,]"), (ErrorKind::UnexpectedCharacter, 3));
    assert_eq!(failure(b"[1"), (ErrorKind::UnexpectedCharacter, 2));
    assert_eq!(failure(b"{a:1}"), (ErrorKind::UnexpectedCharacter, 1));
    assert_eq!(failure(b"{\"a\" 1}"), (ErrorKind::UnexpectedCharacter, 5));
    assert_eq!(failure(b"{\"a\":1 \"b\":2}"), (ErrorKind::UnexpectedCharacter, 7));
    assert_eq!(failure(b"{\"a\":1,}"), (ErrorKind::UnexpectedCharacter, 7));
    assert_eq!(failure(b"{\"a\":1"), (ErrorKind::UnexpectedCharacter, 6));
    assert_eq!(failure(b"{"), (ErrorKind::UnexpectedCharacter, 1));
    assert_eq!(failure(b"1 2"), (ErrorKind::TrailingCharacters, 2));
    assert_eq!(failure(b"[] x"), (ErrorKind::TrailingCharacters, 3));
    assert_eq!(failure(b"{}}"), (ErrorKind::TrailingCharacters, 2));
}

#[test]
fn input_size_limit() {
    let opts = DecodeOptions { max_bytes: 4, ..DecodeOptions::default() };
    assert_eq!(json_to_term(b"1234", opts).unwrap(), Term::Integer(1234));
    let e = json_to_term(b"12345", opts).unwrap_err();
    assert_eq!((e.kind, e.offset), (ErrorKind::InputTooLarge, 0));
    // The size is looked at before anything else.
    let e = json_to_term(b"?????", opts).unwrap_err();
    assert_eq!(e.kind, ErrorKind::InputTooLarge);
}

#[test]
fn nesting_of_128_is_read_and_129_is_rejected() {
    let deep = |n: usize| {
        let mut s = "[".repeat(n);
        s.push_str(&"]".repeat(n));
        s
    };
    assert!(decode(deep(128).as_bytes()).is_ok());
    assert_eq!(failure(deep(129).as_bytes()), (ErrorKind::NestingDepthExceeded, 128));
    assert_eq!(failure("[".repeat(100_000).as_bytes()), (ErrorKind::NestingDepthExceeded, 128));
    let objects = |n: usize| {
        let mut s = "{\"a\":".repeat(n);
        s.push('1');
        s.push_str(&"}".repeat(n));
        s
    };
    assert!(decode(objects(128).as_bytes()).is_ok());
    assert_eq!(failure(objects(129).as_bytes()), (ErrorKind::NestingDepthExceeded, 128 * 5));
    // Depth counts nesting, not the number of containers.
    let wide = format!("[{}[]]", "[],".repeat(1000));
    assert!(decode(wide.as_bytes()).is_ok());
}

#[test]
fn duplicate_keys() {
    let input = br#"{"a":1,"b":2,"a":3}"#;
    assert_eq!(
        decode(input).unwrap(),
        Term::Mapping(vec![(bin("a"), Term::Integer(3)), (bin("b"), Term::Integer(2))])
    );
    let strict = DecodeOptions { reject_duplicate_keys: true, ..DecodeOptions::default() };
    let e = json_to_term(input, strict).unwrap_err();
    assert_eq!((e.kind, e.offset), (ErrorKind::DuplicateObjectKey, 16));
    // Keys are compared as they are written, not as they read.
    let aliased = format!("{{\"a\":1,\"{}u0061\":2}}", '\\');
    assert_eq!(
        json_to_term(aliased.as_bytes(), strict).unwrap(),
        Term::Mapping(vec![(bin("a"), Term::Integer(2))])
    );
    assert_eq!(
        json_to_term(br#"[{"a":1,"b":2},{"a":1,"b":2}]"#, strict).unwrap(),
        Term::List(vec![
            Term::Mapping(vec![(bin("a"), Term::Integer(1)), (bin("b"), Term::Integer(2))]),
            Term::Mapping(vec![(bin("a"), Term::Integer(1)), (bin("b"), Term::Integer(2))]),
        ])
    );
    let e = json_to_term(br#"[{"a":1},{"a":1,"a":2}]"#, strict).unwrap_err();
    assert_eq!(e.kind, ErrorKind::DuplicateObjectKey);
}

#[test]
fn ordered_objects_keep_every_member() {
    let opts = DecodeOptions { ordered_objects: true, ..DecodeOptions::default() };
    let ordered = |pairs: Vec<(Term, Term)>| {
        Term::Mapping(vec![
            (atom("__struct__"), atom("Elixir.RustyJson.OrderedObject")),
            (
                atom("values"),
                Term::List(pairs.into_iter().map(|(k, v)| Term::Tuple(vec![k, v])).collect()),
            ),
        ])
    };
    assert_eq!(json_to_term(b"{}", opts).unwrap(), ordered(vec![]));
    assert_eq!(
        json_to_term(br#"{"b":1,"a":2,"b":3}"#, opts).unwrap(),
        ordered(vec![
            (bin("b"), Term::Integer(1)),
            (bin("a"), Term::Integer(2)),
            (bin("b"), Term::Integer(3)),
        ])
    );
    assert_eq!(
        json_to_term(br#"[{"k":[]},{"k":{}}]"#, opts).unwrap(),
        Term::List(vec![
            ordered(vec![(bin("k"), Term::List(vec![]))]),
            ordered(vec![(bin("k"), ordered(vec![]))]),
        ])
    );
}

#[test]
fn interned_keys_read_the_same() {
    let input = br#"[{"name":"a","id":1},{"name":"b","id":2},{"id":3,"name":"c"}]"#;
    let plain = decode(input).unwrap();
    let interned = json_to_term(input, DecodeOptions { intern_keys: true, ..DecodeOptions::default() }).unwrap();
    assert_eq!(plain, interned);
    let mut many = String::from("{");
    for i in 0..5000 {
        if i > 0 {
            many.push(',');
        }
        many.push_str(&format!("\"k{}\":{}", i % 4500, i));
    }
    many.push('}');
    let plain = decode(many.as_bytes()).unwrap();
    let interned =
        json_to_term(many.as_bytes(), DecodeOptions { intern_keys: true, ..DecodeOptions::default() }).unwrap();
    assert_eq!(plain, interned);
    match plain {
        Term::Mapping(entries) => {
            assert_eq!(entries.len(), 4500);
            assert_eq!(entries[0], (bin("k0"), Term::Integer(4500)));
            assert_eq!(entries[499], (bin("k499"), Term::Integer(4999)));
            assert_eq!(entries[500], (bin("k500"), Term::Integer(500)));
        },
        other => panic!("no mapping: {:?}", other),
    }
}

#[test]
fn long_documents_go_through_the_structural_index() {
    let mut input = String::from("[");
    for i in 0..40 {
        if i > 0 {
            input.push_str(" ,\n  ");
        }
        input.push_str(&format!("{{\"id\" : {},\t\"tags\": [\"a,b\", \"]\"], \"deep\": {{\"x\": [1, [2, [3]]]}}}}", i));
    }
    input.push_str("\n]\n");
    assert!(input.len() >= 256);
    let term = decode(input.as_bytes()).unwrap();
    match &term {
        Term::List(items) => {
            assert_eq!(items.len(), 40);
            assert_eq!(
                items[7],
                Term::Mapping(vec![
                    (bin("id"), Term::Integer(7)),
                    (bin("tags"), Term::List(vec![bin("a,b"), bin("]")])),
                    (
                        bin("deep"),
                        Term::Mapping(vec![(
                            bin("x"),
                            Term::List(vec![
                                Term::Integer(1),
                                Term::List(vec![Term::Integer(2), Term::List(vec![Term::Integer(3)])]),
                            ])
                        )])
                    ),
                ])
            );
        },
        other => panic!("no list: {:?}", other),
    }
    // The same document without an index: padded below, it is too short for one.
    let short = decode(br#"[{"id" : 7,	"tags": ["a,b", "]"]}]"#).unwrap();
    assert_eq!(
        short,
        Term::List(vec![Term::Mapping(vec![
            (bin("id"), Term::Integer(7)),
            (bin("tags"), Term::List(vec![bin("a,b"), bin("]")])),
        ])])
    );
    // Errors keep their place with an index, too.
    let mut broken = input.clone();
    broken.replace_range(300..301, "?");
    let with_index = decode(broken.as_bytes()).unwrap_err();
    assert!(with_index.offset <= 300);
    let mut garbage = " ".repeat(300);
    garbage.push_str("[1 x 2]");
    let e = decode(garbage.as_bytes()).unwrap_err();
    assert_eq!((e.kind, e.offset), (ErrorKind::UnexpectedCharacter, 303));
}

#[test]
fn parser_built_by_hand() {
    let input = b"  [1, 2]  ";
    let parser = DirectParser::new(input, DecodeOptions::default());
    assert_eq!(parser.pos, 0);
    assert_eq!(parser.depth, 0);
    assert!(parser.structural_index.is_none());
    assert!(parser.key_cache.is_none());
    assert_eq!(parser.parse().unwrap(), Term::List(vec![Term::Integer(1), Term::Integer(2)]));
    let long = format!("[{}]", vec!["0"; 200].join(","));
    let parser = DirectParser::new(long.as_bytes(), DecodeOptions { intern_keys: true, ..DecodeOptions::default() });
    assert_eq!(parser.structural_index.as_ref().unwrap().positions.len(), 201);
    assert!(parser.key_cache.is_some());
    match parser.parse().unwrap() {
        Term::List(items) => assert_eq!(items.len(), 200),
        other => panic!("no list: {:?}", other),
    }
}

#[test]
fn arrays_of_one_class_of_elements() {
    assert_eq!(
        decode(b"[1, -2, 3.5, 40000000000000000000, 5]").unwrap(),
        Term::List(vec![
            Term::Integer(1),
            Term::Integer(-2),
            Term::Float(b"3.5".to_vec()),
            Term::BigInteger(b"40000000000000000000".to_vec()),
            Term::Integer(5),
        ])
    );
    assert_eq!(
        decode(br#"["a", "b", 3, "c", [], "d"]"#).unwrap(),
        Term::List(vec![bin("a"), bin("b"), Term::Integer(3), bin("c"), Term::List(vec![]), bin("d")])
    );
    assert_eq!(
        decode(br#"[{"n":1,"s":"x","l":[1]},{"n":2,"s":"y","l":[]},{"n":3,"s":"z","l":{}}]"#).unwrap(),
        Term::List(vec![
            Term::Mapping(vec![(bin("n"), Term::Integer(1)), (bin("s"), bin("x")), (bin("l"), Term::List(vec![Term::Integer(1)]))]),
            Term::Mapping(vec![(bin("n"), Term::Integer(2)), (bin("s"), bin("y")), (bin("l"), Term::List(vec![]))]),
            Term::Mapping(vec![(bin("n"), Term::Integer(3)), (bin("s"), bin("z")), (bin("l"), Term::Mapping(vec![]))]),
        ])
    );
}

#[test]
fn float_literals_are_found_where_they_stand() {
    assert_eq!(float_literal_ranges(b""), Vec::<(usize, usize)>::new());
    assert_eq!(float_literal_ranges(b"1.5"), vec![(0, 3)]);
    assert_eq!(float_literal_ranges(b"[1, 2.5, -3e2, 4E+1, 0.0]"), vec![(4, 7), (9, 13), (15, 19), (21, 24)]);
    // Integers are none, and what stands in a string is not looked at.
    assert_eq!(float_literal_ranges(br#"{"1.5": 12, "a\"2.5": [-7, 1e999]}"#), vec![(27, 32)]);
    // A string that does not close ends the search.
    assert_eq!(float_literal_ranges(br#"[1.5, "open 2.5"#), vec![(1, 4)]);
    // A literal that misses a digit is none.
    assert_eq!(float_literal_ranges(b"[1., 2e, -, 3.0]"), vec![(12, 15)]);
}

#[test]
fn a_float_without_a_finite_double_fails_the_decode() {
    let none = Term::Mapping(vec![]);
    let input = b"[1, 1e999, 2]";
    let plain = decode_checked(input, &none, None).unwrap();
    assert_eq!(plain, rustyjson::decode_impl(input, &none).unwrap());
    let err = decode_checked(input, &none, Some(4)).unwrap_err();
    assert_eq!((err.kind, err.offset), (ErrorKind::InvalidNumber, 4));
    // A failure after the literal gives way to it, one before it does not.
    let err = decode_checked(b"[1e999, 2", &none, Some(1)).unwrap_err();
    assert_eq!((err.kind, err.offset), (ErrorKind::InvalidNumber, 1));
    let err = decode_checked(b"[x, 1e999]", &none, Some(4)).unwrap_err();
    assert_eq!((err.kind, err.offset), (ErrorKind::UnexpectedCharacter, 1));
    let err = decode_checked(b"1 1e999", &none, Some(2)).unwrap_err();
    assert_eq!(err.offset, 2);
    assert_ne!(err.kind, ErrorKind::InvalidNumber);
    // Read as decimals, floats are never turned into doubles.
    let decimals = Term::Mapping(vec![(
        Term::Atom(b"floats_decimals".to_vec()),
        Term::Atom(b"true".to_vec()),
    )]);
    let kept = decode_checked(b"[1.5]", &decimals, Some(1));
    assert_eq!(kept, rustyjson::decode_impl(b"[1.5]", &decimals));
}
