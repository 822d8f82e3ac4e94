use rustyjson::decimal::{integer_text, push_digits};
use rustyjson::direct_json::{
    check_strict_key, write_atom, write_binary, write_float, write_integer, FormatContext,
    FormatOptions,
};
use rustyjson::error::ErrorKind;
use rustyjson::numbers::integer_from_text;
use rustyjson::term::Term;

#[test]
fn leaf_writers_refuse_other_terms_and_write_nothing() {
    let ctx = FormatContext::default();
    let opts = FormatOptions::compact(&ctx);
    let mut out = b"kept".to_vec();
    let number = Term::Integer(1);
    let text = Term::Binary(b"x".to_vec());
    assert_eq!(write_atom(&number, &mut out, opts).unwrap_err().kind, ErrorKind::UnsupportedTerm);
    assert_eq!(write_binary(&number, &mut out, opts).unwrap_err().kind, ErrorKind::UnsupportedTerm);
    assert_eq!(write_float(&text, &mut out).unwrap_err().kind, ErrorKind::UnsupportedTerm);
    assert_eq!(write_integer(&text, &mut out).unwrap_err().kind, ErrorKind::UnsupportedTerm);
    assert_eq!(out, b"kept".to_vec());
}

#[test]
fn leaf_writers_write_nothing_where_they_fail() {
    let ctx = FormatContext::default();
    let opts = FormatOptions::compact(&ctx);
    let mut out = b"kept".to_vec();
    for bad in ["inf", "NaN", "-inf", "1.", "", "1e", "0x10", "1.5 "] {
        let term = Term::Float(bad.as_bytes().to_vec());
        assert_eq!(write_float(&term, &mut out).unwrap_err().kind, ErrorKind::NonFiniteFloat);
        assert_eq!(out, b"kept".to_vec());
    }
    let not_utf8 = vec![b'a', 0xff];
    assert_eq!(
        write_binary(&Term::Binary(not_utf8.clone()), &mut out, opts).unwrap_err().kind,
        ErrorKind::InvalidUtf8
    );
    assert_eq!(write_atom(&Term::Atom(not_utf8), &mut out, opts).unwrap_err().kind, ErrorKind::InvalidUtf8);
    assert_eq!(
        write_integer(&Term::BigInteger(b"12x".to_vec()), &mut out).unwrap_err().kind,
        ErrorKind::UnsupportedTerm
    );
    assert_eq!(out, b"kept".to_vec());
    write_float(&Term::Float(b"-1.5e3".to_vec()), &mut out).unwrap();
    write_atom(&Term::Atom(b"nil".to_vec()), &mut out, opts).unwrap();
    write_binary(&Term::Binary(b"a\"b".to_vec()), &mut out, opts).unwrap();
    assert_eq!(out, b"kept-1.5e3null\"a\\\"b\"".to_vec());
}

#[test]
fn a_key_seen_twice_leaves_the_keys_seen_as_they_were() {
    let mut seen = Some(vec![b"a".to_vec(), b"b".to_vec()]);
    assert_eq!(check_strict_key(&mut seen, b"a").unwrap_err().kind, ErrorKind::DuplicateOutputKey);
    assert_eq!(seen, Some(vec![b"a".to_vec(), b"b".to_vec()]));
    check_strict_key(&mut seen, b"c").unwrap();
    assert_eq!(seen, Some(vec![b"a".to_vec(), b"b".to_vec(), b"c".to_vec()]));
    assert_eq!(check_strict_key(&mut seen, b"c").unwrap_err().kind, ErrorKind::DuplicateOutputKey);
    assert_eq!(seen.as_ref().unwrap().len(), 3);
    let mut off: Option<Vec<Vec<u8>>> = None;
    check_strict_key(&mut off, b"a").unwrap();
    check_strict_key(&mut off, b"a").unwrap();
    assert_eq!(off, None);
}

#[test]
fn an_integer_takes_the_narrowest_form() {
    assert_eq!(integer_from_text(b"0").unwrap(), Term::Integer(0));
    assert_eq!(integer_from_text(b"-0").unwrap(), Term::Integer(0));
    assert_eq!(integer_from_text(b"9223372036854775807").unwrap(), Term::Integer(i64::MAX));
    assert_eq!(integer_from_text(b"-9223372036854775808").unwrap(), Term::Integer(i64::MIN));
    assert_eq!(
        integer_from_text(b"9223372036854775808").unwrap(),
        Term::Unsigned(9223372036854775808)
    );
    assert_eq!(integer_from_text(b"18446744073709551615").unwrap(), Term::Unsigned(u64::MAX));
    assert_eq!(
        integer_from_text(b"18446744073709551616").unwrap(),
        Term::BigInteger(b"18446744073709551616".to_vec())
    );
    assert_eq!(
        integer_from_text(b"-9223372036854775809").unwrap(),
        Term::BigInteger(b"-9223372036854775809".to_vec())
    );
    // Leading zeros do not make a number wider.
    assert_eq!(integer_from_text(b"000000000000000000000000042").unwrap(), Term::Integer(42));
    assert_eq!(
        integer_from_text(b"00018446744073709551616").unwrap(),
        Term::BigInteger(b"18446744073709551616".to_vec())
    );
}

#[test]
fn integers_of_128_bits_as_text() {
    assert_eq!(integer_text(0), b"0".to_vec());
    assert_eq!(integer_text(7), b"7".to_vec());
    assert_eq!(integer_text(-10), b"-10".to_vec());
    assert_eq!(integer_text(1_000_000_007), b"1000000007".to_vec());
    assert_eq!(integer_text(i128::MAX), i128::MAX.to_string().into_bytes());
    assert_eq!(integer_text(i128::MIN), i128::MIN.to_string().into_bytes());
    assert_eq!(integer_text(i128::MIN + 1), (i128::MIN + 1).to_string().into_bytes());
    let mut out = b"n=".to_vec();
    push_digits(&mut out, 0);
    push_digits(&mut out, 1203);
    push_digits(&mut out, u128::MAX);
    assert_eq!(out, format!("n=01203{}", u128::MAX).into_bytes());
}
