use rustyjson::direct_decode::bench_helpers;
use rustyjson::simd_utils::{
    chunk_has_structural, chunk_has_structural_wide, find_escape_html, find_escape_html_scalar,
    find_escape_javascript, find_escape_javascript_scalar, find_escape_json,
    find_escape_json_scalar, find_escape_unicode, find_escape_unicode_scalar, skip_ascii_digits,
    skip_plain_string_bytes, skip_whitespace, CHUNK,
};
use rustyjson::structural::{build_structural_index, StructuralIndex};

#[test]
fn chunk_size_is_sixteen() {
    assert_eq!(CHUNK, 16);
}

#[test]
fn plain_string_bytes_are_skipped_by_whole_chunks() {
    let mut input = vec![b'a'; 40];
    let mut pos = 0;
    skip_plain_string_bytes(&input, &mut pos);
    // Two whole chunks fit, the third is incomplete.
    assert_eq!(pos, 32);
    input[20] = b'"';
    let mut pos = 0;
    skip_plain_string_bytes(&input, &mut pos);
    // The hit is in the second chunk: the scanner stops at its start.
    assert_eq!(pos, 16);
    let mut pos = 3;
    skip_plain_string_bytes(&input, &mut pos);
    assert_eq!(pos, 19);
    let mut pos = 100;
    skip_plain_string_bytes(&input, &mut pos);
    assert_eq!(pos, 100);
}

#[test]
fn digits_are_skipped_to_the_exact_end() {
    let mut input = vec![b'7'; 40];
    input[21] = b',';
    let mut pos = 0;
    skip_ascii_digits(&input, &mut pos);
    assert_eq!(pos, 21);
    // Fewer than a chunk left: the rest is walked byte by byte.
    let mut pos = 30;
    skip_ascii_digits(&input, &mut pos);
    assert_eq!(pos, 40);
    let all = vec![b'1'; 40];
    let mut pos = 0;
    skip_ascii_digits(&all, &mut pos);
    assert_eq!(pos, 40);
    let mut pos = 0;
    skip_ascii_digits(b"123", &mut pos);
    assert_eq!(pos, 3);
    let mut pos = 0;
    skip_ascii_digits(b"12a4", &mut pos);
    assert_eq!(pos, 2);
    let mut pos = 1;
    skip_ascii_digits(b"x/0123456789:", &mut pos);
    assert_eq!(pos, 1);
    let mut pos = 2;
    skip_ascii_digits(b"x/0123456789:", &mut pos);
    assert_eq!(pos, 12);
    let mut pos = 9;
    skip_ascii_digits(b"12", &mut pos);
    assert_eq!(pos, 9);
}

#[test]
fn whitespace_is_skipped_to_the_exact_end() {
    let mut input = vec![b' '; 50];
    input[5] = b'\t';
    input[6] = b'\n';
    input[7] = b'\r';
    input[33] = b'x';
    let mut pos = 0;
    skip_whitespace(&input, &mut pos);
    assert_eq!(pos, 33);
    assert_eq!(bench_helpers::skip_whitespace(&input, 0), 33);
    let mut pos = 34;
    skip_whitespace(&input, &mut pos);
    assert_eq!(pos, 50);
    let tail = b"   x";
    let mut pos = 0;
    skip_whitespace(tail, &mut pos);
    assert_eq!(pos, 3);
    let mut pos = 0;
    skip_whitespace(b"  1", &mut pos);
    assert_eq!(pos, 2);
    assert_eq!(bench_helpers::skip_whitespace(tail, 0), 3);
    assert_eq!(bench_helpers::skip_whitespace(tail, 9), 9);
}

#[test]
fn skippers_agree_with_a_byte_by_byte_walk() {
    // Every length up to three chunks, every start, every place of the
    // first byte outside the class.
    for len in 0..49usize {
        for stop in 0..=len {
            let mut digits = vec![b'5'; len];
            let mut blanks = vec![b' '; len];
            if stop < len {
                digits[stop] = b'.';
                blanks[stop] = b'[';
            }
            for start in 0..=len {
                let expected = if start <= stop { stop } else { len };
                let mut pos = start;
                skip_ascii_digits(&digits, &mut pos);
                assert_eq!(pos, expected);
                let mut pos = start;
                skip_whitespace(&blanks, &mut pos);
                assert_eq!(pos, expected);
            }
        }
    }
}

#[test]
fn structural_chunks_are_told_from_quiet_ones() {
    let mut input = vec![b'a'; 64];
    assert!(!chunk_has_structural(&input, 0));
    assert!(!chunk_has_structural_wide(&input, 0));
    for (i, b) in b"{}[]:,\"\\".iter().enumerate() {
        input[40] = *b;
        assert!(chunk_has_structural(&input, 32), "byte {}", i);
        assert!(chunk_has_structural(&input, 25));
        assert!(!chunk_has_structural(&input, 41));
        assert!(!chunk_has_structural(&input, 24));
        assert!(chunk_has_structural_wide(&input, 9));
        assert!(chunk_has_structural_wide(&input, 32));
        assert!(!chunk_has_structural_wide(&input, 8));
    }
}

#[test]
fn escape_finders_agree_with_their_scalar_references() {
    let mut input: Vec<u8> = (0..200u32).map(|i| b'a' + (i % 26) as u8).collect();
    input[37] = b'<';
    input[58] = 0xC3;
    input[59] = 0xA9;
    input[90] = 0xE2;
    input[91] = 0x80;
    input[92] = 0xA8;
    input[120] = b'"';
    input[150] = 0x1f;
    for start in [0usize, 1, 15, 16, 17, 36, 37, 38, 60, 93, 121, 151, 199, 200, 300] {
        assert_eq!(find_escape_json(&input, start), find_escape_json_scalar(&input, start));
        assert_eq!(find_escape_html(&input, start), find_escape_html_scalar(&input, start));
        assert_eq!(find_escape_unicode(&input, start), find_escape_unicode_scalar(&input, start));
        assert_eq!(
            find_escape_javascript(&input, start),
            find_escape_javascript_scalar(&input, start)
        );
    }
    assert_eq!(find_escape_json(&input, 0), 120);
    assert_eq!(find_escape_html(&input, 0), 37);
    assert_eq!(find_escape_unicode(&input, 0), 58);
    assert_eq!(find_escape_javascript(&input, 0), 90);
    assert_eq!(find_escape_json(&input, 151), 200);
    assert_eq!(find_escape_json(&input, 300), 300);
}

#[test]
fn structural_index_lists_structural_bytes_outside_strings() {
    let input = br#"{"a:,": [1, "x\"]", {"b": {}}], "c\\": 2}"#;
    let idx = build_structural_index(input);
    let found: Vec<u8> = idx.positions.iter().map(|&p| input[p as usize]).collect();
    assert_eq!(found, b"{:[,,{:{}}],:}".to_vec());
    let mut sorted = idx.positions.clone();
    sorted.sort();
    sorted.dedup();
    assert_eq!(sorted, idx.positions);
    assert_eq!(idx.cursor, 0);
    assert_eq!(bench_helpers::build_structural_index(input), found.len());
}

#[test]
fn structural_index_on_long_input_matches_the_short_way() {
    let mut input = Vec::new();
    for i in 0..60 {
        input.extend_from_slice(format!("{{\"key{}\": [\"v,{{}}\\\"\", {}, null]}}   ,", i, i).as_bytes());
    }
    let idx = build_structural_index(&input);
    let mut expected = Vec::new();
    let mut in_string = false;
    let mut escaped = false;
    for (i, &b) in input.iter().enumerate() {
        if escaped {
            escaped = false;
        } else if b == b'\\' && in_string {
            escaped = true;
        } else if b == b'"' {
            in_string = !in_string;
        } else if !in_string && b"{}[]:,".contains(&b) {
            expected.push(i as u32);
        }
    }
    assert_eq!(idx.positions, expected);
}

#[test]
fn index_cursor_peeks_and_advances() {
    let mut idx = build_structural_index(b"[1,2]");
    assert_eq!(idx.peek(), Some(0));
    idx.advance();
    assert_eq!(idx.peek(), Some(2));
    idx.advance();
    idx.advance();
    assert_eq!(idx.peek(), None);
}

#[test]
fn elements_are_counted_by_the_commas_at_depth_zero() {
    let input = br#"[1, [2, 3], {"a": [4, 5], "b": 6}, "x,y"]"#;
    let mut idx = build_structural_index(input);
    idx.advance();
    assert_eq!(idx.count_elements_until_close(input, b']'), Some(4));
    // The wrong closing byte at depth zero gives no count.
    assert_eq!(idx.count_elements_until_close(input, b'}'), None);
    let empty = b"[]";
    let mut idx = build_structural_index(empty);
    idx.advance();
    assert_eq!(idx.count_elements_until_close(empty, b']'), Some(1));
    let open = b"[1,2";
    let mut idx = build_structural_index(open);
    idx.advance();
    assert_eq!(idx.count_elements_until_close(open, b']'), None);
    let object = br#"{"a":1,"b":{"c":2,"d":3}}"#;
    let mut idx = build_structural_index(object);
    idx.advance();
    assert_eq!(idx.count_elements_until_close(object, b'}'), Some(2));
    let past = StructuralIndex { positions: vec![0, 2, 4], cursor: 7 };
    assert_eq!(past.count_elements_until_close(open, b']'), None);
}

#[test]
fn element_count_gives_up_past_the_scan_cap() {
    let mut input = vec![b'['];
    for _ in 0..600 {
        input.extend_from_slice(b"1,");
    }
    input.extend_from_slice(b"1]");
    let mut idx = build_structural_index(&input);
    idx.advance();
    assert_eq!(idx.count_elements_until_close(&input, b']'), None);
    let mut short = vec![b'['];
    for _ in 0..510 {
        short.extend_from_slice(b"1,");
    }
    short.extend_from_slice(b"1]");
    let mut idx = build_structural_index(&short);
    idx.advance();
    assert_eq!(idx.count_elements_until_close(&short, b']'), Some(511));
}

#[test]
fn strings_are_scanned_to_their_end() {
    assert_eq!(bench_helpers::scan_string(br#""abc" rest"#, 0), (5, false));
    assert_eq!(bench_helpers::scan_string(br#""a\"b\\" x"#, 0), (8, true));
    assert_eq!(bench_helpers::scan_string(b"abc", 0), (0, false));
    assert_eq!(bench_helpers::scan_string(b"\"abc", 0), (4, false));
    assert_eq!(bench_helpers::scan_string(b"\"ab\\", 0), (4, true));
    assert_eq!(bench_helpers::scan_string(b"\"a\x01b\"", 0), (2, false));
    assert_eq!(bench_helpers::scan_string(b"\"x\"", 7), (7, false));
    let long = format!("\"{}\"", "x".repeat(100));
    assert_eq!(bench_helpers::scan_string(long.as_bytes(), 0), (102, false));
}

#[test]
fn numbers_are_scanned_to_their_end() {
    assert_eq!(bench_helpers::scan_number(b"123,", 0), (3, false));
    assert_eq!(bench_helpers::scan_number(b"-0.5e+10]", 0), (8, true));
    assert_eq!(bench_helpers::scan_number(b"012", 0), (1, false));
    assert_eq!(bench_helpers::scan_number(b"1.x", 0), (2, true));
    assert_eq!(bench_helpers::scan_number(b"1e", 0), (2, true));
    assert_eq!(bench_helpers::scan_number(b"1e-", 0), (3, true));
    assert_eq!(bench_helpers::scan_number(b"-x", 0), (1, false));
    assert_eq!(bench_helpers::scan_number(b"-", 0), (1, false));
    assert_eq!(bench_helpers::scan_number(b"", 0), (0, false));
    let long = "9".repeat(50);
    assert_eq!(bench_helpers::scan_number(long.as_bytes(), 0), (50, false));
}

#[test]
fn small_integers_are_read_the_short_way() {
    assert_eq!(bench_helpers::parse_integer_fast(b"0", 0), Ok(0));
    assert_eq!(bench_helpers::parse_integer_fast(b"-0", 0), Ok(0));
    assert_eq!(bench_helpers::parse_integer_fast(b"42,", 0), Ok(42));
    assert_eq!(bench_helpers::parse_integer_fast(b"x-17", 1), Ok(-17));
    assert_eq!(
        bench_helpers::parse_integer_fast(b"999999999999999999", 0),
        Ok(999_999_999_999_999_999)
    );
    assert_eq!(
        bench_helpers::parse_integer_fast(b"-999999999999999999", 0),
        Ok(-999_999_999_999_999_999)
    );
    assert_eq!(bench_helpers::parse_integer_fast(b"1000000000000000000", 0), Err(()));
    assert_eq!(bench_helpers::parse_integer_fast(b"01", 0), Err(()));
    assert_eq!(bench_helpers::parse_integer_fast(b"1.5", 0), Err(()));
    assert_eq!(bench_helpers::parse_integer_fast(b"1e5", 0), Err(()));
    assert_eq!(bench_helpers::parse_integer_fast(b"1E5", 0), Err(()));
    assert_eq!(bench_helpers::parse_integer_fast(b"-", 0), Err(()));
    assert_eq!(bench_helpers::parse_integer_fast(b"", 0), Err(()));
    assert_eq!(bench_helpers::parse_integer_fast(b"12", 5), Err(()));
}

#[test]
fn documents_are_validated_by_their_structure() {
    for ok in [
        "null",
        " true ",
        "[]",
        "{}",
        r#"{"a": [1, 2.5e3, "x", {"b": null}], "c": false}"#,
        "[ [ [ ] ] ]",
        "-0",
        "\"closed\"",
        "\"with \\\" inside\"",
        "1e5",
        "-1.25E-3",
        "[\"\", 0]",
    ] {
        assert!(bench_helpers::validate_json(ok.as_bytes()), "{}", ok);
    }
    for bad in [
        "", "   ", "nul", "[1,]", "[1 2]", "{\"a\" 1}", "{a:1}", "{\"a\":1,}", "1 2", "-", "]", "[",
        "{\"a\":",
        // A string without its closing quote, or with a control byte.
        "\"abc", "\"open", "\"ends in an escape\\\"", "[\"a]", "{\"a", "{\"a:1}", "\"a\nb\"",
        // A number that misses a digit.
        "1e", "1e+", "1.", "-.5", "[1.]", "2E-",
    ] {
        assert!(!bench_helpers::validate_json(bad.as_bytes()), "{}", bad);
    }
}
