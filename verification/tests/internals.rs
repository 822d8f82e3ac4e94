use rustyjson::direct_decode::{DecodeOptions, DirectParser};
use rustyjson::intern::{FnvBuildHasher, FnvHasher, KeyCache, MAX_INTERN_KEYS};
use rustyjson::term::{bytes_eq, copy_range, Term};

#[test]
fn fnv_hash_of_known_inputs() {
    let basis = 0xcbf29ce484222325u64;
    let mut h = FnvHasher(basis);
    h.write(b"");
    assert_eq!(h.finish(), basis);
    h.write(b"a");
    assert_eq!(h.finish(), 0xaf63dc4c8601ec8c);
    let mut h = FnvHasher(basis);
    h.write(b"foo");
    h.write(b"bar");
    assert_eq!(h.finish(), 0x85944171f73967e8);
    let builder = FnvBuildHasher { seed: 7 };
    assert_eq!(builder.build_hasher().finish(), 7);
    let seeded = FnvBuildHasher::new();
    assert_eq!(seeded.build_hasher().finish(), seeded.seed);
}

#[test]
fn key_cache_finds_what_it_kept() {
    let input = b"alpha beta alpha gamma";
    let mut cache = KeyCache::new();
    assert_eq!(cache.find_or_keep(input, 0, 5), None);
    assert_eq!(cache.used, 1);
    assert_eq!(cache.find_or_keep(input, 6, 10), None);
    assert_eq!(cache.find_or_keep(input, 11, 16), Some((0, 5)));
    assert_eq!(cache.find_or_keep(input, 0, 5), Some((0, 5)));
    assert_eq!(cache.find_or_keep(input, 17, 22), None);
    assert_eq!(cache.find_or_keep(input, 3, 3), None);
    assert_eq!(cache.find_or_keep(input, 9, 9), Some((3, 3)));
    assert_eq!(cache.used, 4);
}

#[test]
fn key_cache_stops_keeping_at_its_limit() {
    let mut input = Vec::new();
    let mut ranges = Vec::new();
    for i in 0..(MAX_INTERN_KEYS + 10) {
        let start = input.len();
        input.extend_from_slice(format!("key{}", i).as_bytes());
        ranges.push((start, input.len()));
    }
    let mut cache = KeyCache::new();
    for &(a, b) in &ranges {
        assert_eq!(cache.find_or_keep(&input, a, b), None);
    }
    assert_eq!(cache.used, MAX_INTERN_KEYS);
    // The first keys are found again, the ones past the limit are not.
    let (a, b) = ranges[17];
    assert_eq!(cache.find_or_keep(&input, a, b), Some((a, b)));
    let (a, b) = ranges[MAX_INTERN_KEYS + 3];
    assert_eq!(cache.find_or_keep(&input, a, b), None);
    assert_eq!(cache.used, MAX_INTERN_KEYS);
}

#[test]
fn capacity_guess_without_an_index() {
    let input = b"[1,2,3]";
    let mut parser = DirectParser::new(input, DecodeOptions::default());
    assert_eq!(parser.estimate_container_capacity(b']', 20, 1024), 1);
    assert_eq!(parser.estimate_container_capacity(b']', 2, 1024), 3);
    assert_eq!(parser.estimate_container_capacity(b']', 1, 4), 4);
    parser.depth = 2;
    let long = [b' '; 200];
    let mut deep = DirectParser::new(&long, DecodeOptions::default());
    assert_eq!(deep.estimate_container_capacity(b']', 10, 1024), 20);
    deep.depth = 2;
    assert_eq!(deep.estimate_container_capacity(b']', 10, 1024), 8);
    assert_eq!(parser.estimate_container_capacity(b']', 20, 1024), 1);
}

#[test]
fn capacity_guess_from_the_index() {
    let body: Vec<String> = (0..100).map(|i| format!("[{}, {}]", i, i)).collect();
    let input = format!("[{}]", body.join(","));
    assert!(input.len() >= 256);
    let mut parser = DirectParser::new(input.as_bytes(), DecodeOptions::default());
    assert_eq!(parser.peek(), Some(b'['));
    assert!(parser.at(b'['));
    parser.consume_structural();
    assert_eq!(parser.pos, 1);
    assert_eq!(parser.estimate_container_capacity(b']', 20, 1024), 100);
    // The closing brace of another kind gives no count: the guess falls back.
    assert_eq!(parser.estimate_container_capacity(b'}', 20, 8), 8);
    parser.consume_structural();
    assert_eq!(parser.estimate_container_capacity(b']', 20, 1024), 2);
}

#[test]
fn cursor_moves() {
    let input = b"  \t\n[ 1 ]";
    let mut parser = DirectParser::new(input, DecodeOptions::default());
    parser.skip_whitespace();
    assert_eq!(parser.pos, 4);
    parser.consume_structural_and_skip_ws();
    assert_eq!(parser.pos, 6);
    assert_eq!(parser.parse_number_fast().unwrap(), Term::Integer(1));
    parser.advance_to_structural();
    assert_eq!(parser.pos, 8);
    assert_eq!(parser.err(rustyjson::error::ErrorKind::InvalidNumber).offset, 8);
    parser.advance();
    assert_eq!(parser.peek(), None);
    let text = br#""key": "value""#;
    let mut parser = DirectParser::new(text, DecodeOptions::default());
    assert_eq!(parser.scan_string_raw().unwrap(), (1, 4));
    assert_eq!(parser.pos, 5);
    assert_eq!(parser.decode_escaped_string(1, 4).unwrap(), b"key".to_vec());
    parser.pos = 7;
    assert_eq!(parser.parse_key().unwrap(), b"value".to_vec());
}

#[test]
fn byte_helpers() {
    assert!(bytes_eq(b"abc", b"abc"));
    assert!(!bytes_eq(b"abc", b"abd"));
    assert!(!bytes_eq(b"abc", b"ab"));
    assert!(bytes_eq(b"", b""));
    assert_eq!(copy_range(b"hello", 1, 4), b"ell".to_vec());
    let nested = Term::List(vec![Term::Mapping(vec![(Term::Atom(b"a".to_vec()), Term::Tuple(vec![Term::Other]))])]);
    assert_eq!(nested.duplicate(), nested);
}

fn keys_of(term: &Term) -> Vec<Vec<u8>> {
    match term {
        Term::Mapping(entries) => entries
            .iter()
            .map(|(k, _)| match k {
                Term::Binary(b) => b.clone(),
                _ => Vec::new(),
            })
            .collect(),
        _ => Vec::new(),
    }
}

#[test]
fn the_first_object_gives_the_shape() {
    let input = br#"{"id": 1, "name": "x"}"#;
    let mut parser = DirectParser::new(input, DecodeOptions::default());
    let mut shape = None;
    let first = parser.parse_object_capture_shape(&mut shape).unwrap();
    let kept = shape.unwrap();
    assert_eq!(kept.raw_keys, vec![(2, 4), (11, 15)]);
    assert_eq!(kept.keys, vec![b"id".to_vec(), b"name".to_vec()]);
    assert!(kept.is_flat);
    assert_eq!(keys_of(&first), vec![b"id".to_vec(), b"name".to_vec()]);
    assert_eq!(parser.pos, input.len());
    assert_eq!(parser.depth, 0);
    // Without a shape the shaped parser does the same.
    let mut parser = DirectParser::new(input, DecodeOptions::default());
    let mut shape = None;
    assert_eq!(parser.parse_object_shaped(&mut shape).unwrap(), first);
    assert_eq!(shape.unwrap().raw_keys, vec![(2, 4), (11, 15)]);
    // An empty object gives an empty shape.
    let mut parser = DirectParser::new(b"{ }", DecodeOptions::default());
    let mut shape = None;
    parser.parse_object_capture_shape(&mut shape).unwrap();
    assert_eq!(shape.unwrap().raw_keys, vec![]);
    // A failure leaves what was there.
    let mut parser = DirectParser::new(b"{\"a\" 1}", DecodeOptions::default());
    let mut shape = None;
    assert!(parser.parse_object_capture_shape(&mut shape).is_err());
    assert!(shape.is_none());
}

#[test]
fn the_shape_stays_while_the_keys_are_the_same() {
    let input = br#"[{"id": 1, "name": "x"}, {"id":2,"name":[3]}, {"id": 4}]"#;
    let mut parser = DirectParser::new(input, DecodeOptions::default());
    parser.pos = 1;
    parser.depth = 1;
    let mut shape = None;
    parser.parse_object_shaped(&mut shape).unwrap();
    let raw_keys = shape.as_ref().unwrap().raw_keys.clone();
    assert_eq!(raw_keys, vec![(3, 5), (12, 16)]);
    // The second object has the same keys: the shape stays as it is.
    parser.pos = 25;
    let second = parser.parse_object_shaped(&mut shape).unwrap();
    assert_eq!(parser.pos, 44);
    assert_eq!(parser.depth, 1);
    assert_eq!(
        second,
        Term::Mapping(vec![
            (Term::Binary(b"id".to_vec()), Term::Integer(2)),
            (Term::Binary(b"name".to_vec()), Term::List(vec![Term::Integer(3)])),
        ])
    );
    let kept = shape.as_ref().unwrap();
    assert_eq!(kept.raw_keys, raw_keys);
    assert_eq!(kept.keys, vec![b"id".to_vec(), b"name".to_vec()]);
    assert!(kept.is_flat);
    // The third has fewer keys: it is read as any object and the shape goes.
    parser.pos = 46;
    let third = parser.parse_object_shaped(&mut shape).unwrap();
    assert_eq!(third, Term::Mapping(vec![(Term::Binary(b"id".to_vec()), Term::Integer(4))]));
    assert_eq!(parser.pos, 55);
    assert_eq!(parser.depth, 1);
    assert!(shape.is_none());
}

#[test]
fn the_shape_goes_on_another_key() {
    let input = br#"{"k":1} {"j":2}"#;
    let mut parser = DirectParser::new(input, DecodeOptions::default());
    let mut shape = None;
    parser.parse_object_shaped(&mut shape).unwrap();
    assert_eq!(shape.as_ref().unwrap().raw_keys, vec![(2, 3)]);
    parser.pos = 8;
    let other = parser.parse_object_shaped(&mut shape).unwrap();
    assert_eq!(other, Term::Mapping(vec![(Term::Binary(b"j".to_vec()), Term::Integer(2))]));
    let mut plain = DirectParser::new(input, DecodeOptions::default());
    plain.pos = 8;
    assert_eq!(plain.parse_object().unwrap(), other);
    assert_eq!(parser.pos, plain.pos);
    assert_eq!(parser.depth, plain.depth);
    assert!(shape.is_none());
    // More keys than the shape, another order, an empty object: the same.
    for text in [&br#"{"k":1} {"k":2,"l":3}"#[..], br#"{"a":1,"b":2} {"b":1,"a":2}"#, br#"{"k":1} {}"#] {
        let second = text.iter().rposition(|&b| b == b'{').unwrap();
        let mut parser = DirectParser::new(text, DecodeOptions::default());
        let mut shape = None;
        parser.parse_object_shaped(&mut shape).unwrap();
        assert!(shape.is_some());
        parser.pos = second;
        let got = parser.parse_object_shaped(&mut shape).unwrap();
        let mut plain = DirectParser::new(text, DecodeOptions::default());
        plain.pos = second;
        assert_eq!(plain.parse_object().unwrap(), got);
        assert!(shape.is_none());
    }
}
