use rustyjson::direct_json::{write_json_string, EscapeMode};

#[test]
fn test_write_json_string() {
    let mut buf = Vec::new();
    write_json_string("hello", &mut buf, EscapeMode::Json).unwrap();
    assert_eq!(String::from_utf8(buf).unwrap(), "\"hello\"");

    let mut buf = Vec::new();
    write_json_string("hello\"world", &mut buf, EscapeMode::Json).unwrap();
    assert_eq!(String::from_utf8(buf).unwrap(), "\"hello\\\"world\"");

    let mut buf = Vec::new();
    write_json_string("line1\nline2", &mut buf, EscapeMode::Json).unwrap();
    assert_eq!(String::from_utf8(buf).unwrap(), "\"line1\\nline2\"");
}

#[test]
fn test_html_safe_escaping() {
    let mut buf = Vec::new();
    write_json_string("<script>", &mut buf, EscapeMode::HtmlSafe).unwrap();
    assert_eq!(String::from_utf8(buf).unwrap(), "\"\\u003cscript\\u003e\"");

    let mut buf = Vec::new();
    write_json_string("a & b", &mut buf, EscapeMode::HtmlSafe).unwrap();
    assert_eq!(String::from_utf8(buf).unwrap(), "\"a \\u0026 b\"");
}
