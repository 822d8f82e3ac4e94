//! The string writer on its own, one function per escape mode.

use crate::direct_json::write_json_string_escaped;
use crate::encoding::{quoted, EscapeMode};
use vstd::prelude::*;
use vstd::string::StringSliceAdditionalSpecFns;

verus! {

/// `input` as a JSON string with the escapes that JSON asks for.
pub fn escape_string_json(input: &str) -> (r: Vec<u8>)
    ensures
        r@ == quoted(input.spec_bytes(), EscapeMode::Json),
{
    let mut buf: Vec<u8> = Vec::new();
    let _ = write_json_string_escaped(input, &mut buf, EscapeMode::Json);
    assert(Seq::<u8>::empty() + quoted(input.spec_bytes(), EscapeMode::Json) =~= quoted(
        input.spec_bytes(),
        EscapeMode::Json,
    ));
    buf
}

/// `input` as a JSON string that is safe inside HTML.
pub fn escape_string_html(input: &str) -> (r: Vec<u8>)
    ensures
        r@ == quoted(input.spec_bytes(), EscapeMode::HtmlSafe),
{
    let mut buf: Vec<u8> = Vec::new();
    let _ = write_json_string_escaped(input, &mut buf, EscapeMode::HtmlSafe);
    assert(Seq::<u8>::empty() + quoted(input.spec_bytes(), EscapeMode::HtmlSafe) =~= quoted(
        input.spec_bytes(),
        EscapeMode::HtmlSafe,
    ));
    buf
}

/// `input` as a JSON string of ASCII bytes only.
pub fn escape_string_unicode(input: &str) -> (r: Vec<u8>)
    ensures
        r@ == quoted(input.spec_bytes(), EscapeMode::UnicodeSafe),
{
    let mut buf: Vec<u8> = Vec::new();
    let _ = write_json_string_escaped(input, &mut buf, EscapeMode::UnicodeSafe);
    assert(Seq::<u8>::empty() + quoted(input.spec_bytes(), EscapeMode::UnicodeSafe) =~= quoted(
        input.spec_bytes(),
        EscapeMode::UnicodeSafe,
    ));
    buf
}

/// `input` as a JSON string that is safe inside JavaScript.
pub fn escape_string_javascript(input: &str) -> (r: Vec<u8>)
    ensures
        r@ == quoted(input.spec_bytes(), EscapeMode::JavaScriptSafe),
{
    let mut buf: Vec<u8> = Vec::new();
    let _ = write_json_string_escaped(input, &mut buf, EscapeMode::JavaScriptSafe);
    assert(Seq::<u8>::empty() + quoted(input.spec_bytes(), EscapeMode::JavaScriptSafe) =~= quoted(
        input.spec_bytes(),
        EscapeMode::JavaScriptSafe,
    ));
    buf
}

} // verus!
