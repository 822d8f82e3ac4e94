//! The calls into other crates.  What each contract says is believed, not
//! proved; each doc comment names the function that is called and what is
//! claimed of it.

use crate::digits::{dec_digits, int_text, int_text_value, is_integer_text};
use std::io::Write;
use vstd::prelude::*;
use vstd::utf8::valid_utf8;

verus! {

/// `simdutf8::basic::from_utf8`: succeeds exactly on the byte sequences that
/// are valid UTF-8.
#[verifier::external_body]
pub(crate) fn is_valid_utf8(bytes: &[u8]) -> (r: bool)
    ensures
        r == valid_utf8(bytes@),
{
    simdutf8::basic::from_utf8(bytes).is_ok()
}

/// `lexical_core::parse::<i64>`: on an optional `-` and decimal digits it
/// gives the integer they write when that fits 64 signed bits, and fails
/// otherwise.
#[verifier::external_body]
pub(crate) fn lexical_parse_i64(bytes: &[u8]) -> (r: Option<i64>)
    requires
        is_integer_text(bytes@),
    ensures
        r == (if i64::MIN <= int_text_value(bytes@) <= i64::MAX {
            Some(int_text_value(bytes@) as i64)
        } else {
            None::<i64>
        }),
{
    lexical_core::parse::<i64>(bytes).ok()
}

/// `lexical_core::parse::<u64>`: on decimal digits it gives the number they
/// write when that fits 64 unsigned bits; it fails on a larger one and on
/// any text with a `-` in front.
#[verifier::external_body]
pub(crate) fn lexical_parse_u64(bytes: &[u8]) -> (r: Option<u64>)
    requires
        is_integer_text(bytes@),
    ensures
        r == (if bytes@[0] != 0x2d && int_text_value(bytes@) <= u64::MAX {
            Some(int_text_value(bytes@) as u64)
        } else {
            None::<u64>
        }),
{
    lexical_core::parse::<u64>(bytes).ok()
}

/// `num_bigint::BigInt::from_str` followed by the `to_string` of the result:
/// an optional `-` and decimal digits always parse, and the integer prints
/// as its decimal text.
#[verifier::external_body]
pub(crate) fn bigint_decimal_text(bytes: &[u8]) -> (r: Option<Vec<u8>>)
    requires
        is_integer_text(bytes@),
    ensures
        r is Some,
        r.unwrap()@ == int_text(int_text_value(bytes@)),
{
    let text = std::str::from_utf8(bytes).ok()?;
    let big = text.parse::<num_bigint::BigInt>().ok()?;
    Some(big.to_string().into_bytes())
}

/// `itoa::Buffer::format` on an `i64`: the decimal text of the integer.
#[verifier::external_body]
pub(crate) fn itoa_i64(n: i64) -> (r: Vec<u8>)
    ensures
        r@ == int_text(n as int),
{
    let mut buf = itoa::Buffer::new();
    buf.format(n).as_bytes().to_vec()
}

/// `itoa::Buffer::format` on a `u64`: the decimal digits of the number.
#[verifier::external_body]
pub(crate) fn itoa_u64(n: u64) -> (r: Vec<u8>)
    ensures
        r@ == dec_digits(n as nat),
{
    let mut buf = itoa::Buffer::new();
    buf.format(n).as_bytes().to_vec()
}

/// `String::from_utf8`: the string whose bytes are given.  The bytes have
/// to be UTF-8, which the caller proves.
#[verifier::external_body]
pub(crate) fn string_from_utf8(bytes: Vec<u8>) -> (r: String)
    requires
        valid_utf8(bytes@),
    ensures
        r@ == vstd::utf8::decode_utf8(bytes@),
{
    String::from_utf8(bytes).unwrap_or_default()
}

/// A byte string in a `smallvec::SmallVec`, which keeps up to 16 bytes in
/// place and longer ones on the heap.
#[verifier::external_body]
pub struct SmallBytes {
    inner: smallvec::SmallVec<[u8; 16]>,
}

/// The bytes that a small byte string holds, in order.
pub uninterp spec fn small_bytes(v: SmallBytes) -> Seq<u8>;

/// `smallvec::SmallVec::from_slice`: a small vector that holds a copy of
/// the bytes of the slice.
#[verifier::external_body]
pub(crate) fn small_from_slice(bytes: &[u8]) -> (r: SmallBytes)
    ensures
        small_bytes(r) == bytes@,
{
    SmallBytes { inner: smallvec::SmallVec::from_slice(bytes) }
}

/// `smallvec::SmallVec::as_slice`: the bytes that the small vector holds,
/// as a slice.
#[verifier::external_body]
pub(crate) fn small_as_slice(v: &SmallBytes) -> (r: &[u8])
    ensures
        r@ == small_bytes(*v),
{
    v.inner.as_slice()
}

/// The gzip stream that `flate2` makes of `data` at the compression level
/// `level`.
pub uninterp spec fn gzip_stream(data: Seq<u8>, level: u32) -> Seq<u8>;

/// `flate2::write::GzEncoder` behind a `std::io::BufWriter`: everything is
/// written, flushed and finished.  The encoder writes into a vector, which
/// takes every write, so the stream always comes out; it depends on the
/// data and the level alone (the header holds no time and no name).
/// Levels above 10 are left out: the encoder does not take them.
#[verifier::external_body]
pub(crate) fn gzip_encode(data: &[u8], level: u32) -> (r: Option<Vec<u8>>)
    requires
        level <= 10,
    ensures
        r is Some,
        r.unwrap()@ == gzip_stream(data@, level),
{
    let sink = Vec::with_capacity(4096);
    let encoder = flate2::write::GzEncoder::new(sink, flate2::Compression::new(level));
    let mut buffered = std::io::BufWriter::with_capacity(10_240, encoder);
    buffered.write_all(data).ok()?;
    buffered.flush().ok()?;
    let encoder = buffered.into_inner().ok()?;
    encoder.finish().ok()
}

/// `std::time::SystemTime::now`, as nanoseconds since the epoch cut to 64
/// bits.  Nothing is claimed of the result: it seeds a hash and differs
/// from call to call.
#[verifier::external_body]
pub(crate) fn clock_nanos() -> u64 {
    std::time::SystemTime::now().duration_since(std::time::UNIX_EPOCH).unwrap_or_default().as_nanos()
        as u64
}

} // verus!
