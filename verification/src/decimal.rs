//! Decimal records as text.

use crate::digits::{dec_digits, int_text, lemma_dec_digits_shape};
use crate::encoding::{decimal_record_text, decimal_text, repeated};
use crate::fields::{field, get_field, read_i128, read_i32};
use crate::names::{
    coef_name, decimal_name, exp_name, name_decimal, name_struct, sign_name, struct_name,
};
use crate::outside::string_from_utf8;
use crate::simd_utils::is_digit;
use crate::term::{append, bytes_eq, lemma_view_children, Term, TermV};
use vstd::prelude::*;
use vstd::utf8::{decode_utf8, pop_first_scalar, valid_utf8};

verus! {

/// Every byte of `s` is ASCII.
pub open spec fn is_ascii_bytes(s: Seq<u8>) -> bool {
    forall|i: int| 0 <= i < s.len() ==> (#[trigger] s[i]) < 0x80
}

/// Appends the decimal digits of `n`.
pub fn push_digits(out: &mut Vec<u8>, n: u128)
    ensures
        final(out)@ == old(out)@ + dec_digits(n as nat),
    decreases n,
{
    if n >= 10 {
        push_digits(out, n / 10);
    }
    let digit: u8 = (n % 10) as u8;
    out.push(0x30 + digit);
    proof {
        if n >= 10 {
            assert(out@ =~= old(out)@ + dec_digits((n / 10) as nat).push((0x30 + n % 10) as u8));
        } else {
            assert(out@ =~= old(out)@ + seq![(0x30 + n) as u8]);
        }
    }
}

/// The decimal text of `n`: its digits, with `-` in front of a negative
/// one.
pub fn integer_text(n: i128) -> (r: Vec<u8>)
    ensures
        r@ == int_text(n as int),
{
    let mut out: Vec<u8> = Vec::new();
    if n < 0 {
        out.push(0x2d);
        // The magnitude, also of the lowest value, which has no negation.
        let magnitude: u128 = (-(n + 1)) as u128 + 1;
        push_digits(&mut out, magnitude);
        assert(out@ =~= seq![0x2du8] + dec_digits((-n) as nat));
    } else {
        push_digits(&mut out, n as u128);
        assert(out@ =~= dec_digits(n as nat));
    }
    out
}

/// ASCII bytes are UTF-8.
pub proof fn lemma_ascii_is_utf8(s: Seq<u8>)
    requires
        is_ascii_bytes(s),
    ensures
        valid_utf8(s),
    decreases s.len(),
{
    if s.len() > 0 {
        assert(s[0] < 0x80);
        let rest = pop_first_scalar(s);
        assert(rest =~= s.skip(1));
        assert forall|i: int| 0 <= i < rest.len() implies (#[trigger] rest[i]) < 0x80 by {
            assert(rest[i] == s[i + 1]);
        }
        lemma_ascii_is_utf8(rest);
    }
}

/// Appends `n` zeros to `out`.
fn push_zeros(out: &mut Vec<u8>, n: usize)
    ensures
        final(out)@ == old(out)@ + repeated(seq![0x30u8], n as int),
{
    let mut i: usize = 0;
    assert(out@ =~= old(out)@ + repeated(seq![0x30u8], 0));
    while i < n
        invariant
            i <= n,
            out@ == old(out)@ + repeated(seq![0x30u8], i as int),
        decreases n - i,
    {
        out.push(0x30);
        i = i + 1;
        assert(out@ =~= old(out)@ + repeated(seq![0x30u8], i as int));
    }
}

/// Zeros are ASCII.
proof fn lemma_zeros_ascii(n: int)
    ensures
        is_ascii_bytes(repeated(seq![0x30u8], n)),
    decreases n,
{
    if n > 0 {
        lemma_zeros_ascii(n - 1);
    }
}

/// The text of an integer is ASCII.
pub proof fn lemma_int_text_is_ascii(n: int)
    ensures
        is_ascii_bytes(int_text(n)),
        int_text(n).len() >= 1,
{
    if n < 0 {
        lemma_dec_digits_shape((-n) as nat);
        let d = dec_digits((-n) as nat);
        assert forall|i: int| 0 <= i < int_text(n).len() implies (#[trigger] int_text(n)[i])
            < 0x80 by {
            if i > 0 {
                assert(is_digit(d[i - 1]));
            }
        }
    } else {
        lemma_dec_digits_shape(n as nat);
        let d = dec_digits(n as nat);
        assert forall|i: int| 0 <= i < d.len() implies (#[trigger] d[i]) < 0x80 by {
            assert(is_digit(d[i]));
        }
    }
}

/// The text of the decimal `sign * coef * 10^exp`, as bytes.
pub fn format_decimal_bytes(coef: i128, exp: i32, sign: i32) -> (r: Vec<u8>)
    ensures
        r@ == decimal_text(coef as int, exp as int, sign as int),
        is_ascii_bytes(r@),
{
    let mut out: Vec<u8> = Vec::new();
    if sign < 0 {
        out.push(0x2d);
    }
    let ghost mark = out@;
    let digits = integer_text(coef);
    proof {
        lemma_int_text_is_ascii(coef as int);
    }
    if exp >= 0 {
        append(&mut out, digits.as_slice());
        push_zeros(&mut out, exp as usize);
        proof {
            lemma_zeros_ascii(exp as int);
            assert(out@ =~= mark + digits@ + repeated(seq![0x30u8], exp as int));
        }
    } else {
        let places = (-(exp as i64)) as usize;
        let len = digits.len();
        if places >= len {
            out.push(0x30);
            out.push(0x2e);
            push_zeros(&mut out, places - len);
            append(&mut out, digits.as_slice());
            proof {
                lemma_zeros_ascii(places - len);
                assert(out@ =~= mark + seq![0x30u8, 0x2e] + repeated(seq![0x30u8], places - len)
                    + digits@);
            }
        } else {
            append(&mut out, vstd::slice::slice_subrange(digits.as_slice(), 0, len - places));
            out.push(0x2e);
            append(&mut out, vstd::slice::slice_subrange(digits.as_slice(), len - places, len));
            proof {
                assert(out@ =~= mark + digits@.subrange(0, len - places) + seq![0x2eu8]
                    + digits@.subrange(len - places, len as int));
            }
        }
    }
    out
}

/// The text of the decimal `sign * coef * 10^exp`: `123.45` for the
/// coefficient 12345 and the exponent -2, `1000` for the coefficient 1 and
/// the exponent 3, `0.00123` for the coefficient 123 and the exponent -5; `-`
/// in front for a negative sign.
pub fn format_decimal(coef: i128, exp: i32, sign: i32) -> (r: String)
    ensures
        r@ == decode_utf8(decimal_text(coef as int, exp as int, sign as int)),
{
    let bytes = format_decimal_bytes(coef, exp, sign);
    proof {
        lemma_ascii_is_utf8(bytes@);
    }
    string_from_utf8(bytes)
}

/// The text of `term` where `term` is a decimal record: a mapping named
/// `Elixir.Decimal` whose fields `coef`, `exp` and `sign` are integers of
/// 128, 32 and 32 bits.
pub open spec fn decimal_term_text(t: TermV) -> Option<Seq<u8>> {
    match t {
        TermV::Mapping(entries) => if field(entries, name_struct()) == Some(
            TermV::Atom(name_decimal()),
        ) {
            decimal_record_text(entries)
        } else {
            None
        },
        _ => None,
    }
}

/// The text of the decimal record in `entries`, as bytes.
pub fn decimal_record_bytes(entries: &Vec<(Term, Term)>) -> (r: Option<Vec<u8>>)
    ensures
        match r {
            Some(text) => decimal_record_text(crate::term::entries_view(entries@)) == Some(text@)
                && valid_utf8(text@),
            None => decimal_record_text(crate::term::entries_view(entries@)) is None,
        },
{
    let coef = match get_field(entries, &coef_name()) {
        Some(t) => match read_i128(t) {
            Some(c) => c,
            None => {
                return None;
            },
        },
        None => {
            return None;
        },
    };
    let exp = match get_field(entries, &exp_name()) {
        Some(t) => match read_i32(t) {
            Some(e) => e,
            None => {
                return None;
            },
        },
        None => {
            return None;
        },
    };
    let sign = match get_field(entries, &sign_name()) {
        Some(t) => match read_i32(t) {
            Some(s) => s,
            None => {
                return None;
            },
        },
        None => {
            return None;
        },
    };
    let text = format_decimal_bytes(coef, exp, sign);
    proof {
        lemma_ascii_is_utf8(text@);
    }
    Some(text)
}

/// The text of `term` where `term` is a decimal record.
pub fn try_format_decimal(term: &Term) -> (r: Option<String>)
    ensures
        match r {
            Some(text) => decimal_term_text(term@) is Some && text@ == decode_utf8(
                decimal_term_text(term@).unwrap(),
            ),
            None => decimal_term_text(term@) is None,
        },
{
    match term {
        Term::Mapping(entries) => {
            proof {
                lemma_view_children(*term);
            }
            let named = match get_field(entries, &struct_name()) {
                Some(Term::Atom(name)) => bytes_eq(name.as_slice(), &decimal_name()),
                _ => false,
            };
            if !named {
                return None;
            }
            match decimal_record_bytes(entries) {
                Some(bytes) => Some(string_from_utf8(bytes)),
                None => None,
            }
        },
        _ => None,
    }
}

} // verus!
