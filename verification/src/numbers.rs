//! The number codec of the decoder: laying out a literal, reading integers
//! and building decimal records.

use crate::digits::{all_digits, dec_value, int_text_value, is_integer_text, lemma_dec_value_push};
use crate::error::ErrorKind;
use crate::grammar::{
    byte_at, integer_term, decimal_coefficient, decimal_exponent, decimal_record, digits_end,
    fits_i64, exponent_digits_start, fraction_digits, is_exp_mark, scan_integer_part, scan_number,
    written_exponent, NumberScan,
};
use crate::names::{coef_name, decimal_name, exp_name, sign_name, struct_name};
use crate::outside::{bigint_decimal_text, lexical_parse_i64, lexical_parse_u64};
use crate::simd_utils::{is_digit, lemma_run_end_bounds, skip_ascii_digits, ByteClass};
use crate::term::{copy_bytes, lemma_view_children, Term};
use vstd::prelude::*;

verus! {

/// Whether `b` is an ASCII decimal digit.
pub fn is_ascii_digit(b: u8) -> (r: bool)
    ensures
        r == is_digit(b),
{
    0x30 <= b && b <= 0x39
}

/// End of the digit run that starts at `pos`.
pub fn skip_digits(input: &[u8], pos: usize) -> (r: usize)
    ensures
        r == digits_end(input@, pos as int),
{
    let mut p = pos;
    skip_ascii_digits(input, &mut p);
    p
}

/// The bytes of a digit run are digits.
pub proof fn lemma_digit_run(s: Seq<u8>, from: int)
    requires
        0 <= from <= s.len(),
    ensures
        from <= digits_end(s, from) <= s.len(),
        all_digits(s.subrange(from, digits_end(s, from))),
{
    lemma_run_end_bounds(s, from, ByteClass::Digit);
    let sub = s.subrange(from, digits_end(s, from));
    assert forall|i: int| 0 <= i < sub.len() implies is_digit(#[trigger] sub[i]) by {
        assert(ByteClass::Digit.contains(s[from + i]));
    }
}

/// The layout of a number literal: where its parts end.
#[derive(Clone, Copy, Debug)]
pub struct NumberLayout {
    /// Position of the first digit of the integer part.
    pub int_start: usize,
    /// Position after the integer part.
    pub int_end: usize,
    /// Position after the fraction; `int_end` when there is none.
    pub frac_end: usize,
    /// Position after the literal.
    pub end: usize,
    /// Whether the literal has a fraction or an exponent.
    pub is_float: bool,
}

impl NumberLayout {
    /// The layout as mathematics.
    pub open spec fn model(self) -> NumberScan {
        NumberScan {
            int_start: self.int_start as int,
            int_end: self.int_end as int,
            frac_end: self.frac_end as int,
            end: self.end as int,
            is_float: self.is_float,
        }
    }
}

/// What is known of the layout of a literal.
pub proof fn lemma_scan_number_shape(s: Seq<u8>, pos: int)
    requires
        0 <= pos,
        scan_number(s, pos) is Some,
    ensures
        ({
            let n = scan_number(s, pos).unwrap();
            &&& pos <= n.int_start < n.int_end <= n.frac_end <= n.end <= s.len()
            &&& (n.int_start == pos || (n.int_start == pos + 1 && s[pos] == 0x2d))
            &&& (n.int_start == pos ==> s[pos] != 0x2d)
            &&& all_digits(s.subrange(n.int_start, n.int_end))
            &&& all_digits(fraction_digits(s, n))
            &&& (!n.is_float ==> n.end == n.int_end)
            &&& (n.is_float <==> n.frac_end > n.int_end || n.end > n.frac_end)
            &&& (n.frac_end > n.int_end ==> s[n.int_end] == 0x2e && n.frac_end > n.int_end + 1)
            &&& (n.frac_end == n.int_end ==> !byte_at(s, n.int_end, 0x2e))
            &&& (n.end > n.frac_end ==> is_exp_mark(s[n.frac_end]) && n.frac_end + 1
                <= exponent_digits_start(s, n.frac_end) < n.end && n.end == digits_end(
                s,
                exponent_digits_start(s, n.frac_end),
            ) && all_digits(s.subrange(exponent_digits_start(s, n.frac_end), n.end)))
            &&& (n.int_end - n.int_start > 1 ==> s[n.int_start] != 0x30)
        }),
{
    let n = scan_number(s, pos).unwrap();
    assert(is_digit(s[n.int_start]));
    lemma_run_end_bounds(s, n.int_start + 1, ByteClass::Digit);
    lemma_digit_run(s, n.int_start);
    if s[n.int_start] == 0x30 {
        let sub = s.subrange(n.int_start, n.int_end);
        assert forall|i: int| 0 <= i < sub.len() implies is_digit(#[trigger] sub[i]) by {}
    }
    if byte_at(s, n.int_end, 0x2e) {
        lemma_run_end_bounds(s, n.int_end + 2, ByteClass::Digit);
        lemma_digit_run(s, n.int_end + 1);
    } else {
        assert(fraction_digits(s, n) =~= Seq::<u8>::empty());
    }
    if 0 <= n.frac_end < s.len() && is_exp_mark(s[n.frac_end]) {
        let exp_digits = exponent_digits_start(s, n.frac_end);
        lemma_run_end_bounds(s, exp_digits + 1, ByteClass::Digit);
        lemma_digit_run(s, exp_digits);
    }
}

/// The integer part of the number literal that starts at `pos`; `None`
/// where no digit stands.
pub fn scan_integer_part_at(input: &[u8], pos: usize) -> (r: Option<(usize, usize)>)
    requires
        pos <= input@.len(),
    ensures
        match r {
            Some((a, b)) => scan_integer_part(input@, pos as int) == Some((a as int, b as int))
                && pos <= a < b <= input@.len(),
            None => scan_integer_part(input@, pos as int) is None,
        },
{
    let len = input.len();
    let mut p = pos;
    if p < len && input[p] == 0x2d {
        p = p + 1;
    }
    let int_start = p;
    if p >= len || !is_ascii_digit(input[p]) {
        return None;
    }
    proof {
        lemma_run_end_bounds(input@, int_start + 1, ByteClass::Digit);
        lemma_digit_run(input@, int_start as int);
    }
    if input[p] == 0x30 {
        p = p + 1;
    } else {
        p = skip_digits(input, p);
    }
    Some((int_start, p))
}

/// Lays out what follows the integer part `input[int_start .. int_end]` of
/// the number literal that starts at `pos`; `None` where a digit is missing.
pub fn scan_number_tail(input: &[u8], pos: usize, int_start: usize, int_end: usize) -> (r: Option<
    NumberLayout,
>)
    requires
        pos <= input@.len(),
        scan_integer_part(input@, pos as int) == Some((int_start as int, int_end as int)),
        int_end <= input@.len(),
    ensures
        match r {
            Some(n) => scan_number(input@, pos as int) == Some(n.model()),
            None => scan_number(input@, pos as int) is None,
        },
{
    let len = input.len();
    let mut p = int_end;
    let mut is_float = false;
    if p < len && input[p] == 0x2e {
        is_float = true;
        p = p + 1;
        if p >= len || !is_ascii_digit(input[p]) {
            return None;
        }
        proof {
            lemma_digit_run(input@, p as int);
        }
        p = skip_digits(input, p);
    }
    let frac_end = p;
    if p < len && (input[p] == 0x65 || input[p] == 0x45) {
        is_float = true;
        p = p + 1;
        if p < len && (input[p] == 0x2b || input[p] == 0x2d) {
            p = p + 1;
        }
        if p >= len || !is_ascii_digit(input[p]) {
            return None;
        }
        proof {
            lemma_digit_run(input@, p as int);
        }
        p = skip_digits(input, p);
    }
    Some(NumberLayout { int_start, int_end, frac_end, end: p, is_float })
}

/// Lays out the number literal that starts at `pos`; `None` where a digit is
/// missing.
pub fn scan_number_layout(input: &[u8], pos: usize) -> (r: Option<NumberLayout>)
    requires
        pos <= input@.len(),
    ensures
        match r {
            Some(n) => scan_number(input@, pos as int) == Some(n.model()),
            None => scan_number(input@, pos as int) is None,
        },
{
    match scan_integer_part_at(input, pos) {
        None => None,
        Some((int_start, int_end)) => scan_number_tail(input, pos, int_start, int_end),
    }
}

/// The text of a literal without fraction and exponent is an integer text.
pub proof fn lemma_integer_literal(s: Seq<u8>, pos: int)
    requires
        0 <= pos,
        scan_number(s, pos) is Some,
        !scan_number(s, pos).unwrap().is_float,
    ensures
        is_integer_text(s.subrange(pos, scan_number(s, pos).unwrap().end)),
        int_text_value(s.subrange(pos, scan_number(s, pos).unwrap().end)) == (if s[pos] == 0x2d {
            -dec_value(
                s.subrange(
                    scan_number(s, pos).unwrap().int_start,
                    scan_number(s, pos).unwrap().int_end,
                ),
            )
        } else {
            dec_value(
                s.subrange(
                    scan_number(s, pos).unwrap().int_start,
                    scan_number(s, pos).unwrap().int_end,
                ),
            )
        }),
{
    lemma_scan_number_shape(s, pos);
    let n = scan_number(s, pos).unwrap();
    let text = s.subrange(pos, n.end);
    let digits = s.subrange(n.int_start, n.int_end);
    if s[pos] == 0x2d {
        assert(text.skip(1) =~= digits);
    } else {
        assert(text =~= digits);
        assert(is_digit(digits[0]));
    }
}

/// The term of the integer that `text` writes: 64 signed bits where they
/// suffice, 64 unsigned bits where those suffice, any size otherwise.
pub fn integer_from_text(text: &[u8]) -> (r: Result<Term, ErrorKind>)
    requires
        is_integer_text(text@),
    ensures
        r is Ok,
        r.unwrap()@ == integer_term(int_text_value(text@)),
        r.unwrap() is Integer <==> i64::MIN <= int_text_value(text@) <= i64::MAX,
        r.unwrap() is Unsigned <==> i64::MAX < int_text_value(text@) <= u64::MAX,
        r.unwrap() is BigInteger <==> !(i64::MIN <= int_text_value(text@) <= u64::MAX),
{
    proof {
        if text@[0] != 0x2d {
            lemma_dec_value_bound(text@);
        } else {
            lemma_dec_value_bound(text@.skip(1));
        }
    }
    match lexical_parse_i64(text) {
        Some(i) => Ok(Term::Integer(i)),
        None => match lexical_parse_u64(text) {
            Some(u) => Ok(Term::Unsigned(u)),
            None => match bigint_decimal_text(text) {
                Some(d) => Ok(Term::BigInteger(d)),
                None => Err(ErrorKind::InvalidNumber),
            },
        },
    }
}

/// Ten to the power `n`.
pub open spec fn pow10(n: nat) -> int
    decreases n,
{
    if n == 0 {
        1
    } else {
        10 * pow10((n - 1) as nat)
    }
}

/// Digits write a number below ten to the power of their count.
pub proof fn lemma_dec_value_bound(s: Seq<u8>)
    requires
        all_digits(s),
    ensures
        0 <= dec_value(s) < pow10(s.len()),
    decreases s.len(),
{
    if s.len() > 0 {
        let init = s.drop_last();
        assert forall|i: int| 0 <= i < init.len() implies is_digit(#[trigger] init[i]) by {
            assert(init[i] == s[i]);
        }
        lemma_dec_value_bound(init);
        assert(is_digit(s[s.len() - 1]));
    }
}

/// Ten to the power 18 and the powers below it.
pub proof fn lemma_pow10_18(n: nat)
    requires
        n <= 18,
    ensures
        pow10(n) <= 1_000_000_000_000_000_000,
    decreases 18 - n,
{
    reveal_with_fuel(pow10, 20);
    if n < 18 {
        lemma_pow10_18(n + 1);
    }
}

/// The number that the digits `input[start .. end]` write, by accumulation
/// in 64 bits; at most 18 digits, so nothing overflows.
pub fn accumulate_digits(input: &[u8], start: usize, end: usize) -> (r: i64)
    requires
        start <= end <= input@.len(),
        end - start <= 18,
        all_digits(input@.subrange(start as int, end as int)),
    ensures
        r == dec_value(input@.subrange(start as int, end as int)),
        0 <= r < 1_000_000_000_000_000_000,
{
    let mut val: i64 = 0;
    let mut i = start;
    assert(input@.subrange(start as int, start as int) =~= Seq::<u8>::empty());
    while i < end
        invariant
            start <= i <= end <= input@.len(),
            end - start <= 18,
            all_digits(input@.subrange(start as int, end as int)),
            all_digits(input@.subrange(start as int, i as int)),
            val == dec_value(input@.subrange(start as int, i as int)),
            0 <= val < pow10((i - start) as nat),
        decreases end - i,
    {
        let b = input[i];
        proof {
            let whole = input@.subrange(start as int, end as int);
            assert(is_digit(whole[i - start]));
            let prefix = input@.subrange(start as int, i as int);
            assert(input@.subrange(start as int, i + 1) =~= prefix.push(b));
            lemma_dec_value_push(prefix, b);
            lemma_pow10_18((i - start) as nat);
            lemma_pow10_18((i + 1 - start) as nat);
        }
        val = val * 10 + (b - 0x30) as i64;
        i = i + 1;
    }
    proof {
        lemma_pow10_18((end - start) as nat);
    }
    val
}

/// A leading zero does not change what digits write.
pub proof fn lemma_leading_zero(s: Seq<u8>)
    requires
        s.len() > 0,
        s[0] == 0x30,
    ensures
        dec_value(s) == dec_value(s.skip(1)),
    decreases s.len(),
{
    if s.len() == 1 {
        assert(s.drop_last() =~= Seq::<u8>::empty());
        assert(s.skip(1) =~= Seq::<u8>::empty());
        assert(dec_value(s.drop_last()) == 0);
    } else {
        lemma_leading_zero(s.drop_last());
        assert(s.drop_last().skip(1) =~= s.skip(1).drop_last());
    }
}

/// Digits read the same whether or not they are cut in two: the value of a
/// concatenation is the value of the parts put together.
pub proof fn lemma_skip_zeros(s: Seq<u8>, k: int)
    requires
        0 <= k <= s.len(),
        forall|i: int| 0 <= i < k ==> s[i] == 0x30,
    ensures
        dec_value(s) == dec_value(s.skip(k)),
    decreases k,
{
    if k > 0 {
        lemma_skip_zeros(s, k - 1);
        let t = s.skip(k - 1);
        assert(t[0] == s[k - 1]);
        lemma_leading_zero(t);
        assert(t.skip(1) =~= s.skip(k));
    } else {
        assert(s.skip(0) =~= s);
    }
}

/// The number that the digits `input[from .. to]` write, if it is at most
/// 2^63; `None` for a larger one.
pub fn read_magnitude(input: &[u8], from: usize, to: usize) -> (r: Option<u64>)
    requires
        from <= to <= input@.len(),
        all_digits(input@.subrange(from as int, to as int)),
    ensures
        r is Some <==> dec_value(input@.subrange(from as int, to as int)) <= 0x8000_0000_0000_0000,
        r is Some ==> r.unwrap() == dec_value(input@.subrange(from as int, to as int)),
{
    let mut acc: u64 = 0;
    let mut over = false;
    let mut i = from;
    assert(input@.subrange(from as int, from as int) =~= Seq::<u8>::empty());
    while i < to
        invariant
            from <= i <= to <= input@.len(),
            all_digits(input@.subrange(from as int, to as int)),
            !over ==> acc == dec_value(input@.subrange(from as int, i as int)) && acc
                <= 0x8000_0000_0000_0000,
            over ==> dec_value(input@.subrange(from as int, i as int)) > 0x8000_0000_0000_0000,
        decreases to - i,
    {
        let b = input[i];
        proof {
            let whole = input@.subrange(from as int, to as int);
            assert(is_digit(whole[i - from]));
            let prefix = input@.subrange(from as int, i as int);
            assert(input@.subrange(from as int, i + 1) =~= prefix.push(b));
            lemma_dec_value_push(prefix, b);
        }
        if !over {
            let next: u128 = (acc as u128) * 10 + ((b - 0x30) as u128);
            if next > 0x8000_0000_0000_0000 {
                over = true;
            } else {
                acc = next as u64;
            }
        }
        i = i + 1;
    }
    if over {
        None
    } else {
        Some(acc)
    }
}

/// The decimal record of the literal `input[pos .. n.end]`: sign,
/// coefficient and exponent.  Fails where an exponent does not fit 64
/// signed bits.
pub fn decimal_from_literal(input: &[u8], pos: usize, n: NumberLayout) -> (r: Result<
    Term,
    ErrorKind,
>)
    requires
        pos <= input@.len(),
        scan_number(input@, pos as int) == Some(n.model()),
    ensures
        match r {
            Ok(t) => fits_i64(written_exponent(input@, n.model())) && fits_i64(
                decimal_exponent(input@, n.model()),
            ) && t@ == decimal_record(
                if byte_at(input@, pos as int, 0x2d) {
                    -1
                } else {
                    1
                },
                decimal_coefficient(input@, n.model()),
                decimal_exponent(input@, n.model()),
            ),
            Err(e) => e == ErrorKind::InvalidNumber && !(fits_i64(
                written_exponent(input@, n.model()),
            ) && fits_i64(decimal_exponent(input@, n.model()))),
        },
{
    proof {
        lemma_scan_number_shape(input@, pos as int);
    }
    let negative = input[pos] == 0x2d;
    // The exponent as written.
    let written: i128 = if n.end == n.frac_end {
        0
    } else {
        let mark = n.frac_end + 1;
        let exp_negative = input[mark] == 0x2d;
        let digits_from = if input[mark] == 0x2d || input[mark] == 0x2b {
            mark + 1
        } else {
            mark
        };
        proof {
            lemma_digit_run(input@, digits_from as int);
        }
        assert(digits_from == exponent_digits_start(input@, n.frac_end as int));
        assert(exp_negative == byte_at(input@, n.frac_end + 1, 0x2d));
        let ghost v = dec_value(input@.subrange(digits_from as int, n.end as int));
        assert(written_exponent(input@, n.model()) == if exp_negative {
            -v
        } else {
            v
        });
        match read_magnitude(input, digits_from, n.end) {
            None => {
                return Err(ErrorKind::InvalidNumber);
            },
            Some(m) => {
                assert(m == v);
                if exp_negative {
                    -(m as i128)
                } else {
                    m as i128
                }
            },
        }
    };
    assert(written == written_exponent(input@, n.model()));
    if written > 0x7fff_ffff_ffff_ffff {
        return Err(ErrorKind::InvalidNumber);
    }
    let frac_len: usize = if n.frac_end == n.int_end {
        0
    } else {
        n.frac_end - n.int_end - 1
    };
    assert(frac_len == fraction_digits(input@, n.model()).len());
    let exponent: i128 = written - (frac_len as i128);
    if exponent < -0x8000_0000_0000_0000 {
        return Err(ErrorKind::InvalidNumber);
    }
    // The digits of the coefficient: integer part and fraction together.
    let mut digits: Vec<u8> = Vec::with_capacity(n.frac_end - n.int_start);
    crate::term::append(&mut digits, vstd::slice::slice_subrange(input, n.int_start, n.int_end));
    if frac_len > 0 {
        crate::term::append(
            &mut digits,
            vstd::slice::slice_subrange(input, n.int_end + 1, n.frac_end),
        );
    }
    let ghost all = input@.subrange(n.int_start as int, n.int_end as int) + fraction_digits(
        input@,
        n.model(),
    );
    assert(digits@ =~= all);
    assert(all_digits(all));
    // Leading zeros go, but for the last digit.
    let count = digits.len();
    let mut k: usize = 0;
    while k + 1 < count && digits[k] == 0x30
        invariant
            k < count == digits@.len(),
            forall|i: int| 0 <= i < k ==> digits@[i] == 0x30,
        decreases count - k,
    {
        k = k + 1;
    }
    let stripped = vstd::slice::slice_subrange(digits.as_slice(), k, digits.len());
    proof {
        lemma_skip_zeros(digits@, k as int);
        assert(stripped@ =~= digits@.skip(k as int));
        assert forall|i: int| 0 <= i < stripped@.len() implies is_digit(#[trigger] stripped@[i]) by {
            assert(stripped@[i] == all[k + i]);
        }
        assert(stripped@[0] == all[k as int]);
        assert(is_digit(stripped@[0]));
    }
    let coef = match integer_from_text(stripped) {
        Ok(c) => c,
        Err(e) => {
            return Err(e);
        },
    };
    let sign: i64 = if negative {
        -1
    } else {
        1
    };
    let mut entries: Vec<(Term, Term)> = Vec::with_capacity(4);
    entries.push((Term::Atom(copy_bytes(&struct_name())), Term::Atom(copy_bytes(&decimal_name()))));
    entries.push((Term::Atom(copy_bytes(&coef_name())), coef));
    entries.push((Term::Atom(copy_bytes(&exp_name())), Term::Integer(exponent as i64)));
    entries.push((Term::Atom(copy_bytes(&sign_name())), Term::Integer(sign)));
    let t = Term::Mapping(entries);
    proof {
        lemma_view_children(t);
        let want = decimal_record(
            sign as int,
            decimal_coefficient(input@, n.model()),
            decimal_exponent(input@, n.model()),
        )->Mapping_0;
        assert(dec_value(stripped@) == decimal_coefficient(input@, n.model()));
        assert(t@->Mapping_0[0] == want[0]);
        assert(t@->Mapping_0[1] == want[1]);
        assert(t@->Mapping_0[2] == want[2]);
        assert(t@->Mapping_0[3] == want[3]);
        assert(t@->Mapping_0 =~= decimal_record(
            sign as int,
            decimal_coefficient(input@, n.model()),
            decimal_exponent(input@, n.model()),
        )->Mapping_0);
    }
    Ok(t)
}

} // verus!
