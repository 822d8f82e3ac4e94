//! Decimal digits and the integers they write.

use crate::simd_utils::is_digit;
use vstd::prelude::*;

verus! {

// ---------------------------------------------------------------------------
/// Every byte of `s` is a decimal digit.
pub open spec fn all_digits(s: Seq<u8>) -> bool {
    forall|i: int| 0 <= i < s.len() ==> is_digit(#[trigger] s[i])
}

/// The number that the decimal digits `s` write; the empty sequence writes 0.
pub open spec fn dec_value(s: Seq<u8>) -> int
    decreases s.len(),
{
    if s.len() == 0 {
        0
    } else {
        dec_value(s.drop_last()) * 10 + (s.last() - 0x30)
    }
}

/// The decimal digits of `n`, without leading zeros; `0` for zero.
pub open spec fn dec_digits(n: nat) -> Seq<u8>
    decreases n,
{
    if n < 10 {
        seq![(0x30 + n) as u8]
    } else {
        dec_digits(n / 10).push((0x30 + n % 10) as u8)
    }
}

/// The decimal text of an integer: its digits, with `-` in front of a
/// negative one.
pub open spec fn int_text(n: int) -> Seq<u8> {
    if n < 0 {
        seq![0x2du8] + dec_digits((-n) as nat)
    } else {
        dec_digits(n as nat)
    }
}

/// `s` is an optional `-` followed by at least one digit.
pub open spec fn is_integer_text(s: Seq<u8>) -> bool {
    if s.len() > 0 && s[0] == 0x2d {
        s.len() > 1 && all_digits(s.skip(1))
    } else {
        s.len() > 0 && all_digits(s)
    }
}

/// The integer that an integer text writes.
pub open spec fn int_text_value(s: Seq<u8>) -> int {
    if s.len() > 0 && s[0] == 0x2d {
        -dec_value(s.skip(1))
    } else {
        dec_value(s)
    }
}

/// `s` is the decimal text of some integer: no leading zero but in `0`
/// itself, and no `-0`.
pub open spec fn is_canonical_integer_text(s: Seq<u8>) -> bool {
    &&& is_integer_text(s)
    &&& if s[0] == 0x2d {
        s[1] != 0x30
    } else {
        s.len() == 1 || s[0] != 0x30
    }
}

/// Appending a digit multiplies by ten and adds the digit.
pub proof fn lemma_dec_value_push(s: Seq<u8>, d: u8)
    ensures
        dec_value(s.push(d)) == dec_value(s) * 10 + (d - 0x30),
        is_digit(d) && all_digits(s) ==> all_digits(s.push(d)),
{
    assert(s.push(d).drop_last() =~= s);
}

/// The digits of a number are digits, at least one, and start with `0` only
/// for zero itself.
pub proof fn lemma_dec_digits_shape(n: nat)
    ensures
        dec_digits(n).len() >= 1,
        all_digits(dec_digits(n)),
        dec_digits(n)[0] == 0x30 <==> n == 0,
        n == 0 ==> dec_digits(n).len() == 1,
    decreases n,
{
    if n >= 10 {
        lemma_dec_digits_shape(n / 10);
        lemma_dec_value_push(dec_digits(n / 10), (0x30 + n % 10) as u8);
    }
}

/// Reading the digits of a number gives the number back.
pub proof fn lemma_dec_value_of_digits(n: nat)
    ensures
        dec_value(dec_digits(n)) == n,
    decreases n,
{
    if n < 10 {
        let s = seq![(0x30 + n) as u8];
        assert(s.drop_last() =~= Seq::<u8>::empty());
        assert(dec_value(s.drop_last()) == 0);
    } else {
        lemma_dec_value_of_digits(n / 10);
        lemma_dec_value_push(dec_digits(n / 10), (0x30 + n % 10) as u8);
    }
}

/// Writing the number of digits without a leading zero gives the digits
/// back.
pub proof fn lemma_dec_digits_of_value(s: Seq<u8>)
    requires
        s.len() >= 1,
        all_digits(s),
        s.len() == 1 || s[0] != 0x30,
    ensures
        dec_value(s) >= 0,
        dec_digits(dec_value(s) as nat) == s,
        s.len() > 1 ==> dec_value(s) >= 10,
    decreases s.len(),
{
    let init = s.drop_last();
    if s.len() == 1 {
        assert(init =~= Seq::<u8>::empty());
        assert(dec_value(init) == 0);
        assert(dec_digits(dec_value(s) as nat) =~= s);
    } else {
        assert(all_digits(init)) by {
            assert forall|i: int| 0 <= i < init.len() implies is_digit(#[trigger] init[i]) by {
                assert(init[i] == s[i]);
            }
        }
        assert(init[0] == s[0]);
        lemma_dec_digits_of_value(init);
        lemma_dec_value_positive(init);
        let v = dec_value(init);
        let d = (s.last() - 0x30) as int;
        assert(dec_value(s) == v * 10 + d);
        assert((v * 10 + d) / 10 == v);
        assert((v * 10 + d) % 10 == d);
        assert(dec_digits(dec_value(s) as nat) =~= s);
    }
}

/// Digits that do not start with `0` write a positive number.
pub proof fn lemma_dec_value_positive(s: Seq<u8>)
    requires
        s.len() >= 1,
        all_digits(s),
        s[0] != 0x30,
    ensures
        dec_value(s) >= 1,
    decreases s.len(),
{
    let init = s.drop_last();
    if s.len() == 1 {
        assert(init =~= Seq::<u8>::empty());
        assert(dec_value(init) == 0);
    } else {
        assert forall|i: int| 0 <= i < init.len() implies is_digit(#[trigger] init[i]) by {
            assert(init[i] == s[i]);
        }
        assert(init[0] == s[0]);
        lemma_dec_value_positive(init);
    }
}

/// Reading the text of an integer gives the integer back, and the text of
/// an integer is canonical.
pub proof fn lemma_int_text_round_trip(n: int)
    ensures
        is_canonical_integer_text(int_text(n)),
        int_text_value(int_text(n)) == n,
{
    if n < 0 {
        let d = dec_digits((-n) as nat);
        lemma_dec_digits_shape((-n) as nat);
        lemma_dec_value_of_digits((-n) as nat);
        assert(int_text(n).skip(1) =~= d);
        assert(int_text(n)[1] == d[0]);
    } else {
        lemma_dec_digits_shape(n as nat);
        lemma_dec_value_of_digits(n as nat);
    }
}

/// Writing the integer of a canonical text gives the text back.
pub proof fn lemma_canonical_text_round_trip(s: Seq<u8>)
    requires
        is_canonical_integer_text(s),
    ensures
        int_text(int_text_value(s)) == s,
{
    if s[0] == 0x2d {
        let d = s.skip(1);
        assert(d[0] == s[1]);
        lemma_dec_digits_of_value(d);
        lemma_dec_value_positive(d);
        assert(int_text(int_text_value(s)) =~= s);
    } else {
        lemma_dec_digits_of_value(s);
    }
}

} // verus!
