//! Reading the fields of a record: looking a field up by its name and
//! taking its value as the type that is wanted.

use crate::digits::{all_digits, dec_value, int_text_value, is_integer_text, lemma_dec_value_push};
use crate::names::{name_nil, nil_name};
use crate::simd_utils::is_digit;
use crate::term::{bytes_eq, entries_view, Term, TermV};
use vstd::prelude::*;
use vstd::utf8::valid_utf8;

verus! {

/// Index of the first entry from `from` on whose key is the atom `name`;
/// the number of entries where there is none.
pub open spec fn field_index(entries: Seq<(TermV, TermV)>, name: Seq<u8>, from: int) -> int
    decreases entries.len() - from,
{
    if from < 0 || from >= entries.len() {
        entries.len() as int
    } else if entries[from].0 == TermV::Atom(name) {
        from
    } else {
        field_index(entries, name, from + 1)
    }
}

/// The value of the field `name` of a record, if it has the field.
pub open spec fn field(entries: Seq<(TermV, TermV)>, name: Seq<u8>) -> Option<TermV> {
    let i = field_index(entries, name, 0);
    if i < entries.len() {
        Some(entries[i].1)
    } else {
        None
    }
}

/// A field index lies in the record or is its length.
pub proof fn lemma_field_index(entries: Seq<(TermV, TermV)>, name: Seq<u8>, from: int)
    requires
        0 <= from,
    ensures
        from <= field_index(entries, name, from) || field_index(entries, name, from)
            == entries.len(),
        0 <= field_index(entries, name, from) <= entries.len(),
    decreases entries.len() - from,
{
    if from < entries.len() && entries[from].0 != TermV::Atom(name) {
        lemma_field_index(entries, name, from + 1);
    }
}

/// Looks up the field `name` of a record.
pub fn get_field<'a>(entries: &'a Vec<(Term, Term)>, name: &[u8]) -> (r: Option<&'a Term>)
    ensures
        match r {
            Some(t) => field(entries_view(entries@), name@) == Some(t@) && field_index(
                entries_view(entries@),
                name@,
                0,
            ) < entries@.len() && *t == entries@[field_index(entries_view(entries@), name@, 0)].1,
            None => field(entries_view(entries@), name@) is None,
        },
{
    let mut i: usize = 0;
    while i < entries.len()
        invariant
            i <= entries@.len(),
            field_index(entries_view(entries@), name@, 0) == field_index(
                entries_view(entries@),
                name@,
                i as int,
            ),
        decreases entries@.len() - i,
    {
        let same = match &entries[i].0 {
            Term::Atom(a) => bytes_eq(a.as_slice(), name),
            _ => false,
        };
        if same {
            return Some(&entries[i].1);
        }
        i = i + 1;
    }
    None
}

/// The integer that a term holds, if it holds one.
pub open spec fn as_integer(t: TermV) -> Option<int> {
    match t {
        TermV::Integer(n) => Some(n),
        TermV::BigInteger(d) => if is_integer_text(d) {
            Some(int_text_value(d))
        } else {
            None
        },
        _ => None,
    }
}

/// The integer that a term holds, if it holds one between `low` and `high`.
pub open spec fn as_integer_within(t: TermV, low: int, high: int) -> Option<int> {
    match as_integer(t) {
        Some(n) => if low <= n <= high {
            Some(n)
        } else {
            None
        },
        None => None,
    }
}

/// The text that a term holds: the bytes of a byte string that is UTF-8.
pub open spec fn as_text(t: TermV) -> Option<Seq<u8>> {
    match t {
        TermV::Binary(b) => if valid_utf8(b) {
            Some(b)
        } else {
            None
        },
        _ => None,
    }
}

/// Whether every byte of `text` is a decimal digit.
pub fn digits_only(text: &[u8], from: usize) -> (r: bool)
    requires
        from <= text@.len(),
    ensures
        r == all_digits(text@.skip(from as int)),
{
    let mut i = from;
    while i < text.len()
        invariant
            from <= i <= text@.len(),
            forall|j: int| from <= j < i ==> is_digit(#[trigger] text@[j]),
        decreases text@.len() - i,
    {
        if !(0x30 <= text[i] && text[i] <= 0x39) {
            assert(!is_digit(text@.skip(from as int)[i - from]));
            return false;
        }
        i = i + 1;
    }
    assert forall|j: int| 0 <= j < text@.skip(from as int).len() implies is_digit(
        #[trigger] text@.skip(from as int)[j],
    ) by {
        assert(text@.skip(from as int)[j] == text@[from + j]);
    }
    true
}

/// Whether `text` is an optional `-` followed by at least one digit.
pub fn is_integer_text_bytes(text: &[u8]) -> (r: bool)
    ensures
        r == is_integer_text(text@),
{
    if text.len() == 0 {
        return false;
    }
    if text[0] == 0x2d {
        text.len() > 1 && digits_only(text, 1)
    } else {
        let r = digits_only(text, 0);
        assert(text@.skip(0) =~= text@);
        r
    }
}

/// The integer that the integer text `text` writes, if it fits 128 signed
/// bits.
pub fn read_i128_text(text: &[u8]) -> (r: Option<i128>)
    requires
        is_integer_text(text@),
    ensures
        r == (if i128::MIN <= int_text_value(text@) <= i128::MAX {
            Some(int_text_value(text@) as i128)
        } else {
            None::<i128>
        }),
{
    let negative = text[0] == 0x2d;
    let from: usize = if negative {
        1
    } else {
        0
    };
    let ghost digits = text@.skip(from as int);
    proof {
        if !negative {
            assert(digits =~= text@);
        }
    }
    // Accumulated as a negative number, whose range is the wider one.
    let mut acc: i128 = 0;
    let mut over = false;
    let mut i = from;
    assert(digits.subrange(0, 0) =~= Seq::<u8>::empty());
    while i < text.len()
        invariant
            from <= i <= text@.len(),
            digits == text@.skip(from as int),
            all_digits(digits),
            !over ==> acc == -dec_value(digits.subrange(0, i - from)) && acc <= 0,
            over ==> dec_value(digits.subrange(0, i - from)) > 0x8000_0000_0000_0000_0000_0000_0000_0000,
        decreases text@.len() - i,
    {
        let b = text[i];
        proof {
            assert(digits[i - from] == text@[i as int]);
            assert(is_digit(digits[i - from]));
            let prefix = digits.subrange(0, i - from);
            assert(digits.subrange(0, i + 1 - from) =~= prefix.push(b));
            lemma_dec_value_push(prefix, b);
        }
        if !over {
            let d = (b - 0x30) as i128;
            if acc < (i128::MIN + d) / 10 {
                over = true;
            } else {
                acc = acc * 10 - d;
            }
        }
        i = i + 1;
    }
    proof {
        assert(digits.subrange(0, digits.len() as int) =~= digits);
    }
    if over {
        None
    } else if negative {
        Some(acc)
    } else if acc == i128::MIN {
        None
    } else {
        Some(-acc)
    }
}

/// The integer that `t` holds, if it holds one that fits 128 signed bits.
pub fn read_i128(t: &Term) -> (r: Option<i128>)
    ensures
        r == (match as_integer_within(t@, i128::MIN as int, i128::MAX as int) {
            Some(n) => Some(n as i128),
            None => None::<i128>,
        }),
{
    match t {
        Term::Integer(i) => Some(*i as i128),
        Term::Unsigned(u) => Some(*u as i128),
        Term::BigInteger(d) => {
            if is_integer_text_bytes(d.as_slice()) {
                read_i128_text(d.as_slice())
            } else {
                None
            }
        },
        _ => None,
    }
}

/// The integer that `t` holds, if it holds one that fits 64 signed bits.
pub fn read_i64(t: &Term) -> (r: Option<i64>)
    ensures
        r == (match as_integer_within(t@, i64::MIN as int, i64::MAX as int) {
            Some(n) => Some(n as i64),
            None => None::<i64>,
        }),
{
    match read_i128(t) {
        Some(n) => if i64::MIN as i128 <= n && n <= i64::MAX as i128 {
            Some(n as i64)
        } else {
            None
        },
        None => None,
    }
}

/// The integer that `t` holds, if it holds one that fits 32 signed bits.
pub fn read_i32(t: &Term) -> (r: Option<i32>)
    ensures
        r == (match as_integer_within(t@, i32::MIN as int, i32::MAX as int) {
            Some(n) => Some(n as i32),
            None => None::<i32>,
        }),
{
    match read_i128(t) {
        Some(n) => if i32::MIN as i128 <= n && n <= i32::MAX as i128 {
            Some(n as i32)
        } else {
            None
        },
        None => None,
    }
}

/// The integer that `t` holds, if it holds one that fits 32 unsigned bits.
pub fn read_u32(t: &Term) -> (r: Option<u32>)
    ensures
        r == (match as_integer_within(t@, 0, u32::MAX as int) {
            Some(n) => Some(n as u32),
            None => None::<u32>,
        }),
{
    match read_i128(t) {
        Some(n) => if 0 <= n && n <= u32::MAX as i128 {
            Some(n as u32)
        } else {
            None
        },
        None => None,
    }
}

/// The integer that `t` holds, if it holds one that fits a byte.
pub fn read_u8(t: &Term) -> (r: Option<u8>)
    ensures
        r == (match as_integer_within(t@, 0, 255) {
            Some(n) => Some(n as u8),
            None => None::<u8>,
        }),
{
    match read_i128(t) {
        Some(n) => if 0 <= n && n <= 255 {
            Some(n as u8)
        } else {
            None
        },
        None => None,
    }
}

/// `t` is the atom `nil`.
pub open spec fn is_nil(t: TermV) -> bool {
    t == TermV::Atom(name_nil())
}

/// Whether `t` is the atom `nil`.
pub fn is_nil_term(t: &Term) -> (r: bool)
    ensures
        r == is_nil(t@),
{
    match t {
        Term::Atom(a) => bytes_eq(a.as_slice(), &nil_name()),
        _ => false,
    }
}

} // verus!
