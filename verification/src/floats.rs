//! Float literals of a document.  The library holds a float as its decimal
//! text; whoever turns the text into a double finds the literals here, and
//! hands back the first one that has no finite double.

use crate::direct_decode::bench_helpers::lemma_scan_extent;
use crate::direct_decode::DecodeOptions;
use crate::error::{DecodeError, ErrorKind};
use crate::grammar::{parse_document, scan_number, scan_string_body, Failure};
use crate::numbers::{is_ascii_digit, lemma_scan_number_shape, scan_number_layout};
use crate::simd_utils::is_digit;
use crate::strings::{scan_string_body_at, ScanStop};
use crate::term::{Term, TermV};
use vstd::prelude::*;

verus! {

/// The float literals of `s` from `pos` on, each as the range it stands at:
/// the number literals outside strings that have a fraction or an exponent.
/// A string that does not close ends the search.
pub open spec fn float_literals(s: Seq<u8>, pos: int) -> Seq<(int, int)>
    decreases s.len() - pos,
    via float_literals_decreases
{
    if pos < 0 || pos >= s.len() {
        Seq::empty()
    } else if s[pos] == 0x22 {
        let scan = scan_string_body(s, pos + 1, false);
        if scan.stop is Closed {
            float_literals(s, scan.at + 1)
        } else {
            Seq::empty()
        }
    } else if s[pos] == 0x2d || is_digit(s[pos]) {
        match scan_number(s, pos) {
            Some(n) => if n.is_float {
                seq![(pos, n.end)] + float_literals(s, n.end)
            } else {
                float_literals(s, n.end)
            },
            None => float_literals(s, pos + 1),
        }
    } else {
        float_literals(s, pos + 1)
    }
}

#[via_fn]
proof fn float_literals_decreases(s: Seq<u8>, pos: int) {
    if 0 <= pos < s.len() {
        lemma_scan_extent(s, pos + 1, false);
        if scan_number(s, pos) is Some {
            lemma_scan_number_shape(s, pos);
        }
    }
}

/// Ranges as pairs of mathematical integers.
pub open spec fn ranges_view(ranges: Seq<(usize, usize)>) -> Seq<(int, int)> {
    Seq::new(ranges.len(), |i: int| (ranges[i].0 as int, ranges[i].1 as int))
}

/// The float literals of `input`, in the order in which they stand.
pub fn float_literal_ranges(input: &[u8]) -> (r: Vec<(usize, usize)>)
    ensures
        ranges_view(r@) == float_literals(input@, 0),
        forall|i: int| 0 <= i < r@.len() ==> (#[trigger] r@[i]).0 < r@[i].1 <= input@.len(),
{
    let len = input.len();
    let mut out: Vec<(usize, usize)> = Vec::new();
    let mut p: usize = 0;
    let mut going = true;
    assert(ranges_view(out@) + float_literals(input@, 0) =~= float_literals(input@, 0));
    while going && p < len
        invariant
            len == input@.len(),
            p <= len,
            forall|i: int| 0 <= i < out@.len() ==> (#[trigger] out@[i]).0 < out@[i].1 <= len,
            going ==> float_literals(input@, 0) == ranges_view(out@) + float_literals(
                input@,
                p as int,
            ),
            !going ==> float_literals(input@, 0) == ranges_view(out@),
        decreases
                len - p + (if going {
                    1int
                } else {
                    0int
                }),
    {
        let b = input[p];
        if b == 0x22 {
            let scan = scan_string_body_at(input, p + 1);
            proof {
                lemma_scan_extent(input@, p + 1, false);
            }
            match scan.stop {
                ScanStop::Closed => {
                    p = scan.at + 1;
                },
                _ => {
                    assert(ranges_view(out@) + Seq::<(int, int)>::empty() =~= ranges_view(out@));
                    going = false;
                },
            }
        } else if b == 0x2d || is_ascii_digit(b) {
            match scan_number_layout(input, p) {
                Some(n) => {
                    proof {
                        lemma_scan_number_shape(input@, p as int);
                    }
                    if n.is_float {
                        assert(ranges_view(out@.push((p, n.end))) + float_literals(
                            input@,
                            n.end as int,
                        ) =~= ranges_view(out@) + (seq![(p as int, n.end as int)] + float_literals(
                            input@,
                            n.end as int,
                        )));
                        out.push((p, n.end));
                    }
                    p = n.end;
                },
                None => {
                    p = p + 1;
                },
            }
        } else {
            p = p + 1;
        }
    }
    assert(ranges_view(out@) + Seq::<(int, int)>::empty() =~= ranges_view(out@));
    out
}

/// What a decode gives when the float literal at `unreadable`, if any, has
/// no finite double.  The document fails there as an invalid number, unless
/// floats are read as decimals or the document fails at or before that
/// place.
pub open spec fn checked_document(s: Seq<u8>, o: DecodeOptions, unreadable: Option<int>) -> Result<
    TermV,
    Failure,
> {
    let plain = parse_document(s, o);
    match unreadable {
        Some(at) => if !o.floats_decimals && (plain is Ok || plain->Err_0.1 > at) {
            Err((ErrorKind::InvalidNumber, at))
        } else {
            plain
        },
        None => plain,
    }
}

/// Settles the result of a decode with what was found of its float
/// literals: `unreadable` is where the first float literal stands that has
/// no finite double.
pub fn settle_floats(
    plain: Result<Term, DecodeError>,
    floats_decimals: bool,
    unreadable: Option<usize>,
) -> (r: Result<Term, DecodeError>)
    ensures
        match unreadable {
            Some(at) => if !floats_decimals && (plain is Ok || plain->Err_0.offset > at) {
                r == Err::<Term, DecodeError>(
                    (DecodeError { kind: ErrorKind::InvalidNumber, offset: at }),
                )
            } else {
                r == plain
            },
            None => r == plain,
        },
{
    match unreadable {
        Some(at) => {
            if floats_decimals {
                return plain;
            }
            match plain {
                Ok(_) => Err(DecodeError::new(ErrorKind::InvalidNumber, at)),
                Err(e) => if e.offset > at {
                    Err(DecodeError::new(ErrorKind::InvalidNumber, at))
                } else {
                    Err(e)
                },
            }
        },
        None => plain,
    }
}

} // verus!
