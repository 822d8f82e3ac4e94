//! The decoder: options, the parser state and the parser itself.
//!
//! The parser walks the input once.  It is proved to return what
//! [`parse_document`] says of the input; the structural index, the
//! shape cache of an array of like objects and the intern cache only change
//! how fast it gets there.

use crate::error::{DecodeError, ErrorKind};
use crate::grammar::{
    byte_at, decode_escapes, has_literal, mapping_of, object_term, ordered_object, parse_array,
    parse_document, parse_elements, parse_members, parse_number, parse_object, parse_root,
    parse_string, parse_value, scan_integer_part, scan_number, scan_string_body, skip_ws, Failure,
    StringStop, MAX_DEPTH,
};
use crate::intern::KeyCache;
use crate::names::{
    false_name, nil_name, null_name, ordered_object_name, struct_name, true_name, values_name,
};
use crate::numbers::{
    accumulate_digits, decimal_from_literal, integer_from_text, is_ascii_digit,
    lemma_integer_literal, lemma_scan_number_shape, scan_integer_part_at, scan_number_tail,
    skip_digits, NumberLayout,
};
use crate::outside::is_valid_utf8;
use crate::simd_utils::{
    is_whitespace, lemma_run_end_bounds, lemma_run_end_unique, skip_whitespace, ByteClass,
};
use crate::strings::{
    decode_escaped, lemma_decode_done, lemma_decode_verbatim, lemma_scan_closed,
    scan_string_body_at, ScanStop,
};
use crate::structural::{
    build_structural_index, count_until_close, offsets, scan_limit, StructuralIndex,
    STRUCTURAL_INDEX_THRESHOLD,
};
use crate::term::{
    bytes_eq, copy_bytes, copy_range, entries_view, lemma_view_children, terms_view, Term, TermV,
};
use vstd::prelude::*;
use vstd::utf8::valid_utf8;

pub mod bench_helpers;

verus! {

/// Options of a decode.
#[derive(Clone, Copy, Debug)]
pub struct DecodeOptions {
    /// Share the terms of object keys that repeat within one decode.
    pub intern_keys: bool,
    /// Build decimal records from numbers with a fraction or an exponent.
    pub floats_decimals: bool,
    /// Build ordered-object records, which keep every member in its place.
    pub ordered_objects: bool,
    /// Most digits an integer part may have; 0 for no limit.
    pub integer_digit_limit: usize,
    /// Longest input that is accepted; 0 for no limit.
    pub max_bytes: usize,
    /// Fail on a key that is written twice in one object.
    pub reject_duplicate_keys: bool,
    /// Check that every string is UTF-8.
    pub validate_strings: bool,
}

impl Default for DecodeOptions {
    fn default() -> (o: Self)
        ensures
            o == (DecodeOptions {
                intern_keys: false,
                floats_decimals: false,
                ordered_objects: false,
                integer_digit_limit: 1024,
                max_bytes: 0,
                reject_duplicate_keys: false,
                validate_strings: true,
            }),
    {
        DecodeOptions {
            intern_keys: false,
            floats_decimals: false,
            ordered_objects: false,
            integer_digit_limit: 1024,
            max_bytes: 0,
            reject_duplicate_keys: false,
            validate_strings: true,
        }
    }
}

/// The key layout of the first object of an array, kept while the objects
/// after it have the same keys in the same order.
pub struct KeyShape {
    /// Where each key stands in the input, between its quotes.
    pub raw_keys: Vec<(usize, usize)>,
    /// The keys as they were built.
    pub keys: Vec<Vec<u8>>,
    /// Whether the first value of the object was no container.
    pub is_flat: bool,
}

/// The parser state: the input, the cursor into it and the caches of one
/// decode.
pub struct DirectParser<'b> {
    pub input: &'b [u8],
    pub pos: usize,
    pub depth: usize,
    pub key_cache: Option<KeyCache>,
    pub opts: DecodeOptions,
    pub structural_index: Option<StructuralIndex>,
}

/// The parser's answer `r`, with its cursor at `end`, is the answer `want`
/// of the grammar.
pub open spec fn agrees(r: Result<Term, DecodeError>, end: usize, want: Result<(TermV, int), Failure>) -> bool {
    match r {
        Ok(t) => want == Ok::<(TermV, int), Failure>((t@, end as int)),
        Err(e) => want == Err::<(TermV, int), Failure>((e.kind, e.offset as int)),
    }
}

/// The same for a string that is handed out as bytes.
pub open spec fn agrees_bytes(
    r: Result<Vec<u8>, DecodeError>,
    end: usize,
    want: Result<(Seq<u8>, int), Failure>,
) -> bool {
    match r {
        Ok(b) => want == Ok::<(Seq<u8>, int), Failure>((b@, end as int)),
        Err(e) => want == Err::<(Seq<u8>, int), Failure>((e.kind, e.offset as int)),
    }
}

/// Whether `input[from .. to]` holds whitespace only.
pub fn all_whitespace(input: &[u8], from: usize, to: usize) -> (r: bool)
    requires
        from <= to <= input@.len(),
    ensures
        r == forall|i: int| from <= i < to ==> is_whitespace(#[trigger] input@[i]),
{
    let mut i = from;
    while i < to
        invariant
            from <= i <= to <= input@.len(),
            forall|j: int| from <= j < i ==> is_whitespace(#[trigger] input@[j]),
        decreases to - i,
    {
        if !ByteClass::Whitespace.holds(input[i]) {
            return false;
        }
        i = i + 1;
    }
    true
}

/// Whether `input` holds the bytes `lit` at `pos`.
pub fn starts_with_at(input: &[u8], pos: usize, lit: &[u8]) -> (r: bool)
    requires
        pos <= input@.len(),
    ensures
        r == has_literal(input@, pos as int, lit@),
{
    if input.len() - pos < lit.len() {
        return false;
    }
    let r = bytes_eq(vstd::slice::slice_subrange(input, pos, pos + lit.len()), lit);
    r
}

impl<'b> DirectParser<'b> {
    /// The state is in order: the cursor lies in the input, the depth within
    /// the limit, every index entry on a structural byte, the index cursor
    /// not past the input cursor, and the key cache holds keys of this input.
    pub open spec fn wf(&self) -> bool {
        &&& self.pos <= self.input@.len() <= usize::MAX
        &&& self.depth <= MAX_DEPTH
        &&& (self.structural_index matches Some(idx) ==> idx.sound_for(self.input@) && idx.cursor
            <= self.pos)
        &&& (self.key_cache matches Some(c) ==> c.wf(self.input@))
    }

    /// The state belongs to the same decode as `before`: same input, same
    /// options, same index entries.
    pub open spec fn same_decode(&self, before: &Self) -> bool {
        &&& self.input@ == before.input@
        &&& self.opts == before.opts
        &&& (self.structural_index is Some <==> before.structural_index is Some)
        &&& (self.structural_index matches Some(idx) ==> idx.positions
            == before.structural_index.unwrap().positions)
        &&& (self.key_cache is Some <==> before.key_cache is Some)
    }

    /// The state belongs to the same decode as `before` and is not behind
    /// it.
    pub open spec fn continues(&self, before: &Self) -> bool {
        self.same_decode(before) && self.pos >= before.pos
    }

    /// The state continues `before` at the same depth.
    pub open spec fn follows(&self, before: &Self) -> bool {
        self.continues(before) && self.depth == before.depth
    }

    /// A parser at the start of `input`.  Inputs from the index threshold up
    /// get a structural index, as long as 32-bit offsets reach all of them.
    pub fn new(input: &'b [u8], opts: DecodeOptions) -> (p: Self)
        ensures
            p.wf(),
            p.input@ == input@,
            p.opts == opts,
            p.pos == 0,
            p.depth == 0,
    {
        let key_cache = if opts.intern_keys {
            Some(KeyCache::new())
        } else {
            None
        };
        let structural_index = if input.len() >= STRUCTURAL_INDEX_THRESHOLD && input.len()
            <= 0xffff_ffff {
            Some(build_structural_index(input))
        } else {
            None
        };
        DirectParser { input, pos: 0, depth: 0, key_cache, opts, structural_index }
    }

    /// The byte under the cursor.
    pub fn peek(&self) -> (r: Option<u8>)
        ensures
            r == (if self.pos < self.input@.len() {
                Some(self.input@[self.pos as int])
            } else {
                None::<u8>
            }),
    {
        if self.pos < self.input.len() {
            Some(self.input[self.pos])
        } else {
            None
        }
    }

    /// Whether the byte under the cursor is `b`.
    pub fn at(&self, b: u8) -> (r: bool)
        ensures
            r == byte_at(self.input@, self.pos as int, b),
    {
        self.pos < self.input.len() && self.input[self.pos] == b
    }

    /// Moves the cursor one byte on.
    pub fn advance(&mut self)
        requires
            old(self).wf(),
            old(self).pos < old(self).input@.len(),
        ensures
            final(self).wf(),
            final(self).follows(old(self)),
            final(self).pos == old(self).pos + 1,
            final(self).structural_index == old(self).structural_index,
    {
        self.pos = self.pos + 1;
    }

    /// Moves the cursor over whitespace.
    pub fn skip_whitespace(&mut self)
        requires
            old(self).wf(),
        ensures
            final(self).wf(),
            final(self).follows(old(self)),
            final(self).pos == skip_ws(old(self).input@, old(self).pos as int),
            final(self).structural_index == old(self).structural_index,
    {
        let mut p = self.pos;
        skip_whitespace(self.input, &mut p);
        proof {
            lemma_run_end_bounds(self.input@, self.pos as int, ByteClass::Whitespace);
        }
        self.pos = p;
    }

    /// Moves the cursor to the next byte that is no whitespace, by a jump to
    /// the offset under the index cursor where the bytes in between are
    /// whitespace only, and by skipping otherwise.
    pub fn advance_to_structural(&mut self)
        requires
            old(self).wf(),
        ensures
            final(self).wf(),
            final(self).follows(old(self)),
            final(self).pos == skip_ws(old(self).input@, old(self).pos as int),
            final(self).structural_index == old(self).structural_index,
    {
        match &self.structural_index {
            Some(idx) => {
                match idx.peek() {
                    Some(next_pos) => {
                        let next = next_pos as usize;
                        if next >= self.pos {
                            if all_whitespace(self.input, self.pos, next) {
                                proof {
                                    lemma_run_end_unique(
                                        self.input@,
                                        self.pos as int,
                                        ByteClass::Whitespace,
                                        next as int,
                                    );
                                }
                                self.pos = next;
                                return ;
                            }
                        }
                    },
                    None => {},
                }
            },
            None => {},
        }
        self.skip_whitespace();
    }

    /// Moves the cursor and the index cursor past the structural byte under
    /// the cursor.
    pub fn consume_structural(&mut self)
        requires
            old(self).wf(),
            old(self).pos < old(self).input@.len(),
        ensures
            final(self).wf(),
            final(self).follows(old(self)),
            final(self).pos == old(self).pos + 1,
    {
        self.pos = self.pos + 1;
        match self.structural_index.take() {
            Some(mut idx) => {
                idx.advance();
                self.structural_index = Some(idx);
            },
            None => {},
        }
    }

    /// [`Self::consume_structural`], then [`Self::skip_whitespace`].
    pub fn consume_structural_and_skip_ws(&mut self)
        requires
            old(self).wf(),
            old(self).pos < old(self).input@.len(),
        ensures
            final(self).wf(),
            final(self).follows(old(self)),
            final(self).pos == skip_ws(old(self).input@, old(self).pos + 1),
    {
        self.consume_structural();
        self.skip_whitespace();
    }

    /// A guess at the number of elements of the container that was just
    /// opened, to size its vectors: the count the index gives where it gives
    /// one, else the rest of the input divided by `divisor`, held between 1
    /// and `max` and, below the first level, to 8 at most.
    pub fn estimate_container_capacity(&self, close: u8, divisor: usize, max: usize) -> (r: usize)
        requires
            self.wf(),
            divisor > 0,
            max >= 1,
        ensures
            r == estimated_capacity(*self, close, divisor, max),
            r <= max || r <= crate::structural::STRUCTURAL_SCAN_CAP + 1,
    {
        match &self.structural_index {
            Some(idx) => {
                match idx.count_elements_until_close(self.input, close) {
                    Some(count) => {
                        proof {
                            lemma_count_bound(
                                self.input@,
                                offsets(idx.positions@),
                                idx.cursor as int,
                                scan_limit(idx.cursor as int, idx.positions@.len() as int),
                                0,
                                0,
                                close,
                            );
                        }
                        return count;
                    },
                    None => {},
                }
            },
            None => {},
        }
        let remaining = self.input.len() - self.pos;
        let quotient = remaining / divisor;
        let estimated = if quotient < 1 {
            1
        } else if quotient > max {
            max
        } else {
            quotient
        };
        if self.depth > 1 && estimated > 8 {
            8
        } else {
            estimated
        }
    }

    /// An error of the given kind at the cursor.
    pub fn err(&self, kind: ErrorKind) -> (e: DecodeError)
        ensures
            e.kind == kind,
            e.offset == self.pos,
    {
        DecodeError::new(kind, self.pos)
    }

    /// Reads `null`.
    pub fn parse_null(&mut self) -> (r: Result<Term, DecodeError>)
        requires
            old(self).wf(),
            byte_at(old(self).input@, old(self).pos as int, 0x6e),
        ensures
            agrees(
                r,
                final(self).pos,
                parse_value(old(self).input@, old(self).pos as int, old(self).depth as int, old(self).opts),
            ),
            r is Ok ==> final(self).wf() && final(self).follows(old(self)) && final(self).pos
                > old(self).pos && final(self).structural_index == old(self).structural_index,
    {
        if starts_with_at(self.input, self.pos, &null_name()) {
            self.pos = self.pos + 4;
            Ok(Term::Atom(copy_bytes(&nil_name())))
        } else {
            Err(self.err(ErrorKind::UnexpectedCharacter))
        }
    }

    /// Reads `true`.
    pub fn parse_true(&mut self) -> (r: Result<Term, DecodeError>)
        requires
            old(self).wf(),
            byte_at(old(self).input@, old(self).pos as int, 0x74),
        ensures
            agrees(
                r,
                final(self).pos,
                parse_value(old(self).input@, old(self).pos as int, old(self).depth as int, old(self).opts),
            ),
            r is Ok ==> final(self).wf() && final(self).follows(old(self)) && final(self).pos
                > old(self).pos && final(self).structural_index == old(self).structural_index,
    {
        if starts_with_at(self.input, self.pos, &true_name()) {
            self.pos = self.pos + 4;
            Ok(Term::Atom(copy_bytes(&true_name())))
        } else {
            Err(self.err(ErrorKind::UnexpectedCharacter))
        }
    }

    /// Reads `false`.
    pub fn parse_false(&mut self) -> (r: Result<Term, DecodeError>)
        requires
            old(self).wf(),
            byte_at(old(self).input@, old(self).pos as int, 0x66),
        ensures
            agrees(
                r,
                final(self).pos,
                parse_value(old(self).input@, old(self).pos as int, old(self).depth as int, old(self).opts),
            ),
            r is Ok ==> final(self).wf() && final(self).follows(old(self)) && final(self).pos
                > old(self).pos && final(self).structural_index == old(self).structural_index,
    {
        if starts_with_at(self.input, self.pos, &false_name()) {
            self.pos = self.pos + 5;
            Ok(Term::Atom(copy_bytes(&false_name())))
        } else {
            Err(self.err(ErrorKind::UnexpectedCharacter))
        }
    }

    /// Scans the string under the cursor without building it.  Gives the
    /// range between its quotes and leaves the cursor after its closing
    /// quote.
    pub fn scan_string_raw(&mut self) -> (r: Result<(usize, usize), DecodeError>)
        requires
            old(self).wf(),
            byte_at(old(self).input@, old(self).pos as int, 0x22),
        ensures
            match r {
                Ok((a, b)) => {
                    &&& a == old(self).pos + 1
                    &&& a <= b < old(self).input@.len()
                    &&& scan_string_body(old(self).input@, a as int, false).stop is Closed
                    &&& scan_string_body(old(self).input@, a as int, false).at == b
                    &&& final(self).pos == b + 1
                    &&& final(self).wf()
                    &&& final(self).follows(old(self))
                    &&& final(self).structural_index == old(self).structural_index
                },
                Err(e) => match scan_string_body(old(self).input@, old(self).pos + 1, false).stop {
                    StringStop::Closed => false,
                    StringStop::Control => e.kind == ErrorKind::UnescapedControlCharacter
                        && e.offset == scan_string_body(old(self).input@, old(self).pos + 1, false).at,
                    StringStop::Unterminated => e.kind == ErrorKind::UnterminatedString && e.offset
                        == old(self).pos,
                },
            },
    {
        let string_start = self.pos;
        let scan = scan_string_body_at(self.input, string_start + 1);
        match scan.stop {
            ScanStop::Unterminated => Err(
                DecodeError::new(ErrorKind::UnterminatedString, string_start),
            ),
            ScanStop::Control => Err(
                DecodeError::new(ErrorKind::UnescapedControlCharacter, scan.at),
            ),
            ScanStop::Closed => {
                proof {
                    lemma_scan_closed(self.input@, string_start + 1, false);
                }
                self.pos = scan.at + 1;
                Ok((string_start + 1, scan.at))
            },
        }
    }

    /// Replaces the escapes in `input[start .. end]`.
    pub fn decode_escaped_string(&self, start: usize, end: usize) -> (r: Result<Vec<u8>, ErrorKind>)
        requires
            start <= end <= self.input@.len(),
        ensures
            match r {
                Ok(v) => decode_escapes(self.input@, start as int, end as int) == Ok::<
                    Seq<u8>,
                    ErrorKind,
                >(v@),
                Err(e) => decode_escapes(self.input@, start as int, end as int) == Err::<
                    Seq<u8>,
                    ErrorKind,
                >(e),
            },
    {
        decode_escaped(self.input, start, end)
    }

    /// Reads the string under the cursor and hands out its bytes.  A key
    /// without escapes goes through the intern cache where there is one.
    pub fn parse_string_bytes(&mut self, for_key: bool) -> (r: Result<Vec<u8>, DecodeError>)
        requires
            old(self).wf(),
            byte_at(old(self).input@, old(self).pos as int, 0x22),
        ensures
            agrees_bytes(
                r,
                final(self).pos,
                parse_string(old(self).input@, old(self).pos as int, old(self).opts.validate_strings),
            ),
            r is Ok ==> final(self).wf() && final(self).follows(old(self)) && final(self).pos
                > old(self).pos + 1 && final(self).structural_index == old(self).structural_index
                && scan_string_body(old(self).input@, old(self).pos + 1, false).stop is Closed
                && final(self).pos == scan_string_body(old(self).input@, old(self).pos + 1, false).at
                + 1,
    {
        let string_start = self.pos;
        let (start, end) = match self.scan_string_raw() {
            Ok(range) => range,
            Err(e) => {
                return Err(e);
            },
        };
        let scan = scan_string_body_at(self.input, start);
        if scan.has_escape {
            let decoded = match self.decode_escaped_string(start, end) {
                Ok(d) => d,
                Err(kind) => {
                    return Err(DecodeError::new(kind, string_start));
                },
            };
            if self.opts.validate_strings && !is_valid_utf8(decoded.as_slice()) {
                return Err(DecodeError::new(ErrorKind::InvalidUtf8, string_start));
            }
            return Ok(decoded);
        }
        proof {
            lemma_scan_closed(self.input@, start as int, false);
            lemma_decode_verbatim(self.input@, start as int, end as int, end as int);
            lemma_decode_done(self.input@, end as int, end as int);
            assert(self.input@.subrange(start as int, end as int) + Seq::<u8>::empty()
                =~= self.input@.subrange(start as int, end as int));
        }
        let raw = vstd::slice::slice_subrange(self.input, start, end);
        if self.opts.validate_strings && !is_valid_utf8(raw) {
            return Err(DecodeError::new(ErrorKind::InvalidUtf8, string_start));
        }
        if for_key {
            match self.key_cache.take() {
                Some(mut cache) => {
                    let found = cache.find_or_keep(self.input, start, end);
                    self.key_cache = Some(cache);
                    match found {
                        Some((a, b)) => {
                            return Ok(copy_range(self.input, a, b));
                        },
                        None => {},
                    }
                },
                None => {},
            }
        }
        Ok(copy_range(self.input, start, end))
    }

    /// Reads the string under the cursor.
    pub fn parse_string_impl(&mut self, for_key: bool) -> (r: Result<Term, DecodeError>)
        requires
            old(self).wf(),
            byte_at(old(self).input@, old(self).pos as int, 0x22),
        ensures
            agrees(
                r,
                final(self).pos,
                parse_value(old(self).input@, old(self).pos as int, old(self).depth as int, old(self).opts),
            ),
            r is Ok ==> final(self).wf() && final(self).follows(old(self)) && final(self).pos
                > old(self).pos && final(self).structural_index == old(self).structural_index,
    {
        match self.parse_string_bytes(for_key) {
            Ok(bytes) => Ok(Term::Binary(bytes)),
            Err(e) => Err(e),
        }
    }

    /// Reads the string value under the cursor.
    pub fn parse_string(&mut self) -> (r: Result<Term, DecodeError>)
        requires
            old(self).wf(),
            byte_at(old(self).input@, old(self).pos as int, 0x22),
        ensures
            agrees(
                r,
                final(self).pos,
                parse_value(old(self).input@, old(self).pos as int, old(self).depth as int, old(self).opts),
            ),
            r is Ok ==> final(self).wf() && final(self).follows(old(self)) && final(self).pos
                > old(self).pos && final(self).structural_index == old(self).structural_index,
    {
        self.parse_string_impl(false)
    }

    /// Reads the object key under the cursor.
    pub fn parse_key(&mut self) -> (r: Result<Vec<u8>, DecodeError>)
        requires
            old(self).wf(),
            byte_at(old(self).input@, old(self).pos as int, 0x22),
        ensures
            agrees_bytes(
                r,
                final(self).pos,
                parse_string(old(self).input@, old(self).pos as int, old(self).opts.validate_strings),
            ),
            r is Ok ==> final(self).wf() && final(self).follows(old(self)) && final(self).pos
                > old(self).pos + 1 && final(self).structural_index == old(self).structural_index
                && scan_string_body(old(self).input@, old(self).pos + 1, false).stop is Closed
                && final(self).pos == scan_string_body(old(self).input@, old(self).pos + 1, false).at
                + 1,
    {
        self.parse_string_bytes(true)
    }

    /// Builds the decimal record of the literal that starts at `start` and
    /// is laid out by `n`.
    pub fn parse_number_as_decimal(&self, start: usize, n: NumberLayout) -> (r: Result<
        Term,
        DecodeError,
    >)
        requires
            start <= self.input@.len(),
            scan_number(self.input@, start as int) == Some(n.model()),
        ensures
            match r {
                Ok(t) => crate::grammar::fits_i64(
                    crate::grammar::written_exponent(self.input@, n.model()),
                ) && crate::grammar::fits_i64(
                    crate::grammar::decimal_exponent(self.input@, n.model()),
                ) && t@ == crate::grammar::decimal_record(
                    if byte_at(self.input@, start as int, 0x2d) {
                        -1
                    } else {
                        1
                    },
                    crate::grammar::decimal_coefficient(self.input@, n.model()),
                    crate::grammar::decimal_exponent(self.input@, n.model()),
                ),
                Err(e) => e.kind == ErrorKind::InvalidNumber && e.offset == start && !(
                crate::grammar::fits_i64(crate::grammar::written_exponent(self.input@, n.model()))
                    && crate::grammar::fits_i64(
                    crate::grammar::decimal_exponent(self.input@, n.model()),
                )),
            },
    {
        match decimal_from_literal(self.input, start, n) {
            Ok(t) => Ok(t),
            Err(kind) => Err(DecodeError::new(kind, start)),
        }
    }

    /// Reads the number under the cursor.
    pub fn parse_number(&mut self) -> (r: Result<Term, DecodeError>)
        requires
            old(self).wf(),
        ensures
            agrees(r, final(self).pos, parse_number(old(self).input@, old(self).pos as int, old(self).opts)),
            r is Ok ==> final(self).wf() && final(self).follows(old(self)) && final(self).pos
                > old(self).pos && final(self).structural_index == old(self).structural_index,
    {
        let start = self.pos;
        let (int_start, int_end) = match scan_integer_part_at(self.input, start) {
            Some(part) => part,
            None => {
                return Err(DecodeError::new(ErrorKind::InvalidNumber, start));
            },
        };
        let limit = self.opts.integer_digit_limit;
        if limit > 0 && int_end - int_start > limit {
            return Err(DecodeError::new(ErrorKind::NumberDigitLimitExceeded, start));
        }
        let n = match scan_number_tail(self.input, start, int_start, int_end) {
            Some(n) => n,
            None => {
                return Err(DecodeError::new(ErrorKind::InvalidNumber, start));
            },
        };
        proof {
            lemma_scan_number_shape(self.input@, start as int);
        }
        self.pos = n.end;
        if n.is_float {
            if self.opts.floats_decimals {
                return self.parse_number_as_decimal(start, n);
            }
            Ok(Term::Float(copy_range(self.input, start, n.end)))
        } else {
            proof {
                lemma_integer_literal(self.input@, start as int);
            }
            match integer_from_text(vstd::slice::slice_subrange(self.input, start, n.end)) {
                Ok(t) => Ok(t),
                Err(kind) => Err(DecodeError::new(kind, start)),
            }
        }
    }

    /// Reads the number under the cursor, with a short way for the integers
    /// of up to 18 digits: those are read by accumulation in 64 bits, which
    /// cannot overflow.  Everything else goes the way of
    /// [`Self::parse_number`].
    pub fn parse_number_fast(&mut self) -> (r: Result<Term, DecodeError>)
        requires
            old(self).wf(),
        ensures
            agrees(r, final(self).pos, parse_number(old(self).input@, old(self).pos as int, old(self).opts)),
            r is Ok ==> final(self).wf() && final(self).follows(old(self)) && final(self).pos
                > old(self).pos && final(self).structural_index == old(self).structural_index,
    {
        let start = self.pos;
        let len = self.input.len();
        let mut pos = start;
        let neg = pos < len && self.input[pos] == 0x2d;
        if neg {
            pos = pos + 1;
        }
        let digit_start = pos;
        pos = skip_digits(self.input, pos);
        proof {
            lemma_run_end_bounds(self.input@, digit_start as int, ByteClass::Digit);
            crate::numbers::lemma_digit_run(self.input@, digit_start as int);
        }
        let digit_count = pos - digit_start;
        if pos < len && (self.input[pos] == 0x2e || self.input[pos] == 0x65 || self.input[pos]
            == 0x45) {
            return self.parse_number();
        }
        if digit_count == 0 {
            return self.parse_number();
        }
        if digit_count > 1 && self.input[digit_start] == 0x30 {
            return self.parse_number();
        }
        let limit = self.opts.integer_digit_limit;
        if limit > 0 && digit_count > limit {
            return self.parse_number();
        }
        proof {
            assert(ByteClass::Digit.contains(self.input@[digit_start as int]));
            assert(scan_integer_part(self.input@, start as int) == Some(
                (digit_start as int, pos as int),
            ));
            assert(scan_number(self.input@, start as int) is Some);
            lemma_integer_literal(self.input@, start as int);
        }
        self.pos = pos;
        if digit_count <= 18 {
            let mut val = accumulate_digits(self.input, digit_start, pos);
            if neg {
                val = -val;
            }
            return Ok(Term::Integer(val));
        }
        match integer_from_text(vstd::slice::slice_subrange(self.input, start, pos)) {
            Ok(t) => Ok(t),
            Err(kind) => Err(DecodeError::new(kind, start)),
        }
    }
}

/// The capacity guess of [`DirectParser::estimate_container_capacity`].
pub open spec fn estimated_capacity(p: DirectParser, close: u8, divisor: usize, max: usize) -> usize {
    let counted = match p.structural_index {
        Some(idx) => count_until_close(
            p.input@,
            offsets(idx.positions@),
            idx.cursor as int,
            scan_limit(idx.cursor as int, idx.positions@.len() as int),
            0,
            0,
            close,
        ),
        None => None,
    };
    match counted {
        Some(c) => c,
        None => {
            let quotient = (p.input@.len() - p.pos) / (divisor as int);
            let estimated = if quotient < 1 {
                1
            } else if quotient > max {
                max as int
            } else {
                quotient
            };
            if p.depth > 1 && estimated > 8 {
                8usize
            } else {
                estimated as usize
            }
        },
    }
}

/// An element count is at most the number of entries looked at, plus one.
pub proof fn lemma_count_bound(
    s: Seq<u8>,
    index: Seq<int>,
    i: int,
    limit: int,
    depth: int,
    commas: int,
    close: u8,
)
    requires
        0 <= commas,
        commas + (limit - i) + 1 <= usize::MAX,
    ensures
        count_until_close(s, index, i, limit, depth, commas, close) matches Some(c) ==> c
            <= commas + (limit - i),
    decreases limit - i,
{
    if !(i < 0 || i >= limit || i >= index.len()) {
        let b = s[index[i]];
        if b == 0x7b || b == 0x5b {
            lemma_count_bound(s, index, i + 1, limit, depth + 1, commas, close);
        } else if b == 0x7d || b == 0x5d {
            if depth != 0 {
                lemma_count_bound(s, index, i + 1, limit, depth - 1, commas, close);
            }
        } else if b == 0x2c && depth == 0 {
            lemma_count_bound(s, index, i + 1, limit, depth, commas + 1, close);
        } else {
            lemma_count_bound(s, index, i + 1, limit, depth, commas, close);
        }
    }
}

/// The terms of a sequence of keys.
pub open spec fn key_terms(keys: Seq<Vec<u8>>) -> Seq<TermV> {
    Seq::new(keys.len(), |i: int| TermV::Binary(keys[i]@))
}

/// The bytes of the input under a sequence of ranges.
pub open spec fn raw_texts(s: Seq<u8>, raws: Seq<(usize, usize)>) -> Seq<Seq<u8>> {
    Seq::new(raws.len(), |i: int| s.subrange(raws[i].0 as int, raws[i].1 as int))
}

/// No two of the byte strings are the same.
pub open spec fn all_distinct(t: Seq<Seq<u8>>) -> bool {
    forall|i: int, j: int| 0 <= i < j < t.len() ==> t[i] != t[j]
}

/// `key` is the key that is written in the input at `raw`, between its
/// quotes.
pub open spec fn key_recorded(s: Seq<u8>, o: DecodeOptions, raw: (usize, usize), key: Seq<u8>) -> bool {
    &&& raw.0 <= raw.1 <= s.len()
    &&& decode_escapes(s, raw.0 as int, raw.1 as int) == Ok::<Seq<u8>, ErrorKind>(key)
    &&& (o.validate_strings ==> valid_utf8(key))
}

impl KeyShape {
    /// The shape was taken from an object of the input `s` under the
    /// options `o`: every key is the key written at its range, and where
    /// duplicates are rejected no two ranges hold the same bytes.
    pub open spec fn fits(&self, s: Seq<u8>, o: DecodeOptions) -> bool {
        &&& self.raw_keys@.len() == self.keys@.len()
        &&& forall|i: int|
            0 <= i < self.raw_keys@.len() ==> key_recorded(
                s,
                o,
                #[trigger] self.raw_keys@[i],
                self.keys@[i]@,
            )
        &&& (o.reject_duplicate_keys ==> all_distinct(raw_texts(s, self.raw_keys@)))
    }
}

/// Where the member at `at` ends, if it reads well and its key is written
/// with the bytes that stand at `raw`: the position of the first byte after
/// its value that is no whitespace.
pub open spec fn member_end(s: Seq<u8>, at: int, depth: int, o: DecodeOptions, raw: (usize, usize)) -> Option<
    int,
> {
    let scan = scan_string_body(s, at + 1, false);
    let colon = skip_ws(s, scan.at + 1);
    if !byte_at(s, at, 0x22) || !(scan.stop is Closed) || s.subrange(at + 1, scan.at) != s.subrange(
        raw.0 as int,
        raw.1 as int,
    ) || !byte_at(s, colon, 0x3a) {
        None
    } else {
        match parse_value(s, skip_ws(s, colon + 1), depth, o) {
            Ok((_, after)) => Some(skip_ws(s, after)),
            Err(_) => None,
        }
    }
}

/// From the member at `at` on, the object has the keys that are written at
/// `raws[i ..]`, in this order and no others, and closes after them.
pub open spec fn keys_follow(
    s: Seq<u8>,
    at: int,
    depth: int,
    o: DecodeOptions,
    raws: Seq<(usize, usize)>,
    i: int,
) -> bool
    decreases raws.len() - i,
{
    if i < 0 || i >= raws.len() {
        false
    } else {
        match member_end(s, at, depth, o, raws[i]) {
            None => false,
            Some(next) => if i + 1 < raws.len() {
                byte_at(s, next, 0x2c) && keys_follow(s, skip_ws(s, next + 1), depth, o, raws, i + 1)
            } else {
                byte_at(s, next, 0x7d)
            },
        }
    }
}

/// The object that opens at `pos` is flat: it is empty, or the value of its
/// first member is no container.
pub open spec fn object_is_flat(s: Seq<u8>, pos: int) -> bool {
    let first = skip_ws(s, pos + 1);
    let colon = skip_ws(s, scan_string_body(s, first + 1, false).at + 1);
    let value = skip_ws(s, colon + 1);
    byte_at(s, first, 0x7d) || !(byte_at(s, value, 0x7b) || byte_at(s, value, 0x5b))
}

/// The object that opens at `pos`, at the nesting depth `depth`, reads well
/// and has exactly the keys that are written at `raws`, byte for byte and
/// in this order.
pub open spec fn has_shape(s: Seq<u8>, pos: int, depth: int, o: DecodeOptions, raws: Seq<(usize, usize)>) -> bool {
    let first = skip_ws(s, pos + 1);
    &&& byte_at(s, pos, 0x7b)
    &&& depth < MAX_DEPTH
    &&& if raws.len() == 0 {
        byte_at(s, first, 0x7d)
    } else {
        keys_follow(s, first, depth + 1, o, raws, 0)
    }
}

/// The members that start at `starts` stand one after the other with a
/// comma in between, each with the key of its range in `raws`, and each
/// ends at its place in `nexts`.
#[verifier::opaque]
pub open spec fn members_chain(
    s: Seq<u8>,
    depth: int,
    o: DecodeOptions,
    raws: Seq<(usize, usize)>,
    starts: Seq<int>,
    nexts: Seq<int>,
) -> bool {
    &&& starts.len() == raws.len()
    &&& nexts.len() == raws.len()
    &&& forall|k: int|
        0 <= k < raws.len() ==> member_end(s, #[trigger] starts[k], depth, o, raws[k]) == Some(
            nexts[k],
        )
    &&& forall|k: int|
        0 <= k < raws.len() - 1 ==> byte_at(s, #[trigger] nexts[k], 0x2c) && starts[k + 1]
            == skip_ws(s, nexts[k] + 1)
}

/// A chain of members goes on with the member that stands after its last.
pub proof fn lemma_chain_push(
    s: Seq<u8>,
    depth: int,
    o: DecodeOptions,
    raws: Seq<(usize, usize)>,
    starts: Seq<int>,
    nexts: Seq<int>,
    raw: (usize, usize),
    start: int,
    next: int,
)
    requires
        members_chain(s, depth, o, raws, starts, nexts),
        member_end(s, start, depth, o, raw) == Some(next),
        raws.len() > 0 ==> byte_at(s, nexts[raws.len() - 1], 0x2c) && start == skip_ws(
            s,
            nexts[raws.len() - 1] + 1,
        ),
    ensures
        members_chain(s, depth, o, raws.push(raw), starts.push(start), nexts.push(next)),
{
    reveal(members_chain);
    let raws2 = raws.push(raw);
    let starts2 = starts.push(start);
    let nexts2 = nexts.push(next);
    assert forall|k: int| 0 <= k < raws2.len() implies member_end(
        s,
        #[trigger] starts2[k],
        depth,
        o,
        raws2[k],
    ) == Some(nexts2[k]) by {
        if k < raws.len() {
            assert(starts2[k] == starts[k]);
        }
    }
    assert forall|k: int| 0 <= k < raws2.len() - 1 implies byte_at(s, #[trigger] nexts2[k], 0x2c)
        && starts2[k + 1] == skip_ws(s, nexts2[k] + 1) by {
        if k < raws.len() - 1 {
            assert(nexts2[k] == nexts[k]);
        }
    }
}

/// A chain of members that closes the object makes up an object of the
/// keys of the chain.
pub proof fn lemma_keys_follow(
    s: Seq<u8>,
    depth: int,
    o: DecodeOptions,
    raws: Seq<(usize, usize)>,
    starts: Seq<int>,
    nexts: Seq<int>,
    j: int,
)
    requires
        0 <= j < raws.len(),
        members_chain(s, depth, o, raws, starts, nexts),
        byte_at(s, nexts[raws.len() - 1], 0x7d),
    ensures
        keys_follow(s, starts[j], depth, o, raws, j),
    decreases raws.len() - j,
{
    reveal(members_chain);
    if j + 1 < raws.len() {
        lemma_keys_follow(s, depth, o, raws, starts, nexts, j + 1);
    }
}

/// Whether the bytes `input[a .. b]` stand under one of the ranges `raws`.
pub fn raw_seen(input: &[u8], raws: &Vec<(usize, usize)>, a: usize, b: usize) -> (r: bool)
    requires
        a <= b <= input@.len(),
        forall|i: int| 0 <= i < raws@.len() ==> (#[trigger] raws@[i]).0 <= raws@[i].1 <= input@.len(),
    ensures
        r == raw_texts(input@, raws@).contains(input@.subrange(a as int, b as int)),
{
    let key = vstd::slice::slice_subrange(input, a, b);
    let mut i: usize = 0;
    while i < raws.len()
        invariant
            i <= raws@.len(),
            a <= b <= input@.len(),
            key@ == input@.subrange(a as int, b as int),
            forall|k: int|
                0 <= k < raws@.len() ==> (#[trigger] raws@[k]).0 <= raws@[k].1 <= input@.len(),
            forall|k: int| 0 <= k < i ==> (#[trigger] raw_texts(input@, raws@)[k]) != key@,
        decreases raws@.len() - i,
    {
        let (c, d) = raws[i];
        if bytes_eq(vstd::slice::slice_subrange(input, c, d), key) {
            assert(raw_texts(input@, raws@)[i as int] == key@);
            return true;
        }
        i = i + 1;
    }
    false
}

/// Index of the first entry of `entries` whose key is the byte string
/// `key`; the number of entries where there is none.
pub fn find_key(entries: &Vec<(Term, Term)>, key: &[u8]) -> (r: usize)
    ensures
        r == crate::grammar::key_index(entries_view(entries@), TermV::Binary(key@), 0),
        r <= entries@.len(),
{
    let mut i: usize = 0;
    while i < entries.len()
        invariant
            i <= entries@.len(),
            crate::grammar::key_index(entries_view(entries@), TermV::Binary(key@), 0)
                == crate::grammar::key_index(entries_view(entries@), TermV::Binary(key@), i as int),
        decreases entries@.len() - i,
    {
        let same = match &entries[i].0 {
            Term::Binary(b) => bytes_eq(b.as_slice(), key),
            _ => false,
        };
        if same {
            return i;
        }
        i = i + 1;
    }
    i
}

/// One more key is one more key term, and so on.
pub proof fn lemma_push_views(
    s: Seq<u8>,
    keys: Seq<Vec<u8>>,
    key: Vec<u8>,
    raws: Seq<(usize, usize)>,
    raw: (usize, usize),
    values: Seq<Term>,
    value: Term,
)
    ensures
        key_terms(keys.push(key)) == key_terms(keys).push(TermV::Binary(key@)),
        raw_texts(s, raws.push(raw)) == raw_texts(s, raws).push(
            s.subrange(raw.0 as int, raw.1 as int),
        ),
        terms_view(values.push(value)) == terms_view(values).push(value@),
{
    assert(key_terms(keys.push(key)) =~= key_terms(keys).push(TermV::Binary(key@)));
    assert(raw_texts(s, raws.push(raw)) =~= raw_texts(s, raws).push(
        s.subrange(raw.0 as int, raw.1 as int),
    ));
    assert(terms_view(values.push(value)) =~= terms_view(values).push(value@));
}

/// The mapping of the members, the last value winning where a key occurs
/// twice and the key keeping its first place.
pub fn build_map_with_duplicates(keys: &Vec<Vec<u8>>, values: Vec<Term>) -> (r: Term)
    requires
        keys@.len() == values@.len(),
    ensures
        r@ == TermV::Mapping(
            mapping_of(key_terms(keys@), terms_view(values@), 0, Seq::empty()),
        ),
{
    let n = keys.len();
    let mut values = values;
    let ghost orig = terms_view(values@);
    let ghost kt = key_terms(keys@);
    let mut out: Vec<(Term, Term)> = Vec::with_capacity(n);
    let mut i: usize = 0;
    assert(entries_view(out@) =~= Seq::<(TermV, TermV)>::empty());
    while i < n
        invariant
            i <= n == keys@.len() == values@.len(),
            orig.len() == n,
            kt == key_terms(keys@),
            forall|j: int| i <= j < n ==> (#[trigger] values@[j])@ == orig[j],
            mapping_of(kt, orig, 0, Seq::empty()) == mapping_of(
                kt,
                orig,
                i as int,
                entries_view(out@),
            ),
        decreases n - i,
    {
        let mut v = Term::Other;
        values.set_and_swap(i, &mut v);
        let at = find_key(&out, keys[i].as_slice());
        let k = Term::Binary(copy_bytes(keys[i].as_slice()));
        let ghost before = entries_view(out@);
        if at < out.len() {
            out.set(at, (k, v));
            assert(entries_view(out@) =~= before.update(at as int, (kt[i as int], orig[i as int])));
        } else {
            out.push((k, v));
            assert(entries_view(out@) =~= before.push((kt[i as int], orig[i as int])));
        }
        i = i + 1;
    }
    let r = Term::Mapping(out);
    proof {
        lemma_view_children(r);
    }
    r
}

/// The ordered-object record of the members: every member in its place, as
/// a list of pairs.
pub fn build_ordered_object(keys: &Vec<Vec<u8>>, values: Vec<Term>) -> (r: Term)
    requires
        keys@.len() == values@.len(),
    ensures
        r@ == ordered_object(key_terms(keys@), terms_view(values@)),
{
    let n = keys.len();
    let mut values = values;
    let ghost orig = terms_view(values@);
    let ghost kt = key_terms(keys@);
    let mut items: Vec<Term> = Vec::with_capacity(n);
    let mut i: usize = 0;
    while i < n
        invariant
            i <= n == keys@.len() == values@.len(),
            orig.len() == n,
            kt == key_terms(keys@),
            items@.len() == i,
            forall|j: int| i <= j < n ==> (#[trigger] values@[j])@ == orig[j],
            forall|j: int| 0 <= j < i ==> (#[trigger] items@[j])@ == TermV::Tuple(seq![kt[j], orig[j]]),
        decreases n - i,
    {
        let mut v = Term::Other;
        values.set_and_swap(i, &mut v);
        let k = Term::Binary(copy_bytes(keys[i].as_slice()));
        let mut pair: Vec<Term> = Vec::with_capacity(2);
        pair.push(k);
        pair.push(v);
        let item = Term::Tuple(pair);
        proof {
            lemma_view_children(item);
            assert(terms_view(pair@) =~= seq![kt[i as int], orig[i as int]]);
        }
        items.push(item);
        i = i + 1;
    }
    let list = Term::List(items);
    let mut entries: Vec<(Term, Term)> = Vec::with_capacity(2);
    entries.push(
        (Term::Atom(copy_bytes(&struct_name())), Term::Atom(copy_bytes(&ordered_object_name()))),
    );
    entries.push((Term::Atom(copy_bytes(&values_name())), list));
    let r = Term::Mapping(entries);
    proof {
        lemma_view_children(list);
        lemma_view_children(r);
        let want = ordered_object(kt, orig);
        assert(list@->List_0 =~= Seq::new(kt.len(), |i: int| TermV::Tuple(seq![kt[i], orig[i]])));
        assert(r@->Mapping_0 =~= want->Mapping_0);
    }
    r
}

/// The term of an object with the given members.
pub fn build_object(keys: &Vec<Vec<u8>>, values: Vec<Term>, opts: &DecodeOptions) -> (r: Term)
    requires
        keys@.len() == values@.len(),
    ensures
        r@ == object_term(key_terms(keys@), terms_view(values@), *opts),
{
    if opts.ordered_objects {
        build_ordered_object(keys, values)
    } else {
        build_map_with_duplicates(keys, values)
    }
}

impl<'b> DirectParser<'b> {
    /// Reads the whole document: the root value with whitespace around it
    /// and nothing after it.
    pub fn parse(self) -> (r: Result<Term, DecodeError>)
        requires
            self.wf(),
        ensures
            match r {
                Ok(t) => parse_root(self.input@, self.pos as int, self.depth as int, self.opts)
                    == Ok::<TermV, Failure>(t@),
                Err(e) => parse_root(self.input@, self.pos as int, self.depth as int, self.opts)
                    == Err::<TermV, Failure>((e.kind, e.offset as int)),
            },
    {
        let mut parser = self;
        parser.skip_whitespace();
        let term = match parser.parse_value() {
            Ok(t) => t,
            Err(e) => {
                return Err(e);
            },
        };
        parser.skip_whitespace();
        if parser.pos < parser.input.len() {
            return Err(DecodeError::new(ErrorKind::TrailingCharacters, parser.pos));
        }
        Ok(term)
    }

    /// Reads a value of a flat object: no container is expected, so the
    /// scalars are tried first, numbers by the short way.
    pub fn parse_value_flat(&mut self) -> (r: Result<Term, DecodeError>)
        requires
            old(self).wf(),
        ensures
            agrees(
                r,
                final(self).pos,
                parse_value(
                    old(self).input@,
                    old(self).pos as int,
                    old(self).depth as int,
                    old(self).opts,
                ),
            ),
            r is Ok ==> final(self).wf() && final(self).follows(old(self)) && final(self).pos
                > old(self).pos,
        decreases old(self).input@.len() - old(self).pos, 7int,
    {
        match self.peek() {
            Some(b) => {
                if b == 0x22 {
                    self.parse_string()
                } else if b == 0x2d || is_ascii_digit(b) {
                    self.parse_number_fast()
                } else if b == 0x74 {
                    self.parse_true()
                } else if b == 0x66 {
                    self.parse_false()
                } else if b == 0x6e {
                    self.parse_null()
                } else {
                    self.parse_value()
                }
            },
            None => self.parse_value(),
        }
    }

    /// Reads the value under the cursor.
    pub fn parse_value(&mut self) -> (r: Result<Term, DecodeError>)
        requires
            old(self).wf(),
        ensures
            agrees(
                r,
                final(self).pos,
                parse_value(
                    old(self).input@,
                    old(self).pos as int,
                    old(self).depth as int,
                    old(self).opts,
                ),
            ),
            r is Ok ==> final(self).wf() && final(self).follows(old(self)) && final(self).pos
                > old(self).pos,
        decreases old(self).input@.len() - old(self).pos, 6int,
    {
        match self.peek() {
            Some(b) => {
                if b == 0x6e {
                    self.parse_null()
                } else if b == 0x74 {
                    self.parse_true()
                } else if b == 0x66 {
                    self.parse_false()
                } else if b == 0x22 {
                    self.parse_string()
                } else if b == 0x5b {
                    self.parse_array()
                } else if b == 0x7b {
                    self.parse_object()
                } else if b == 0x2d || is_ascii_digit(b) {
                    self.parse_number()
                } else {
                    Err(self.err(ErrorKind::UnexpectedCharacter))
                }
            },
            None => Err(self.err(ErrorKind::UnexpectedEndOfInput)),
        }
    }

    /// Reads the array under the cursor.  The key layout of a first element
    /// that is an object is kept as the shape of the array, and the objects
    /// after it are read against it.
    pub fn parse_array(&mut self) -> (r: Result<Term, DecodeError>)
        requires
            old(self).wf(),
            byte_at(old(self).input@, old(self).pos as int, 0x5b),
        ensures
            agrees(
                r,
                final(self).pos,
                parse_array(
                    old(self).input@,
                    old(self).pos as int,
                    old(self).depth as int,
                    old(self).opts,
                ),
            ),
            r is Ok ==> final(self).wf() && final(self).follows(old(self)) && final(self).pos
                > old(self).pos,
        decreases old(self).input@.len() - old(self).pos, 5int,
    {
        if self.depth >= MAX_DEPTH {
            return Err(self.err(ErrorKind::NestingDepthExceeded));
        }
        let ghost s = self.input@;
        let ghost o = self.opts;
        let ghost pos0 = self.pos as int;
        let ghost d0 = self.depth as int;
        self.depth = self.depth + 1;
        self.consume_structural();
        self.skip_whitespace();
        if self.at(0x5d) {
            self.consume_structural();
            self.depth = self.depth - 1;
            let r = Term::List(Vec::new());
            proof {
                lemma_view_children(r);
                assert(r@->List_0 =~= Seq::<TermV>::empty());
            }
            return Ok(r);
        }
        let mut shape: Option<KeyShape> = None;
        let first = if self.at(0x7b) {
            self.parse_object_shaped(&mut shape)
        } else {
            self.parse_value()
        };
        let first = match first {
            Ok(t) => t,
            Err(e) => {
                return Err(e);
            },
        };
        self.advance_to_structural();
        let mut elements: Vec<Term>;
        if self.at(0x5d) {
            self.consume_structural();
            self.depth = self.depth - 1;
            elements = Vec::with_capacity(1);
            elements.push(first);
            let r = Term::List(elements);
            proof {
                lemma_view_children(r);
                assert(r@->List_0 =~= Seq::<TermV>::empty().push(first@));
            }
            return Ok(r);
        } else if self.at(0x2c) {
            self.consume_structural_and_skip_ws();
        } else {
            return Err(self.err(ErrorKind::UnexpectedCharacter));
        }
        let cap = self.estimate_container_capacity(0x5d, 20, 1024) + 1;
        elements = Vec::with_capacity(cap);
        elements.push(first);
        assert(terms_view(elements@) =~= Seq::<TermV>::empty().push(first@));
        // The class of the second element picks the reader that is tried
        // first for all the elements after it.
        let elem_class: u8 = match self.peek() {
            Some(b) => if b == 0x2d || is_ascii_digit(b) {
                1
            } else if b == 0x22 {
                2
            } else {
                0
            },
            None => 0,
        };
        let mut done = false;
        while !done
            invariant
                self.wf(),
                self.continues(old(self)),
                self.depth == d0 + 1,
                self.pos > pos0,
                s == self.input@,
                o == self.opts,
                pos0 == old(self).pos,
                d0 == old(self).depth,
                shape matches Some(ks) ==> ks.fits(s, o),
                !done ==> parse_array(s, pos0, d0, o) == parse_elements(
                    s,
                    self.pos as int,
                    d0 + 1,
                    o,
                    terms_view(elements@),
                ),
                done ==> parse_array(s, pos0, d0, o) == Ok::<(TermV, int), Failure>(
                    (TermV::List(terms_view(elements@)), self.pos as int),
                ),
            decreases
                    self.input@.len() - self.pos + (if done {
                        0int
                    } else {
                        1int
                    }),
        {
            let ghost at_elem = self.pos as int;
            let numeric = match self.peek() {
                Some(b) => b == 0x2d || is_ascii_digit(b),
                None => false,
            };
            let elem = if elem_class == 1 && numeric {
                self.parse_number_fast()
            } else if elem_class == 2 && self.at(0x22) {
                self.parse_string()
            } else if self.at(0x7b) && shape.is_some() {
                self.parse_object_shaped(&mut shape)
            } else {
                if !self.at(0x7b) {
                    shape = None;
                }
                self.parse_value()
            };
            let elem = match elem {
                Ok(t) => t,
                Err(e) => {
                    return Err(e);
                },
            };
            proof {
                assert(parse_value(s, at_elem, d0 + 1, o) == Ok::<(TermV, int), Failure>(
                    (elem@, self.pos as int),
                ));
                assert(terms_view(elements@.push(elem)) =~= terms_view(elements@).push(elem@));
            }
            elements.push(elem);
            self.advance_to_structural();
            if self.at(0x2c) {
                self.consume_structural_and_skip_ws();
            } else if self.at(0x5d) {
                self.consume_structural();
                done = true;
            } else {
                return Err(self.err(ErrorKind::UnexpectedCharacter));
            }
        }
        self.depth = self.depth - 1;
        let r = Term::List(elements);
        proof {
            lemma_view_children(r);
        }
        Ok(r)
    }

    /// Reads the object under the cursor.
    pub fn parse_object(&mut self) -> (r: Result<Term, DecodeError>)
        requires
            old(self).wf(),
            byte_at(old(self).input@, old(self).pos as int, 0x7b),
        ensures
            agrees(
                r,
                final(self).pos,
                parse_object(
                    old(self).input@,
                    old(self).pos as int,
                    old(self).depth as int,
                    old(self).opts,
                ),
            ),
            r is Ok ==> final(self).wf() && final(self).follows(old(self)) && final(self).pos
                > old(self).pos,
        decreases old(self).input@.len() - old(self).pos, 2int,
    {
        match self.parse_object_body() {
            Ok((t, _)) => Ok(t),
            Err(e) => Err(e),
        }
    }

    /// Reads the object under the cursor and keeps its key layout as the
    /// shape for the objects after it.
    pub fn parse_object_capture_shape(&mut self, shape: &mut Option<KeyShape>) -> (r: Result<
        Term,
        DecodeError,
    >)
        requires
            old(self).wf(),
            byte_at(old(self).input@, old(self).pos as int, 0x7b),
        ensures
            agrees(
                r,
                final(self).pos,
                parse_object(
                    old(self).input@,
                    old(self).pos as int,
                    old(self).depth as int,
                    old(self).opts,
                ),
            ),
            r is Ok ==> final(self).wf() && final(self).follows(old(self)) && final(self).pos
                > old(self).pos,
            r is Ok ==> *final(shape) is Some && final(shape).unwrap().fits(
                old(self).input@,
                old(self).opts,
            ) && has_shape(
                old(self).input@,
                old(self).pos as int,
                old(self).depth as int,
                old(self).opts,
                final(shape).unwrap().raw_keys@,
            ) && final(shape).unwrap().is_flat == object_is_flat(
                old(self).input@,
                old(self).pos as int,
            ),
            r is Err ==> *final(shape) == *old(shape),
        decreases old(self).input@.len() - old(self).pos, 3int,
    {
        match self.parse_object_body() {
            Ok((t, ks)) => {
                *shape = Some(ks);
                Ok(t)
            },
            Err(e) => Err(e),
        }
    }

    /// Reads the members of the object under the cursor, and hands out the
    /// object together with its key layout.
    fn parse_object_body(&mut self) -> (r: Result<(Term, KeyShape), DecodeError>)
        requires
            old(self).wf(),
            byte_at(old(self).input@, old(self).pos as int, 0x7b),
        ensures
            match r {
                Ok((t, ks)) => {
                    &&& parse_object(
                        old(self).input@,
                        old(self).pos as int,
                        old(self).depth as int,
                        old(self).opts,
                    ) == Ok::<(TermV, int), Failure>((t@, final(self).pos as int))
                    &&& final(self).wf()
                    &&& final(self).follows(old(self))
                    &&& final(self).pos > old(self).pos
                    &&& ks.fits(old(self).input@, old(self).opts)
                    &&& has_shape(
                        old(self).input@,
                        old(self).pos as int,
                        old(self).depth as int,
                        old(self).opts,
                        ks.raw_keys@,
                    )
                    &&& ks.is_flat == object_is_flat(old(self).input@, old(self).pos as int)
                },
                Err(e) => parse_object(
                    old(self).input@,
                    old(self).pos as int,
                    old(self).depth as int,
                    old(self).opts,
                ) == Err::<(TermV, int), Failure>((e.kind, e.offset as int)),
            },
        decreases old(self).input@.len() - old(self).pos, 1int,
    {
        if self.depth >= MAX_DEPTH {
            return Err(self.err(ErrorKind::NestingDepthExceeded));
        }
        let ghost s = self.input@;
        let ghost o = self.opts;
        let ghost pos0 = self.pos as int;
        let ghost d0 = self.depth as int;
        self.depth = self.depth + 1;
        self.consume_structural();
        self.skip_whitespace();
        if self.at(0x7d) {
            self.consume_structural();
            self.depth = self.depth - 1;
            let keys: Vec<Vec<u8>> = Vec::new();
            let values: Vec<Term> = Vec::new();
            proof {
                assert(key_terms(keys@) =~= Seq::<TermV>::empty());
                assert(terms_view(values@) =~= Seq::<TermV>::empty());
                assert(raw_texts(s, Seq::<(usize, usize)>::empty()) =~= Seq::<Seq<u8>>::empty());
            }
            let t = build_object(&keys, values, &self.opts);
            return Ok((t, KeyShape { raw_keys: Vec::new(), keys, is_flat: true }));
        }
        let cap = self.estimate_container_capacity(0x7d, 30, 256) + 1;
        let mut keys: Vec<Vec<u8>> = Vec::with_capacity(cap);
        let mut raws: Vec<(usize, usize)> = Vec::with_capacity(cap);
        let mut values: Vec<Term> = Vec::with_capacity(cap);
        let mut is_flat = true;
        let mut done = false;
        let ghost opening = self.pos as int;
        let ghost mut starts: Seq<int> = Seq::empty();
        let ghost mut nexts: Seq<int> = Seq::empty();
        proof {
            reveal(members_chain);
            assert(key_terms(keys@) =~= Seq::<TermV>::empty());
            assert(terms_view(values@) =~= Seq::<TermV>::empty());
            assert(raw_texts(s, raws@) =~= Seq::<Seq<u8>>::empty());
        }
        while !done
            invariant
                opening == skip_ws(s, pos0 + 1),
                d0 < MAX_DEPTH,
                byte_at(s, pos0, 0x7b),
                starts.len() == raws@.len(),
                nexts.len() == raws@.len(),
                members_chain(s, d0 + 1, o, raws@, starts, nexts),
                raws@.len() > 0 ==> starts[0] == opening,
                raws@.len() > 0 ==> is_flat == object_is_flat(s, pos0),
                !byte_at(s, opening, 0x7d),
                !done && raws@.len() == 0 ==> self.pos == opening,
                !done && raws@.len() > 0 ==> byte_at(s, nexts[raws@.len() - 1], 0x2c) && self.pos
                    == skip_ws(s, nexts[raws@.len() - 1] + 1),
                done ==> raws@.len() > 0 && byte_at(s, nexts[raws@.len() - 1], 0x7d),
                self.wf(),
                self.continues(old(self)),
                self.depth == d0 + 1,
                self.pos > pos0,
                s == self.input@,
                o == self.opts,
                pos0 == old(self).pos,
                d0 == old(self).depth,
                keys@.len() == raws@.len() == values@.len(),
                forall|i: int|
                    0 <= i < raws@.len() ==> key_recorded(s, o, #[trigger] raws@[i], keys@[i]@),
                o.reject_duplicate_keys ==> all_distinct(raw_texts(s, raws@)),
                !done ==> parse_object(s, pos0, d0, o) == parse_members(
                    s,
                    self.pos as int,
                    d0 + 1,
                    o,
                    key_terms(keys@),
                    raw_texts(s, raws@),
                    terms_view(values@),
                ),
                done ==> parse_object(s, pos0, d0, o) == Ok::<(TermV, int), Failure>(
                    (object_term(key_terms(keys@), terms_view(values@), o), self.pos as int),
                ),
            decreases
                    self.input@.len() - self.pos + (if done {
                        0int
                    } else {
                        1int
                    }),
        {
            if !self.at(0x22) {
                return Err(self.err(ErrorKind::UnexpectedCharacter));
            }
            let key_start = self.pos;
            let key = match self.parse_key() {
                Ok(k) => k,
                Err(e) => {
                    return Err(e);
                },
            };
            let raw = (key_start + 1, self.pos - 1);
            proof {
                lemma_scan_closed(s, key_start + 1, false);
            }
            if self.opts.reject_duplicate_keys && raw_seen(self.input, &raws, raw.0, raw.1) {
                return Err(self.err(ErrorKind::DuplicateObjectKey));
            }
            self.advance_to_structural();
            if !self.at(0x3a) {
                return Err(self.err(ErrorKind::UnexpectedCharacter));
            }
            self.consume_structural_and_skip_ws();
            let first = keys.len() == 0;
            if first {
                is_flat = !(self.at(0x7b) || self.at(0x5b));
            }
            let value = if is_flat && !first {
                self.parse_value_flat()
            } else {
                self.parse_value()
            };
            let value = match value {
                Ok(v) => v,
                Err(e) => {
                    return Err(e);
                },
            };
            proof {
                lemma_push_views(s, keys@, key, raws@, raw, values@, value);
                let texts = raw_texts(s, raws@);
                let text = s.subrange(raw.0 as int, raw.1 as int);
                if o.reject_duplicate_keys {
                    assert forall|i: int, j: int| 0 <= i < j < texts.push(text).len() implies texts.push(
                        text,
                    )[i] != texts.push(text)[j] by {
                        if j == texts.len() {
                            assert(texts.contains(texts[i]));
                        }
                    }
                }
            }
            keys.push(key);
            let ghost raws_before = raws@;
            raws.push(raw);
            values.push(value);
            self.advance_to_structural();
            proof {
                assert(member_end(s, key_start as int, d0 + 1, o, raw) == Some(self.pos as int));
                lemma_chain_push(
                    s,
                    d0 + 1,
                    o,
                    raws_before,
                    starts,
                    nexts,
                    raw,
                    key_start as int,
                    self.pos as int,
                );
                starts = starts.push(key_start as int);
                nexts = nexts.push(self.pos as int);
            }
            if self.at(0x2c) {
                self.consume_structural_and_skip_ws();
            } else if self.at(0x7d) {
                self.consume_structural();
                done = true;
            } else {
                return Err(self.err(ErrorKind::UnexpectedCharacter));
            }
        }
        proof {
            lemma_keys_follow(s, d0 + 1, o, raws@, starts, nexts, 0);
        }
        self.depth = self.depth - 1;
        let t = build_object(&keys, values, &self.opts);
        Ok((t, KeyShape { raw_keys: raws, keys, is_flat }))
    }

    /// Gives up reading an object against a shape: goes back to its opening
    /// brace at `obj_start` and reads it as any object.
    fn rewind_and_fallback(&mut self, obj_start: usize, saved_cursor: Option<usize>) -> (r: Result<
        Term,
        DecodeError,
    >)
        requires
            old(self).wf(),
            old(self).depth >= 1,
            obj_start <= old(self).pos,
            byte_at(old(self).input@, obj_start as int, 0x7b),
            saved_cursor is Some <==> old(self).structural_index is Some,
            saved_cursor matches Some(c) ==> c <= obj_start,
        ensures
            agrees(
                r,
                final(self).pos,
                parse_object(
                    old(self).input@,
                    obj_start as int,
                    old(self).depth - 1,
                    old(self).opts,
                ),
            ),
            r is Ok ==> final(self).wf() && final(self).same_decode(old(self)) && final(self).depth
                == old(self).depth - 1 && final(self).pos > obj_start,
        decreases old(self).input@.len() - obj_start, 3int,
    {
        self.depth = self.depth - 1;
        self.pos = obj_start;
        match self.structural_index.take() {
            Some(mut idx) => {
                match saved_cursor {
                    Some(c) => {
                        idx.cursor = c;
                    },
                    None => {},
                }
                self.structural_index = Some(idx);
            },
            None => {},
        }
        self.parse_object()
    }

    /// Reads the object under the cursor against the shape of its array:
    /// the keys are compared as raw bytes with the keys of the shape and not
    /// built again.  Without a shape the object is read as any object and
    /// its layout becomes the shape; on the first difference from the shape
    /// the object is read again as any object and the shape is dropped.
    pub fn parse_object_shaped(&mut self, shape: &mut Option<KeyShape>) -> (r: Result<
        Term,
        DecodeError,
    >)
        requires
            old(self).wf(),
            byte_at(old(self).input@, old(self).pos as int, 0x7b),
            *old(shape) matches Some(ks) ==> ks.fits(old(self).input@, old(self).opts),
        ensures
            agrees(
                r,
                final(self).pos,
                parse_object(
                    old(self).input@,
                    old(self).pos as int,
                    old(self).depth as int,
                    old(self).opts,
                ),
            ),
            r is Ok ==> final(self).wf() && final(self).follows(old(self)) && final(self).pos
                > old(self).pos,
            *final(shape) matches Some(ks) ==> ks.fits(old(self).input@, old(self).opts),
            *old(shape) is None && r is Ok ==> *final(shape) is Some && has_shape(
                old(self).input@,
                old(self).pos as int,
                old(self).depth as int,
                old(self).opts,
                final(shape).unwrap().raw_keys@,
            ) && final(shape).unwrap().is_flat == object_is_flat(
                old(self).input@,
                old(self).pos as int,
            ),
            *old(shape) matches Some(ks) ==> {
                let same = has_shape(
                    old(self).input@,
                    old(self).pos as int,
                    old(self).depth as int,
                    old(self).opts,
                    ks.raw_keys@,
                );
                &&& same ==> r is Ok && *final(shape) == *old(shape)
                &&& !same ==> *final(shape) is None
            },
        decreases old(self).input@.len() - old(self).pos, 4int,
    {
        let cached = match shape.take() {
            None => {
                return self.parse_object_capture_shape(shape);
            },
            Some(ks) => ks,
        };
        if self.depth >= MAX_DEPTH {
            return Err(self.err(ErrorKind::NestingDepthExceeded));
        }
        let ghost s = self.input@;
        let ghost o = self.opts;
        let ghost pos0 = self.pos as int;
        let ghost d0 = self.depth as int;
        self.depth = self.depth + 1;
        let obj_start = self.pos;
        let saved_cursor = match &self.structural_index {
            Some(idx) => Some(idx.cursor),
            None => None,
        };
        self.consume_structural();
        self.skip_whitespace();
        let num_keys = cached.raw_keys.len();
        if num_keys == 0 {
            if self.at(0x7d) {
                self.consume_structural();
                self.depth = self.depth - 1;
                let values: Vec<Term> = Vec::new();
                proof {
                    assert(key_terms(cached.keys@) =~= Seq::<TermV>::empty());
                    assert(terms_view(values@) =~= Seq::<TermV>::empty());
                }
                let t = build_object(&cached.keys, values, &self.opts);
                *shape = Some(cached);
                return Ok(t);
            }
            return self.rewind_and_fallback(obj_start, saved_cursor);
        }
        if !self.at(0x22) {
            return self.rewind_and_fallback(obj_start, saved_cursor);
        }
        let mut values: Vec<Term> = Vec::with_capacity(num_keys);
        let flat = cached.is_flat;
        let mut i: usize = 0;
        let mut done = false;
        proof {
            assert(key_terms(cached.keys@.subrange(0, 0)) =~= Seq::<TermV>::empty());
            assert(terms_view(values@) =~= Seq::<TermV>::empty());
            assert(raw_texts(s, cached.raw_keys@.subrange(0, 0)) =~= Seq::<Seq<u8>>::empty());
        }
        while i < num_keys
            invariant
                self.wf(),
                self.continues(old(self)),
                self.depth == d0 + 1,
                self.pos > pos0,
                s == self.input@,
                o == self.opts,
                pos0 == old(self).pos,
                obj_start == pos0,
                d0 == old(self).depth,
                byte_at(s, pos0, 0x7b),
                saved_cursor is Some <==> self.structural_index is Some,
                saved_cursor matches Some(c) ==> c <= obj_start,
                cached.fits(s, o),
                num_keys == cached.raw_keys@.len(),
                i <= num_keys,
                *shape is None,
                *old(shape) == Some(cached),
                values@.len() == i,
                done <==> i == num_keys,
                !done ==> has_shape(s, pos0, d0, o, cached.raw_keys@) == keys_follow(
                    s,
                    self.pos as int,
                    d0 + 1,
                    o,
                    cached.raw_keys@,
                    i as int,
                ),
                done ==> has_shape(s, pos0, d0, o, cached.raw_keys@),
                !done ==> parse_object(s, pos0, d0, o) == parse_members(
                    s,
                    self.pos as int,
                    d0 + 1,
                    o,
                    key_terms(cached.keys@.subrange(0, i as int)),
                    raw_texts(s, cached.raw_keys@.subrange(0, i as int)),
                    terms_view(values@),
                ),
                done ==> parse_object(s, pos0, d0, o) == Ok::<(TermV, int), Failure>(
                    (object_term(key_terms(cached.keys@), terms_view(values@), o), self.pos as int),
                ),
            decreases num_keys - i,
        {
            if !self.at(0x22) {
                return self.rewind_and_fallback(obj_start, saved_cursor);
            }
            let ghost member = self.pos as int;
            let (a, b) = match self.scan_string_raw() {
                Ok(range) => range,
                Err(e) => {
                    return Err(e);
                },
            };
            let (ca, cb) = cached.raw_keys[i];
            assert(key_recorded(s, o, cached.raw_keys@[i as int], cached.keys@[i as int]@));
            if !bytes_eq(
                vstd::slice::slice_subrange(self.input, a, b),
                vstd::slice::slice_subrange(self.input, ca, cb),
            ) {
                return self.rewind_and_fallback(obj_start, saved_cursor);
            }
            proof {
                // The key reads as the key of the shape, and it is none of
                // the keys before it.
                assert(parse_string(s, member, o.validate_strings) == Ok::<
                    (Seq<u8>, int),
                    Failure,
                >((cached.keys@[i as int]@, b + 1)));
                let texts = raw_texts(s, cached.raw_keys@);
                let prefix = raw_texts(s, cached.raw_keys@.subrange(0, i as int));
                if o.reject_duplicate_keys {
                    if prefix.contains(s.subrange(a as int, b as int)) {
                        let j = choose|j: int| 0 <= j < prefix.len() && prefix[j] == s.subrange(
                            a as int,
                            b as int,
                        );
                        assert(texts[j] == prefix[j]);
                        assert(texts[i as int] == s.subrange(a as int, b as int));
                    }
                }
            }
            self.advance_to_structural();
            if !self.at(0x3a) {
                return Err(self.err(ErrorKind::UnexpectedCharacter));
            }
            self.consume_structural_and_skip_ws();
            let value = if flat {
                self.parse_value_flat()
            } else {
                self.parse_value()
            };
            let value = match value {
                Ok(v) => v,
                Err(e) => {
                    return Err(e);
                },
            };
            proof {
                assert(terms_view(values@.push(value)) =~= terms_view(values@).push(value@));
                assert(key_terms(cached.keys@.subrange(0, i + 1)) =~= key_terms(
                    cached.keys@.subrange(0, i as int),
                ).push(TermV::Binary(cached.keys@[i as int]@)));
                assert(raw_texts(s, cached.raw_keys@.subrange(0, i + 1)) =~= raw_texts(
                    s,
                    cached.raw_keys@.subrange(0, i as int),
                ).push(s.subrange(a as int, b as int)));
                assert(cached.keys@.subrange(0, num_keys as int) =~= cached.keys@);
            }
            values.push(value);
            self.advance_to_structural();
            if i + 1 < num_keys {
                if !self.at(0x2c) {
                    return self.rewind_and_fallback(obj_start, saved_cursor);
                }
                self.consume_structural_and_skip_ws();
            } else {
                if self.at(0x7d) {
                    self.consume_structural();
                    done = true;
                } else if self.at(0x2c) {
                    return self.rewind_and_fallback(obj_start, saved_cursor);
                } else {
                    return Err(self.err(ErrorKind::UnexpectedCharacter));
                }
            }
            i = i + 1;
        }
        self.depth = self.depth - 1;
        let t = build_object(&cached.keys, values, &self.opts);
        *shape = Some(cached);
        Ok(t)
    }
}

/// Decodes the document `input` under the options `opts`.
pub fn json_to_term(input: &[u8], opts: DecodeOptions) -> (r: Result<Term, DecodeError>)
    ensures
        match r {
            Ok(t) => parse_document(input@, opts) == Ok::<TermV, Failure>(t@),
            Err(e) => parse_document(input@, opts) == Err::<TermV, Failure>(
                (e.kind, e.offset as int),
            ),
        },
{
    if opts.max_bytes > 0 && input.len() > opts.max_bytes {
        return Err(DecodeError::new(ErrorKind::InputTooLarge, 0));
    }
    DirectParser::new(input, opts).parse()
}

} // verus!
