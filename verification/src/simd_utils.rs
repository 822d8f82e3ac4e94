//! Byte-class scanning over fixed-size chunks.
//!
//! Every scanner looks at the input one chunk of [`CHUNK`] bytes at a time and
//! decides per chunk whether to skip it whole.  Two exit strategies exist:
//! the *exact* scanners stop on the first byte outside the class, the
//! *chunk-granular* scanners stop at the start of the first chunk that holds
//! such a byte and leave the byte itself to the caller.

use vstd::prelude::*;

verus! {

/// Number of bytes examined per scanning step.
pub const CHUNK: usize = 16;

/// Number of bytes examined per step of the wide structural pass.
pub const WIDE: usize = 32;

/// The byte classes the scanners recognise.  A scanner skips the bytes that
/// belong to its class and stops on the first byte that does not.
#[derive(Clone, Copy, PartialEq, Eq)]
pub enum ByteClass {
    /// `'0'..='9'`.
    Digit,
    /// Space, tab, line feed, carriage return.
    Whitespace,
    /// Bytes a JSON string may hold verbatim: not `"`, not `\`, not a control.
    JsonSafe,
    /// `JsonSafe` without `<`, `>`, `&`, `/` and without bytes from `0xE2` up.
    HtmlSafe,
    /// `JsonSafe` without any byte from `0x80` up.
    UnicodeSafe,
    /// `JsonSafe` without bytes from `0xE2` up.
    JavaScriptSafe,
    /// Bytes that are none of `{ } [ ] : , " \`.
    NonStructural,
}

/// `b` is an ASCII decimal digit.
pub open spec fn is_digit(b: u8) -> bool {
    0x30 <= b <= 0x39
}

/// `b` is one of the four JSON whitespace bytes.
pub open spec fn is_whitespace(b: u8) -> bool {
    b == 0x20 || b == 0x09 || b == 0x0a || b == 0x0d
}

/// `b` must be escaped in every output mode: a control byte, `"` or `\`.
pub open spec fn needs_json_escape(b: u8) -> bool {
    b < 0x20 || b == 0x22 || b == 0x5c
}

/// `b` is a candidate for escaping in the HTML-safe mode.
pub open spec fn needs_html_escape(b: u8) -> bool {
    needs_json_escape(b) || b == 0x3c || b == 0x3e || b == 0x26 || b == 0x2f || b >= 0xe2
}

/// `b` is a candidate for escaping in the Unicode-safe mode.
pub open spec fn needs_unicode_escape(b: u8) -> bool {
    needs_json_escape(b) || b >= 0x80
}

/// `b` is a candidate for escaping in the JavaScript-safe mode.
pub open spec fn needs_javascript_escape(b: u8) -> bool {
    needs_json_escape(b) || b >= 0xe2
}

/// `b` is one of `{ } [ ] : ,`.
pub open spec fn is_structural(b: u8) -> bool {
    b == 0x7b || b == 0x7d || b == 0x5b || b == 0x5d || b == 0x3a || b == 0x2c
}

/// `b` is a structural byte, a quote or a backslash: the bytes the structural
/// pass has to look at one by one.
pub open spec fn is_structural_or_string(b: u8) -> bool {
    is_structural(b) || b == 0x22 || b == 0x5c
}

impl ByteClass {
    /// Membership of a byte in the class.
    pub open spec fn contains(self, b: u8) -> bool {
        match self {
            ByteClass::Digit => is_digit(b),
            ByteClass::Whitespace => is_whitespace(b),
            ByteClass::JsonSafe => !needs_json_escape(b),
            ByteClass::HtmlSafe => !needs_html_escape(b),
            ByteClass::UnicodeSafe => !needs_unicode_escape(b),
            ByteClass::JavaScriptSafe => !needs_javascript_escape(b),
            ByteClass::NonStructural => !is_structural_or_string(b),
        }
    }

    /// Executable membership test.
    pub fn holds(self, b: u8) -> (r: bool)
        ensures
            r == self.contains(b),
    {
        let json_escape = b < 0x20 || b == 0x22 || b == 0x5c;
        match self {
            ByteClass::Digit => 0x30 <= b && b <= 0x39,
            ByteClass::Whitespace => b == 0x20 || b == 0x09 || b == 0x0a || b == 0x0d,
            ByteClass::JsonSafe => !json_escape,
            ByteClass::HtmlSafe => !(json_escape || b == 0x3c || b == 0x3e || b == 0x26 || b
                == 0x2f || b >= 0xe2),
            ByteClass::UnicodeSafe => !(json_escape || b >= 0x80),
            ByteClass::JavaScriptSafe => !(json_escape || b >= 0xe2),
            ByteClass::NonStructural => !(b == 0x7b || b == 0x7d || b == 0x5b || b == 0x5d || b
                == 0x3a || b == 0x2c || b == 0x22 || b == 0x5c),
        }
    }
}

/// End of the run of class bytes that starts at `pos`: the index of the first
/// byte at or after `pos` outside the class, or the length of `s` when there
/// is none.  A `pos` outside `s` is its own run end.
pub open spec fn run_end(s: Seq<u8>, pos: int, class: ByteClass) -> int
    decreases s.len() - pos,
{
    if 0 <= pos < s.len() && class.contains(s[pos]) {
        run_end(s, pos + 1, class)
    } else {
        pos
    }
}

/// Where a chunk-granular scanner stops: the first position `pos + 16k` whose
/// chunk is incomplete or holds a byte outside the class.
pub open spec fn chunk_stop(s: Seq<u8>, pos: int, class: ByteClass) -> int
    decreases s.len() - pos,
{
    if 0 <= pos && pos + CHUNK <= s.len() && run_end(s, pos, class) >= pos + CHUNK {
        chunk_stop(s, pos + CHUNK, class)
    } else {
        pos
    }
}

/// The run end is the one position that is preceded by class bytes only and
/// is not itself a class byte.
pub proof fn lemma_run_end_bounds(s: Seq<u8>, pos: int, class: ByteClass)
    ensures
        pos <= run_end(s, pos, class),
        0 <= pos <= s.len() ==> run_end(s, pos, class) <= s.len(),
        forall|i: int| pos <= i < run_end(s, pos, class) ==> class.contains(#[trigger] s[i]),
        0 <= run_end(s, pos, class) < s.len() ==> !class.contains(s[run_end(s, pos, class)]),
    decreases s.len() - pos,
{
    if 0 <= pos < s.len() && class.contains(s[pos]) {
        lemma_run_end_bounds(s, pos + 1, class);
    }
}

/// Any position with the two defining properties is the run end.
pub proof fn lemma_run_end_unique(s: Seq<u8>, pos: int, class: ByteClass, r: int)
    requires
        0 <= pos <= r <= s.len(),
        forall|i: int| pos <= i < r ==> class.contains(#[trigger] s[i]),
        r < s.len() ==> !class.contains(s[r]),
    ensures
        run_end(s, pos, class) == r,
    decreases r - pos,
{
    if pos < r {
        assert(class.contains(s[pos]));
        lemma_run_end_unique(s, pos + 1, class, r);
    }
}

/// A run that is entered anywhere in its middle ends where it ends.
pub proof fn lemma_run_end_step(s: Seq<u8>, pos: int, mid: int, class: ByteClass)
    requires
        0 <= pos <= mid <= run_end(s, pos, class),
    ensures
        run_end(s, mid, class) == run_end(s, pos, class),
    decreases mid - pos,
{
    if pos < mid {
        lemma_run_end_bounds(s, pos, class);
        lemma_run_end_step(s, pos + 1, mid, class);
    }
}

/// Length of the prefix of the chunk `input[pos .. pos + width]` that lies in
/// the class.
pub fn chunk_run(input: &[u8], pos: usize, width: usize, class: ByteClass) -> (n: usize)
    requires
        pos + width <= input@.len(),
    ensures
        n <= width,
        n == width <==> run_end(input@, pos as int, class) >= pos + width,
        n < width ==> pos + n == run_end(input@, pos as int, class),
{
    let len = input.len();
    let mut n: usize = 0;
    let mut inside = true;
    while inside && n < width
        invariant
            n <= width,
            len == input@.len(),
            pos + width <= len,
            run_end(input@, pos as int, class) == run_end(input@, pos + n, class),
            !inside ==> n < width && !class.contains(input@[pos + n]),
        decreases width - n + (if inside { 1int } else { 0int }),
    {
        if class.holds(input[pos + n]) {
            n = n + 1;
        } else {
            inside = false;
        }
    }
    proof {
        lemma_run_end_bounds(input@, pos + n, class);
    }
    n
}

/// Advances `pos` over whole chunks of plain string bytes (no `"`, no `\`, no
/// control byte).  Stops at the start of the first chunk that holds another
/// byte, or where fewer than a chunk of input is left.
pub fn skip_plain_string_bytes(input: &[u8], pos: &mut usize)
    ensures
        *final(pos) == chunk_stop(input@, *old(pos) as int, ByteClass::JsonSafe),
{
    while input.len() >= CHUNK && *pos <= input.len() - CHUNK
        invariant
            chunk_stop(input@, *old(pos) as int, ByteClass::JsonSafe) == chunk_stop(
                input@,
                *pos as int,
                ByteClass::JsonSafe,
            ),
        decreases input@.len() - *pos,
    {
        let n = chunk_run(input, *pos, CHUNK, ByteClass::JsonSafe);
        if n < CHUNK {
            return ;
        }
        *pos = *pos + CHUNK;
    }
}

/// Advances `pos` over ASCII digits to the end of the digit run: the first
/// byte at or after `pos` that is no digit, or the end of the input.  Whole
/// chunks are taken first, the rest byte by byte.
pub fn skip_ascii_digits(input: &[u8], pos: &mut usize)
    ensures
        *final(pos) == run_end(input@, *old(pos) as int, ByteClass::Digit),
{
    *pos = find_outside(input, *pos, ByteClass::Digit, true);
}

/// Advances `pos` over JSON whitespace to the first byte at or after `pos`
/// that is not whitespace, or to the end of the input.  Whole chunks are
/// taken first, the rest byte by byte.
pub fn skip_whitespace(input: &[u8], pos: &mut usize)
    ensures
        *final(pos) == run_end(input@, *old(pos) as int, ByteClass::Whitespace),
{
    *pos = find_outside(input, *pos, ByteClass::Whitespace, true);
}

/// Whether the chunk `input[pos .. pos + 16]` holds a structural byte, a
/// quote or a backslash.
pub fn chunk_has_structural(input: &[u8], pos: usize) -> (r: bool)
    requires
        pos + CHUNK <= input@.len(),
    ensures
        r == exists|i: int| pos <= i < pos + CHUNK && is_structural_or_string(#[trigger] input@[i]),
{
    let n = chunk_run(input, pos, CHUNK, ByteClass::NonStructural);
    proof {
        lemma_run_end_bounds(input@, pos as int, ByteClass::NonStructural);
        if n < CHUNK {
            assert(is_structural_or_string(input@[pos + n]));
        }
    }
    n < CHUNK
}

/// Whether the wide chunk `input[pos .. pos + 32]` holds a structural byte, a
/// quote or a backslash.
pub fn chunk_has_structural_wide(input: &[u8], pos: usize) -> (r: bool)
    requires
        pos + WIDE <= input@.len(),
    ensures
        r == exists|i: int| pos <= i < pos + WIDE && is_structural_or_string(#[trigger] input@[i]),
{
    let n = chunk_run(input, pos, WIDE, ByteClass::NonStructural);
    proof {
        lemma_run_end_bounds(input@, pos as int, ByteClass::NonStructural);
        if n < WIDE {
            assert(is_structural_or_string(input@[pos + n]));
        }
    }
    n < WIDE
}

/// The shared body of the escape finders: whole chunks first, exact within
/// the chunk when `exact` is set, then byte by byte.
fn find_outside(bytes: &[u8], pos: usize, class: ByteClass, exact: bool) -> (r: usize)
    ensures
        r == run_end(bytes@, pos as int, class),
{
    let mut cur = pos;
    while bytes.len() >= CHUNK && cur <= bytes.len() - CHUNK
        invariant
            run_end(bytes@, pos as int, class) == run_end(bytes@, cur as int, class),
        decreases bytes@.len() - cur,
    {
        let n = chunk_run(bytes, cur, CHUNK, class);
        if n < CHUNK {
            if exact {
                return cur + n;
            }
            break ;
        }
        proof {
            lemma_run_end_step(bytes@, cur as int, cur + CHUNK, class);
        }
        cur = cur + CHUNK;
    }
    find_outside_scalar(bytes, cur, class)
}

/// Byte-by-byte search for the first byte outside the class.
fn find_outside_scalar(bytes: &[u8], pos: usize, class: ByteClass) -> (r: usize)
    ensures
        r == run_end(bytes@, pos as int, class),
{
    let mut cur = pos;
    while cur < bytes.len()
        invariant
            run_end(bytes@, pos as int, class) == run_end(bytes@, cur as int, class),
        decreases bytes@.len() - cur,
    {
        if !class.holds(bytes[cur]) {
            return cur;
        }
        cur = cur + 1;
    }
    cur
}

/// Index of the first byte at or after `pos` that needs a JSON escape
/// (control byte, `"` or `\`); the length of `bytes` when there is none.
pub fn find_escape_json(bytes: &[u8], pos: usize) -> (r: usize)
    ensures
        r == run_end(bytes@, pos as int, ByteClass::JsonSafe),
{
    find_outside(bytes, pos, ByteClass::JsonSafe, true)
}

/// Index of the first byte at or after `pos` that is a candidate for
/// escaping in the HTML-safe mode.
pub fn find_escape_html(bytes: &[u8], pos: usize) -> (r: usize)
    ensures
        r == run_end(bytes@, pos as int, ByteClass::HtmlSafe),
{
    find_outside(bytes, pos, ByteClass::HtmlSafe, false)
}

/// Index of the first byte at or after `pos` that is a candidate for
/// escaping in the Unicode-safe mode.
pub fn find_escape_unicode(bytes: &[u8], pos: usize) -> (r: usize)
    ensures
        r == run_end(bytes@, pos as int, ByteClass::UnicodeSafe),
{
    find_outside(bytes, pos, ByteClass::UnicodeSafe, false)
}

/// Index of the first byte at or after `pos` that is a candidate for
/// escaping in the JavaScript-safe mode.
pub fn find_escape_javascript(bytes: &[u8], pos: usize) -> (r: usize)
    ensures
        r == run_end(bytes@, pos as int, ByteClass::JavaScriptSafe),
{
    find_outside(bytes, pos, ByteClass::JavaScriptSafe, false)
}

/// Byte-by-byte reference for [`find_escape_json`].
pub fn find_escape_json_scalar(bytes: &[u8], pos: usize) -> (r: usize)
    ensures
        r == run_end(bytes@, pos as int, ByteClass::JsonSafe),
{
    find_outside_scalar(bytes, pos, ByteClass::JsonSafe)
}

/// Byte-by-byte reference for [`find_escape_html`].
pub fn find_escape_html_scalar(bytes: &[u8], pos: usize) -> (r: usize)
    ensures
        r == run_end(bytes@, pos as int, ByteClass::HtmlSafe),
{
    find_outside_scalar(bytes, pos, ByteClass::HtmlSafe)
}

/// Byte-by-byte reference for [`find_escape_unicode`].
pub fn find_escape_unicode_scalar(bytes: &[u8], pos: usize) -> (r: usize)
    ensures
        r == run_end(bytes@, pos as int, ByteClass::UnicodeSafe),
{
    find_outside_scalar(bytes, pos, ByteClass::UnicodeSafe)
}

/// Byte-by-byte reference for [`find_escape_javascript`].
pub fn find_escape_javascript_scalar(bytes: &[u8], pos: usize) -> (r: usize)
    ensures
        r == run_end(bytes@, pos as int, ByteClass::JavaScriptSafe),
{
    find_outside_scalar(bytes, pos, ByteClass::JavaScriptSafe)
}

/// Byte-by-byte skip over the bytes of a class: the reference the chunked
/// scanners are measured against.
pub fn skip_class_scalar(input: &[u8], pos: usize, class: ByteClass) -> (r: usize)
    ensures
        r == run_end(input@, pos as int, class),
{
    find_outside_scalar(input, pos, class)
}

/// Scanner agreement.  On every input and from every start, the chunked
/// scanners and the byte-by-byte ones name one position, the end of the run:
/// all bytes before it lie in the class, and it is the end of the input or
/// a byte outside the class.  The chunk-granular scanner stops at or before
/// that position, within the same run.
pub proof fn lemma_scanner_agreement(s: Seq<u8>, pos: int, class: ByteClass)
    requires
        0 <= pos <= s.len(),
    ensures
        pos <= run_end(s, pos, class) <= s.len(),
        forall|i: int| pos <= i < run_end(s, pos, class) ==> class.contains(#[trigger] s[i]),
        run_end(s, pos, class) < s.len() ==> !class.contains(s[run_end(s, pos, class)]),
        pos <= chunk_stop(s, pos, class) <= run_end(s, pos, class),
        run_end(s, chunk_stop(s, pos, class), class) == run_end(s, pos, class),
{
    lemma_run_end_bounds(s, pos, class);
    lemma_chunk_stop_within(s, pos, class);
    lemma_run_end_step(s, pos, chunk_stop(s, pos, class), class);
}

/// A chunk-granular scanner stays within the run it started in.
pub proof fn lemma_chunk_stop_within(s: Seq<u8>, pos: int, class: ByteClass)
    requires
        0 <= pos,
    ensures
        pos <= chunk_stop(s, pos, class) <= run_end(s, pos, class),
    decreases s.len() - pos,
{
    lemma_run_end_bounds(s, pos, class);
    if pos + CHUNK <= s.len() && run_end(s, pos, class) >= pos + CHUNK {
        lemma_chunk_stop_within(s, pos + CHUNK, class);
        lemma_run_end_step(s, pos, pos + CHUNK, class);
    }
}

} // verus!
