//! Container counts: what the structural index tells of the containers
//! that the decoder reads.

use crate::direct_decode::DecodeOptions;
use crate::grammar::{
    byte_at, exponent_digits_start, fraction_digits, has_literal, object_term, parse_array,
    parse_elements, parse_members, parse_object, parse_string, parse_value, raw_key, scan_number,
    scan_string_body, skip_ws,
};
use crate::names::{name_false, name_null, name_true};
use crate::numbers::lemma_scan_number_shape;
use crate::simd_utils::{
    is_digit, is_structural, is_structural_or_string, lemma_run_end_bounds, ByteClass,
};
use crate::structural::{
    count_until_close, is_indexed, lemma_quiet_stretch, state_at, step, structural_positions,
    PassState,
};
use crate::term::TermV;
use vstd::prelude::*;

verus! {

/// The pass is outside every string at `p`.
pub open spec fn outside_at(s: Seq<u8>, p: int) -> bool {
    !state_at(s, p).in_string && !state_at(s, p).prev_escape
}

/// The number of index entries below `p`: the place in the index of the
/// first entry at or after `p`.
pub open spec fn rank(s: Seq<u8>, p: int) -> int {
    structural_positions(s, p).len() as int
}

/// The whole index of `s`.
pub open spec fn index_of(s: Seq<u8>) -> Seq<int> {
    structural_positions(s, s.len() as int)
}

/// The index up to a position is the start of the index up to any later
/// position.
pub proof fn lemma_positions_prefix(s: Seq<u8>, n: int, m: int)
    requires
        0 <= n <= m,
    ensures
        rank(s, n) <= rank(s, m),
        structural_positions(s, m).subrange(0, rank(s, n)) == structural_positions(s, n),
    decreases m - n,
{
    if n < m {
        lemma_positions_prefix(s, n, m - 1);
        assert(structural_positions(s, m).subrange(0, rank(s, n)) =~= structural_positions(
            s,
            m - 1,
        ).subrange(0, rank(s, n)));
    } else {
        assert(structural_positions(s, m).subrange(0, rank(s, n)) =~= structural_positions(s, n));
    }
}

/// A structural byte outside every string is the next entry of the index,
/// and the pass stays outside behind it.
pub proof fn lemma_structural_entry(s: Seq<u8>, p: int)
    requires
        0 <= p < s.len(),
        outside_at(s, p),
        is_structural(s[p]),
    ensures
        outside_at(s, p + 1),
        rank(s, p + 1) == rank(s, p) + 1,
        rank(s, p) < index_of(s).len(),
        index_of(s)[rank(s, p)] == p,
{
    assert(is_indexed(s, p));
    assert(structural_positions(s, p + 1) == structural_positions(s, p).push(p));
    lemma_positions_prefix(s, p + 1, s.len() as int);
    assert(index_of(s).subrange(0, rank(s, p + 1))[rank(s, p)] == index_of(s)[rank(s, p)]);
}

/// A stretch without quote, backslash or structural byte that is entered
/// outside every string is left outside every string, with no entry of the
/// index in it.
pub proof fn lemma_quiet(s: Seq<u8>, from: int, to: int)
    requires
        0 <= from <= to <= s.len(),
        outside_at(s, from),
        forall|i: int| from <= i < to ==> !is_structural_or_string(#[trigger] s[i]),
    ensures
        outside_at(s, to),
        rank(s, to) == rank(s, from),
{
    lemma_quiet_stretch(s, from, to);
}

/// Whitespace is such a stretch.
pub proof fn lemma_quiet_whitespace(s: Seq<u8>, from: int)
    requires
        0 <= from <= s.len(),
        outside_at(s, from),
    ensures
        outside_at(s, skip_ws(s, from)),
        rank(s, skip_ws(s, from)) == rank(s, from),
        from <= skip_ws(s, from) <= s.len(),
{
    lemma_run_end_bounds(s, from, ByteClass::Whitespace);
    assert forall|i: int| from <= i < skip_ws(s, from) implies !is_structural_or_string(
        #[trigger] s[i],
    ) by {
        assert(ByteClass::Whitespace.contains(s[i]));
    }
    lemma_quiet(s, from, skip_ws(s, from));
}

/// A string that is scanned from inside it to its closing quote holds no
/// entry of the index, and the pass is outside behind the quote.
pub proof fn lemma_string_inside(s: Seq<u8>, i: int, esc: bool)
    requires
        0 <= i,
        state_at(s, i) == (PassState { in_string: true, prev_escape: false }),
        scan_string_body(s, i, esc).stop is Closed,
    ensures
        i <= scan_string_body(s, i, esc).at < s.len(),
        outside_at(s, scan_string_body(s, i, esc).at + 1),
        rank(s, scan_string_body(s, i, esc).at + 1) == rank(s, i),
    decreases s.len() - i,
{
    let b = s[i];
    if b == 0x22 {
        assert(state_at(s, i + 1) == step(state_at(s, i), s[i]));
        assert(!is_indexed(s, i));
    } else if b == 0x5c {
        assert(state_at(s, i + 1) == step(state_at(s, i), s[i]));
        assert(state_at(s, i + 2) == step(state_at(s, i + 1), s[i + 1]));
        assert(!is_indexed(s, i));
        assert(!is_indexed(s, i + 1));
        assert(structural_positions(s, i + 1) == structural_positions(s, i));
        assert(structural_positions(s, i + 2) == structural_positions(s, i + 1));
        lemma_string_inside(s, i + 2, true);
    } else {
        assert(state_at(s, i + 1) == step(state_at(s, i), s[i]));
        assert(!is_indexed(s, i));
        lemma_string_inside(s, i + 1, esc);
    }
}

/// A string outside every other string holds no entry of the index, and
/// the pass is outside behind its closing quote.
pub proof fn lemma_string_quiet(s: Seq<u8>, p: int)
    requires
        0 <= p < s.len(),
        s[p] == 0x22,
        outside_at(s, p),
        scan_string_body(s, p + 1, false).stop is Closed,
    ensures
        p < scan_string_body(s, p + 1, false).at < s.len(),
        outside_at(s, scan_string_body(s, p + 1, false).at + 1),
        rank(s, scan_string_body(s, p + 1, false).at + 1) == rank(s, p),
{
    assert(state_at(s, p + 1) == step(state_at(s, p), s[p]));
    assert(!is_indexed(s, p));
    lemma_string_inside(s, p + 1, false);
}

/// A number literal holds no quote, no backslash and no structural byte.
pub proof fn lemma_number_quiet(s: Seq<u8>, p: int)
    requires
        0 <= p,
        scan_number(s, p) is Some,
    ensures
        forall|i: int|
            p <= i < scan_number(s, p).unwrap().end ==> !is_structural_or_string(#[trigger] s[i]),
        p < scan_number(s, p).unwrap().end <= s.len(),
{
    let n = scan_number(s, p).unwrap();
    lemma_scan_number_shape(s, p);
    let from = exponent_digits_start(s, n.frac_end);
    assert forall|i: int| p <= i < n.end implies !is_structural_or_string(#[trigger] s[i]) by {
        if i < n.int_start {
        } else if i < n.int_end {
            assert(is_digit(s.subrange(n.int_start, n.int_end)[i - n.int_start]));
        } else if i < n.frac_end {
            if i > n.int_end {
                assert(fraction_digits(s, n) == s.subrange(n.int_end + 1, n.frac_end));
                assert(is_digit(s.subrange(n.int_end + 1, n.frac_end)[i - (n.int_end + 1)]));
            }
        } else if i >= from {
            assert(is_digit(s.subrange(from, n.end)[i - from]));
        } else {
        }
    }
}

/// A literal in the input holds its bytes.
pub proof fn lemma_literal_bytes(s: Seq<u8>, p: int, lit: Seq<u8>)
    requires
        has_literal(s, p, lit),
    ensures
        forall|i: int| p <= i < p + lit.len() ==> #[trigger] s[i] == lit[i - p],
{
    assert forall|i: int| p <= i < p + lit.len() implies #[trigger] s[i] == lit[i - p] by {
        assert(s.subrange(p, p + lit.len())[i - p] == s[i]);
    }
}

/// The count of elements from entry `from` on is the count from entry `to`
/// on: the entries between them leave the depth and the commas as they
/// were.
pub open spec fn counts_alike(s: Seq<u8>, from: int, to: int, limit: int, depth: int) -> bool {
    forall|commas: int, close: u8|
        #![trigger count_until_close(s, index_of(s), from, limit, depth, commas, close)]
        count_until_close(s, index_of(s), from, limit, depth, commas, close) == count_until_close(
            s,
            index_of(s),
            to,
            limit,
            depth,
            commas,
            close,
        )
}

/// A value that the decoder reads outside every string is left outside
/// every string, and its entries in the index leave an element count as it
/// was: brackets in it are paired, and its commas are inside them.
pub proof fn lemma_value_balanced(
    s: Seq<u8>,
    p: int,
    d: int,
    o: DecodeOptions,
    limit: int,
    depth: int,
)
    requires
        parse_value(s, p, d, o) is Ok,
        outside_at(s, p),
        depth >= 0,
    ensures
        0 <= p < parse_value(s, p, d, o)->Ok_0.1 <= s.len(),
        outside_at(s, parse_value(s, p, d, o)->Ok_0.1),
        rank(s, p) <= rank(s, parse_value(s, p, d, o)->Ok_0.1),
        counts_alike(s, rank(s, p), rank(s, parse_value(s, p, d, o)->Ok_0.1), limit, depth),
    decreases s.len() - p, 2int,
{
    let b = s[p];
    let end = parse_value(s, p, d, o)->Ok_0.1;
    let idx = index_of(s);
    if b == 0x6e || b == 0x74 || b == 0x66 {
        let lit = if b == 0x6e {
            name_null()
        } else if b == 0x74 {
            name_true()
        } else {
            name_false()
        };
        lemma_literal_bytes(s, p, lit);
        assert forall|i: int| p <= i < end implies !is_structural_or_string(#[trigger] s[i]) by {
            assert(s[i] == lit[i - p]);
        }
        lemma_quiet(s, p, end);
    } else if b == 0x22 {
        lemma_string_quiet(s, p);
    } else if b == 0x5b {
        lemma_structural_entry(s, p);
        lemma_quiet_whitespace(s, p + 1);
        let first = skip_ws(s, p + 1);
        let r = rank(s, p);
        if byte_at(s, first, 0x5d) {
            lemma_structural_entry(s, first);
            assert forall|commas: int, close: u8|
                #![trigger count_until_close(s, idx, r, limit, depth, commas, close)]
                count_until_close(s, idx, r, limit, depth, commas, close) == count_until_close(
                    s,
                    idx,
                    r + 2,
                    limit,
                    depth,
                    commas,
                    close,
                ) by {
                lemma_count_pair(s, r, limit, depth, commas, close);
            }
        } else {
            lemma_elements_balanced(s, first, d + 1, o, Seq::empty(), limit, depth + 1);
            let after = parse_elements(s, first, d + 1, o, Seq::empty())->Ok_0.1;
            assert forall|commas: int, close: u8|
                #![trigger count_until_close(s, idx, r, limit, depth, commas, close)]
                count_until_close(s, idx, r, limit, depth, commas, close) == count_until_close(
                    s,
                    idx,
                    rank(s, after),
                    limit,
                    depth,
                    commas,
                    close,
                ) by {
                lemma_count_open(s, r, limit, depth, commas, close);
                let inner = count_until_close(s, idx, r + 1, limit, depth + 1, commas, close);
            }
        }
    } else if b == 0x7b {
        lemma_structural_entry(s, p);
        lemma_quiet_whitespace(s, p + 1);
        let first = skip_ws(s, p + 1);
        let r = rank(s, p);
        if byte_at(s, first, 0x7d) {
            lemma_structural_entry(s, first);
            assert forall|commas: int, close: u8|
                #![trigger count_until_close(s, idx, r, limit, depth, commas, close)]
                count_until_close(s, idx, r, limit, depth, commas, close) == count_until_close(
                    s,
                    idx,
                    r + 2,
                    limit,
                    depth,
                    commas,
                    close,
                ) by {
                lemma_count_pair(s, r, limit, depth, commas, close);
            }
        } else {
            lemma_members_balanced(
                s,
                first,
                d + 1,
                o,
                Seq::empty(),
                Seq::empty(),
                Seq::empty(),
                limit,
                depth + 1,
            );
            let after = parse_members(
                s,
                first,
                d + 1,
                o,
                Seq::empty(),
                Seq::empty(),
                Seq::empty(),
            )->Ok_0.1;
            assert forall|commas: int, close: u8|
                #![trigger count_until_close(s, idx, r, limit, depth, commas, close)]
                count_until_close(s, idx, r, limit, depth, commas, close) == count_until_close(
                    s,
                    idx,
                    rank(s, after),
                    limit,
                    depth,
                    commas,
                    close,
                ) by {
                lemma_count_open(s, r, limit, depth, commas, close);
                let inner = count_until_close(s, idx, r + 1, limit, depth + 1, commas, close);
            }
        }
    } else {
        lemma_number_quiet(s, p);
        lemma_quiet(s, p, end);
    }
}

/// At an opening bracket the count goes one level down.
pub proof fn lemma_count_open(s: Seq<u8>, r: int, limit: int, depth: int, commas: int, close: u8)
    requires
        0 <= r < index_of(s).len(),
        s[index_of(s)[r]] == 0x5b || s[index_of(s)[r]] == 0x7b,
    ensures
        count_until_close(s, index_of(s), r, limit, depth, commas, close) == (if r < limit {
            count_until_close(s, index_of(s), r + 1, limit, depth + 1, commas, close)
        } else {
            None::<usize>
        }),
        r >= limit ==> count_until_close(s, index_of(s), r + 1, limit, depth + 1, commas, close)
            is None,
{
}

/// At a closing bracket below the first level the count goes one level up.
pub proof fn lemma_count_close(s: Seq<u8>, r: int, limit: int, depth: int, commas: int, close: u8)
    requires
        0 <= r < index_of(s).len(),
        s[index_of(s)[r]] == 0x5d || s[index_of(s)[r]] == 0x7d,
        depth >= 1,
    ensures
        count_until_close(s, index_of(s), r, limit, depth, commas, close) == (if r < limit {
            count_until_close(s, index_of(s), r + 1, limit, depth - 1, commas, close)
        } else {
            None::<usize>
        }),
        r >= limit ==> count_until_close(s, index_of(s), r + 1, limit, depth - 1, commas, close)
            is None,
{
}

/// A comma or a colon below the first level, and a colon on every level,
/// leaves the count as it is.
pub proof fn lemma_count_skip(s: Seq<u8>, r: int, limit: int, depth: int, commas: int, close: u8)
    requires
        0 <= r < index_of(s).len(),
        s[index_of(s)[r]] == 0x3a || (s[index_of(s)[r]] == 0x2c && depth >= 1),
    ensures
        count_until_close(s, index_of(s), r, limit, depth, commas, close) == (if r < limit {
            count_until_close(s, index_of(s), r + 1, limit, depth, commas, close)
        } else {
            None::<usize>
        }),
        r >= limit ==> count_until_close(s, index_of(s), r + 1, limit, depth, commas, close)
            is None,
{
}

/// An opening bracket and the closing bracket right behind it leave the
/// count as it is.
pub proof fn lemma_count_pair(s: Seq<u8>, r: int, limit: int, depth: int, commas: int, close: u8)
    requires
        0 <= r,
        r + 1 < index_of(s).len(),
        depth >= 0,
        s[index_of(s)[r]] == 0x5b || s[index_of(s)[r]] == 0x7b,
        s[index_of(s)[r + 1]] == 0x5d || s[index_of(s)[r + 1]] == 0x7d,
    ensures
        count_until_close(s, index_of(s), r, limit, depth, commas, close) == count_until_close(
            s,
            index_of(s),
            r + 2,
            limit,
            depth,
            commas,
            close,
        ),
{
    lemma_count_open(s, r, limit, depth, commas, close);
    lemma_count_close(s, r + 1, limit, depth + 1, commas, close);
}

/// The elements of an array from the one at `pos` on, with the closing
/// bracket behind them, leave an element count one level up from where it
/// was.
pub proof fn lemma_elements_balanced(
    s: Seq<u8>,
    pos: int,
    d: int,
    o: DecodeOptions,
    acc: Seq<TermV>,
    limit: int,
    depth: int,
)
    requires
        parse_elements(s, pos, d, o, acc) is Ok,
        outside_at(s, pos),
        0 <= pos,
        depth >= 1,
    ensures
        pos < parse_elements(s, pos, d, o, acc)->Ok_0.1 <= s.len(),
        outside_at(s, parse_elements(s, pos, d, o, acc)->Ok_0.1),
        rank(s, pos) <= rank(s, parse_elements(s, pos, d, o, acc)->Ok_0.1),
        forall|commas: int, close: u8|
            #![trigger count_until_close(s, index_of(s), rank(s, pos), limit, depth, commas, close)]
            count_until_close(s, index_of(s), rank(s, pos), limit, depth, commas, close)
                == count_until_close(
                s,
                index_of(s),
                rank(s, parse_elements(s, pos, d, o, acc)->Ok_0.1),
                limit,
                depth - 1,
                commas,
                close,
            ),
    decreases s.len() - pos, 3int,
{
    let idx = index_of(s);
    lemma_value_balanced(s, pos, d, o, limit, depth);
    let (v, after) = parse_value(s, pos, d, o)->Ok_0;
    lemma_quiet_whitespace(s, after);
    let next = skip_ws(s, after);
    let r = rank(s, next);
    lemma_structural_entry(s, next);
    let end = parse_elements(s, pos, d, o, acc)->Ok_0.1;
    if byte_at(s, next, 0x5d) {
        assert forall|commas: int, close: u8|
            #![trigger count_until_close(s, idx, rank(s, pos), limit, depth, commas, close)]
            count_until_close(s, idx, rank(s, pos), limit, depth, commas, close)
                == count_until_close(s, idx, rank(s, end), limit, depth - 1, commas, close) by {
            let here = count_until_close(s, idx, rank(s, pos), limit, depth, commas, close);
            lemma_count_close(s, r, limit, depth, commas, close);
        }
    } else {
        lemma_quiet_whitespace(s, next + 1);
        let follow = skip_ws(s, next + 1);
        lemma_elements_balanced(s, follow, d, o, acc.push(v), limit, depth);
        assert forall|commas: int, close: u8|
            #![trigger count_until_close(s, idx, rank(s, pos), limit, depth, commas, close)]
            count_until_close(s, idx, rank(s, pos), limit, depth, commas, close)
                == count_until_close(s, idx, rank(s, end), limit, depth - 1, commas, close) by {
            let here = count_until_close(s, idx, rank(s, pos), limit, depth, commas, close);
            lemma_count_skip(s, r, limit, depth, commas, close);
            let there = count_until_close(s, idx, rank(s, follow), limit, depth, commas, close);
        }
    }
}

/// The members of an object from the one at `pos` on, with the closing
/// brace behind them, leave an element count one level up from where it
/// was.
pub proof fn lemma_members_balanced(
    s: Seq<u8>,
    pos: int,
    d: int,
    o: DecodeOptions,
    keys: Seq<TermV>,
    raws: Seq<Seq<u8>>,
    values: Seq<TermV>,
    limit: int,
    depth: int,
)
    requires
        parse_members(s, pos, d, o, keys, raws, values) is Ok,
        outside_at(s, pos),
        0 <= pos,
        depth >= 1,
    ensures
        pos < parse_members(s, pos, d, o, keys, raws, values)->Ok_0.1 <= s.len(),
        outside_at(s, parse_members(s, pos, d, o, keys, raws, values)->Ok_0.1),
        rank(s, pos) <= rank(s, parse_members(s, pos, d, o, keys, raws, values)->Ok_0.1),
        forall|commas: int, close: u8|
            #![trigger count_until_close(s, index_of(s), rank(s, pos), limit, depth, commas, close)]
            count_until_close(s, index_of(s), rank(s, pos), limit, depth, commas, close)
                == count_until_close(
                s,
                index_of(s),
                rank(s, parse_members(s, pos, d, o, keys, raws, values)->Ok_0.1),
                limit,
                depth - 1,
                commas,
                close,
            ),
    decreases s.len() - pos, 3int,
{
    let idx = index_of(s);
    let (key, key_end) = parse_string(s, pos, o.validate_strings)->Ok_0;
    lemma_string_quiet(s, pos);
    lemma_quiet_whitespace(s, key_end);
    let colon = skip_ws(s, key_end);
    lemma_structural_entry(s, colon);
    lemma_quiet_whitespace(s, colon + 1);
    let value_start = skip_ws(s, colon + 1);
    lemma_value_balanced(s, value_start, d, o, limit, depth);
    let (v, after) = parse_value(s, value_start, d, o)->Ok_0;
    lemma_quiet_whitespace(s, after);
    let next = skip_ws(s, after);
    let r = rank(s, next);
    lemma_structural_entry(s, next);
    let end = parse_members(s, pos, d, o, keys, raws, values)->Ok_0.1;
    if byte_at(s, next, 0x7d) {
        assert forall|commas: int, close: u8|
            #![trigger count_until_close(s, idx, rank(s, pos), limit, depth, commas, close)]
            count_until_close(s, idx, rank(s, pos), limit, depth, commas, close)
                == count_until_close(s, idx, rank(s, end), limit, depth - 1, commas, close) by {
            lemma_count_skip(s, rank(s, colon), limit, depth, commas, close);
            let value_count = count_until_close(
                s,
                idx,
                rank(s, value_start),
                limit,
                depth,
                commas,
                close,
            );
            lemma_count_close(s, r, limit, depth, commas, close);
        }
    } else {
        lemma_quiet_whitespace(s, next + 1);
        let follow = skip_ws(s, next + 1);
        lemma_members_balanced(
            s,
            follow,
            d,
            o,
            keys.push(TermV::Binary(key)),
            raws.push(crate::grammar::raw_key(s, pos, key_end)),
            values.push(v),
            limit,
            depth,
        );
        assert forall|commas: int, close: u8|
            #![trigger count_until_close(s, idx, rank(s, pos), limit, depth, commas, close)]
            count_until_close(s, idx, rank(s, pos), limit, depth, commas, close)
                == count_until_close(s, idx, rank(s, end), limit, depth - 1, commas, close) by {
            lemma_count_skip(s, rank(s, colon), limit, depth, commas, close);
            let value_count = count_until_close(
                s,
                idx,
                rank(s, value_start),
                limit,
                depth,
                commas,
                close,
            );
            lemma_count_skip(s, r, limit, depth, commas, close);
            let there = count_until_close(s, idx, rank(s, follow), limit, depth, commas, close);
        }
    }
}

/// The elements of an array are counted by the index.  Where the decoder
/// reads the elements of an array from the one at `pos` on, after the
/// elements `acc`, the count of elements from the entry of `pos` on, at
/// the first level and with `commas` commas seen before, is the number of
/// the elements that were still to come more than `commas`; unless the
/// closing bracket lies beyond the limit of the count, which then gives
/// none.
pub proof fn lemma_elements_counted(
    s: Seq<u8>,
    pos: int,
    d: int,
    o: DecodeOptions,
    acc: Seq<TermV>,
    limit: int,
    commas: int,
)
    requires
        parse_elements(s, pos, d, o, acc) is Ok,
        outside_at(s, pos),
        0 <= pos,
    ensures
        parse_elements(s, pos, d, o, acc)->Ok_0.0 is List,
        parse_elements(s, pos, d, o, acc)->Ok_0.0->List_0.len() > acc.len(),
        outside_at(s, parse_elements(s, pos, d, o, acc)->Ok_0.1),
        rank(s, pos) < rank(s, parse_elements(s, pos, d, o, acc)->Ok_0.1),
        count_until_close(s, index_of(s), rank(s, pos), limit, 0, commas, 0x5d) == (if rank(
            s,
            parse_elements(s, pos, d, o, acc)->Ok_0.1,
        ) - 1 < limit {
            Some(
                (commas + parse_elements(s, pos, d, o, acc)->Ok_0.0->List_0.len() - acc.len())
                    as usize,
            )
        } else {
            None::<usize>
        }),
    decreases s.len() - pos, 3int,
{
    let idx = index_of(s);
    lemma_value_balanced(s, pos, d, o, limit, 0);
    let (v, after) = parse_value(s, pos, d, o)->Ok_0;
    lemma_quiet_whitespace(s, after);
    let next = skip_ws(s, after);
    let r = rank(s, next);
    lemma_structural_entry(s, next);
    let here = count_until_close(s, idx, rank(s, pos), limit, 0, commas, 0x5d);
    assert(here == count_until_close(s, idx, r, limit, 0, commas, 0x5d));
    if byte_at(s, next, 0x5d) {
    } else {
        lemma_quiet_whitespace(s, next + 1);
        let follow = skip_ws(s, next + 1);
        lemma_elements_counted(s, follow, d, o, acc.push(v), limit, commas + 1);
    }
}

/// Container-count soundness, for arrays.  Where the decoder reads an
/// array with elements, the count of elements from the index entry behind
/// its opening bracket on is the number of its elements: one more than the
/// commas between them.  Where the closing bracket lies beyond the limit of
/// the count, the count gives none.
pub proof fn lemma_array_count(s: Seq<u8>, p: int, d: int, o: DecodeOptions, limit: int)
    requires
        byte_at(s, p, 0x5b),
        parse_array(s, p, d, o) is Ok,
        outside_at(s, p),
        parse_array(s, p, d, o)->Ok_0.0 is List,
        parse_array(s, p, d, o)->Ok_0.0->List_0.len() > 0,
    ensures
        0 <= rank(s, p) < index_of(s).len(),
        index_of(s)[rank(s, p)] == p,
        count_until_close(s, index_of(s), rank(s, p) + 1, limit, 0, 0, 0x5d) == (if rank(
            s,
            parse_array(s, p, d, o)->Ok_0.1,
        ) - 1 < limit {
            Some(parse_array(s, p, d, o)->Ok_0.0->List_0.len() as usize)
        } else {
            None::<usize>
        }),
{
    lemma_structural_entry(s, p);
    lemma_quiet_whitespace(s, p + 1);
    let first = skip_ws(s, p + 1);
    if byte_at(s, first, 0x5d) {
        assert(parse_array(s, p, d, o)->Ok_0.0->List_0 =~= Seq::<TermV>::empty());
    } else {
        lemma_elements_counted(s, first, d + 1, o, Seq::empty(), limit, 0);
    }
}

/// The keys and the values of the members of an object as they are
/// written, from the member at `pos` on and after the members `keys`,
/// `values`: every member in its place, also where a key comes twice.
pub open spec fn members_written(
    s: Seq<u8>,
    pos: int,
    d: int,
    o: DecodeOptions,
    keys: Seq<TermV>,
    values: Seq<TermV>,
) -> (Seq<TermV>, Seq<TermV>)
    decreases s.len() - pos,
{
    match parse_string(s, pos, o.validate_strings) {
        Err(_) => (keys, values),
        Ok((key, key_end)) => {
            let colon = skip_ws(s, key_end);
            match parse_value(s, skip_ws(s, colon + 1), d, o) {
                Err(_) => (keys, values),
                Ok((v, after)) => {
                    let next = skip_ws(s, after);
                    let keys2 = keys.push(TermV::Binary(key));
                    let values2 = values.push(v);
                    if byte_at(s, next, 0x2c) && pos < next && next < s.len() && pos < skip_ws(
                        s,
                        next + 1,
                    ) <= s.len() {
                        members_written(s, skip_ws(s, next + 1), d, o, keys2, values2)
                    } else {
                        (keys2, values2)
                    }
                },
            }
        },
    }
}

/// The members of an object are counted by the index.  Where the decoder
/// reads the members of an object from the one at `pos` on, the object is
/// made of the members as they are written, and the count of elements from
/// the entry of `pos` on, at the first level and with `commas` commas seen
/// before, is the number of the members that were still to come more than
/// `commas`; unless the closing brace lies beyond the limit of the count,
/// which then gives none.
pub proof fn lemma_members_counted(
    s: Seq<u8>,
    pos: int,
    d: int,
    o: DecodeOptions,
    keys: Seq<TermV>,
    raws: Seq<Seq<u8>>,
    values: Seq<TermV>,
    limit: int,
    commas: int,
)
    requires
        parse_members(s, pos, d, o, keys, raws, values) is Ok,
        outside_at(s, pos),
        0 <= pos,
        keys.len() == values.len(),
    ensures
        parse_members(s, pos, d, o, keys, raws, values)->Ok_0.0 == object_term(
            members_written(s, pos, d, o, keys, values).0,
            members_written(s, pos, d, o, keys, values).1,
            o,
        ),
        members_written(s, pos, d, o, keys, values).0.len() == members_written(
            s,
            pos,
            d,
            o,
            keys,
            values,
        ).1.len(),
        members_written(s, pos, d, o, keys, values).0.len() > keys.len(),
        outside_at(s, parse_members(s, pos, d, o, keys, raws, values)->Ok_0.1),
        rank(s, pos) < rank(s, parse_members(s, pos, d, o, keys, raws, values)->Ok_0.1),
        count_until_close(s, index_of(s), rank(s, pos), limit, 0, commas, 0x7d) == (if rank(
            s,
            parse_members(s, pos, d, o, keys, raws, values)->Ok_0.1,
        ) - 1 < limit {
            Some(
                (commas + members_written(s, pos, d, o, keys, values).0.len() - keys.len())
                    as usize,
            )
        } else {
            None::<usize>
        }),
    decreases s.len() - pos, 3int,
{
    let idx = index_of(s);
    let (key, key_end) = parse_string(s, pos, o.validate_strings)->Ok_0;
    lemma_string_quiet(s, pos);
    lemma_quiet_whitespace(s, key_end);
    let colon = skip_ws(s, key_end);
    lemma_structural_entry(s, colon);
    lemma_quiet_whitespace(s, colon + 1);
    let value_start = skip_ws(s, colon + 1);
    lemma_value_balanced(s, value_start, d, o, limit, 0);
    let (v, after) = parse_value(s, value_start, d, o)->Ok_0;
    lemma_quiet_whitespace(s, after);
    let next = skip_ws(s, after);
    let r = rank(s, next);
    lemma_structural_entry(s, next);
    lemma_count_skip(s, rank(s, colon), limit, 0, commas, 0x7d);
    let at_value = count_until_close(s, idx, rank(s, value_start), limit, 0, commas, 0x7d);
    assert(at_value == count_until_close(s, idx, r, limit, 0, commas, 0x7d));
    if byte_at(s, next, 0x7d) {
    } else {
        lemma_quiet_whitespace(s, next + 1);
        let follow = skip_ws(s, next + 1);
        lemma_members_counted(
            s,
            follow,
            d,
            o,
            keys.push(TermV::Binary(key)),
            raws.push(raw_key(s, pos, key_end)),
            values.push(v),
            limit,
            commas + 1,
        );
    }
}

/// Container-count soundness, for objects.  Where the decoder reads an
/// object with members, the object is made of its members as they are
/// written, and the count of elements from the index entry behind its
/// opening brace on is the number of those members: one more than the
/// commas between them.  Where the closing brace lies beyond the limit of
/// the count, the count gives none.
pub proof fn lemma_object_count(s: Seq<u8>, p: int, d: int, o: DecodeOptions, limit: int)
    requires
        byte_at(s, p, 0x7b),
        parse_object(s, p, d, o) is Ok,
        outside_at(s, p),
        !byte_at(s, skip_ws(s, p + 1), 0x7d),
    ensures
        0 <= rank(s, p) < index_of(s).len(),
        index_of(s)[rank(s, p)] == p,
        parse_object(s, p, d, o)->Ok_0.0 == object_term(
            members_written(s, skip_ws(s, p + 1), d + 1, o, Seq::empty(), Seq::empty()).0,
            members_written(s, skip_ws(s, p + 1), d + 1, o, Seq::empty(), Seq::empty()).1,
            o,
        ),
        count_until_close(s, index_of(s), rank(s, p) + 1, limit, 0, 0, 0x7d) == (if rank(
            s,
            parse_object(s, p, d, o)->Ok_0.1,
        ) - 1 < limit {
            Some(
                members_written(
                    s,
                    skip_ws(s, p + 1),
                    d + 1,
                    o,
                    Seq::empty(),
                    Seq::empty(),
                ).0.len() as usize,
            )
        } else {
            None::<usize>
        }),
{
    lemma_structural_entry(s, p);
    lemma_quiet_whitespace(s, p + 1);
    let first = skip_ws(s, p + 1);
    lemma_members_counted(s, first, d + 1, o, Seq::empty(), Seq::empty(), Seq::empty(), limit, 0);
}

/// The root of a document stands outside every string.
pub proof fn lemma_root_outside(s: Seq<u8>)
    ensures
        outside_at(s, skip_ws(s, 0)),
        rank(s, skip_ws(s, 0)) == 0,
{
    lemma_quiet_whitespace(s, 0);
}

} // verus!
