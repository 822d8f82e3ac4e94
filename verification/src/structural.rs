//! The structural index: the offsets of the structural bytes of a document
//! that lie outside its strings, found in one pass.

use crate::simd_utils::{
    chunk_has_structural, chunk_has_structural_wide, is_structural, is_structural_or_string, CHUNK,
    WIDE,
};
use vstd::prelude::*;

verus! {

/// Most index entries that are looked at when the elements of a container
/// are counted.
pub const STRUCTURAL_SCAN_CAP: usize = 512;

/// Shortest input for which an index is worth building.
pub const STRUCTURAL_INDEX_THRESHOLD: usize = 256;

/// The state of the pass between two bytes.
pub ghost struct PassState {
    /// The pass is inside a string.
    pub in_string: bool,
    /// The byte before was a backslash inside a string, so the next byte is
    /// taken along whatever it is.
    pub prev_escape: bool,
}

/// The state after byte `b` is read in state `st`.
pub open spec fn step(st: PassState, b: u8) -> PassState {
    if st.prev_escape {
        PassState { in_string: st.in_string, prev_escape: false }
    } else if b == 0x5c && st.in_string {
        PassState { in_string: st.in_string, prev_escape: true }
    } else if b == 0x22 {
        PassState { in_string: !st.in_string, prev_escape: false }
    } else {
        st
    }
}

/// The state of the pass before the byte at `i`.
pub open spec fn state_at(s: Seq<u8>, i: int) -> PassState
    decreases i,
{
    if i <= 0 {
        PassState { in_string: false, prev_escape: false }
    } else {
        step(state_at(s, i - 1), s[i - 1])
    }
}

/// The byte at `i` is a structural byte outside every string.
pub open spec fn is_indexed(s: Seq<u8>, i: int) -> bool {
    0 <= i < s.len() && is_structural(s[i]) && !state_at(s, i).in_string
}

/// The offsets below `n` of the structural bytes outside strings, in order.
pub open spec fn structural_positions(s: Seq<u8>, n: int) -> Seq<int>
    decreases n,
{
    if n <= 0 {
        Seq::empty()
    } else if is_indexed(s, n - 1) {
        structural_positions(s, n - 1).push(n - 1)
    } else {
        structural_positions(s, n - 1)
    }
}

/// The entries of an index as mathematical integers.
pub open spec fn offsets(v: Seq<u32>) -> Seq<int> {
    Seq::new(v.len(), |i: int| v[i] as int)
}

/// The offsets of the structural bytes of a document outside its strings,
/// with a cursor on the next one to consume.
pub struct StructuralIndex {
    pub positions: Vec<u32>,
    pub cursor: usize,
}

impl StructuralIndex {
    /// Every entry is the offset of a structural byte of `s`.
    pub open spec fn sound_for(&self, s: Seq<u8>) -> bool {
        forall|k: int|
            0 <= k < self.positions@.len() ==> (#[trigger] self.positions@[k]) < s.len()
                && is_structural(s[self.positions@[k] as int])
    }

    /// The entry under the cursor, if there is one.
    pub fn peek(&self) -> (r: Option<u32>)
        ensures
            r == (if self.cursor < self.positions@.len() {
                Some(self.positions@[self.cursor as int])
            } else {
                None::<u32>
            }),
    {
        if self.cursor < self.positions.len() {
            Some(self.positions[self.cursor])
        } else {
            None
        }
    }

    /// Moves the cursor past the entry under it.
    pub fn advance(&mut self)
        requires
            old(self).cursor < usize::MAX,
        ensures
            final(self).cursor == old(self).cursor + 1,
            final(self).positions == old(self).positions,
    {
        self.cursor = self.cursor + 1;
    }

    /// Counts the elements of the container whose opening bracket was just
    /// consumed: the commas at nesting depth 0 up to the closing byte
    /// `close`, plus one.  `None` when the next closing bracket at depth 0 is
    /// another one than `close`, or when none is found within the scan cap.
    pub fn count_elements_until_close(&self, input: &[u8], close: u8) -> (r: Option<usize>)
        requires
            self.sound_for(input@),
        ensures
            r == count_until_close(
                input@,
                offsets(self.positions@),
                self.cursor as int,
                scan_limit(self.cursor as int, self.positions@.len() as int),
                0,
                0,
                close,
            ),
    {
        let len = self.positions.len();
        if self.cursor >= len {
            return None;
        }
        let limit = if len - self.cursor > STRUCTURAL_SCAN_CAP {
            self.cursor + STRUCTURAL_SCAN_CAP
        } else {
            len
        };
        let mut commas: usize = 0;
        let mut depth: usize = 0;
        let mut i: usize = self.cursor;
        while i < limit
            invariant
                self.cursor <= i <= limit <= len,
                len == self.positions@.len(),
                limit == scan_limit(self.cursor as int, len as int),
                self.sound_for(input@),
                commas <= i - self.cursor,
                depth <= i - self.cursor,
                count_until_close(
                    input@,
                    offsets(self.positions@),
                    self.cursor as int,
                    limit as int,
                    0,
                    0,
                    close,
                ) == count_until_close(
                    input@,
                    offsets(self.positions@),
                    i as int,
                    limit as int,
                    depth as int,
                    commas as int,
                    close,
                ),
            decreases limit - i,
        {
            let at = self.positions[i] as usize;
            let b = input[at];
            if b == 0x7b || b == 0x5b {
                depth = depth + 1;
            } else if b == 0x7d || b == 0x5d {
                if depth == 0 {
                    if b == close {
                        return Some(commas + 1);
                    }
                    return None;
                }
                depth = depth - 1;
            } else if b == 0x2c && depth == 0 {
                commas = commas + 1;
            }
            i = i + 1;
        }
        None
    }
}

/// Where the element count stops looking: the scan cap past the cursor, or
/// the end of the index.
pub open spec fn scan_limit(cursor: int, len: int) -> int {
    if cursor + STRUCTURAL_SCAN_CAP <= len {
        cursor + STRUCTURAL_SCAN_CAP
    } else if cursor <= len {
        len
    } else {
        cursor
    }
}

/// The element count of a container, read off the index entries from `i` up
/// to `limit`, at nesting depth `depth` with `commas` commas seen at depth 0.
pub open spec fn count_until_close(
    s: Seq<u8>,
    index: Seq<int>,
    i: int,
    limit: int,
    depth: int,
    commas: int,
    close: u8,
) -> Option<usize>
    decreases limit - i,
{
    if i < 0 || i >= limit || i >= index.len() {
        None
    } else {
        let b = s[index[i]];
        if b == 0x7b || b == 0x5b {
            count_until_close(s, index, i + 1, limit, depth + 1, commas, close)
        } else if b == 0x7d || b == 0x5d {
            if depth == 0 {
                if b == close {
                    Some((commas + 1) as usize)
                } else {
                    None
                }
            } else {
                count_until_close(s, index, i + 1, limit, depth - 1, commas, close)
            }
        } else if b == 0x2c && depth == 0 {
            count_until_close(s, index, i + 1, limit, depth, commas + 1, close)
        } else {
            count_until_close(s, index, i + 1, limit, depth, commas, close)
        }
    }
}

/// A stretch without quote, backslash or structural byte that is entered
/// outside an escape leaves the state and the index as they are.
pub proof fn lemma_quiet_stretch(s: Seq<u8>, from: int, to: int)
    requires
        0 <= from <= to <= s.len(),
        !state_at(s, from).prev_escape,
        forall|i: int| from <= i < to ==> !is_structural_or_string(#[trigger] s[i]),
    ensures
        state_at(s, to) == state_at(s, from),
        structural_positions(s, to) == structural_positions(s, from),
    decreases to - from,
{
    if from < to {
        lemma_quiet_stretch(s, from, to - 1);
        assert(!is_structural_or_string(s[to - 1]));
    }
}

/// One more entry in the index is one more offset.
pub proof fn lemma_offsets_push(v: Seq<u32>, x: u32)
    ensures
        offsets(v.push(x)) == offsets(v).push(x as int),
{
    assert(offsets(v.push(x)) =~= offsets(v).push(x as int));
}

/// Runs the pass byte by byte over `input[from .. to]`.
fn index_stretch(
    input: &[u8],
    from: usize,
    to: usize,
    positions: &mut Vec<u32>,
    in_string: &mut bool,
    prev_escape: &mut bool,
)
    requires
        from <= to <= input@.len() <= u32::MAX,
        offsets(old(positions)@) == structural_positions(input@, from as int),
        state_at(input@, from as int) == (PassState {
            in_string: *old(in_string),
            prev_escape: *old(prev_escape),
        }),
    ensures
        offsets(final(positions)@) == structural_positions(input@, to as int),
        state_at(input@, to as int) == (PassState {
            in_string: *final(in_string),
            prev_escape: *final(prev_escape),
        }),
{
    let mut pos = from;
    while pos < to
        invariant
            from <= pos <= to <= input@.len() <= u32::MAX,
            offsets(positions@) == structural_positions(input@, pos as int),
            state_at(input@, pos as int) == (PassState {
                in_string: *in_string,
                prev_escape: *prev_escape,
            }),
        decreases to - pos,
    {
        let b = input[pos];
        proof {
            lemma_offsets_push(positions@, pos as u32);
        }
        if *prev_escape {
            *prev_escape = false;
        } else if b == 0x5c && *in_string {
            *prev_escape = true;
        } else if b == 0x22 {
            *in_string = !*in_string;
        } else if !*in_string {
            if b == 0x7b || b == 0x7d || b == 0x5b || b == 0x5d || b == 0x3a || b == 0x2c {
                positions.push(pos as u32);
            }
        }
        pos = pos + 1;
    }
}

/// Builds the structural index of `input`: the offsets of every `{`, `}`,
/// `[`, `]`, `:` and `,` that lies outside a string, in order.
///
/// Wide chunks first, then narrow chunks, then the bytes that are left; a
/// chunk without any byte of interest is skipped whole.
pub fn build_structural_index(input: &[u8]) -> (idx: StructuralIndex)
    requires
        input@.len() <= u32::MAX,
    ensures
        offsets(idx.positions@) == structural_positions(input@, input@.len() as int),
        idx.cursor == 0,
        idx.sound_for(input@),
{
    let len = input.len();
    let estimated = len / 10;
    let mut positions: Vec<u32> = Vec::with_capacity(
        if estimated > 16 {
            estimated
        } else {
            16
        },
    );
    let mut in_string = false;
    let mut prev_escape = false;
    let mut pos: usize = 0;
    assert(offsets(positions@) =~= structural_positions(input@, 0));

    while len >= WIDE && pos <= len - WIDE
        invariant
            pos <= len == input@.len() <= u32::MAX,
            offsets(positions@) == structural_positions(input@, pos as int),
            state_at(input@, pos as int) == (PassState { in_string, prev_escape }),
        decreases len - pos,
    {
        if !chunk_has_structural_wide(input, pos) && !prev_escape {
            proof {
                lemma_quiet_stretch(input@, pos as int, pos + WIDE);
            }
        } else {
            index_stretch(input, pos, pos + WIDE, &mut positions, &mut in_string, &mut prev_escape);
        }
        pos = pos + WIDE;
    }

    while len >= CHUNK && pos <= len - CHUNK
        invariant
            pos <= len == input@.len() <= u32::MAX,
            offsets(positions@) == structural_positions(input@, pos as int),
            state_at(input@, pos as int) == (PassState { in_string, prev_escape }),
        decreases len - pos,
    {
        if !chunk_has_structural(input, pos) && !prev_escape {
            proof {
                lemma_quiet_stretch(input@, pos as int, pos + CHUNK);
            }
        } else {
            index_stretch(input, pos, pos + CHUNK, &mut positions, &mut in_string, &mut prev_escape);
        }
        pos = pos + CHUNK;
    }

    index_stretch(input, pos, len, &mut positions, &mut in_string, &mut prev_escape);
    let idx = StructuralIndex { positions, cursor: 0 };
    proof {
        lemma_positions_sound(input@, len as int);
        assert forall|k: int| 0 <= k < idx.positions@.len() implies (#[trigger] idx.positions@[k])
            < input@.len() && is_structural(input@[idx.positions@[k] as int]) by {
            assert(offsets(idx.positions@)[k] == idx.positions@[k] as int);
        }
    }
    idx
}

/// Soundness of the index.  Every offset in it points to one of
/// `{ } [ ] : ,` outside a string, the offsets ascend strictly, and every
/// such byte below `n` has its offset in the index: between two neighbouring
/// offsets no structural byte outside a string is left out.
pub proof fn lemma_positions_sound(s: Seq<u8>, n: int)
    requires
        0 <= n <= s.len(),
    ensures
        forall|k: int|
            0 <= k < structural_positions(s, n).len() ==> 0 <= (#[trigger] structural_positions(
                s,
                n,
            )[k]) < n && is_indexed(s, structural_positions(s, n)[k]),
        forall|j: int, k: int|
            0 <= j < k < structural_positions(s, n).len() ==> structural_positions(s, n)[j]
                < structural_positions(s, n)[k],
        forall|p: int|
            0 <= p < n && is_indexed(s, p) ==> structural_positions(s, n).contains(p),
        forall|k: int, p: int|
            #![trigger structural_positions(s, n)[k], is_indexed(s, p)]
            0 <= k && k + 1 < structural_positions(s, n).len() && structural_positions(s, n)[k] < p
                < structural_positions(s, n)[k + 1] ==> !is_indexed(s, p),
    decreases n,
{
    if n > 0 {
        lemma_positions_sound(s, n - 1);
        let prev = structural_positions(s, n - 1);
        let cur = structural_positions(s, n);
        if is_indexed(s, n - 1) {
            assert(cur == prev.push(n - 1));
            assert(cur[cur.len() - 1] == n - 1);
            assert forall|p: int| 0 <= p < n && is_indexed(s, p) implies cur.contains(p) by {
                if p == n - 1 {
                    assert(cur[cur.len() - 1] == p);
                } else {
                    let k = choose|k: int| 0 <= k < prev.len() && prev[k] == p;
                    assert(cur[k] == p);
                }
            }
            assert forall|k: int, p: int|
                #![trigger cur[k], is_indexed(s, p)]
                0 <= k && k + 1 < cur.len() && cur[k] < p < cur[k + 1] implies !is_indexed(
                s,
                p,
            ) by {
                if k + 1 == cur.len() - 1 {
                    if is_indexed(s, p) {
                        let j = choose|j: int| 0 <= j < prev.len() && prev[j] == p;
                        assert(prev[j] == cur[j]);
                        if j < k {
                            assert(cur[j] < cur[k]);
                        } else if j > k {
                            assert(cur[k] < cur[j]);
                        }
                    }
                } else {
                    assert(cur[k] == prev[k] && cur[k + 1] == prev[k + 1]);
                }
            }
        } else {
            assert forall|p: int| 0 <= p < n && is_indexed(s, p) implies cur.contains(p) by {
                let k = choose|k: int| 0 <= k < prev.len() && prev[k] == p;
                assert(cur[k] == p);
            }
        }
    }
}

} // verus!
