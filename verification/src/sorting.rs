//! The order in which sorted keys are written: what the encoder's order of
//! the entries of a mapping is, apart from how it is made.

use crate::encoding::{bytes_le, insert_sorted, key_text, sort_keys_of, sorted_order, Format};
use crate::term::TermV;
use vstd::prelude::*;

verus! {

/// Of two byte strings one comes before the other or is the other.
pub proof fn lemma_bytes_le_total(a: Seq<u8>, b: Seq<u8>)
    ensures
        bytes_le(a, b) || bytes_le(b, a),
    decreases a.len(),
{
    if a.len() > 0 && b.len() > 0 && a[0] == b[0] {
        lemma_bytes_le_total(a.drop_first(), b.drop_first());
    }
}

/// The byte order goes on from one byte string over a second to a third.
pub proof fn lemma_bytes_le_transitive(a: Seq<u8>, b: Seq<u8>, c: Seq<u8>)
    requires
        bytes_le(a, b),
        bytes_le(b, c),
    ensures
        bytes_le(a, c),
    decreases a.len(),
{
    if a.len() > 0 && b.len() > 0 && c.len() > 0 && a[0] == b[0] && b[0] == c[0] {
        lemma_bytes_le_transitive(a.drop_first(), b.drop_first(), c.drop_first());
    }
}

/// The indices of `order` stand by ascending keys, and of two with the
/// same key the lower index stands first.
pub open spec fn ascending(keys: Seq<Seq<u8>>, order: Seq<int>) -> bool {
    forall|a: int, b: int|
        0 <= a < b < order.len() ==> bytes_le(keys[#[trigger] order[a]], keys[#[trigger] order[b]])
            && (keys[order[a]] == keys[order[b]] ==> order[a] < order[b])
}

/// `order` names each entry below `upto` that has a key, once, and nothing
/// else.
pub open spec fn names_keyed(entries: Seq<(TermV, TermV)>, order: Seq<int>, upto: int) -> bool {
    &&& forall|j: int|
        0 <= j < order.len() ==> 0 <= #[trigger] order[j] < upto && key_text(
            entries[order[j]].0,
        ) is Some
    &&& forall|a: int, b: int| 0 <= a < b < order.len() ==> #[trigger] order[a] != #[trigger] order[b]
    &&& forall|i: int|
        0 <= i < upto && i < entries.len() && key_text(#[trigger] entries[i].0) is Some
            ==> order.contains(i)
}

/// Where an index is put into an order: behind the part whose keys are not
/// greater, before the part whose keys are.
pub proof fn lemma_insert_place(keys: Seq<Seq<u8>>, order: Seq<int>, idx: int) -> (p: int)
    ensures
        0 <= p <= order.len(),
        insert_sorted(keys, order, idx) == order.subrange(0, p).push(idx) + order.subrange(
            p,
            order.len() as int,
        ),
        p > 0 ==> bytes_le(keys[order[p - 1]], keys[idx]),
        forall|j: int| p <= j < order.len() ==> !bytes_le(keys[#[trigger] order[j]], keys[idx]),
    decreases order.len(),
{
    let n = order.len() as int;
    if n == 0 {
        assert(insert_sorted(keys, order, idx) =~= order.subrange(0, 0).push(idx) + order.subrange(
            0,
            n,
        ));
        0
    } else if bytes_le(keys[order.last()], keys[idx]) {
        assert(order.push(idx) =~= order.subrange(0, n).push(idx) + order.subrange(n, n));
        n
    } else {
        let p = lemma_insert_place(keys, order.drop_last(), idx);
        let shorter = order.drop_last();
        assert(insert_sorted(keys, shorter, idx).push(order.last()) =~= order.subrange(0, p).push(idx)
            + order.subrange(p, n)) by {
            assert(shorter.subrange(0, p) =~= order.subrange(0, p));
            assert(shorter.subrange(p, n - 1).push(order.last()) =~= order.subrange(p, n));
        }
        assert forall|j: int| p <= j < n implies !bytes_le(keys[#[trigger] order[j]], keys[idx]) by {
            if j < n - 1 {
                assert(shorter[j] == order[j]);
            }
        }
        if p > 0 {
            assert(shorter[p - 1] == order[p - 1]);
        }
        p
    }
}

/// An index that is higher than all of an ascending order keeps it
/// ascending when it is put in.
pub proof fn lemma_insert_keeps_ascending(keys: Seq<Seq<u8>>, order: Seq<int>, idx: int)
    requires
        ascending(keys, order),
        0 <= idx < keys.len(),
        forall|j: int| 0 <= j < order.len() ==> 0 <= #[trigger] order[j] < idx,
    ensures
        ascending(keys, insert_sorted(keys, order, idx)),
{
    let p = lemma_insert_place(keys, order, idx);
    let after = insert_sorted(keys, order, idx);
    let n = order.len() as int;
    assert forall|a: int, b: int| 0 <= a < b < after.len() implies bytes_le(
        keys[#[trigger] after[a]],
        keys[#[trigger] after[b]],
    ) && (keys[after[a]] == keys[after[b]] ==> after[a] < after[b]) by {
        if b < p {
            assert(after[a] == order[a] && after[b] == order[b]);
        } else if a > p {
            assert(after[a] == order[a - 1] && after[b] == order[b - 1]);
        } else if a < p && b > p {
            assert(after[a] == order[a] && after[b] == order[b - 1]);
        } else if b == p {
            // The new index behind one of the part before it.
            assert(after[a] == order[a] && after[b] == idx);
            if a < p - 1 {
                assert(bytes_le(keys[order[a]], keys[order[p - 1]]));
                lemma_bytes_le_transitive(keys[order[a]], keys[order[p - 1]], keys[idx]);
            }
        } else {
            // The new index before one of the part behind it.
            assert(a == p && after[a] == idx && after[b] == order[b - 1]);
            assert(!bytes_le(keys[order[b - 1]], keys[idx]));
            lemma_bytes_le_total(keys[order[b - 1]], keys[idx]);
            if keys[idx] == keys[order[b - 1]] {
                lemma_bytes_le_reflexive(keys[idx]);
            }
        }
    }
}

/// A byte string comes before itself or is itself.
pub proof fn lemma_bytes_le_reflexive(a: Seq<u8>)
    ensures
        bytes_le(a, a),
    decreases a.len(),
{
    if a.len() > 0 {
        lemma_bytes_le_reflexive(a.drop_first());
    }
}

/// The order after entry `i` was put in names the keyed entries up to `i`.
pub proof fn lemma_insert_names(entries: Seq<(TermV, TermV)>, order: Seq<int>, i: int)
    requires
        0 <= i < entries.len(),
        key_text(entries[i].0) is Some,
        names_keyed(entries, order, i),
    ensures
        names_keyed(entries, insert_sorted(sort_keys_of(entries), order, i), i + 1),
{
    let keys = sort_keys_of(entries);
    let p = lemma_insert_place(keys, order, i);
    let after = insert_sorted(keys, order, i);
    assert forall|j: int| 0 <= j < after.len() implies 0 <= #[trigger] after[j] < i + 1 && key_text(
        entries[after[j]].0,
    ) is Some by {
        if j < p {
            assert(after[j] == order[j]);
        } else if j > p {
            assert(after[j] == order[j - 1]);
        }
    }
    assert forall|a: int, b: int| 0 <= a < b < after.len() implies #[trigger] after[a] != #[trigger] after[b] by {
        let x = if a < p { a } else { a - 1 };
        let y = if b < p { b } else { b - 1 };
        if a != p {
            assert(after[a] == order[x]);
        }
        if b != p {
            assert(after[b] == order[y]);
        }
    }
    assert forall|k: int|
        0 <= k < i + 1 && k < entries.len() && key_text(#[trigger] entries[k].0) is Some implies after.contains(
        k,
    ) by {
        if k == i {
            assert(after[p] == i);
        } else {
            assert(order.contains(k));
            let j = choose|j: int| 0 <= j < order.len() && order[j] == k;
            if j < p {
                assert(after[j] == k);
            } else {
                assert(after[j + 1] == k);
            }
        }
    }
}

/// The order of the entries from `i` on, after an ascending order of the
/// keyed entries before `i`, is an ascending order of all keyed entries.
pub proof fn lemma_sorted_order_from(
    entries: Seq<(TermV, TermV)>,
    i: int,
    f: Format,
    seen: Seq<Seq<u8>>,
    order: Seq<int>,
)
    requires
        0 <= i <= entries.len(),
        sorted_order(entries, i, f, seen, order) is Ok,
        ascending(sort_keys_of(entries), order),
        names_keyed(entries, order, i),
    ensures
        ascending(sort_keys_of(entries), sorted_order(entries, i, f, seen, order).unwrap()),
        names_keyed(
            entries,
            sorted_order(entries, i, f, seen, order).unwrap(),
            entries.len() as int,
        ),
    decreases entries.len() - i,
{
    if i < entries.len() {
        match key_text(entries[i].0) {
            None => {
                lemma_sorted_order_from(entries, i + 1, f, seen, order);
            },
            Some(Err(_)) => {},
            Some(Ok(k)) => {
                let next = insert_sorted(sort_keys_of(entries), order, i);
                lemma_insert_keeps_ascending(sort_keys_of(entries), order, i);
                lemma_insert_names(entries, order, i);
                lemma_sorted_order_from(entries, i + 1, f, seen.push(k), next);
            },
        }
    }
}

/// Sorted keys.  The order in which the encoder writes the entries of a
/// mapping under sorted keys names every entry that has a key once and no
/// other; the keys ascend byte by byte, and entries with the same key keep
/// the order in which they stand in the mapping.
pub proof fn lemma_sorted_order(entries: Seq<(TermV, TermV)>, f: Format)
    requires
        sorted_order(entries, 0, f, Seq::empty(), Seq::empty()) is Ok,
    ensures
        ascending(
            sort_keys_of(entries),
            sorted_order(entries, 0, f, Seq::empty(), Seq::empty()).unwrap(),
        ),
        names_keyed(
            entries,
            sorted_order(entries, 0, f, Seq::empty(), Seq::empty()).unwrap(),
            entries.len() as int,
        ),
{
    lemma_sorted_order_from(entries, 0, f, Seq::empty(), Seq::empty());
}

} // verus!
