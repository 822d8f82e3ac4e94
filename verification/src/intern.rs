//! The intern cache of a decode: the object keys seen so far, found again by
//! a seeded hash of their raw bytes.

use crate::outside::clock_nanos;
use crate::term::bytes_eq;
use vstd::prelude::*;
use vstd::wrapping::u64_specs::wrapping_mul;

verus! {

/// Most keys the cache holds.  Keys met after that are built as usual and
/// not kept.
pub const MAX_INTERN_KEYS: usize = 4096;

/// Number of slots of the cache table: twice the key limit.
pub const INTERN_SLOTS: usize = 8192;

/// The FNV-1a prime for 64 bits.
pub const FNV_PRIME: u64 = 0x100000001b3;

/// The FNV-1a hash of `bytes`, started from `seed`.
pub open spec fn fnv1a(seed: u64, bytes: Seq<u8>) -> u64
    decreases bytes.len(),
{
    if bytes.len() == 0 {
        seed
    } else {
        wrapping_mul(fnv1a(seed, bytes.drop_last()) ^ (bytes.last() as u64), FNV_PRIME)
    }
}

/// A running FNV-1a hash.
pub struct FnvHasher(pub u64);

impl FnvHasher {
    /// Takes `bytes` into the hash.
    pub fn write(&mut self, bytes: &[u8])
        ensures
            final(self).0 == fnv1a(old(self).0, bytes@),
    {
        let mut i: usize = 0;
        assert(bytes@.subrange(0, 0) =~= Seq::<u8>::empty());
        while i < bytes.len()
            invariant
                i <= bytes@.len(),
                self.0 == fnv1a(old(self).0, bytes@.subrange(0, i as int)),
            decreases bytes@.len() - i,
        {
            proof {
                let next = bytes@.subrange(0, i + 1);
                assert(next.drop_last() =~= bytes@.subrange(0, i as int));
            }
            self.0 = (self.0 ^ (bytes[i] as u64)).wrapping_mul(FNV_PRIME);
            i = i + 1;
        }
        assert(bytes@.subrange(0, bytes@.len() as int) =~= bytes@);
    }

    /// The hash so far.
    pub fn finish(&self) -> (r: u64)
        ensures
            r == self.0,
    {
        self.0
    }
}

/// Hands out hashers that all start from one seed.
pub struct FnvBuildHasher {
    pub seed: u64,
}

impl FnvBuildHasher {
    /// A builder with a seed of its own, taken from the clock, so that the
    /// hashes of one decode tell nothing about those of the next.
    pub fn new() -> (r: FnvBuildHasher) {
        FnvBuildHasher { seed: clock_nanos() }
    }

    /// A hasher that starts from the seed.
    pub fn build_hasher(&self) -> (r: FnvHasher)
        ensures
            r.0 == self.seed,
    {
        FnvHasher(self.seed)
    }
}

/// Whether a slot of the table is free: its range ends before it starts.
pub open spec fn is_free(slot: (usize, usize)) -> bool {
    slot.0 > slot.1
}

/// The bytes of the key that a slot holds: the range of the input it names.
pub open spec fn slot_key(input: Seq<u8>, slot: (usize, usize)) -> Seq<u8> {
    input.subrange(slot.0 as int, slot.1 as int)
}

/// The slot at which the search for `key` starts: its hash, cut to the
/// size of the table.
pub open spec fn home(seed: u64, key: Seq<u8>) -> int {
    (fnv1a(seed, key) % (INTERN_SLOTS as u64)) as int
}

/// The slot that a search from `from` looks at in its step `n`.  The table
/// is walked upwards, and from its last slot on to its first.
pub open spec fn probe(from: int, n: int) -> int {
    if from + n < INTERN_SLOTS {
        from + n
    } else {
        from + n - INTERN_SLOTS
    }
}

/// The step in which a search from `from` looks at slot `k`.
pub open spec fn distance(from: int, k: int) -> int {
    if k >= from {
        k - from
    } else {
        k - from + INTERN_SLOTS
    }
}

/// Number of slots that hold a key.
pub open spec fn filled(slots: Seq<(usize, usize)>) -> nat
    decreases slots.len(),
{
    if slots.len() == 0 {
        0
    } else if is_free(slots.last()) {
        filled(slots.drop_last())
    } else {
        filled(slots.drop_last()) + 1
    }
}

/// Where every slot holds a key, as many keys are held as there are slots.
pub proof fn lemma_filled_all(slots: Seq<(usize, usize)>)
    requires
        forall|k: int| 0 <= k < slots.len() ==> !is_free(#[trigger] slots[k]),
    ensures
        filled(slots) == slots.len(),
    decreases slots.len(),
{
    if slots.len() > 0 {
        lemma_filled_all(slots.drop_last());
    }
}

/// A key put into a free slot is one key more.
pub proof fn lemma_filled_update(slots: Seq<(usize, usize)>, k: int, slot: (usize, usize))
    requires
        0 <= k < slots.len(),
        is_free(slots[k]),
        !is_free(slot),
    ensures
        filled(slots.update(k, slot)) == filled(slots) + 1,
    decreases slots.len(),
{
    let after = slots.update(k, slot);
    if k == slots.len() - 1 {
        assert(after.drop_last() =~= slots.drop_last());
    } else {
        lemma_filled_update(slots.drop_last(), k, slot);
        assert(after.drop_last() =~= slots.drop_last().update(k, slot));
    }
}

/// The intern cache: a table of the raw keys met so far, each as a range of
/// the input.  A key is looked for from the slot that its hash names, one
/// slot after the other, up to the first free one.
pub struct KeyCache {
    pub hasher: FnvBuildHasher,
    pub slots: Vec<(usize, usize)>,
    pub used: usize,
}

impl KeyCache {
    /// Slot `k` holds the key `key`.
    pub open spec fn keeps_at(&self, input: Seq<u8>, k: int, key: Seq<u8>) -> bool {
        0 <= k < self.slots@.len() && !is_free(self.slots@[k]) && slot_key(input, self.slots@[k])
            == key
    }

    /// The cache holds the key `key`.
    pub open spec fn holds(&self, input: Seq<u8>, key: Seq<u8>) -> bool {
        exists|k: int| self.keeps_at(input, k, key)
    }

    /// The keys that the cache holds.
    pub open spec fn keys(&self, input: Seq<u8>) -> Set<Seq<u8>> {
        Set::new(|key: Seq<u8>| self.holds(input, key))
    }

    /// Slot `k` holds a key other than `key`: a search for `key` goes past
    /// it.
    pub open spec fn passed(&self, input: Seq<u8>, k: int, key: Seq<u8>) -> bool {
        0 <= k < self.slots@.len() && !is_free(self.slots@[k]) && slot_key(input, self.slots@[k])
            != key
    }

    /// A search for the key in slot `k` comes to that slot: it goes past
    /// every slot before it.
    #[verifier::opaque]
    pub open spec fn reachable(&self, input: Seq<u8>, k: int) -> bool {
        let key = slot_key(input, self.slots@[k]);
        let from = home(self.hasher.seed, key);
        forall|n: int|
            0 <= n < distance(from, k) ==> self.passed(input, #[trigger] probe(from, n), key)
    }

    /// The table has all its slots and counts the keys in them, at most
    /// `MAX_INTERN_KEYS`; every key lies in `input` and is found by a
    /// search for it.
    pub open spec fn wf(&self, input: Seq<u8>) -> bool {
        &&& self.slots@.len() == INTERN_SLOTS
        &&& self.used == filled(self.slots@)
        &&& self.used <= MAX_INTERN_KEYS
        &&& forall|k: int|
            0 <= k < self.slots@.len() && !is_free(#[trigger] self.slots@[k]) ==> self.slots@[k].1
                <= input.len() && self.reachable(input, k)
    }

    /// A search that comes to a free slot has seen every slot in which the
    /// key could be: the cache does not hold it.
    pub proof fn lemma_free_slot_ends_search(&self, input: Seq<u8>, key: Seq<u8>, steps: int)
        requires
            self.wf(input),
            0 <= steps < INTERN_SLOTS,
            forall|n: int|
                0 <= n < steps ==> self.passed(
                    input,
                    #[trigger] probe(home(self.hasher.seed, key), n),
                    key,
                ),
            is_free(self.slots@[probe(home(self.hasher.seed, key), steps)]),
        ensures
            !self.holds(input, key),
    {
        reveal(KeyCache::reachable);
        let from = home(self.hasher.seed, key);
        assert forall|k: int| self.keeps_at(input, k, key) implies false by {
            let d = distance(from, k);
            assert(probe(from, d) == k);
            if d < steps {
                assert(self.passed(input, probe(from, d), key));
            } else if d > steps {
                assert(self.reachable(input, k));
                assert(self.passed(input, probe(from, steps), key));
            }
        }
    }

    /// A search never goes past every slot: the table is larger than the
    /// number of keys it takes.
    pub proof fn lemma_search_ends(&self, input: Seq<u8>, key: Seq<u8>)
        requires
            self.wf(input),
        ensures
            exists|n: int|
                0 <= n < INTERN_SLOTS && !self.passed(
                    input,
                    #[trigger] probe(home(self.hasher.seed, key), n),
                    key,
                ),
    {
        let from = home(self.hasher.seed, key);
        if forall|n: int| 0 <= n < INTERN_SLOTS ==> self.passed(input, #[trigger] probe(from, n), key) {
            assert forall|k: int| 0 <= k < self.slots@.len() implies !is_free(
                #[trigger] self.slots@[k],
            ) by {
                let d = distance(from, k);
                assert(probe(from, d) == k);
                assert(self.passed(input, probe(from, d), key));
            }
            lemma_filled_all(self.slots@);
        }
    }

    /// The cache after `key`, the range `slot` of the input, was put into
    /// the free slot at which the search for it ended: it is in order, and
    /// holds that key besides those it held.
    pub proof fn lemma_key_kept(
        &self,
        after: &KeyCache,
        input: Seq<u8>,
        slot: (usize, usize),
        steps: int,
    )
        requires
            self.wf(input),
            self.used < MAX_INTERN_KEYS,
            slot.0 <= slot.1 <= input.len(),
            0 <= steps < INTERN_SLOTS,
            forall|n: int|
                0 <= n < steps ==> self.passed(
                    input,
                    #[trigger] probe(home(self.hasher.seed, slot_key(input, slot)), n),
                    slot_key(input, slot),
                ),
            is_free(self.slots@[probe(home(self.hasher.seed, slot_key(input, slot)), steps)]),
            after.hasher == self.hasher,
            after.used == self.used + 1,
            after.slots@ == self.slots@.update(
                probe(home(self.hasher.seed, slot_key(input, slot)), steps),
                slot,
            ),
        ensures
            after.wf(input),
            after.keys(input) == self.keys(input).insert(slot_key(input, slot)),
    {
        reveal(KeyCache::reachable);
        let key = slot_key(input, slot);
        let from = home(self.hasher.seed, key);
        let at = probe(from, steps);
        lemma_filled_update(self.slots@, at, slot);
        assert forall|k: int|
            0 <= k < after.slots@.len() && !is_free(#[trigger] after.slots@[k]) implies after.slots@[k].1
            <= input.len() && after.reachable(input, k) by {
            if k == at {
                assert(distance(from, at) == steps);
                assert forall|n: int| 0 <= n < steps implies after.passed(
                    input,
                    #[trigger] probe(from, n),
                    key,
                ) by {
                    assert(self.passed(input, probe(from, n), key));
                    assert(probe(from, n) != at);
                }
            } else {
                assert(after.slots@[k] == self.slots@[k]);
                assert(self.reachable(input, k));
                let other = slot_key(input, self.slots@[k]);
                let start = home(self.hasher.seed, other);
                assert forall|n: int| 0 <= n < distance(start, k) implies after.passed(
                    input,
                    #[trigger] probe(start, n),
                    other,
                ) by {
                    assert(self.passed(input, probe(start, n), other));
                    assert(probe(start, n) != at);
                }
            }
        }
        assert forall|x: Seq<u8>| after.holds(input, x) <==> (self.holds(input, x) || x == key) by {
            if after.holds(input, x) {
                let k = choose|k: int| after.keeps_at(input, k, x);
                if k != at {
                    assert(self.keeps_at(input, k, x));
                }
            }
            if self.holds(input, x) {
                let k = choose|k: int| self.keeps_at(input, k, x);
                assert(after.keeps_at(input, k, x));
            }
            if x == key {
                assert(after.keeps_at(input, at, x));
            }
        }
        assert(after.keys(input) =~= self.keys(input).insert(key));
    }

    /// An empty cache.
    pub fn new() -> (r: KeyCache)
        ensures
            r.used == 0,
            forall|input: Seq<u8>| r.wf(input),
            forall|input: Seq<u8>| r.keys(input) == Set::<Seq<u8>>::empty(),
    {
        let mut slots: Vec<(usize, usize)> = Vec::with_capacity(INTERN_SLOTS);
        let mut i: usize = 0;
        while i < INTERN_SLOTS
            invariant
                i <= INTERN_SLOTS,
                slots@.len() == i,
                filled(slots@) == 0,
                forall|k: int| 0 <= k < i ==> is_free(#[trigger] slots@[k]),
            decreases INTERN_SLOTS - i,
        {
            proof {
                assert(slots@.push((1usize, 0usize)).drop_last() =~= slots@);
            }
            slots.push((1, 0));
            i = i + 1;
        }
        let r = KeyCache { hasher: FnvBuildHasher::new(), slots, used: 0 };
        proof {
            assert forall|input: Seq<u8>| r.keys(input) == Set::<Seq<u8>>::empty() by {
                assert forall|key: Seq<u8>| !r.holds(input, key) by {
                    assert forall|k: int| !r.keeps_at(input, k, key) by {}
                }
                assert(r.keys(input) =~= Set::<Seq<u8>>::empty());
            }
        }
        r
    }

    /// Looks for the key `input[start .. end]`.  Where the cache holds a key
    /// of these bytes, gives the range under which it was kept, and the
    /// cache stays as it is.  Where it holds none, gives `None`, and keeps
    /// the range as a new key unless `MAX_INTERN_KEYS` keys are held.
    pub fn find_or_keep(&mut self, input: &[u8], start: usize, end: usize) -> (r: Option<
        (usize, usize),
    >)
        requires
            old(self).wf(input@),
            start <= end <= input@.len(),
        ensures
            final(self).wf(input@),
            final(self).hasher == old(self).hasher,
            r is Some <==> old(self).keys(input@).contains(
                input@.subrange(start as int, end as int),
            ),
            r matches Some(kept) ==> {
                &&& old(self).slots@.contains(kept)
                &&& kept.0 <= kept.1 <= input@.len()
                &&& slot_key(input@, kept) == input@.subrange(start as int, end as int)
            },
            r is Some || old(self).used >= MAX_INTERN_KEYS ==> *final(self) == *old(self),
            r is None && old(self).used < MAX_INTERN_KEYS ==> final(self).used == old(self).used + 1
                && final(self).keys(input@) == old(self).keys(input@).insert(
                input@.subrange(start as int, end as int),
            ),
    {
        let key = vstd::slice::slice_subrange(input, start, end);
        let mut hasher = self.hasher.build_hasher();
        hasher.write(key);
        let from = (hasher.finish() % (INTERN_SLOTS as u64)) as usize;
        let mut slot = from;
        let mut probes: usize = 0;
        while probes < INTERN_SLOTS
            invariant
                self.wf(input@),
                *self == *old(self),
                from == home(self.hasher.seed, key@),
                probes <= INTERN_SLOTS,
                slot < INTERN_SLOTS,
                probes < INTERN_SLOTS ==> slot == probe(from as int, probes as int),
                start <= end <= input@.len(),
                key@ == input@.subrange(start as int, end as int),
                forall|n: int|
                    0 <= n < probes ==> self.passed(input@, #[trigger] probe(from as int, n), key@),
            decreases INTERN_SLOTS - probes,
        {
            let (a, b) = self.slots[slot];
            if a > b {
                proof {
                    self.lemma_free_slot_ends_search(input@, key@, probes as int);
                }
                if self.used < MAX_INTERN_KEYS {
                    let ghost before = *self;
                    self.slots.set(slot, (start, end));
                    self.used = self.used + 1;
                    proof {
                        before.lemma_key_kept(self, input@, (start, end), probes as int);
                    }
                }
                return None;
            }
            if bytes_eq(vstd::slice::slice_subrange(input, a, b), key) {
                proof {
                    assert(self.keeps_at(input@, slot as int, key@));
                }
                return Some((a, b));
            }
            slot = if slot + 1 == INTERN_SLOTS {
                0
            } else {
                slot + 1
            };
            probes = probes + 1;
        }
        proof {
            self.lemma_search_ends(input@, key@);
        }
        None
    }
}

} // verus!
