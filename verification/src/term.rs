//! The value tree the codec reads and builds.
//!
//! A [`Term`] is the host's value as far as the codec looks into it: atoms,
//! integers, floats, byte strings, lists, tuples and mappings.  Records of
//! the host (decimals, dates, ordered objects, ...) are mappings that carry
//! their record name under the key `__struct__`.

use vstd::prelude::*;

verus! {

/// A host value.
#[derive(Debug, PartialEq, Eq)]
pub enum Term {
    /// A symbol, by the bytes of its name (`nil`, `true`, `false`, ...).
    Atom(Vec<u8>),
    /// An integer that fits 64 signed bits.
    Integer(i64),
    /// An integer above the signed range that fits 64 unsigned bits.
    Unsigned(u64),
    /// Any other integer, by its decimal digits with `-` in front of a
    /// negative one.
    BigInteger(Vec<u8>),
    /// A double, by a decimal text of it.  The decoder keeps the literal as
    /// it stands in the document; the encoder writes the text as it is and
    /// takes any JSON number literal.
    Float(Vec<u8>),
    /// A byte string.
    Binary(Vec<u8>),
    /// An ordered sequence.
    List(Vec<Term>),
    /// A fixed-size group.
    Tuple(Vec<Term>),
    /// Key-value entries.  The decoder never builds one with a key twice.
    Mapping(Vec<(Term, Term)>),
    /// A value without a JSON form (a process, a reference, a function).
    Other,
}

/// The mathematical value of a [`Term`].
pub ghost enum TermV {
    Atom(Seq<u8>),
    Integer(int),
    BigInteger(Seq<u8>),
    Float(Seq<u8>),
    Binary(Seq<u8>),
    List(Seq<TermV>),
    Tuple(Seq<TermV>),
    Mapping(Seq<(TermV, TermV)>),
    Other,
}

/// The value of a term, by recursion over its structure.
pub open spec fn term_view(t: Term) -> TermV
    decreases t,
{
    match t {
        Term::Atom(a) => TermV::Atom(a@),
        Term::Integer(i) => TermV::Integer(i as int),
        Term::Unsigned(u) => TermV::Integer(u as int),
        Term::BigInteger(d) => TermV::BigInteger(d@),
        Term::Float(x) => TermV::Float(x@),
        Term::Binary(b) => TermV::Binary(b@),
        Term::List(v) => TermV::List(
            Seq::new(
                v.len() as nat,
                |i: int|
                    if 0 <= i < v.len() {
                        term_view(v[i])
                    } else {
                        TermV::Other
                    },
            ),
        ),
        Term::Tuple(v) => TermV::Tuple(
            Seq::new(
                v.len() as nat,
                |i: int|
                    if 0 <= i < v.len() {
                        term_view(v[i])
                    } else {
                        TermV::Other
                    },
            ),
        ),
        Term::Mapping(v) => TermV::Mapping(
            Seq::new(
                v.len() as nat,
                |i: int|
                    if 0 <= i < v.len() {
                        (term_view(v[i].0), term_view(v[i].1))
                    } else {
                        (TermV::Other, TermV::Other)
                    },
            ),
        ),
        Term::Other => TermV::Other,
    }
}

impl View for Term {
    type V = TermV;

    open spec fn view(&self) -> TermV {
        term_view(*self)
    }
}

/// The values of a sequence of terms, one by one.
pub open spec fn terms_view(v: Seq<Term>) -> Seq<TermV> {
    Seq::new(v.len(), |i: int| v[i]@)
}

/// The values of a sequence of entries, one by one.
pub open spec fn entries_view(v: Seq<(Term, Term)>) -> Seq<(TermV, TermV)> {
    Seq::new(v.len(), |i: int| (v[i].0@, v[i].1@))
}

/// What the view of a list, a tuple and a mapping is made of.
pub proof fn lemma_view_children(t: Term)
    ensures
        t matches Term::List(v) ==> t@ == TermV::List(terms_view(v@)),
        t matches Term::Tuple(v) ==> t@ == TermV::Tuple(terms_view(v@)),
        t matches Term::Mapping(v) ==> t@ == TermV::Mapping(entries_view(v@)),
{
    match t {
        Term::List(v) => {
            assert(t@->List_0 =~= terms_view(v@));
        },
        Term::Tuple(v) => {
            assert(t@->Tuple_0 =~= terms_view(v@));
        },
        Term::Mapping(v) => {
            assert(t@->Mapping_0 =~= entries_view(v@));
        },
        _ => {},
    }
}

/// Whether two byte strings hold the same bytes.
pub fn bytes_eq(a: &[u8], b: &[u8]) -> (r: bool)
    ensures
        r == (a@ == b@),
{
    if a.len() != b.len() {
        return false;
    }
    let mut i: usize = 0;
    while i < a.len()
        invariant
            i <= a@.len(),
            a@.len() == b@.len(),
            forall|j: int| 0 <= j < i ==> a@[j] == b@[j],
        decreases a@.len() - i,
    {
        if a[i] != b[i] {
            return false;
        }
        i = i + 1;
    }
    assert(a@ =~= b@);
    true
}

/// Appends `bytes` to `out`.
pub fn append(out: &mut Vec<u8>, bytes: &[u8])
    ensures
        final(out)@ == old(out)@ + bytes@,
{
    out.extend_from_slice(bytes);
    assert(out@ =~= old(out)@ + bytes@);
}

/// A fresh copy of `bytes[start .. end]`.
pub fn copy_range(bytes: &[u8], start: usize, end: usize) -> (r: Vec<u8>)
    requires
        start <= end <= bytes@.len(),
    ensures
        r@ == bytes@.subrange(start as int, end as int),
{
    let mut r: Vec<u8> = Vec::with_capacity(end - start);
    let mut i: usize = start;
    while i < end
        invariant
            start <= i <= end <= bytes@.len(),
            r@ == bytes@.subrange(start as int, i as int),
        decreases end - i,
    {
        r.push(bytes[i]);
        assert(r@ =~= bytes@.subrange(start as int, i + 1));
        i = i + 1;
    }
    r
}

/// A fresh copy of `bytes`.
pub fn copy_bytes(bytes: &[u8]) -> (r: Vec<u8>)
    ensures
        r@ == bytes@,
{
    let r = copy_range(bytes, 0, bytes.len());
    assert(r@ =~= bytes@);
    r
}

impl Term {
    /// A deep copy.
    #[verifier::loop_isolation(false)]
    pub fn duplicate(&self) -> (r: Term)
        ensures
            r@ == self@,
        decreases self,
    {
        match self {
            Term::Atom(a) => Term::Atom(copy_bytes(a.as_slice())),
            Term::Integer(i) => Term::Integer(*i),
            Term::Unsigned(u) => Term::Unsigned(*u),
            Term::BigInteger(d) => Term::BigInteger(copy_bytes(d.as_slice())),
            Term::Float(t) => Term::Float(copy_bytes(t.as_slice())),
            Term::Binary(b) => Term::Binary(copy_bytes(b.as_slice())),
            Term::List(v) => {
                let c = duplicate_all(v);
                let r = Term::List(c);
                proof {
                    lemma_view_children(r);
                    lemma_view_children(*self);
                }
                r
            },
            Term::Tuple(v) => {
                let c = duplicate_all(v);
                let r = Term::Tuple(c);
                proof {
                    lemma_view_children(r);
                    lemma_view_children(*self);
                }
                r
            },
            Term::Mapping(v) => {
                let mut c: Vec<(Term, Term)> = Vec::with_capacity(v.len());
                let mut i: usize = 0;
                while i < v.len()
                    invariant
                        i <= v.len(),
                        c@.len() == i,
                        forall|j: int| 0 <= j < i ==> c@[j].0@ == v@[j].0@ && c@[j].1@ == v@[j].1@,
                    decreases v.len() - i,
                {
                    proof {
                        vstd::std_specs::vec::axiom_vec_index_decreases(*v, i as int);
                    }
                    let entry = &v[i];
                    let k = entry.0.duplicate();
                    let x = entry.1.duplicate();
                    c.push((k, x));
                    i = i + 1;
                }
                let r = Term::Mapping(c);
                proof {
                    lemma_view_children(r);
                    lemma_view_children(*self);
                    assert(entries_view(c@) =~= entries_view(v@));
                }
                r
            },
            Term::Other => Term::Other,
        }
    }
}

/// Deep copies of all the terms of `v`, in order.
#[verifier::loop_isolation(false)]
pub fn duplicate_all(v: &Vec<Term>) -> (c: Vec<Term>)
    ensures
        terms_view(c@) == terms_view(v@),
    decreases v,
{
    let mut c: Vec<Term> = Vec::with_capacity(v.len());
    let mut i: usize = 0;
    while i < v.len()
        invariant
            i <= v.len(),
            c@.len() == i,
            forall|j: int| 0 <= j < i ==> c@[j]@ == v@[j]@,
        decreases v.len() - i,
    {
        proof {
            vstd::std_specs::vec::axiom_vec_index_decreases(*v, i as int);
        }
        let t = v[i].duplicate();
        c.push(t);
        i = i + 1;
    }
    assert(terms_view(c@) =~= terms_view(v@));
    c
}

} // verus!
