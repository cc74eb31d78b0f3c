//! Byte strings that stand for an encoded value of type `T`, ordered as byte strings.
use vstd::prelude::*;
use std::cmp::Ordering;

verus! {

/// The encoded bytes of a value of type `T`.
pub struct TypedBytes<T> {
    inner: Vec<u8>,
    _type: core::marker::PhantomData<T>,
}

impl<T> View for TypedBytes<T> {
    type V = Seq<u8>;

    closed spec fn view(&self) -> Seq<u8> {
        self.inner@
    }
}

/// Compares `a` and `b` from position `i` on: -1 where `a` comes first, 1 where `b`
/// does, 0 where they agree to the end.
pub open spec fn lex_from(a: Seq<u8>, b: Seq<u8>, i: nat) -> int
    decreases a.len() - i,
{
    if i >= a.len() && i >= b.len() {
        0
    } else if i >= a.len() {
        -1
    } else if i >= b.len() {
        1
    } else if a[i as int] < b[i as int] {
        -1
    } else if a[i as int] > b[i as int] {
        1
    } else {
        lex_from(a, b, i + 1)
    }
}

/// `lex_from` at a machine index.
pub open spec fn lex_from_index(a: Seq<u8>, b: Seq<u8>, i: usize) -> int {
    lex_from(a, b, i as nat)
}

/// The lexicographic order of byte strings: -1, 0 or 1.
pub open spec fn lex_order(a: Seq<u8>, b: Seq<u8>) -> int {
    lex_from(a, b, 0)
}

impl<T> TypedBytes<T> {
    /// Wraps bytes that encode a `T`.
    pub fn from_bytes(data: &[u8]) -> (r: TypedBytes<T>)
        ensures
            r@ == data@,
    {
        let mut inner: Vec<u8> = Vec::new();
        crate::le::extend_bytes(&mut inner, data);
        TypedBytes { inner, _type: core::marker::PhantomData }
    }

    /// Wraps an owned buffer of bytes that encode a `T`.
    pub fn from_vec(inner: Vec<u8>) -> (r: TypedBytes<T>)
        ensures
            r@ == inner@,
    {
        TypedBytes { inner, _type: core::marker::PhantomData }
    }

    pub fn as_bytes(&self) -> (r: &[u8])
        ensures
            r@ == self@,
    {
        self.inner.as_slice()
    }

    /// Encoded values have no fixed width.
    pub fn fixed_width() -> (r: Option<usize>)
        ensures
            r is None,
    {
        None
    }

    /// Orders keys as their bytes, lexicographically.
    pub fn compare(data1: &[u8], data2: &[u8]) -> (r: Ordering)
        ensures
            (r == Ordering::Less) == (lex_order(data1@, data2@) < 0),
            (r == Ordering::Equal) == (lex_order(data1@, data2@) == 0),
            (r == Ordering::Greater) == (lex_order(data1@, data2@) > 0),
    {
        let n1 = data1.len();
        let n2 = data2.len();
        let mut i: usize = 0;
        while i < n1 && i < n2
            invariant
                n1 == data1@.len(),
                n2 == data2@.len(),
                i <= n1,
                i <= n2,
                lex_from(data1@, data2@, 0) == lex_from_index(data1@, data2@, i),
            decreases n1 - i,
        {
            if data1[i] < data2[i] {
                return Ordering::Less;
            }
            if data1[i] > data2[i] {
                return Ordering::Greater;
            }
            i = i + 1;
        }
        if n1 < n2 {
            Ordering::Less
        } else if n1 > n2 {
            Ordering::Greater
        } else {
            Ordering::Equal
        }
    }
}

/// The byte order is a total order: two strings compare equal exactly when they are
/// equal, swapping them flips the result, and it is transitive.
pub proof fn lemma_lex_order_total(a: Seq<u8>, b: Seq<u8>, c: Seq<u8>)
    ensures
        -1 <= lex_order(a, b) <= 1,
        (lex_order(a, b) == 0) == (a == b),
        lex_order(b, a) == -lex_order(a, b),
        lex_order(a, b) < 0 && lex_order(b, c) < 0 ==> lex_order(a, c) < 0,
{
    lemma_lex_from(a, b, 0);
    lemma_lex_from_transitive(a, b, c, 0);
    assert(a.skip(0) =~= a);
    assert(b.skip(0) =~= b);
}

proof fn lemma_lex_from_transitive(a: Seq<u8>, b: Seq<u8>, c: Seq<u8>, i: nat)
    ensures
        lex_from(a, b, i) < 0 && lex_from(b, c, i) < 0 ==> lex_from(a, c, i) < 0,
    decreases a.len() - i,
{
    if i < a.len() && i < b.len() && i < c.len() && a[i as int] == b[i as int] && b[i as int] == c[i as int] {
        lemma_lex_from_transitive(a, b, c, i + 1);
    }
}

proof fn lemma_lex_from(a: Seq<u8>, b: Seq<u8>, i: nat)
    requires
        i <= a.len() || i <= b.len(),
    ensures
        -1 <= lex_from(a, b, i) <= 1,
        i <= a.len() && i <= b.len() ==> ((lex_from(a, b, i) == 0) == (a.skip(i as int) == b.skip(i as int))),
        lex_from(b, a, i) == -lex_from(a, b, i),
    decreases a.len() - i,
{
    if i < a.len() && i < b.len() {
        lemma_lex_from(a, b, i + 1);
        if a[i as int] == b[i as int] {
            if a.skip((i + 1) as int) == b.skip((i + 1) as int) {
                assert(a.skip(i as int) =~= seq![a[i as int]] + a.skip((i + 1) as int));
                assert(b.skip(i as int) =~= seq![b[i as int]] + b.skip((i + 1) as int));
            } else if a.skip(i as int) == b.skip(i as int) {
                assert(a.skip((i + 1) as int) =~= a.skip(i as int).skip(1));
                assert(b.skip((i + 1) as int) =~= b.skip(i as int).skip(1));
            }
        } else {
            assert(a.skip(i as int)[0] != b.skip(i as int)[0]);
        }
    } else if i <= a.len() && i <= b.len() {
        if i == a.len() && i < b.len() {
            assert(a.skip(i as int).len() != b.skip(i as int).len());
        } else if i < a.len() && i == b.len() {
            assert(a.skip(i as int).len() != b.skip(i as int).len());
        } else {
            assert(a.skip(i as int) =~= b.skip(i as int));
        }
    }
}

} // verus!
