//! Byte strings: their lexicographic order and their comparison.

use vstd::prelude::*;

verus! {

/// `a` comes strictly before `b` in the lexicographic order of byte strings.
pub open spec fn lex_before(a: Seq<u8>, b: Seq<u8>) -> bool
    decreases a.len(),
{
    if b.len() == 0 {
        false
    } else if a.len() == 0 {
        true
    } else if a[0] != b[0] {
        a[0] < b[0]
    } else {
        lex_before(a.skip(1), b.skip(1))
    }
}

/// Where two byte strings agree on their first bytes, the byte behind these decides. One
/// that ends there comes first.
pub proof fn lex_before_is_decided_by_the_first_difference(a: Seq<u8>, b: Seq<u8>, n: int)
    requires
        0 <= n <= a.len(),
        n <= b.len(),
        forall|i: int| 0 <= i < n ==> a[i] == b[i],
    ensures
        n < a.len() && n < b.len() && a[n] < b[n] ==> lex_before(a, b),
        n < a.len() && n < b.len() && a[n] > b[n] ==> !lex_before(a, b),
        n == a.len() && n < b.len() ==> lex_before(a, b),
        n == b.len() ==> !lex_before(a, b),
    decreases n,
{
    if n > 0 {
        assert forall|i: int| 0 <= i < n - 1 implies a.skip(1)[i] == b.skip(1)[i] by {
            assert(a[i + 1] == b[i + 1]);
        }
        lex_before_is_decided_by_the_first_difference(a.skip(1), b.skip(1), n - 1);
    }
}

/// No byte string comes before itself.
pub proof fn lex_before_irreflexive(a: Seq<u8>)
    ensures
        !lex_before(a, a),
    decreases a.len(),
{
    if a.len() > 0 {
        lex_before_irreflexive(a.skip(1));
    }
}

/// The lexicographic order is transitive.
pub proof fn lex_before_transitive(a: Seq<u8>, b: Seq<u8>, c: Seq<u8>)
    requires
        lex_before(a, b),
        lex_before(b, c),
    ensures
        lex_before(a, c),
    decreases a.len(),
{
    if a.len() > 0 && a[0] == b[0] && b[0] == c[0] {
        lex_before_transitive(a.skip(1), b.skip(1), c.skip(1));
    }
}

/// Of two different byte strings one comes before the other.
pub proof fn lex_before_total(a: Seq<u8>, b: Seq<u8>)
    ensures
        a == b || lex_before(a, b) || lex_before(b, a),
    decreases a.len(),
{
    if a.len() == 0 || b.len() == 0 {
        if a.len() == 0 && b.len() == 0 {
            assert(a =~= b);
        }
    } else if a[0] == b[0] {
        lex_before_total(a.skip(1), b.skip(1));
        if a.skip(1) == b.skip(1) {
            assert(a =~= seq![a[0]] + a.skip(1));
            assert(b =~= seq![b[0]] + b.skip(1));
        }
    }
}

/// Tells whether `a` comes strictly before `b`.
pub fn bytes_before(a: &[u8], b: &[u8]) -> (before: bool)
    ensures
        before == lex_before(a@, b@),
{
    let mut i: usize = 0;
    proof {
        assert(a@.skip(0) =~= a@);
        assert(b@.skip(0) =~= b@);
    }
    while i < a.len() && i < b.len()
        invariant
            i <= a.len(),
            i <= b.len(),
            lex_before(a@, b@) == lex_before(a@.skip(i as int), b@.skip(i as int)),
        decreases a.len() - i,
    {
        let ghost ra = a@.skip(i as int);
        let ghost rb = b@.skip(i as int);
        assert(ra[0] == a@[i as int] && rb[0] == b@[i as int]);
        if a[i] != b[i] {
            return a[i] < b[i];
        }
        assert(ra.skip(1) =~= a@.skip(i + 1));
        assert(rb.skip(1) =~= b@.skip(i + 1));
        i = i + 1;
    }
    i < b.len()
}

/// Tells whether two byte strings are equal.
pub fn bytes_equal(a: &[u8], b: &[u8]) -> (equal: bool)
    ensures
        equal == (a@ == b@),
{
    if a.len() != b.len() {
        return false;
    }
    let mut i: usize = 0;
    while i < a.len()
        invariant
            i <= a.len(),
            a.len() == b.len(),
            forall|j: int| 0 <= j < i ==> a@[j] == b@[j],
        decreases a.len() - i,
    {
        if a[i] != b[i] {
            return false;
        }
        i = i + 1;
    }
    assert(a@ =~= b@);
    true
}

} // verus!
