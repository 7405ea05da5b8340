//! The order of the word directory: byte strings compared lexicographically,
//! which is the order of Rust's strings.

use vstd::prelude::*;

verus! {

/// `a` comes before `b`: at the first place where they differ `a` has the
/// smaller byte, or `a` ends there and `b` goes on.
pub open spec fn lex_lt(a: Seq<u8>, b: Seq<u8>) -> bool
    decreases a.len(),
{
    if b.len() == 0 {
        false
    } else if a.len() == 0 {
        true
    } else if a[0] != b[0] {
        a[0] < b[0]
    } else {
        lex_lt(a.skip(1), b.skip(1))
    }
}

/// No byte string comes before itself.
pub proof fn lemma_lex_irreflexive(a: Seq<u8>)
    ensures
        !lex_lt(a, a),
    decreases a.len(),
{
    if a.len() > 0 {
        lemma_lex_irreflexive(a.skip(1));
    }
}

/// Of two byte strings at most one comes before the other.
pub proof fn lemma_lex_asymmetric(a: Seq<u8>, b: Seq<u8>)
    requires
        lex_lt(a, b),
    ensures
        !lex_lt(b, a),
    decreases a.len(),
{
    if a.len() > 0 && b.len() > 0 && a[0] == b[0] {
        lemma_lex_asymmetric(a.skip(1), b.skip(1));
    }
}

/// What comes before a byte string comes before all that the byte string
/// comes before.
pub proof fn lemma_lex_transitive(a: Seq<u8>, b: Seq<u8>, c: Seq<u8>)
    requires
        lex_lt(a, b),
        lex_lt(b, c),
    ensures
        lex_lt(a, c),
    decreases a.len(),
{
    if a.len() > 0 && b.len() > 0 && c.len() > 0 && a[0] == b[0] && b[0] == c[0] {
        lemma_lex_transitive(a.skip(1), b.skip(1), c.skip(1));
    }
}

/// Of two different byte strings one comes before the other.
pub proof fn lemma_lex_total(a: Seq<u8>, b: Seq<u8>)
    ensures
        lex_lt(a, b) || a == b || lex_lt(b, a),
    decreases a.len(),
{
    if a.len() > 0 && b.len() > 0 && a[0] == b[0] {
        lemma_lex_total(a.skip(1), b.skip(1));
        if a.skip(1) == b.skip(1) {
            assert(a =~= seq![a[0]] + a.skip(1));
            assert(b =~= seq![b[0]] + b.skip(1));
        }
    } else if a.len() == 0 && b.len() == 0 {
        assert(a =~= b);
    }
}

/// `a` does not come after `b`.
pub open spec fn lex_le(a: Seq<u8>, b: Seq<u8>) -> bool {
    !lex_lt(b, a)
}

/// What does not come after a byte string comes before all that the byte
/// string comes before.
pub proof fn lemma_lex_le_lt_transitive(a: Seq<u8>, b: Seq<u8>, c: Seq<u8>)
    requires
        lex_le(a, b),
        lex_lt(b, c),
    ensures
        lex_lt(a, c),
{
    lemma_lex_total(a, b);
    if a != b {
        lemma_lex_transitive(a, b, c);
    }
}

/// A byte string does not come before any of its prefixes.
pub proof fn lemma_prefix_not_greater(p: Seq<u8>, s: Seq<u8>)
    requires
        p.is_prefix_of(s),
    ensures
        lex_le(p, s),
    decreases p.len(),
{
    if p.len() > 0 {
        assert(p[0] == s.subrange(0, p.len() as int)[0]);
        assert(p.skip(1) =~= s.skip(1).subrange(0, p.len() - 1));
        lemma_prefix_not_greater(p.skip(1), s.skip(1));
    }
}

/// What lies between a byte string and one of its extensions is an extension
/// of it too.
pub proof fn lemma_prefix_between(p: Seq<u8>, x: Seq<u8>, y: Seq<u8>)
    requires
        lex_le(p, x),
        lex_le(x, y),
        p.is_prefix_of(y),
    ensures
        p.is_prefix_of(x),
    decreases p.len(),
{
    if p.len() > 0 {
        assert(p[0] == y.subrange(0, p.len() as int)[0]);
        assert(p.skip(1) =~= y.skip(1).subrange(0, p.len() - 1));
        lemma_prefix_between(p.skip(1), x.skip(1), y.skip(1));
        assert(p =~= x.subrange(0, p.len() as int)) by {
            assert(p.skip(1) =~= x.skip(1).subrange(0, p.len() - 1));
            assert forall|i: int| 0 <= i < p.len() implies p[i] == x[i] by {
                if i > 0 {
                    assert(p[i] == p.skip(1)[i - 1]);
                    assert(x[i] == x.skip(1).subrange(0, p.len() - 1)[i - 1]);
                }
            }
        }
    } else {
        assert(p =~= x.subrange(0, 0));
    }
}

/// Whether `a` comes before `b`.
pub fn bytes_lt(a: &[u8], b: &[u8]) -> (r: bool)
    ensures
        r == lex_lt(a@, b@),
{
    let mut i: usize = 0;
    assert(a@.skip(0) =~= a@);
    assert(b@.skip(0) =~= b@);
    while i < a.len() && i < b.len()
        invariant
            i <= a@.len(),
            i <= b@.len(),
            lex_lt(a@, b@) == lex_lt(a@.skip(i as int), b@.skip(i as int)),
        decreases a@.len() - i,
    {
        if a[i] != b[i] {
            return a[i] < b[i];
        }
        assert(a@.skip(i as int).skip(1) =~= a@.skip(i + 1));
        assert(b@.skip(i as int).skip(1) =~= b@.skip(i + 1));
        i = i + 1;
    }
    i < b.len()
}

/// Whether `s` starts with `p`.
pub fn bytes_starts_with(s: &[u8], p: &[u8]) -> (r: bool)
    ensures
        r == p@.is_prefix_of(s@),
{
    if p.len() > s.len() {
        return false;
    }
    let mut i: usize = 0;
    while i < p.len()
        invariant
            i <= p@.len() <= s@.len(),
            forall|j: int| 0 <= j < i ==> p@[j] == s@[j],
        decreases p@.len() - i,
    {
        if s[i] != p[i] {
            assert(s@.subrange(0, p@.len() as int)[i as int] != p@[i as int]);
            return false;
        }
        i = i + 1;
    }
    assert(p@ =~= s@.subrange(0, p@.len() as int));
    true
}

/// Whether `a` and `b` hold the same bytes.
pub fn bytes_eq(a: &[u8], b: &[u8]) -> (r: bool)
    ensures
        r == (a@ == b@),
{
    if a.len() != b.len() {
        return false;
    }
    let mut i: usize = 0;
    while i < a.len()
        invariant
            i <= a@.len(),
            a@.len() == b@.len(),
            forall|j: int| 0 <= j < i ==> a@[j] == b@[j],
        decreases a@.len() - i,
    {
        if a[i] != b[i] {
            return false;
        }
        i = i + 1;
    }
    assert(a@ =~= b@);
    true
}

} // verus!
