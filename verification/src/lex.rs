//! Byte strings in lexicographic order, the order of `str` and `[u8]`.
use vstd::prelude::*;

verus! {

/// `a` sorts before `b`: at the first byte where they differ, `a` has the
/// smaller one, or `a` is a proper prefix of `b`.
pub open spec fn lex_lt(a: Seq<u8>, b: Seq<u8>) -> bool
    decreases a.len(),
{
    if a.len() == 0 {
        b.len() > 0
    } else if b.len() == 0 {
        false
    } else if a[0] != b[0] {
        a[0] < b[0]
    } else {
        lex_lt(a.drop_first(), b.drop_first())
    }
}

/// No byte string sorts before itself.
pub proof fn lemma_lex_irreflexive(a: Seq<u8>)
    ensures
        !lex_lt(a, a),
    decreases a.len(),
{
    if a.len() > 0 {
        lemma_lex_irreflexive(a.drop_first());
    }
}

/// Of two different byte strings, exactly one sorts before the other.
pub proof fn lemma_lex_total(a: Seq<u8>, b: Seq<u8>)
    ensures
        a != b ==> (lex_lt(a, b) || lex_lt(b, a)),
        !(lex_lt(a, b) && lex_lt(b, a)),
    decreases a.len(),
{
    if a.len() > 0 && b.len() > 0 && a[0] == b[0] {
        lemma_lex_total(a.drop_first(), b.drop_first());
        if a != b {
            assert(a =~= seq![a[0]] + a.drop_first());
            assert(b =~= seq![b[0]] + b.drop_first());
        }
    }
    if a.len() == 0 && b.len() == 0 {
        assert(a =~= b);
    }
}

/// The order is transitive.
pub proof fn lemma_lex_transitive(a: Seq<u8>, b: Seq<u8>, c: Seq<u8>)
    requires
        lex_lt(a, b),
        lex_lt(b, c),
    ensures
        lex_lt(a, c),
    decreases a.len(),
{
    if a.len() > 0 && b.len() > 0 && c.len() > 0 && a[0] == b[0] && b[0] == c[0] {
        lemma_lex_transitive(a.drop_first(), b.drop_first(), c.drop_first());
    }
}

/// `a` sorts before `b`.
pub fn bytes_lt(a: &[u8], b: &[u8]) -> (r: bool)
    ensures
        r == lex_lt(a@, b@),
{
    let mut i: usize = 0;
    assert(a@.skip(0) =~= a@ && b@.skip(0) =~= b@);
    while i < a.len() && i < b.len()
        invariant
            i <= a@.len(),
            i <= b@.len(),
            lex_lt(a@, b@) == lex_lt(a@.skip(i as int), b@.skip(i as int)),
        decreases a@.len() - i,
    {
        if a[i] != b[i] {
            return a[i] < b[i];
        }
        proof {
            assert(a@.skip(i as int).drop_first() =~= a@.skip(i + 1));
            assert(b@.skip(i as int).drop_first() =~= b@.skip(i + 1));
        }
        i = i + 1;
    }
    i < b.len()
}

/// `p` is a prefix of `s`.
pub fn bytes_starts_with(s: &[u8], p: &[u8]) -> (r: bool)
    ensures
        r == p@.is_prefix_of(s@),
{
    if p.len() > s.len() {
        return false;
    }
    let mut i: usize = 0;
    while i < p.len()
        invariant
            p@.len() <= s@.len(),
            i <= p@.len(),
            forall|k: int| 0 <= k < i ==> p@[k] == s@[k],
        decreases p@.len() - i,
    {
        if p[i] != s[i] {
            assert(s@.subrange(0, p@.len() as int)[i as int] != p@[i as int]);
            return false;
        }
        i = i + 1;
    }
    assert(p@ =~= s@.subrange(0, p@.len() as int));
    true
}

/// A proper prefix sorts before every longer byte string that extends it,
/// and the order of two byte strings is decided at their first difference:
/// what follows it does not matter.
pub proof fn lemma_lex_prefix(a: Seq<u8>, s: Seq<u8>)
    requires
        s.len() > 0,
    ensures
        lex_lt(a, a + s),
        !lex_lt(a + s, a),
    decreases a.len(),
{
    if a.len() > 0 {
        lemma_lex_prefix(a.drop_first(), s);
        assert((a + s).drop_first() =~= a.drop_first() + s);
    }
}

/// At the first position where two byte strings differ, the smaller byte
/// decides, whatever follows.
pub proof fn lemma_lex_first_difference(p: Seq<u8>, x: u8, y: u8, s: Seq<u8>, t: Seq<u8>)
    requires
        x < y,
    ensures
        lex_lt(p.push(x) + s, p.push(y) + t),
        !lex_lt(p.push(y) + t, p.push(x) + s),
    decreases p.len(),
{
    if p.len() > 0 {
        lemma_lex_first_difference(p.drop_first(), x, y, s, t);
        assert((p.push(x) + s).drop_first() =~= p.drop_first().push(x) + s);
        assert((p.push(y) + t).drop_first() =~= p.drop_first().push(y) + t);
    } else {
        assert((p.push(x) + s)[0] == x);
        assert((p.push(y) + t)[0] == y);
    }
}

} // verus!
