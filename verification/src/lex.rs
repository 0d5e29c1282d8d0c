//! Lexicographic order on byte strings, the order in which string slices
//! compare, with the facts a sort needs: it is reflexive, antisymmetric,
//! transitive and total.
use vstd::prelude::*;

verus! {

/// `a` sorts before or together with `b`: at the first position where they
/// differ the byte of `a` is smaller, or `a` is a prefix of `b`.
pub open spec fn lex_le(a: Seq<u8>, b: Seq<u8>) -> bool
    decreases a.len(),
{
    if a.len() == 0 {
        true
    } else if b.len() == 0 {
        false
    } else if a[0] < b[0] {
        true
    } else if a[0] > b[0] {
        false
    } else {
        lex_le(a.drop_first(), b.drop_first())
    }
}

/// The order is reflexive.
pub proof fn lemma_lex_le_refl(a: Seq<u8>)
    ensures
        lex_le(a, a),
    decreases a.len(),
{
    if a.len() > 0 {
        lemma_lex_le_refl(a.drop_first());
    }
}

/// The order is total.
pub proof fn lemma_lex_le_total(a: Seq<u8>, b: Seq<u8>)
    ensures
        lex_le(a, b) || lex_le(b, a),
    decreases a.len(),
{
    if a.len() > 0 && b.len() > 0 && a[0] == b[0] {
        lemma_lex_le_total(a.drop_first(), b.drop_first());
    }
}

/// The order is antisymmetric.
pub proof fn lemma_lex_le_antisym(a: Seq<u8>, b: Seq<u8>)
    requires
        lex_le(a, b),
        lex_le(b, a),
    ensures
        a == b,
    decreases a.len(),
{
    if a.len() == 0 {
        assert(b.len() == 0);
        assert(a =~= b);
    } else {
        assert(b.len() > 0);
        assert(a[0] == b[0]);
        lemma_lex_le_antisym(a.drop_first(), b.drop_first());
        assert(a =~= seq![a[0]].add(a.drop_first()));
        assert(b =~= seq![b[0]].add(b.drop_first()));
    }
}

/// The order is transitive.
pub proof fn lemma_lex_le_trans(a: Seq<u8>, b: Seq<u8>, c: Seq<u8>)
    requires
        lex_le(a, b),
        lex_le(b, c),
    ensures
        lex_le(a, c),
    decreases a.len(),
{
    if a.len() > 0 && b.len() > 0 && c.len() > 0 && a[0] == b[0] && b[0] == c[0] {
        lemma_lex_le_trans(a.drop_first(), b.drop_first(), c.drop_first());
    }
}

/// The order compares byte strings at their first byte, as unsigned
/// numbers, and only on equal first bytes looks further; the empty string
/// comes first and nothing non-empty precedes it.
pub proof fn lemma_lex_le_first_bytes(x: u8, y: u8, s: Seq<u8>, t: Seq<u8>)
    ensures
        lex_le(seq![x].add(s), seq![y].add(t)) == (x < y || (x == y && lex_le(s, t))),
        lex_le(Seq::empty(), t),
        !lex_le(seq![x].add(s), Seq::empty()),
        lex_le(seq![x], seq![y]) <==> x <= y,
{
    assert(seq![x].add(s)[0] == x);
    assert(seq![y].add(t)[0] == y);
    assert(seq![x].add(s).drop_first() =~= s);
    assert(seq![y].add(t).drop_first() =~= t);
    assert(seq![x].drop_first() =~= Seq::<u8>::empty());
    assert(seq![y].drop_first() =~= Seq::<u8>::empty());
    assert(seq![x][0] == x);
    assert(seq![y][0] == y);
    assert(lex_le(Seq::<u8>::empty(), Seq::<u8>::empty()));
}

/// Compares two byte strings in lexicographic order.
pub fn lex_le_bytes(a: &Vec<u8>, b: &Vec<u8>) -> (r: bool)
    ensures
        r == lex_le(a@, b@),
{
    let mut i: usize = 0;
    assert(a@.skip(0) =~= a@);
    assert(b@.skip(0) =~= b@);
    while i < a.len() && i < b.len()
        invariant
            i <= a@.len(),
            i <= b@.len(),
            lex_le(a@, b@) == lex_le(a@.skip(i as int), b@.skip(i as int)),
        decreases a@.len() - i,
    {
        let x = a[i];
        let y = b[i];
        if x < y {
            return true;
        }
        if x > y {
            return false;
        }
        assert(a@.skip(i as int).drop_first() =~= a@.skip(i + 1));
        assert(b@.skip(i as int).drop_first() =~= b@.skip(i + 1));
        i = i + 1;
    }
    i == a.len()
}

} // verus!
