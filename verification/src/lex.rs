//! Strict byte-lexicographic order on byte sequences: the order in
//! which the storage engine keeps its keys. A proper prefix sorts
//! before every extension of it.

use vstd::prelude::*;

use crate::codec::lex_less;

verus! {

/// Outcome of comparing two keys byte-lexicographically.
#[derive(Clone, Copy, PartialEq, Eq, Structural, Debug)]
pub enum KeyOrder {
    Less,
    Equal,
    Greater,
}

/// The order is irreflexive.
pub proof fn lemma_lex_irrefl(a: Seq<u8>)
    ensures
        !lex_less(a, a),
    decreases a.len(),
{
    if a.len() > 0 {
        lemma_lex_irrefl(a.subrange(1, a.len() as int));
    }
}

/// At most one of `a < b` and `b < a` holds.
pub proof fn lemma_lex_asym(a: Seq<u8>, b: Seq<u8>)
    requires
        lex_less(a, b),
    ensures
        !lex_less(b, a),
    decreases a.len(),
{
    if a.len() > 0 && b.len() > 0 && a[0] == b[0] {
        lemma_lex_asym(a.subrange(1, a.len() as int), b.subrange(1, b.len() as int));
    }
}

/// Any two distinct keys are ordered one way or the other.
pub proof fn lemma_lex_total(a: Seq<u8>, b: Seq<u8>)
    ensures
        lex_less(a, b) || lex_less(b, a) || a == b,
    decreases a.len(),
{
    if a.len() == 0 && b.len() == 0 {
        assert(a =~= b);
    } else if a.len() > 0 && b.len() > 0 && a[0] == b[0] {
        let a1 = a.subrange(1, a.len() as int);
        let b1 = b.subrange(1, b.len() as int);
        lemma_lex_total(a1, b1);
        if !lex_less(a1, b1) && !lex_less(b1, a1) {
            assert(a =~= b) by {
                assert(a1 == b1);
                assert(forall|i: int|
                    1 <= i < a.len() ==> a[i] == a1[i - 1] && b[i] == b1[i - 1]);
            }
        }
    }
}

/// The order is transitive.
pub proof fn lemma_lex_trans(a: Seq<u8>, b: Seq<u8>, c: Seq<u8>)
    requires
        lex_less(a, b),
        lex_less(b, c),
    ensures
        lex_less(a, c),
    decreases a.len() + b.len() + c.len(),
{
    if a.len() > 0 && c.len() > 0 {
        if b.len() > 0 {
            if a[0] == b[0] && b[0] == c[0] {
                lemma_lex_trans(
                    a.subrange(1, a.len() as int),
                    b.subrange(1, b.len() as int),
                    c.subrange(1, c.len() as int),
                );
            }
        }
    }
}

/// Keys that agree on a prefix of equal length compare as their tails do.
pub proof fn lemma_lex_common_prefix(p: Seq<u8>, s: Seq<u8>, t: Seq<u8>)
    ensures
        lex_less(p + s, p + t) <==> lex_less(s, t),
    decreases p.len(),
{
    if p.len() == 0 {
        assert(p + s =~= s);
        assert(p + t =~= t);
    } else {
        let p1 = p.subrange(1, p.len() as int);
        lemma_lex_common_prefix(p1, s, t);
        assert((p + s).subrange(1, (p + s).len() as int) =~= p1 + s);
        assert((p + t).subrange(1, (p + t).len() as int) =~= p1 + t);
        assert((p + s)[0] == (p + t)[0]);
    }
}

/// Keys whose equal-length prefixes already differ compare as the
/// prefixes do, whatever follows them.
pub proof fn lemma_lex_prefix_diff(p: Seq<u8>, q: Seq<u8>, s: Seq<u8>, t: Seq<u8>)
    requires
        p.len() == q.len(),
        lex_less(p, q),
    ensures
        lex_less(p + s, q + t),
    decreases p.len(),
{
    if p.len() > 0 {
        if p[0] == q[0] {
            let p1 = p.subrange(1, p.len() as int);
            let q1 = q.subrange(1, q.len() as int);
            lemma_lex_prefix_diff(p1, q1, s, t);
            assert((p + s).subrange(1, (p + s).len() as int) =~= p1 + s);
            assert((q + t).subrange(1, (q + t).len() as int) =~= q1 + t);
        }
    }
}

/// Compares two keys byte-lexicographically.
pub fn lex_cmp(a: &[u8], b: &[u8]) -> (r: KeyOrder)
    ensures
        r == KeyOrder::Less <==> lex_less(a@, b@),
        r == KeyOrder::Greater <==> lex_less(b@, a@),
        r == KeyOrder::Equal <==> a@ == b@,
    decreases a@.len(),
{
    proof {
        lemma_lex_total(a@, b@);
        if lex_less(a@, b@) {
            lemma_lex_asym(a@, b@);
        }
        if lex_less(b@, a@) {
            lemma_lex_asym(b@, a@);
        }
        lemma_lex_irrefl(a@);
        lemma_lex_irrefl(b@);
    }
    if b.len() == 0 {
        if a.len() == 0 {
            proof {
                assert(a@ =~= b@);
            }
            KeyOrder::Equal
        } else {
            KeyOrder::Greater
        }
    } else if a.len() == 0 {
        KeyOrder::Less
    } else if a[0] < b[0] {
        KeyOrder::Less
    } else if a[0] > b[0] {
        KeyOrder::Greater
    } else {
        let a1 = vstd::slice::slice_subrange(a, 1, a.len());
        let b1 = vstd::slice::slice_subrange(b, 1, b.len());
        let r = lex_cmp(a1, b1);
        proof {
            if r == KeyOrder::Equal {
                assert(a@ =~= b@) by {
                    assert(a1@ == b1@);
                    assert(forall|i: int|
                        1 <= i < a@.len() ==> a@[i] == a1@[i - 1] && b@[i] == b1@[i - 1]);
                }
            }
        }
        r
    }
}

} // verus!
