//! Orders used to rank combinations: lexicographic order on sequences, and the
//! specificity order (more members first, then by name, then by members).
use vstd::prelude::*;

verus! {

/// Strict lexicographic order on integer sequences; a proper prefix comes first.
pub open spec fn lex_lt(a: Seq<int>, b: Seq<int>) -> bool
    decreases a.len(),
{
    if a.len() == 0 {
        b.len() > 0
    } else if b.len() == 0 {
        false
    } else if a[0] != b[0] {
        a[0] < b[0]
    } else {
        lex_lt(a.drop_first(), b.drop_first())
    }
}

/// The code points of a string.
pub open spec fn codes(s: Seq<char>) -> Seq<int> {
    s.map_values(|c: char| c as int)
}

/// A sequence of indices, as integers.
pub open spec fn ints(s: Seq<usize>) -> Seq<int> {
    s.map_values(|x: usize| x as int)
}

/// Strict order on names: code point by code point, as `str` compares.
pub open spec fn name_lt(a: Seq<char>, b: Seq<char>) -> bool {
    lex_lt(codes(a), codes(b))
}

/// Specificity order on (members, name) pairs: more members first; among equally
/// many, the smaller name first; equal names are told apart by their members.
pub open spec fn precedes(am: Seq<usize>, an: Seq<char>, bm: Seq<usize>, bn: Seq<char>) -> bool {
    ||| am.len() > bm.len()
    ||| am.len() == bm.len() && name_lt(an, bn)
    ||| am.len() == bm.len() && an == bn && lex_lt(ints(am), ints(bm))
}

pub proof fn lemma_lex_irreflexive(a: Seq<int>)
    ensures
        !lex_lt(a, a),
    decreases a.len(),
{
    if a.len() > 0 {
        lemma_lex_irreflexive(a.drop_first());
    }
}

pub proof fn lemma_lex_transitive(a: Seq<int>, b: Seq<int>, c: Seq<int>)
    requires
        lex_lt(a, b),
        lex_lt(b, c),
    ensures
        lex_lt(a, c),
    decreases a.len(),
{
    if a.len() > 0 && b.len() > 0 && c.len() > 0 && a[0] == b[0] && b[0] == c[0] {
        lemma_lex_transitive(a.drop_first(), b.drop_first(), c.drop_first());
    }
}

pub proof fn lemma_lex_total(a: Seq<int>, b: Seq<int>)
    ensures
        lex_lt(a, b) || a == b || lex_lt(b, a),
    decreases a.len(),
{
    if a.len() == 0 && b.len() == 0 {
        assert(a =~= b);
    } else if a.len() > 0 && b.len() > 0 && a[0] == b[0] {
        lemma_lex_total(a.drop_first(), b.drop_first());
        assert(a.drop_first().len() == a.len() - 1);
        assert(b.drop_first().len() == b.len() - 1);
        if a.drop_first() == b.drop_first() {
            assert(a =~= b) by {
                assert forall|i: int| 0 <= i < a.len() implies a[i] == b[i] by {
                    if i > 0 {
                        assert(a[i] == a.drop_first()[i - 1]);
                        assert(b[i] == b.drop_first()[i - 1]);
                    }
                }
            }
        }
    }
}

pub proof fn lemma_lex_asymmetric(a: Seq<int>, b: Seq<int>)
    requires
        lex_lt(a, b),
    ensures
        !lex_lt(b, a),
{
    if lex_lt(b, a) {
        lemma_lex_transitive(a, b, a);
        lemma_lex_irreflexive(a);
    }
}

pub proof fn lemma_codes_injective(a: Seq<char>, b: Seq<char>)
    requires
        codes(a) == codes(b),
    ensures
        a == b,
{
    assert(a.len() == codes(a).len());
    assert(b.len() == codes(b).len());
    assert forall|i: int| 0 <= i < a.len() implies a[i] == b[i] by {
        assert(codes(a)[i] == a[i] as int);
        assert(codes(b)[i] == b[i] as int);
    }
    assert(a =~= b);
}

pub proof fn lemma_ints_injective(a: Seq<usize>, b: Seq<usize>)
    requires
        ints(a) == ints(b),
    ensures
        a == b,
{
    assert(a.len() == ints(a).len());
    assert(b.len() == ints(b).len());
    assert forall|i: int| 0 <= i < a.len() implies a[i] == b[i] by {
        assert(ints(a)[i] == a[i] as int);
        assert(ints(b)[i] == b[i] as int);
    }
    assert(a =~= b);
}

pub proof fn lemma_precedes_transitive(
    am: Seq<usize>,
    an: Seq<char>,
    bm: Seq<usize>,
    bn: Seq<char>,
    cm: Seq<usize>,
    cn: Seq<char>,
)
    requires
        precedes(am, an, bm, bn),
        precedes(bm, bn, cm, cn),
    ensures
        precedes(am, an, cm, cn),
{
    if am.len() == bm.len() && bm.len() == cm.len() {
        if name_lt(an, bn) && name_lt(bn, cn) {
            lemma_lex_transitive(codes(an), codes(bn), codes(cn));
        } else if lex_lt(ints(am), ints(bm)) && lex_lt(ints(bm), ints(cm)) && an == bn && bn
            == cn {
            lemma_lex_transitive(ints(am), ints(bm), ints(cm));
        }
    }
}

pub proof fn lemma_precedes_irreflexive(am: Seq<usize>, an: Seq<char>)
    ensures
        !precedes(am, an, am, an),
{
    lemma_lex_irreflexive(codes(an));
    lemma_lex_irreflexive(ints(am));
}

pub proof fn lemma_precedes_asymmetric(am: Seq<usize>, an: Seq<char>, bm: Seq<usize>, bn: Seq<char>)
    requires
        precedes(am, an, bm, bn),
    ensures
        !precedes(bm, bn, am, an),
{
    if precedes(bm, bn, am, an) {
        lemma_precedes_transitive(am, an, bm, bn, am, an);
        lemma_precedes_irreflexive(am, an);
    }
}

pub proof fn lemma_precedes_total(am: Seq<usize>, an: Seq<char>, bm: Seq<usize>, bn: Seq<char>)
    ensures
        precedes(am, an, bm, bn) || (am == bm && an == bn) || precedes(bm, bn, am, an),
{
    lemma_lex_total(codes(an), codes(bn));
    lemma_lex_total(ints(am), ints(bm));
    if codes(an) == codes(bn) {
        lemma_codes_injective(an, bn);
    }
    if ints(am) == ints(bm) {
        lemma_ints_injective(am, bm);
    }
}

pub proof fn lemma_lex_singletons(x: usize, y: usize)
    ensures
        lex_lt(ints(seq![x]), ints(seq![y])) == (x < y),
{
    let a = ints(seq![x]);
    let b = ints(seq![y]);
    assert(a.len() == 1 && b.len() == 1);
    assert(a[0] == x as int && b[0] == y as int);
    assert(a.drop_first().len() == 0);
    assert(b.drop_first().len() == 0);
    assert(!lex_lt(a.drop_first(), b.drop_first()));
}

/// Compares two strings, held as characters, code point by code point.
pub fn chars_lt(a: &Vec<char>, b: &Vec<char>) -> (r: bool)
    ensures
        r == name_lt(a@, b@),
{
    let mut i: usize = 0;
    assert(codes(a@).subrange(0, a@.len() as int) =~= codes(a@));
    assert(codes(b@).subrange(0, b@.len() as int) =~= codes(b@));
    while i < a.len() && i < b.len()
        invariant
            i <= a.len(),
            i <= b.len(),
            name_lt(a@, b@) == lex_lt(
                codes(a@).subrange(i as int, a@.len() as int),
                codes(b@).subrange(i as int, b@.len() as int),
            ),
        decreases a.len() - i,
    {
        let ca = a[i];
        let cb = b[i];
        let ghost sa = codes(a@).subrange(i as int, a@.len() as int);
        let ghost sb = codes(b@).subrange(i as int, b@.len() as int);
        assert(sa[0] == ca as int);
        assert(sb[0] == cb as int);
        if ca != cb {
            return ca < cb;
        }
        assert(sa.drop_first() =~= codes(a@).subrange(i + 1, a@.len() as int));
        assert(sb.drop_first() =~= codes(b@).subrange(i + 1, b@.len() as int));
        i = i + 1;
    }
    i == a.len() && i < b.len()
}

/// Compares two index sequences lexicographically.
pub fn indices_lt(a: &Vec<usize>, b: &Vec<usize>) -> (r: bool)
    ensures
        r == lex_lt(ints(a@), ints(b@)),
{
    let mut i: usize = 0;
    assert(ints(a@).subrange(0, a@.len() as int) =~= ints(a@));
    assert(ints(b@).subrange(0, b@.len() as int) =~= ints(b@));
    while i < a.len() && i < b.len()
        invariant
            i <= a.len(),
            i <= b.len(),
            lex_lt(ints(a@), ints(b@)) == lex_lt(
                ints(a@).subrange(i as int, a@.len() as int),
                ints(b@).subrange(i as int, b@.len() as int),
            ),
        decreases a.len() - i,
    {
        let xa = a[i];
        let xb = b[i];
        let ghost sa = ints(a@).subrange(i as int, a@.len() as int);
        let ghost sb = ints(b@).subrange(i as int, b@.len() as int);
        assert(sa[0] == xa as int);
        assert(sb[0] == xb as int);
        if xa != xb {
            return xa < xb;
        }
        assert(sa.drop_first() =~= ints(a@).subrange(i + 1, a@.len() as int));
        assert(sb.drop_first() =~= ints(b@).subrange(i + 1, b@.len() as int));
        i = i + 1;
    }
    i == a.len() && i < b.len()
}

} // verus!
