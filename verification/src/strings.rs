//! Lexicographic order and prefix relation on character sequences.
//!
//! Competitor identifiers are opaque sortable strings: the identity store
//! keeps them in this order, and prefix search depends on strings sharing a
//! prefix being contiguous in it.

use vstd::prelude::*;

verus! {

/// Lexicographic "less or equal" on character sequences, by scalar value.
pub open spec fn lex_le(a: Seq<char>, b: Seq<char>) -> bool
    decreases a.len(),
{
    if a.len() == 0 {
        true
    } else if b.len() == 0 {
        false
    } else if (a[0] as u32) < (b[0] as u32) {
        true
    } else if (a[0] as u32) > (b[0] as u32) {
        false
    } else {
        lex_le(a.skip(1), b.skip(1))
    }
}

/// Strict lexicographic order.
pub open spec fn lex_lt(a: Seq<char>, b: Seq<char>) -> bool {
    lex_le(a, b) && a != b
}

/// `p` is a literal prefix of `s`.
pub open spec fn is_prefix(p: Seq<char>, s: Seq<char>) -> bool {
    p.len() <= s.len() && s.subrange(0, p.len() as int) == p
}

/// Comparing two sequences that agree on their first `i` characters comes
/// down to comparing what is left after those characters.
pub proof fn lemma_lex_le_skip(a: Seq<char>, b: Seq<char>, i: int)
    requires
        0 <= i <= a.len(),
        i <= b.len(),
        forall|j: int| 0 <= j < i ==> a[j] == b[j],
    ensures
        lex_le(a, b) == lex_le(a.skip(i), b.skip(i)),
    decreases i,
{
    if i > 0 {
        assert(a[0] == b[0]);
        assert(forall|j: int| 0 <= j < i - 1 ==> a.skip(1)[j] == b.skip(1)[j]);
        lemma_lex_le_skip(a.skip(1), b.skip(1), i - 1);
        assert(a.skip(1).skip(i - 1) =~= a.skip(i));
        assert(b.skip(1).skip(i - 1) =~= b.skip(i));
    } else {
        assert(a.skip(0) =~= a);
        assert(b.skip(0) =~= b);
    }
}

/// Characters are their scalar values: equal scalars mean equal characters.
pub proof fn lemma_char_cast_inj(c1: char, c2: char)
    requires
        (c1 as u32) == (c2 as u32),
    ensures
        c1 == c2,
{
    vstd::utf8::char_u32_cast(c1, c1 as u32);
    vstd::utf8::char_u32_cast(c2, c2 as u32);
}

/// Reflexivity of the lexicographic order.
pub proof fn lemma_lex_le_refl(a: Seq<char>)
    ensures
        lex_le(a, a),
    decreases a.len(),
{
    if a.len() > 0 {
        lemma_lex_le_refl(a.skip(1));
    }
}

/// Totality: any two sequences are comparable.
pub proof fn lemma_lex_le_total(a: Seq<char>, b: Seq<char>)
    ensures
        lex_le(a, b) || lex_le(b, a),
    decreases a.len(),
{
    if a.len() > 0 && b.len() > 0 && (a[0] as u32) == (b[0] as u32) {
        lemma_char_cast_inj(a[0], b[0]);
        lemma_lex_le_total(a.skip(1), b.skip(1));
    }
}

/// Antisymmetry: sequences ordered both ways are equal.
pub proof fn lemma_lex_le_antisym(a: Seq<char>, b: Seq<char>)
    requires
        lex_le(a, b),
        lex_le(b, a),
    ensures
        a == b,
    decreases a.len(),
{
    if a.len() == 0 {
        assert(b.len() == 0);
        assert(a =~= b);
    } else {
        assert(b.len() > 0);
        assert((a[0] as u32) == (b[0] as u32)) by {
            if (a[0] as u32) < (b[0] as u32) {
                assert(!lex_le(b, a));
            }
            if (a[0] as u32) > (b[0] as u32) {
                assert(!lex_le(a, b));
            }
        };
        lemma_char_cast_inj(a[0], b[0]);
        lemma_lex_le_antisym(a.skip(1), b.skip(1));
        assert forall|j: int| 0 <= j < a.len() implies a[j] == b[j] by {
            if j > 0 {
                assert(a.skip(1)[j - 1] == b.skip(1)[j - 1]);
            }
        }
        assert(a =~= b);
    }
}

/// Transitivity of the lexicographic order.
pub proof fn lemma_lex_le_trans(a: Seq<char>, b: Seq<char>, c: Seq<char>)
    requires
        lex_le(a, b),
        lex_le(b, c),
    ensures
        lex_le(a, c),
    decreases a.len(),
{
    if a.len() > 0 {
        assert(b.len() > 0);
        assert(c.len() > 0);
        if (a[0] as u32) == (c[0] as u32) {
            assert((a[0] as u32) == (b[0] as u32));
            lemma_lex_le_trans(a.skip(1), b.skip(1), c.skip(1));
        }
    }
}

/// A prefix of a sequence never comes after it.
pub proof fn lemma_prefix_le(p: Seq<char>, s: Seq<char>)
    requires
        is_prefix(p, s),
    ensures
        lex_le(p, s),
    decreases p.len(),
{
    if p.len() > 0 {
        assert(s.subrange(0, p.len() as int)[0] == p[0]);
        assert(s.skip(1).subrange(0, p.len() - 1) =~= p.skip(1)) by {
            assert forall|j: int| 0 <= j < p.len() - 1 implies s.skip(1).subrange(
                0,
                p.len() - 1,
            )[j] == p.skip(1)[j] by {
                assert(s.subrange(0, p.len() as int)[j + 1] == p[j + 1]);
            }
        }
        lemma_prefix_le(p.skip(1), s.skip(1));
    }
}

/// Strings sharing a prefix are contiguous in lexicographic order: anything
/// between the prefix itself and a string carrying the prefix carries the
/// prefix too.
pub proof fn lemma_prefix_between(p: Seq<char>, x: Seq<char>, y: Seq<char>)
    requires
        lex_le(p, x),
        lex_le(x, y),
        is_prefix(p, y),
    ensures
        is_prefix(p, x),
    decreases p.len(),
{
    if p.len() == 0 {
        assert(x.subrange(0, 0) =~= p);
    } else {
        assert(x.len() > 0) by {
            if x.len() == 0 {
                assert(!lex_le(p, x));
            }
        };
        assert(y.len() > 0) by {
            if y.len() == 0 {
                assert(!lex_le(x, y));
            }
        };
        assert(y.subrange(0, p.len() as int)[0] == p[0]);
        assert(y[0] == p[0]);
        assert((p[0] as u32) <= (x[0] as u32)) by {
            if (p[0] as u32) > (x[0] as u32) {
                assert(!lex_le(p, x));
            }
        };
        assert((x[0] as u32) <= (y[0] as u32)) by {
            if (x[0] as u32) > (y[0] as u32) {
                assert(!lex_le(x, y));
            }
        };
        lemma_char_cast_inj(x[0], p[0]);
        assert(lex_le(p.skip(1), x.skip(1)));
        assert(lex_le(x.skip(1), y.skip(1)));
        assert(y.skip(1).subrange(0, p.len() - 1) =~= p.skip(1)) by {
            assert forall|j: int| 0 <= j < p.len() - 1 implies y.skip(1).subrange(
                0,
                p.len() - 1,
            )[j] == p.skip(1)[j] by {
                assert(y.subrange(0, p.len() as int)[j + 1] == p[j + 1]);
            }
        }
        lemma_prefix_between(p.skip(1), x.skip(1), y.skip(1));
        assert(x.subrange(0, p.len() as int) =~= p) by {
            assert forall|j: int| 0 <= j < p.len() implies x.subrange(0, p.len() as int)[j]
                == p[j] by {
                if j > 0 {
                    assert(x.skip(1).subrange(0, p.len() - 1)[j - 1] == p.skip(1)[j - 1]);
                }
            }
        }
    }
}

/// Decides the lexicographic order of two strings, character by character.
pub fn str_le(a: &str, b: &str) -> (r: bool)
    ensures
        r == lex_le(a@, b@),
{
    let alen = a.unicode_len();
    let blen = b.unicode_len();
    let mut i: usize = 0;
    while i < alen && i < blen
        invariant
            i <= alen,
            i <= blen,
            alen == a@.len(),
            blen == b@.len(),
            forall|j: int| 0 <= j < i ==> a@[j] == b@[j],
        decreases alen - i,
    {
        let va = a.get_char(i) as u32;
        let vb = b.get_char(i) as u32;
        if va != vb {
            proof {
                lemma_lex_le_skip(a@, b@, i as int);
            }
            return va < vb;
        }
        proof {
            lemma_char_cast_inj(a@[i as int], b@[i as int]);
        }
        i = i + 1;
    }
    proof {
        lemma_lex_le_skip(a@, b@, i as int);
    }
    alen <= blen
}

/// Decides equality of two strings as character sequences.
pub fn str_eq(a: &str, b: &str) -> (r: bool)
    ensures
        r == (a@ == b@),
{
    let alen = a.unicode_len();
    let blen = b.unicode_len();
    if alen != blen {
        return false;
    }
    let mut i: usize = 0;
    while i < alen
        invariant
            i <= alen,
            alen == a@.len(),
            alen == b@.len(),
            forall|j: int| 0 <= j < i ==> a@[j] == b@[j],
        decreases alen - i,
    {
        if a.get_char(i) != b.get_char(i) {
            return false;
        }
        i = i + 1;
    }
    proof {
        assert(a@ =~= b@);
    }
    true
}

/// Decides whether `p` is a literal prefix of `s`.
pub fn str_starts_with(s: &str, p: &str) -> (r: bool)
    ensures
        r == is_prefix(p@, s@),
{
    let slen = s.unicode_len();
    let plen = p.unicode_len();
    if plen > slen {
        return false;
    }
    let mut i: usize = 0;
    while i < plen
        invariant
            i <= plen,
            plen == p@.len(),
            slen == s@.len(),
            plen <= slen,
            forall|j: int| 0 <= j < i ==> s@[j] == p@[j],
        decreases plen - i,
    {
        if s.get_char(i) != p.get_char(i) {
            proof {
                assert(s@.subrange(0, p@.len() as int)[i as int] == s@[i as int]);
            }
            return false;
        }
        i = i + 1;
    }
    proof {
        assert(s@.subrange(0, p@.len() as int) =~= p@);
    }
    true
}

} // verus!
