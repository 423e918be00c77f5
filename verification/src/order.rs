//! Bytewise lexicographic order on byte sequences, and the prefix relation
//! that the persisted index's lookup is built on.

use vstd::prelude::*;

verus! {

/// Outcome of a three-way comparison.
pub enum Cmp {
    Lt,
    Eq,
    Gt,
}

/// Strict bytewise lexicographic order: `a` comes before `b`.
pub open spec fn lex_lt(a: Seq<u8>, b: Seq<u8>) -> bool
    decreases a.len() + b.len(),
{
    if b.len() == 0 {
        false
    } else if a.len() == 0 {
        true
    } else if a[0] < b[0] {
        true
    } else if a[0] > b[0] {
        false
    } else {
        lex_lt(a.skip(1), b.skip(1))
    }
}

/// Reflexive bytewise lexicographic order.
pub open spec fn lex_le(a: Seq<u8>, b: Seq<u8>) -> bool {
    lex_lt(a, b) || a == b
}

/// `s` begins with `p`.
pub open spec fn has_prefix(s: Seq<u8>, p: Seq<u8>) -> bool {
    p.len() <= s.len() && s.subrange(0, p.len() as int) == p
}

pub proof fn lemma_lex_lt_asym(a: Seq<u8>, b: Seq<u8>)
    requires
        lex_lt(a, b),
    ensures
        !lex_lt(b, a),
        a != b,
    decreases a.len() + b.len(),
{
    if b.len() == 0 {
    } else if a.len() == 0 {
    } else if a[0] < b[0] {
    } else {
        lemma_lex_lt_asym(a.skip(1), b.skip(1));
    }
}

pub proof fn lemma_lex_lt_trans(a: Seq<u8>, b: Seq<u8>, c: Seq<u8>)
    requires
        lex_lt(a, b),
        lex_lt(b, c),
    ensures
        lex_lt(a, c),
    decreases a.len() + b.len() + c.len(),
{
    if c.len() == 0 {
    } else if b.len() == 0 {
    } else if a.len() == 0 {
    } else {
        if a[0] == b[0] && b[0] == c[0] {
            lemma_lex_lt_trans(a.skip(1), b.skip(1), c.skip(1));
        }
    }
}

pub proof fn lemma_lex_le_lt_trans(a: Seq<u8>, b: Seq<u8>, c: Seq<u8>)
    requires
        lex_le(a, b),
        lex_lt(b, c),
    ensures
        lex_lt(a, c),
{
    if a != b {
        lemma_lex_lt_trans(a, b, c);
    }
}

pub proof fn lemma_lex_lt_le_trans(a: Seq<u8>, b: Seq<u8>, c: Seq<u8>)
    requires
        lex_lt(a, b),
        lex_le(b, c),
    ensures
        lex_lt(a, c),
{
    if b != c {
        lemma_lex_lt_trans(a, b, c);
    }
}

pub proof fn lemma_lex_total(a: Seq<u8>, b: Seq<u8>)
    ensures
        lex_lt(a, b) || lex_lt(b, a) || a == b,
    decreases a.len() + b.len(),
{
    if a.len() == 0 && b.len() == 0 {
        assert(a =~= b);
    } else if a.len() == 0 || b.len() == 0 {
    } else if a[0] < b[0] || b[0] < a[0] {
    } else {
        lemma_lex_total(a.skip(1), b.skip(1));
        if a.skip(1) == b.skip(1) {
            assert(a =~= b) by {
                assert forall|i: int| 0 <= i < a.len() implies a[i] == b[i] by {
                    if i >= 1 {
                        assert(a.skip(1)[i - 1] == a[i]);
                        assert(b.skip(1)[i - 1] == b[i]);
                    }
                }
            }
        }
    }
}

/// A difference at the first unequal position decides the order.
pub proof fn lemma_lex_lt_from_diff(a: Seq<u8>, b: Seq<u8>, k: int)
    requires
        0 <= k < a.len(),
        k < b.len(),
        forall|m: int| 0 <= m < k ==> a[m] == b[m],
        a[k] < b[k],
    ensures
        lex_lt(a, b),
    decreases k,
{
    if k > 0 {
        assert forall|m: int| 0 <= m < k - 1 implies a.skip(1)[m] == b.skip(1)[m] by {
            assert(a.skip(1)[m] == a[m + 1]);
            assert(b.skip(1)[m] == b[m + 1]);
        }
        assert(a.skip(1)[k - 1] == a[k]);
        assert(b.skip(1)[k - 1] == b[k]);
        lemma_lex_lt_from_diff(a.skip(1), b.skip(1), k - 1);
    }
}

/// A proper prefix comes strictly before what it prefixes.
pub proof fn lemma_lex_lt_from_shorter(a: Seq<u8>, b: Seq<u8>)
    requires
        a.len() < b.len(),
        forall|m: int| 0 <= m < a.len() ==> a[m] == b[m],
    ensures
        lex_lt(a, b),
    decreases a.len(),
{
    if a.len() > 0 {
        assert forall|m: int| 0 <= m < a.skip(1).len() implies a.skip(1)[m] == b.skip(1)[m] by {
            assert(a.skip(1)[m] == a[m + 1]);
            assert(b.skip(1)[m] == b[m + 1]);
        }
        lemma_lex_lt_from_shorter(a.skip(1), b.skip(1));
    }
}

/// A prefix of `s` never comes after `s`.
pub proof fn lemma_prefix_le(s: Seq<u8>, p: Seq<u8>)
    requires
        has_prefix(s, p),
    ensures
        lex_le(p, s),
{
    assert forall|m: int| 0 <= m < p.len() implies p[m] == s[m] by {
        assert(s.subrange(0, p.len() as int)[m] == s[m]);
    }
    if p.len() == s.len() {
        assert(p =~= s);
    } else {
        lemma_lex_lt_from_shorter(p, s);
    }
}

/// Sequences that begin with `p` form an interval: anything strictly above a
/// non-prefixed `l` that itself is above `p` lies above every sequence that
/// begins with `p`.
pub proof fn lemma_above_nonprefix(p: Seq<u8>, l: Seq<u8>, s: Seq<u8>)
    requires
        lex_lt(p, l),
        !has_prefix(l, p),
        has_prefix(s, p),
    ensures
        lex_lt(s, l),
    decreases p.len() + l.len(),
{
    if p.len() == 0 {
        assert(l.subrange(0, 0) =~= p);
    } else if l.len() == 0 {
    } else {
        assert(s[0] == p[0]) by {
            assert(s.subrange(0, p.len() as int)[0] == s[0]);
        }
        if p[0] < l[0] {
            assert(lex_lt(s, l));
        } else if p[0] > l[0] {
        } else {
            // Heads agree; move to the tails.
            assert(!has_prefix(l.skip(1), p.skip(1))) by {
                if has_prefix(l.skip(1), p.skip(1)) {
                    assert(l.subrange(0, p.len() as int) =~= p) by {
                        assert forall|i: int| 0 <= i < p.len() implies l.subrange(
                            0,
                            p.len() as int,
                        )[i] == p[i] by {
                            assert(l.subrange(0, p.len() as int)[i] == l[i]);
                            if i >= 1 {
                                assert(l.skip(1).subrange(0, p.len() - 1)[i - 1] == l.skip(1)[i
                                    - 1]);
                                assert(l.skip(1)[i - 1] == l[i]);
                                assert(p.skip(1)[i - 1] == p[i]);
                            }
                        }
                    }
                }
            }
            assert(has_prefix(s.skip(1), p.skip(1))) by {
                assert(s.skip(1).subrange(0, p.len() - 1) =~= p.skip(1)) by {
                    assert forall|i: int| 0 <= i < p.len() - 1 implies s.skip(1).subrange(
                        0,
                        p.len() - 1,
                    )[i] == p.skip(1)[i] by {
                        assert(s.skip(1).subrange(0, p.len() - 1)[i] == s.skip(1)[i]);
                        assert(s.skip(1)[i] == s[i + 1]);
                        assert(s.subrange(0, p.len() as int)[i + 1] == s[i + 1]);
                        assert(p.skip(1)[i] == p[i + 1]);
                    }
                }
            }
            lemma_above_nonprefix(p.skip(1), l.skip(1), s.skip(1));
        }
    }
}

} // verus!
