//! The backing file's line format: line discovery over one shared buffer, and
//! the three space-separated fields of a stored line.

use vstd::prelude::*;
use crate::order::{lex_lt, lex_le, has_prefix, Cmp};
use crate::order::{lemma_lex_lt_from_diff, lemma_lex_lt_from_shorter};

verus! {

/// The ASCII space that separates the fields of a line.
pub const FIELD_SEP: u8 = 32;

/// The newline that ends a line.
pub const LINE_SEP: u8 = 10;

/// Index of the first occurrence of `b` in `s`, or `s.len()` when `b` does
/// not occur.
pub open spec fn first_occ(s: Seq<u8>, b: u8) -> int
    decreases s.len(),
{
    if s.len() == 0 {
        0
    } else if s[0] == b {
        0
    } else {
        1 + first_occ(s.skip(1), b)
    }
}

pub proof fn lemma_first_occ(s: Seq<u8>, b: u8)
    ensures
        0 <= first_occ(s, b) <= s.len(),
        forall|m: int| 0 <= m < first_occ(s, b) ==> s[m] != b,
        first_occ(s, b) < s.len() ==> s[first_occ(s, b)] == b,
    decreases s.len(),
{
    if s.len() == 0 {
    } else if s[0] == b {
    } else {
        lemma_first_occ(s.skip(1), b);
        assert forall|m: int| 0 <= m < first_occ(s, b) implies s[m] != b by {
            if m >= 1 {
                assert(s.skip(1)[m - 1] == s[m]);
            }
        }
        if first_occ(s, b) < s.len() {
            assert(s.skip(1)[first_occ(s, b) - 1] == s[first_occ(s, b)]);
        }
    }
}

/// A witnessed first occurrence pins `first_occ` down.
pub proof fn lemma_first_occ_at(s: Seq<u8>, b: u8, k: int)
    requires
        0 <= k <= s.len(),
        forall|m: int| 0 <= m < k ==> s[m] != b,
        k < s.len() ==> s[k] == b,
    ensures
        first_occ(s, b) == k,
{
    lemma_first_occ(s, b);
    if first_occ(s, b) < k {
        assert(s[first_occ(s, b)] == b);
    }
    if first_occ(s, b) > k {
        assert(s[k] != b);
    }
}

/// The locator field of a stored line: the bytes before the first space, or
/// the whole line when it has no space.
pub open spec fn line_locator(line: Seq<u8>) -> Seq<u8> {
    line.subrange(0, first_occ(line, FIELD_SEP))
}

/// What follows the locator's separating space.
pub open spec fn line_rest(line: Seq<u8>) -> Seq<u8> {
    line.subrange(first_occ(line, FIELD_SEP) + 1, line.len() as int)
}

/// A stored line decodes when it splits on single spaces into exactly three
/// fields: locator, digest, path.
pub open spec fn line_decodes(line: Seq<u8>) -> bool {
    first_occ(line, FIELD_SEP) < line.len() && {
        let rest = line_rest(line);
        let j = first_occ(rest, FIELD_SEP);
        j < rest.len() && first_occ(rest.subrange(j + 1, rest.len() as int), FIELD_SEP) == rest.len()
            - (j + 1)
    }
}

/// The digest field of a line that decodes.
pub open spec fn line_digest(line: Seq<u8>) -> Seq<u8> {
    let rest = line_rest(line);
    rest.subrange(0, first_occ(rest, FIELD_SEP))
}

/// The path field of a line that decodes.
pub open spec fn line_path(line: Seq<u8>) -> Seq<u8> {
    let rest = line_rest(line);
    rest.subrange(first_occ(rest, FIELD_SEP) + 1, rest.len() as int)
}

/// The positions of all lines in a buffer, as the contents between newlines;
/// a final fragment without a newline is a line of its own.
pub open spec fn split_lines(s: Seq<u8>) -> Seq<Seq<u8>>
    decreases s.len(),
{
    if s.len() == 0 {
        Seq::empty()
    } else {
        let k = first_occ(s, LINE_SEP);
        if 0 <= k < s.len() {
            seq![s.subrange(0, k)] + split_lines(s.subrange(k + 1, s.len() as int))
        } else {
            seq![s]
        }
    }
}

/// Scans `buf[from..to]` for the first occurrence of `b`.
pub fn find_byte(buf: &Vec<u8>, from: usize, to: usize, b: u8) -> (r: usize)
    requires
        from <= to <= buf@.len(),
    ensures
        from <= r <= to,
        r - from == first_occ(buf@.subrange(from as int, to as int), b),
{
    let mut k: usize = from;
    while k < to
        invariant
            from <= k <= to <= buf@.len(),
            forall|m: int| from <= m < k ==> buf@[m] != b,
        decreases to - k,
    {
        if buf[k] == b {
            proof {
                let s = buf@.subrange(from as int, to as int);
                assert forall|m: int| 0 <= m < k - from implies s[m] != b by {
                    assert(s[m] == buf@[from + m]);
                }
                assert(s[k - from] == buf@[k as int]);
                lemma_first_occ_at(s, b, k - from);
            }
            return k;
        }
        k += 1;
    }
    proof {
        let s = buf@.subrange(from as int, to as int);
        assert forall|m: int| 0 <= m < to - from implies s[m] != b by {
            assert(s[m] == buf@[from + m]);
        }
        lemma_first_occ_at(s, b, to - from);
    }
    to
}

/// Copies `buf[from..to]` into a fresh vector.
pub fn copy_range(buf: &Vec<u8>, from: usize, to: usize) -> (r: Vec<u8>)
    requires
        from <= to <= buf@.len(),
    ensures
        r@ == buf@.subrange(from as int, to as int),
{
    let mut r: Vec<u8> = Vec::new();
    let mut k: usize = from;
    while k < to
        invariant
            from <= k <= to <= buf@.len(),
            r@ == buf@.subrange(from as int, k as int),
        decreases to - k,
    {
        r.push(buf[k]);
        proof {
            assert(buf@.subrange(from as int, k + 1) =~= buf@.subrange(from as int, k as int).push(
                buf@[k as int],
            ));
        }
        k += 1;
    }
    proof {
        assert(r@ =~= buf@.subrange(from as int, to as int));
    }
    r
}

/// Three-way comparison of `buf[from..to]` against `q`, in bytewise
/// lexicographic order.
pub fn cmp_range(buf: &Vec<u8>, from: usize, to: usize, q: &Vec<u8>) -> (c: Cmp)
    requires
        from <= to <= buf@.len(),
    ensures
        c is Lt <==> lex_lt(buf@.subrange(from as int, to as int), q@),
        c is Gt <==> lex_lt(q@, buf@.subrange(from as int, to as int)),
        c is Eq <==> buf@.subrange(from as int, to as int) == q@,
{
    let ghost s = buf@.subrange(from as int, to as int);
    let n: usize = to - from;
    let mut k: usize = 0;
    while k < n && k < q.len()
        invariant
            0 <= k <= n,
            n == to - from,
            from <= to <= buf@.len(),
            s == buf@.subrange(from as int, to as int),
            k <= q@.len(),
            forall|m: int| 0 <= m < k ==> s[m] == q@[m],
        decreases n - k,
    {
        let x = buf[from + k];
        let y = q[k];
        proof {
            assert(s[k as int] == buf@[from + k]);
        }
        if x < y {
            proof {
                lemma_lex_lt_from_diff(s, q@, k as int);
                crate::order::lemma_lex_lt_asym(s, q@);
            }
            return Cmp::Lt;
        }
        if y < x {
            proof {
                lemma_lex_lt_from_diff(q@, s, k as int);
                crate::order::lemma_lex_lt_asym(q@, s);
            }
            return Cmp::Gt;
        }
        k += 1;
    }
    if k == n && k == q.len() {
        proof {
            assert(s =~= q@);
            if lex_lt(s, q@) {
                crate::order::lemma_lex_lt_asym(s, q@);
            }
        }
        Cmp::Eq
    } else if k == n {
        // The stored range ran out first: it is a proper prefix of `q`.
        proof {
            lemma_lex_lt_from_shorter(s, q@);
            crate::order::lemma_lex_lt_asym(s, q@);
        }
        Cmp::Lt
    } else {
        proof {
            lemma_lex_lt_from_shorter(q@, s);
            crate::order::lemma_lex_lt_asym(q@, s);
        }
        Cmp::Gt
    }
}

/// Prefix-aware comparison for lookup: the locator field of `buf[l0..l1]`
/// counts as equal to the query when it begins with it; otherwise plain
/// bytewise lexicographic order decides.
pub fn cmp_locator(buf: &Vec<u8>, l0: usize, l1: usize, q: &Vec<u8>) -> (c: Cmp)
    requires
        l0 <= l1 <= buf@.len(),
    ensures
        ({
            let loc = line_locator(buf@.subrange(l0 as int, l1 as int));
            &&& (c is Eq <==> has_prefix(loc, q@))
            &&& (c is Lt <==> !has_prefix(loc, q@) && lex_lt(loc, q@))
            &&& (c is Gt <==> !has_prefix(loc, q@) && lex_lt(q@, loc))
        }),
{
    let p1: usize = find_byte(buf, l0, l1, FIELD_SEP);
    let ghost line = buf@.subrange(l0 as int, l1 as int);
    let ghost loc = line_locator(line);
    proof {
        assert(loc =~= buf@.subrange(l0 as int, p1 as int));
    }
    let m: usize = p1 - l0;
    let mut k: usize = 0;
    while k < m && k < q.len()
        invariant
            0 <= k <= m,
            m == p1 - l0,
            l0 <= p1 <= l1 <= buf@.len(),
            k <= q@.len(),
            loc == line_locator(buf@.subrange(l0 as int, l1 as int)),
            loc == buf@.subrange(l0 as int, p1 as int),
            loc.len() == m,
            forall|i: int| 0 <= i < k ==> loc[i] == q@[i],
        decreases m - k,
    {
        let x = buf[l0 + k];
        let y = q[k];
        proof {
            assert(loc[k as int] == buf@[l0 + k]);
        }
        if x < y {
            proof {
                lemma_lex_lt_from_diff(loc, q@, k as int);
                crate::order::lemma_lex_lt_asym(loc, q@);
                if has_prefix(loc, q@) {
                    assert(loc.subrange(0, q@.len() as int) == q@);
                    assert(loc.subrange(0, q@.len() as int)[k as int] == loc[k as int]);
                    assert(loc[k as int] == q@[k as int]);
                    assert(false);
                }
            }
            return Cmp::Lt;
        }
        if y < x {
            proof {
                lemma_lex_lt_from_diff(q@, loc, k as int);
                crate::order::lemma_lex_lt_asym(q@, loc);
                if has_prefix(loc, q@) {
                    assert(loc.subrange(0, q@.len() as int) == q@);
                    assert(loc.subrange(0, q@.len() as int)[k as int] == loc[k as int]);
                    assert(loc[k as int] == q@[k as int]);
                    assert(false);
                }
            }
            return Cmp::Gt;
        }
        k += 1;
    }
    if k == q.len() {
        // The query is exhausted: the locator begins with it.
        proof {
            assert(loc.subrange(0, q@.len() as int) =~= q@);
        }
        Cmp::Eq
    } else {
        // The locator ran out first: it is a proper prefix of the query.
        proof {
            lemma_lex_lt_from_shorter(loc, q@);
            crate::order::lemma_lex_lt_asym(loc, q@);
        }
        Cmp::Lt
    }
}

/// Finds the two separating spaces of `buf[l0..l1]`; `None` when the line
/// does not split into exactly three fields.
pub fn decode_line(buf: &Vec<u8>, l0: usize, l1: usize) -> (r: Option<(usize, usize)>)
    requires
        l0 <= l1 <= buf@.len(),
    ensures
        ({
            let line = buf@.subrange(l0 as int, l1 as int);
            match r {
                Some(ps) => {
                    &&& line_decodes(line)
                    &&& l0 <= ps.0 < ps.1 < l1
                    &&& line_locator(line) == buf@.subrange(l0 as int, ps.0 as int)
                    &&& line_digest(line) == buf@.subrange(ps.0 + 1, ps.1 as int)
                    &&& line_path(line) == buf@.subrange(ps.1 + 1, l1 as int)
                },
                None => !line_decodes(line),
            }
        }),
{
    let ghost line = buf@.subrange(l0 as int, l1 as int);
    let p1: usize = find_byte(buf, l0, l1, FIELD_SEP);
    if p1 == l1 {
        return None;
    }
    let ghost rest = line_rest(line);
    proof {
        assert(rest =~= buf@.subrange(p1 + 1, l1 as int));
    }
    let p2: usize = find_byte(buf, p1 + 1, l1, FIELD_SEP);
    if p2 == l1 {
        return None;
    }
    let p3: usize = find_byte(buf, p2 + 1, l1, FIELD_SEP);
    proof {
        assert(rest.subrange(first_occ(rest, FIELD_SEP) + 1, rest.len() as int) =~= buf@.subrange(
            p2 + 1,
            l1 as int,
        ));
    }
    if p3 < l1 {
        // A third space: more than three fields.
        return None;
    }
    proof {
        assert(line_locator(line) =~= buf@.subrange(l0 as int, p1 as int));
        assert(line_digest(line) =~= buf@.subrange(p1 + 1, p2 as int));
        assert(line_path(line) =~= buf@.subrange(p2 + 1, l1 as int));
    }
    Some((p1, p2))
}

} // verus!
