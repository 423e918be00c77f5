//! The cache: an immutable persisted index over one loaded buffer, an ordered
//! in-memory overlay, and the one-shot merge that produces the next
//! generation of the backing file.

use vstd::prelude::*;
use crate::order::{lex_lt, lex_le, has_prefix, Cmp};
use crate::line::{
    FIELD_SEP, LINE_SEP, first_occ, line_locator, line_decodes, line_digest, line_path,
    split_lines, find_byte, copy_range, cmp_range, cmp_locator, decode_line,
};

verus! {

/// How a fetched source is identified: by a content digest, which makes it
/// cacheable, or not at all.
#[derive(Debug, Clone)]
pub enum SourceKind {
    ContentAddressed { digest: Vec<u8> },
    Other,
}

/// A cache entry: the kind of source that was fetched, and where its
/// artifact was materialized.
#[derive(Debug, Clone)]
pub struct Prefetch {
    pub prefetch: SourceKind,
    pub path: Vec<u8>,
}

/// Mathematical image of a [`SourceKind`].
#[verifier::ext_equal]
pub enum SourceKindV {
    ContentAddressed { digest: Seq<u8> },
    Other,
}

/// Mathematical image of a [`Prefetch`].
#[verifier::ext_equal]
pub struct PrefetchV {
    pub prefetch: SourceKindV,
    pub path: Seq<u8>,
}

impl View for SourceKind {
    type V = SourceKindV;

    open spec fn view(&self) -> SourceKindV {
        match self {
            SourceKind::ContentAddressed { digest } => SourceKindV::ContentAddressed {
                digest: digest@,
            },
            SourceKind::Other => SourceKindV::Other,
        }
    }
}

impl View for Prefetch {
    type V = PrefetchV;

    open spec fn view(&self) -> PrefetchV {
        PrefetchV { prefetch: self.prefetch@, path: self.path@ }
    }
}

/// One entry as it stands in a backing file: three byte fields.
#[verifier::ext_equal]
pub struct EntryV {
    pub locator: Seq<u8>,
    pub digest: Seq<u8>,
    pub path: Seq<u8>,
}

/// The persistent prefetch cache.
#[derive(Debug)]
pub struct Cache {
    cache: Vec<u8>,
    lines: Vec<(usize, usize)>,
    new: Vec<(Vec<u8>, Prefetch)>,
}

impl Cache {
    /// The loaded backing buffer.
    pub closed spec fn buffer(self) -> Seq<u8> {
        self.cache@
    }

    /// All persisted lines, in file order.
    pub closed spec fn lines_model(self) -> Seq<Seq<u8>> {
        Seq::new(
            self.lines@.len(),
            |i: int| self.cache@.subrange(self.lines@[i].0 as int, self.lines@[i].1 as int),
        )
    }

    /// How many persisted lines were discovered.
    pub open spec fn n_lines(self) -> int {
        self.lines_model().len() as int
    }

    /// The text of persisted line `i`.
    pub open spec fn line_at(self, i: int) -> Seq<u8> {
        self.lines_model()[i]
    }

    /// The overlay of entries inserted during this run, ordered by locator.
    pub closed spec fn overlay(self) -> Seq<(Seq<u8>, PrefetchV)> {
        Seq::new(self.new@.len(), |i: int| (self.new@[i].0@, self.new@[i].1@))
    }

    /// Line ranges stay inside the buffer and the overlay is strictly sorted.
    pub closed spec fn wf(self) -> bool {
        &&& forall|i: int|
            0 <= i < self.lines@.len() ==> (#[trigger] self.lines@[i]).0 <= self.lines@[i].1
                <= self.cache@.len()
        &&& overlay_sorted(self.overlay())
    }

    /// The locator field of persisted line `i`.
    pub open spec fn locator_at(self, i: int) -> Seq<u8> {
        line_locator(self.line_at(i))
    }

    /// Line `i` exists and its locator begins with the query `q`.
    pub open spec fn match_at(self, i: int, q: Seq<u8>) -> bool {
        0 <= i < self.n_lines() && has_prefix(self.locator_at(i), q)
    }

    /// Line `i` splits into exactly three fields.
    pub open spec fn decodes_at(self, i: int) -> bool {
        line_decodes(self.line_at(i))
    }

    /// The three fields of persisted line `i`.
    pub open spec fn entry_at(self, i: int) -> EntryV {
        EntryV {
            locator: line_locator(self.line_at(i)),
            digest: line_digest(self.line_at(i)),
            path: line_path(self.line_at(i)),
        }
    }

    /// The file-format invariant that lookup relies on: persisted locators
    /// are non-decreasing. It is assumed of the backing file, never checked
    /// at load time.
    pub open spec fn lines_sorted(self) -> bool {
        forall|i: int, j: int|
            0 <= i <= j < self.n_lines() ==> lex_le(
                #[trigger] self.locator_at(i),
                #[trigger] self.locator_at(j),
            )
    }

    /// The overlay holds an entry for locator `k`.
    pub open spec fn overlay_has(self, k: Seq<u8>) -> bool {
        exists|i: int| 0 <= i < self.overlay().len() && (#[trigger] self.overlay()[i]).0 == k
    }

    /// The overlay's entry for locator `k`.
    pub open spec fn overlay_entry(self, k: Seq<u8>) -> PrefetchV {
        let i = choose|i: int|
            0 <= i < self.overlay().len() && (#[trigger] self.overlay()[i]).0 == k;
        self.overlay()[i].1
    }
}

/// Keys strictly increase along the overlay.
pub open spec fn overlay_sorted(s: Seq<(Seq<u8>, PrefetchV)>) -> bool {
    forall|i: int, j: int|
        0 <= i < j < s.len() ==> lex_lt((#[trigger] s[i]).0, (#[trigger] s[j]).0)
}

/// The lines that a sequence of byte ranges denotes in a buffer.
pub open spec fn ranges_lines(buf: Seq<u8>, rs: Seq<(usize, usize)>) -> Seq<Seq<u8>> {
    Seq::new(rs.len(), |i: int| buf.subrange(rs[i].0 as int, rs[i].1 as int))
}

impl Cache {
    /// Builds a cache over the backing file's contents; `None` stands for a
    /// missing file and yields an empty cache. Line discovery records byte
    /// ranges only; nothing is copied out of the buffer.
    pub fn new(contents: Option<Vec<u8>>) -> (c: Cache)
        ensures
            c.wf(),
            c.overlay().len() == 0,
            c.buffer() == match contents {
                Some(b) => b@,
                None => Seq::<u8>::empty(),
            },
            c.lines_model() == split_lines(c.buffer()),
    {
        let cache: Vec<u8> = match contents {
            Some(b) => b,
            None => Vec::new(),
        };
        let mut lines: Vec<(usize, usize)> = Vec::new();
        let n: usize = cache.len();
        let mut pos: usize = 0;
        proof {
            assert(cache@.subrange(0, n as int) =~= cache@);
            assert(ranges_lines(cache@, lines@) =~= Seq::<Seq<u8>>::empty());
        }
        loop
            invariant_except_break
                n == cache@.len(),
                pos <= n,
                forall|i: int|
                    0 <= i < lines@.len() ==> (#[trigger] lines@[i]).0 <= lines@[i].1
                        <= cache@.len(),
                ranges_lines(cache@, lines@) + split_lines(cache@.subrange(pos as int, n as int))
                    == split_lines(cache@),
            ensures
                forall|i: int|
                    0 <= i < lines@.len() ==> (#[trigger] lines@[i]).0 <= lines@[i].1
                        <= cache@.len(),
                ranges_lines(cache@, lines@) == split_lines(cache@),
            decreases n - pos,
        {
            if pos >= n {
                proof {
                    assert(cache@.subrange(pos as int, n as int).len() == 0);
                    assert(ranges_lines(cache@, lines@) + split_lines(
                        cache@.subrange(pos as int, n as int),
                    ) =~= ranges_lines(cache@, lines@));
                }
                break ;
            }
            let nl: usize = find_byte(&cache, pos, n, LINE_SEP);
            let ghost s_tail = cache@.subrange(pos as int, n as int);
            let ghost old_lines = lines@;
            if lines.len() == 0 && nl > pos {
                // Pre-size the offset list, taking the first line's length
                // as a density estimate for the whole buffer.
                lines.reserve(n / (nl - pos));
            }
            lines.push((pos, nl));
            proof {
                let k = first_occ(s_tail, LINE_SEP);
                assert(k == nl - pos);
                assert(s_tail.len() > 0);
                assert(ranges_lines(cache@, lines@) =~= ranges_lines(cache@, old_lines) + seq![
                    cache@.subrange(pos as int, nl as int),
                ]);
                if nl < n {
                    assert(s_tail.subrange(0, k) =~= cache@.subrange(pos as int, nl as int));
                    assert(s_tail.subrange(k + 1, s_tail.len() as int) =~= cache@.subrange(
                        nl + 1,
                        n as int,
                    ));
                    assert(split_lines(s_tail) == seq![cache@.subrange(pos as int, nl as int)]
                        + split_lines(cache@.subrange(nl + 1, n as int)));
                    assert(ranges_lines(cache@, lines@) + split_lines(
                        cache@.subrange(nl + 1, n as int),
                    ) =~= ranges_lines(cache@, old_lines) + split_lines(s_tail));
                } else {
                    assert(k == s_tail.len());
                    assert(s_tail =~= cache@.subrange(pos as int, nl as int));
                    assert(split_lines(s_tail) == seq![s_tail]);
                    assert(ranges_lines(cache@, lines@) =~= ranges_lines(cache@, old_lines)
                        + split_lines(s_tail));
                }
            }
            if nl == n {
                break ;
            }
            pos = nl + 1;
        }
        let c = Cache { cache, lines, new: Vec::new() };
        proof {
            assert(c.lines_model() =~= ranges_lines(c.cache@, c.lines@));
            assert(c.overlay() =~= Seq::<(Seq<u8>, PrefetchV)>::empty());
        }
        c
    }

    /// Splits the designated line on spaces into its three fields; `None`
    /// for a line that does not decode.
    pub fn get_index(&self, l0: usize, l1: usize) -> (r: Option<(Vec<u8>, Vec<u8>, Vec<u8>)>)
        requires
            l0 <= l1 <= self.buffer().len(),
        ensures
            ({
                let line = self.buffer().subrange(l0 as int, l1 as int);
                match r {
                    Some(t) => line_decodes(line) && t.0@ == line_locator(line) && t.1@
                        == line_digest(line) && t.2@ == line_path(line),
                    None => !line_decodes(line),
                }
            }),
    {
        match decode_line(&self.cache, l0, l1) {
            Some((p1, p2)) => {
                let u = copy_range(&self.cache, l0, p1);
                let v = copy_range(&self.cache, p1 + 1, p2);
                let w = copy_range(&self.cache, p2 + 1, l1);
                Some((u, v, w))
            },
            None => None,
        }
    }

    /// Exact-match scan of the overlay.
    fn overlay_find(&self, url: &Vec<u8>) -> (r: Option<usize>)
        ensures
            match r {
                Some(i) => 0 <= i < self.overlay().len() && self.overlay()[i as int].0 == url@,
                None => !self.overlay_has(url@),
            },
    {
        let mut i: usize = 0;
        while i < self.new.len()
            invariant
                i <= self.new@.len(),
                forall|m: int| 0 <= m < i ==> (#[trigger] self.overlay()[m]).0 != url@,
            decreases self.new@.len() - i,
        {
            let hit = bytes_eq(&self.new[i].0, url);
            proof {
                assert(self.overlay()[i as int].0 == self.new@[i as int].0@);
            }
            if hit {
                return Some(i);
            }
            i += 1;
        }
        None
    }

    /// Looks a locator up: the overlay first, by exact match; then the
    /// persisted index, by sorted search where a stored locator that begins
    /// with the query counts as found. A malformed stored line is a miss.
    ///
    /// When the persisted locators are sorted, as the file format demands,
    /// and exactly one line matches the query and decodes, the lookup is
    /// guaranteed to find it.
    pub fn get(&mut self, url: &Vec<u8>) -> (r: Option<Prefetch>)
        requires
            old(self).wf(),
        ensures
            *final(self) == *old(self),
            old(self).overlay_has(url@) ==> (match r {
                Some(p) => p@ == old(self).overlay_entry(url@),
                None => false,
            }),
            !old(self).overlay_has(url@) ==> (match r {
                Some(p) => exists|i: int|
                    {
                        &&& #[trigger] old(self).match_at(i, url@)
                        &&& old(self).decodes_at(i)
                        &&& p@.prefetch == SourceKindV::ContentAddressed {
                            digest: old(self).entry_at(i).digest,
                        }
                        &&& p@.path == old(self).entry_at(i).path
                    },
                None => true,
            }),
            (!old(self).overlay_has(url@) && old(self).lines_sorted() && exists|i: int|
                {
                    &&& #[trigger] old(self).match_at(i, url@)
                    &&& old(self).decodes_at(i)
                    &&& forall|j: int| old(self).match_at(j, url@) ==> j == i
                }) ==> r is Some,
    {
        match self.overlay_find(url) {
            Some(i) => {
                let p = clone_prefetch(&self.new[i].1);
                proof {
                    let k = choose|k: int|
                        0 <= k < self.overlay().len() && (#[trigger] self.overlay()[k]).0 == url@;
                    if k != i as int {
                        crate::order::lemma_lex_lt_asym(url@, url@);
                    }
                    assert(p@ == self.overlay()[i as int].1);
                }
                Some(p)
            },
            None => {
                let mut lo: usize = 0;
                let mut hi: usize = self.lines.len();
                let ghost q = url@;
                while lo < hi
                    invariant
                        lo <= hi <= self.lines@.len(),
                        self.wf(),
                        *self == *old(self),
                        !self.overlay_has(url@),
                        q == url@,
                        hi <= self.n_lines(),
                        self.lines_sorted() ==> forall|i: int|
                            0 <= i < lo ==> !self.match_at(i, q) && lex_lt(
                                #[trigger] self.locator_at(i),
                                q,
                            ),
                        self.lines_sorted() ==> forall|i: int|
                            hi <= i < self.n_lines() ==> !self.match_at(i, q) && lex_lt(
                                q,
                                #[trigger] self.locator_at(i),
                            ),
                    decreases hi - lo,
                {
                    let mid: usize = lo + (hi - lo) / 2;
                    let (l0, l1) = self.lines[mid];
                    let c = cmp_locator(&self.cache, l0, l1, url);
                    proof {
                        assert(self.line_at(mid as int) == self.cache@.subrange(
                            l0 as int,
                            l1 as int,
                        ));
                    }
                    match c {
                        Cmp::Eq => {
                            match decode_line(&self.cache, l0, l1) {
                                Some((p1, p2)) => {
                                    let digest = copy_range(&self.cache, p1 + 1, p2);
                                    let path = copy_range(&self.cache, p2 + 1, l1);
                                    let p = Prefetch {
                                        prefetch: SourceKind::ContentAddressed { digest },
                                        path,
                                    };
                                    proof {
                                        assert(self.match_at(mid as int, q));
                                        assert(self.decodes_at(mid as int));
                                        assert(p@.prefetch =~= SourceKindV::ContentAddressed {
                                            digest: self.entry_at(mid as int).digest,
                                        });
                                        assert(p@.path == self.entry_at(mid as int).path);
                                    }
                                    return Some(p);
                                },
                                None => {
                                    proof {
                                        if self.lines_sorted() && exists|i: int|
                                            {
                                                &&& #[trigger] self.match_at(i, q)
                                                &&& self.decodes_at(i)
                                                &&& forall|j: int|
                                                    self.match_at(j, q) ==> j == i
                                            } {
                                            let i = choose|i: int|
                                                {
                                                    &&& #[trigger] self.match_at(i, q)
                                                    &&& self.decodes_at(i)
                                                    &&& forall|j: int|
                                                        self.match_at(j, q) ==> j == i
                                                };
                                            assert(self.match_at(mid as int, q));
                                            assert(i == mid as int);
                                            assert(false);
                                        }
                                    }
                                    return None;
                                },
                            }
                        },
                        Cmp::Lt => {
                            proof {
                                if self.lines_sorted() {
                                    let locmid = self.locator_at(mid as int);
                                    assert forall|i: int| 0 <= i < mid + 1 implies !self.match_at(
                                        i,
                                        q,
                                    ) && lex_lt(#[trigger] self.locator_at(i), q) by {
                                        let loci = self.locator_at(i);
                                        assert(lex_le(loci, locmid));
                                        crate::order::lemma_lex_le_lt_trans(loci, locmid, q);
                                        if has_prefix(loci, q) {
                                            crate::order::lemma_prefix_le(loci, q);
                                            crate::order::lemma_lex_lt_le_trans(loci, q, loci);
                                            crate::order::lemma_lex_lt_asym(loci, loci);
                                        }
                                    }
                                }
                            }
                            lo = mid + 1;
                        },
                        Cmp::Gt => {
                            proof {
                                if self.lines_sorted() {
                                    let locmid = self.locator_at(mid as int);
                                    assert forall|i: int|
                                        mid <= i < self.n_lines() implies !self.match_at(i, q)
                                        && lex_lt(q, #[trigger] self.locator_at(i)) by {
                                        let loci = self.locator_at(i);
                                        assert(lex_le(locmid, loci));
                                        crate::order::lemma_lex_lt_le_trans(q, locmid, loci);
                                        if has_prefix(loci, q) {
                                            crate::order::lemma_above_nonprefix(q, locmid, loci);
                                            crate::order::lemma_lex_lt_le_trans(
                                                loci,
                                                locmid,
                                                loci,
                                            );
                                            crate::order::lemma_lex_lt_asym(loci, loci);
                                        }
                                    }
                                }
                            }
                            hi = mid;
                        },
                    }
                }
                proof {
                    if self.lines_sorted() {
                        assert forall|i: int| 0 <= i < self.n_lines() implies !self.match_at(
                            i,
                            q,
                        ) by {
                            assert(i < lo || hi <= i);
                        }
                    }
                }
                None
            },
        }
    }
}

/// The overlay after an unconditional upsert: a later entry for the same
/// locator replaces the earlier one, and order by locator is kept.
pub open spec fn overlay_upsert(
    s: Seq<(Seq<u8>, PrefetchV)>,
    k: Seq<u8>,
    v: PrefetchV,
) -> Seq<(Seq<u8>, PrefetchV)>
    decreases s.len(),
{
    if s.len() == 0 {
        seq![(k, v)]
    } else if lex_lt(k, s[0].0) {
        seq![(k, v)] + s
    } else if k == s[0].0 {
        seq![(k, v)] + s.skip(1)
    } else {
        seq![s[0]] + overlay_upsert(s.skip(1), k, v)
    }
}

/// The upsert splits the overlay at the insertion point.
proof fn lemma_upsert_split(
    s: Seq<(Seq<u8>, PrefetchV)>,
    k: Seq<u8>,
    v: PrefetchV,
    i: int,
    matched: bool,
)
    requires
        0 <= i <= s.len(),
        forall|m: int| 0 <= m < i ==> lex_lt((#[trigger] s[m]).0, k),
        matched ==> i < s.len() && s[i].0 == k,
        !matched && i < s.len() ==> lex_lt(k, s[i].0),
    ensures
        overlay_upsert(s, k, v) == s.subrange(0, i) + seq![(k, v)] + s.skip(
            i + if matched {
                1int
            } else {
                0int
            },
        ),
    decreases s.len(),
{
    let d: int = if matched {
        1int
    } else {
        0int
    };
    if i == 0 {
        if s.len() == 0 {
            assert(overlay_upsert(s, k, v) =~= s.subrange(0, 0) + seq![(k, v)] + s.skip(0));
        } else if matched {
            if lex_lt(k, s[0].0) {
                crate::order::lemma_lex_lt_asym(k, s[0].0);
            }
            assert(overlay_upsert(s, k, v) =~= s.subrange(0, 0) + seq![(k, v)] + s.skip(1));
        } else {
            assert(overlay_upsert(s, k, v) =~= s.subrange(0, 0) + seq![(k, v)] + s.skip(0));
        }
    } else {
        crate::order::lemma_lex_lt_asym(s[0].0, k);
        assert forall|m: int| 0 <= m < i - 1 implies lex_lt((#[trigger] s.skip(1)[m]).0, k) by {
            assert(s.skip(1)[m] == s[m + 1]);
        }
        if matched {
            assert(s.skip(1)[i - 1] == s[i]);
        }
        if !matched && i < s.len() {
            assert(s.skip(1)[i - 1] == s[i]);
        }
        lemma_upsert_split(s.skip(1), k, v, i - 1, matched);
        assert(overlay_upsert(s, k, v) =~= s.subrange(0, i) + seq![(k, v)] + s.skip(i + d)) by {
            assert(s.skip(1).subrange(0, i - 1) =~= s.subrange(1, i));
            assert(s.skip(1).skip(i - 1 + d) =~= s.skip(i + d));
        }
    }
}

impl Cache {
    /// Records an entry in the overlay: an unconditional upsert, never
    /// touching the backing data. Always succeeds.
    pub fn insert(&mut self, url: &Vec<u8>, prefetch: Prefetch)
        requires
            old(self).wf(),
        ensures
            final(self).wf(),
            final(self).buffer() == old(self).buffer(),
            final(self).lines_model() == old(self).lines_model(),
            final(self).overlay() == overlay_upsert(old(self).overlay(), url@, prefetch@),
            final(self).overlay_has(url@),
            final(self).overlay_entry(url@) == prefetch@,
    {
        let key = copy_vec(url);
        let mut i: usize = 0;
        let mut matched: bool = false;
        loop
            invariant_except_break
                i <= self.new@.len(),
                *self == *old(self),
                self.wf(),
                matched == false,
                forall|m: int| 0 <= m < i ==> lex_lt((#[trigger] self.overlay()[m]).0, url@),
            ensures
                i <= self.new@.len(),
                *self == *old(self),
                forall|m: int| 0 <= m < i ==> lex_lt((#[trigger] self.overlay()[m]).0, url@),
                matched ==> i < self.new@.len() && self.overlay()[i as int].0 == url@,
                !matched && i < self.new@.len() ==> lex_lt(url@, self.overlay()[i as int].0),
            decreases self.new@.len() - i,
        {
            if i >= self.new.len() {
                break ;
            }
            let c = cmp_range(&self.new[i].0, 0, self.new[i].0.len(), url);
            proof {
                let kv = self.new@[i as int].0@;
                assert(kv.subrange(0, kv.len() as int) =~= kv);
                assert((#[trigger] self.overlay()[i as int]).0 == kv);
            }
            match c {
                Cmp::Lt => {
                    i += 1;
                },
                Cmp::Eq => {
                    matched = true;
                    break ;
                },
                Cmp::Gt => {
                    break ;
                },
            }
        }
        let ghost oldov = self.overlay();
        let ghost d: int = if matched {
            1int
        } else {
            0int
        };
        if matched {
            self.new.remove(i);
            self.new.insert(i, (key, prefetch));
        } else {
            self.new.insert(i, (key, prefetch));
        }
        proof {
            lemma_upsert_split(oldov, url@, prefetch@, i as int, matched);
            let up = oldov.subrange(0, i as int) + seq![(url@, prefetch@)] + oldov.skip(
                i as int + d,
            );
            assert(self.overlay() =~= up);
            assert forall|a: int, b: int|
                0 <= a < b < self.overlay().len() implies lex_lt(
                (#[trigger] self.overlay()[a]).0,
                (#[trigger] self.overlay()[b]).0,
            ) by {
                let ia = i as int;
                if a < ia && b < ia {
                    assert(self.overlay()[a] == oldov[a]);
                    assert(self.overlay()[b] == oldov[b]);
                } else if a < ia && b == ia {
                    assert(self.overlay()[a] == oldov[a]);
                } else if a < ia && b > ia {
                    assert(self.overlay()[a] == oldov[a]);
                    assert(self.overlay()[b] == oldov[b - 1 + d]);
                } else if a == ia && b > ia {
                    let cb = b - 1 + d;
                    assert(self.overlay()[b] == oldov[cb]);
                    if matched {
                        assert(lex_lt(oldov[ia].0, oldov[cb].0));
                    } else {
                        if cb > ia {
                            crate::order::lemma_lex_lt_trans(url@, oldov[ia].0, oldov[cb].0);
                        }
                    }
                } else {
                    assert(self.overlay()[a] == oldov[a - 1 + d]);
                    assert(self.overlay()[b] == oldov[b - 1 + d]);
                }
            }
            assert(self.lines_model() =~= old(self).lines_model());
            assert((#[trigger] self.overlay()[i as int]).0 == url@);
            assert(self.overlay()[i as int].1 == prefetch@);
            let j = choose|j: int|
                0 <= j < self.overlay().len() && (#[trigger] self.overlay()[j]).0 == url@;
            if j != i as int {
                crate::order::lemma_lex_lt_asym(url@, url@);
            }
            assert(self.overlay_entry(url@) == prefetch@);
        }
    }
}

/// The three fields of a line that decodes.
pub open spec fn entry_of(line: Seq<u8>) -> EntryV {
    EntryV { locator: line_locator(line), digest: line_digest(line), path: line_path(line) }
}

/// The entries of the stored lines that decode, in file order; a malformed
/// line contributes nothing.
pub open spec fn decoded_lines(ls: Seq<Seq<u8>>) -> Seq<EntryV>
    decreases ls.len(),
{
    if ls.len() == 0 {
        Seq::empty()
    } else {
        (if line_decodes(ls[0]) {
            seq![entry_of(ls[0])]
        } else {
            Seq::empty()
        }) + decoded_lines(ls.skip(1))
    }
}

/// The overlay entries that may become durable: content-addressed ones only.
pub open spec fn overlay_kept(s: Seq<(Seq<u8>, PrefetchV)>) -> Seq<EntryV>
    decreases s.len(),
{
    if s.len() == 0 {
        Seq::empty()
    } else {
        (match s[0].1.prefetch {
            SourceKindV::ContentAddressed { digest } => seq![
                EntryV { locator: s[0].0, digest, path: s[0].1.path },
            ],
            SourceKindV::Other => Seq::empty(),
        }) + overlay_kept(s.skip(1))
    }
}

/// The one-pass merge of persisted and overlay entries: a strictly smaller
/// persisted locator goes first; otherwise, ties included, the overlay entry
/// goes first and only the overlay advances.
pub open spec fn merge_entries(p: Seq<EntryV>, o: Seq<EntryV>) -> Seq<EntryV>
    decreases p.len() + o.len(),
{
    if p.len() == 0 {
        o
    } else if o.len() == 0 {
        p
    } else if lex_lt(p[0].locator, o[0].locator) {
        seq![p[0]] + merge_entries(p.skip(1), o)
    } else {
        seq![o[0]] + merge_entries(p, o.skip(1))
    }
}

/// One line of the next backing file.
pub open spec fn encode_entry(e: EntryV) -> Seq<u8> {
    e.locator + seq![FIELD_SEP] + e.digest + seq![FIELD_SEP] + e.path + seq![LINE_SEP]
}

/// The bytes of the next backing file.
pub open spec fn encode_entries(s: Seq<EntryV>) -> Seq<u8>
    decreases s.len(),
{
    if s.len() == 0 {
        Seq::empty()
    } else {
        encode_entry(s[0]) + encode_entries(s.skip(1))
    }
}

proof fn lemma_encode_cons(e: EntryV, s: Seq<EntryV>)
    ensures
        encode_entries(seq![e] + s) == encode_entry(e) + encode_entries(s),
{
    assert((seq![e] + s)[0] == e);
    assert((seq![e] + s).skip(1) =~= s);
}

/// The entry that a `(locator start, first space, second space, line end)`
/// quadruple denotes in the buffer.
pub open spec fn tuple_entry(buf: Seq<u8>, t: (usize, usize, usize, usize)) -> EntryV {
    EntryV {
        locator: buf.subrange(t.0 as int, t.1 as int),
        digest: buf.subrange(t.1 + 1, t.2 as int),
        path: buf.subrange(t.2 + 1, t.3 as int),
    }
}

/// Appends `buf[from..to]` to `out`.
fn push_range(out: &mut Vec<u8>, buf: &Vec<u8>, from: usize, to: usize)
    requires
        from <= to <= buf@.len(),
    ensures
        final(out)@ == old(out)@ + buf@.subrange(from as int, to as int),
{
    let mut k: usize = from;
    while k < to
        invariant
            from <= k <= to <= buf@.len(),
            out@ == old(out)@ + buf@.subrange(from as int, k as int),
        decreases to - k,
    {
        out.push(buf[k]);
        proof {
            assert(out@ =~= old(out)@ + buf@.subrange(from as int, k + 1));
        }
        k += 1;
    }
}

impl Cache {
    /// The entries now persisted: the decodable lines of the loaded buffer.
    pub open spec fn persisted(self) -> Seq<EntryV> {
        decoded_lines(self.lines_model())
    }

    /// What the next generation of the backing file holds.
    pub open spec fn flushed(self) -> Seq<EntryV> {
        merge_entries(self.persisted(), overlay_kept(self.overlay()))
    }

    /// Produces the bytes of the next backing file: the persisted entries
    /// merged with the overlay's content-addressed entries in one pass.
    /// Non-cacheable overlay entries and malformed stored lines are left
    /// out. On a locator tie the overlay entry is written first and the
    /// stale persisted line survives to be written again: the next
    /// comparison sees it anew, so the file can carry two lines for one
    /// locator.
    #[verifier::rlimit(80)]
    pub fn flush(&self) -> (out: Vec<u8>)
        requires
            self.wf(),
        ensures
            out@ == encode_entries(self.flushed()),
    {
        let ghost lm = self.lines_model();
        // The decodable persisted lines, as field boundaries.
        let mut pe: Vec<(usize, usize, usize, usize)> = Vec::new();
        let mut i: usize = 0;
        proof {
            assert(lm.skip(0) =~= lm);
            assert(Seq::new(pe@.len(), |j: int| tuple_entry(self.cache@, pe@[j]))
                + decoded_lines(lm) =~= self.persisted());
        }
        while i < self.lines.len()
            invariant
                i <= self.lines@.len(),
                self.wf(),
                lm == self.lines_model(),
                forall|j: int|
                    0 <= j < pe@.len() ==> (#[trigger] pe@[j]).0 <= pe@[j].1 < pe@[j].2 < pe@[j].3
                        <= self.cache@.len(),
                Seq::new(pe@.len(), |j: int| tuple_entry(self.cache@, pe@[j])) + decoded_lines(
                    lm.skip(i as int),
                ) == self.persisted(),
            decreases self.lines@.len() - i,
        {
            let (l0, l1) = self.lines[i];
            let ghost old_pe = pe@;
            proof {
                assert(lm.skip(i as int)[0] == self.line_at(i as int));
                assert(lm.skip(i as int).skip(1) =~= lm.skip(i + 1));
                assert(self.line_at(i as int) == self.cache@.subrange(l0 as int, l1 as int));
            }
            match decode_line(&self.cache, l0, l1) {
                Some((p1, p2)) => {
                    pe.push((l0, p1, p2, l1));
                    proof {
                        assert(tuple_entry(self.cache@, (l0, p1, p2, l1)) == entry_of(
                            self.line_at(i as int),
                        ));
                        assert(Seq::new(pe@.len(), |j: int| tuple_entry(self.cache@, pe@[j]))
                            =~= Seq::new(old_pe.len(), |j: int| tuple_entry(self.cache@, old_pe[j]))
                            + seq![entry_of(self.line_at(i as int))]);
                        assert(Seq::new(pe@.len(), |j: int| tuple_entry(self.cache@, pe@[j]))
                            + decoded_lines(lm.skip(i + 1)) =~= Seq::new(
                            old_pe.len(),
                            |j: int| tuple_entry(self.cache@, old_pe[j]),
                        ) + decoded_lines(lm.skip(i as int)));
                    }
                },
                None => {
                    proof {
                        assert(decoded_lines(lm.skip(i as int)) =~= decoded_lines(lm.skip(i + 1)));
                    }
                },
            }
            i += 1;
        }
        proof {
            assert(decoded_lines(lm.skip(self.lines@.len() as int)) =~= Seq::<EntryV>::empty());
            assert(Seq::new(pe@.len(), |j: int| tuple_entry(self.cache@, pe@[j])) + Seq::<
                EntryV,
            >::empty() =~= Seq::new(pe@.len(), |j: int| tuple_entry(self.cache@, pe@[j])));
        }
        // The overlay entries that are kept: indices of the content-addressed ones.
        let ghost ov = self.overlay();
        let mut ke: Vec<usize> = Vec::new();
        let mut j: usize = 0;
        proof {
            assert(ov.skip(0) =~= ov);
            assert(Seq::new(ke@.len(), |m: int| ov[ke@[m] as int]) =~= Seq::<(
                Seq<u8>,
                PrefetchV,
            )>::empty());
            assert(overlay_kept(Seq::<(Seq<u8>, PrefetchV)>::empty()) =~= Seq::<EntryV>::empty());
        }
        while j < self.new.len()
            invariant
                j <= self.new@.len(),
                self.wf(),
                ov == self.overlay(),
                forall|m: int|
                    0 <= m < ke@.len() ==> #[trigger] ke@[m] < self.new@.len()
                        && ov[ke@[m] as int].1.prefetch is ContentAddressed,
                overlay_kept(Seq::new(ke@.len(), |m: int| ov[ke@[m] as int])) + overlay_kept(
                    ov.skip(j as int),
                ) == overlay_kept(ov),
            decreases self.new@.len() - j,
        {
            let ghost old_ke = ke@;
            proof {
                assert(ov.skip(j as int)[0] == ov[j as int]);
                assert(ov.skip(j as int).skip(1) =~= ov.skip(j + 1));
            }
            match &self.new[j].1.prefetch {
                SourceKind::ContentAddressed { digest } => {
                    ke.push(j);
                    proof {
                        assert(ov[j as int].1.prefetch is ContentAddressed);
                        let f = |m: int| ov[ke@[m] as int];
                        let g = |m: int| ov[old_ke[m] as int];
                        assert(Seq::new(ke@.len(), f) =~= Seq::new(old_ke.len(), g) + seq![
                            ov[j as int],
                        ]);
                        lemma_overlay_kept_snoc(Seq::new(old_ke.len(), g), ov[j as int]);
                        assert(overlay_kept(Seq::new(ke@.len(), f)) + overlay_kept(ov.skip(j + 1))
                            =~= overlay_kept(Seq::new(old_ke.len(), g)) + overlay_kept(
                            ov.skip(j as int),
                        ));
                    }
                },
                SourceKind::Other => {
                    proof {
                        assert(overlay_kept(ov.skip(j as int)) =~= overlay_kept(ov.skip(j + 1)));
                    }
                },
            }
            j += 1;
        }
        proof {
            assert(overlay_kept(ov.skip(self.new@.len() as int)) =~= Seq::<EntryV>::empty());
        }
        let ghost gp = self.persisted();
        let ghost go = overlay_kept(ov);
        let ghost kept = Seq::new(ke@.len(), |m: int| ov[ke@[m] as int]);
        proof {
            assert(overlay_kept(kept) == go);
            lemma_overlay_kept_all(kept);
        }
        // The merge itself.
        let mut out: Vec<u8> = Vec::new();
        let mut a: usize = 0;
        let mut b: usize = 0;
        proof {
            assert(gp.skip(0) =~= gp);
            assert(go.skip(0) =~= go);
        }
        while a < pe.len() || b < ke.len()
            invariant
                a <= pe@.len(),
                b <= ke@.len(),
                self.wf(),
                ov == self.overlay(),
                gp == self.persisted(),
                go == overlay_kept(ov),
                kept == Seq::new(ke@.len(), |m: int| ov[ke@[m] as int]),
                overlay_kept(kept) == go,
                go.len() == kept.len(),
                (forall|m: int|
                    0 <= m < kept.len() ==> (#[trigger] kept[m]).1.prefetch is ContentAddressed
                        && go[m] == (EntryV {
                        locator: kept[m].0,
                        digest: kept[m].1.prefetch->digest,
                        path: kept[m].1.path,
                    })),
                forall|j2: int|
                    0 <= j2 < pe@.len() ==> (#[trigger] pe@[j2]).0 <= pe@[j2].1 < pe@[j2].2
                        < pe@[j2].3 <= self.cache@.len(),
                gp == Seq::new(pe@.len(), |j2: int| tuple_entry(self.cache@, pe@[j2])),
                forall|m: int|
                    0 <= m < ke@.len() ==> #[trigger] ke@[m] < self.new@.len(),
                out@ + encode_entries(merge_entries(gp.skip(a as int), go.skip(b as int)))
                    == encode_entries(merge_entries(gp, go)),
            decreases pe@.len() - a + ke@.len() - b,
        {
            let emit_persisted: bool = if b >= ke.len() {
                true
            } else if a >= pe.len() {
                false
            } else {
                let (l0, p1, _p2, _l1) = pe[a];
                let c = cmp_range(&self.cache, l0, p1, &self.new[ke[b]].0);
                proof {
                    assert(gp.skip(a as int)[0] == gp[a as int]);
                    assert(go.skip(b as int)[0] == go[b as int]);
                    assert(gp[a as int].locator == self.cache@.subrange(l0 as int, p1 as int));
                    assert(kept[b as int] == ov[ke@[b as int] as int]);
                    assert(go[b as int].locator == self.new@[ke@[b as int] as int].0@);
                }
                match c {
                    Cmp::Lt => true,
                    _ => false,
                }
            };
            if emit_persisted {
                let (l0, p1, p2, l1) = pe[a];
                let ghost e = gp[a as int];
                let ghost out0 = out@;
                proof {
                    assert(gp.skip(a as int)[0] == e);
                    assert(gp.skip(a as int).skip(1) =~= gp.skip(a + 1));
                    if b < ke@.len() {
                        assert(merge_entries(gp.skip(a as int), go.skip(b as int)) == seq![e]
                            + merge_entries(gp.skip(a + 1), go.skip(b as int)));
                    } else {
                        assert(go.skip(b as int) =~= Seq::<EntryV>::empty());
                        assert(merge_entries(gp.skip(a as int), go.skip(b as int)) == gp.skip(
                            a as int,
                        ));
                        assert(gp.skip(a as int) =~= seq![e] + gp.skip(a + 1));
                        assert(merge_entries(gp.skip(a + 1), go.skip(b as int)) == gp.skip(a + 1));
                    }
                    lemma_encode_cons(e, merge_entries(gp.skip(a + 1), go.skip(b as int)));
                }
                push_range(&mut out, &self.cache, l0, p1);
                out.push(FIELD_SEP);
                push_range(&mut out, &self.cache, p1 + 1, p2);
                out.push(FIELD_SEP);
                push_range(&mut out, &self.cache, p2 + 1, l1);
                out.push(LINE_SEP);
                proof {
                    assert(out@ =~= out0 + encode_entry(e));
                    assert(out@ + encode_entries(merge_entries(gp.skip(a + 1), go.skip(b as int)))
                        =~= encode_entries(merge_entries(gp, go)));
                }
                a += 1;
            } else {
                let ghost e = go[b as int];
                let ghost out0 = out@;
                proof {
                    assert(go.skip(b as int)[0] == e);
                    assert(go.skip(b as int).skip(1) =~= go.skip(b + 1));
                    if a < pe@.len() {
                        let pa = gp.skip(a as int)[0];
                        if lex_lt(pa.locator, e.locator) {
                            assert(false);
                        }
                        assert(merge_entries(gp.skip(a as int), go.skip(b as int)) == seq![e]
                            + merge_entries(gp.skip(a as int), go.skip(b + 1)));
                    } else {
                        assert(gp.skip(a as int) =~= Seq::<EntryV>::empty());
                        assert(merge_entries(gp.skip(a as int), go.skip(b as int)) == go.skip(
                            b as int,
                        ));
                        assert(go.skip(b as int) =~= seq![e] + go.skip(b + 1));
                        assert(merge_entries(gp.skip(a as int), go.skip(b + 1)) == go.skip(b + 1));
                    }
                    lemma_encode_cons(e, merge_entries(gp.skip(a as int), go.skip(b + 1)));
                    assert(kept[b as int] == ov[ke@[b as int] as int]);
                }
                match &self.new[ke[b]].1.prefetch {
                    SourceKind::ContentAddressed { digest } => {
                        push_range(&mut out, &self.new[ke[b]].0, 0, self.new[ke[b]].0.len());
                        out.push(FIELD_SEP);
                        push_range(&mut out, digest, 0, digest.len());
                        out.push(FIELD_SEP);
                        push_range(
                            &mut out,
                            &self.new[ke[b]].1.path,
                            0,
                            self.new[ke[b]].1.path.len(),
                        );
                        out.push(LINE_SEP);
                        proof {
                            let kv = self.new@[ke@[b as int] as int];
                            assert(kv.0@.subrange(0, kv.0@.len() as int) =~= kv.0@);
                            assert(digest@.subrange(0, digest@.len() as int) =~= digest@);
                            assert(kv.1.path@.subrange(0, kv.1.path@.len() as int) =~= kv.1.path@);
                            assert(e.locator == kv.0@);
                            assert(e.digest == digest@);
                            assert(e.path == kv.1.path@);
                            assert(out@ =~= out0 + encode_entry(e));
                            assert(out@ + encode_entries(
                                merge_entries(gp.skip(a as int), go.skip(b + 1)),
                            ) =~= encode_entries(merge_entries(gp, go)));
                        }
                    },
                    SourceKind::Other => {
                        proof {
                            assert(false);
                        }
                    },
                }
                b += 1;
            }
        }
        proof {
            assert(gp.skip(pe@.len() as int) =~= Seq::<EntryV>::empty());
            assert(go.skip(ke@.len() as int) =~= Seq::<EntryV>::empty());
            assert(encode_entries(merge_entries(gp.skip(a as int), go.skip(b as int))).len() == 0);
            assert(out@ =~= out@ + encode_entries(
                merge_entries(gp.skip(a as int), go.skip(b as int)),
            ));
        }
        out
    }
}

/// Appending a content-addressed pair to a kept-filtered overlay keeps one
/// more entry.
proof fn lemma_overlay_kept_snoc(s: Seq<(Seq<u8>, PrefetchV)>, x: (Seq<u8>, PrefetchV))
    requires
        x.1.prefetch is ContentAddressed,
    ensures
        overlay_kept(s + seq![x]) == overlay_kept(s) + seq![
            EntryV { locator: x.0, digest: x.1.prefetch->digest, path: x.1.path },
        ],
    decreases s.len(),
{
    if s.len() == 0 {
        let e = EntryV { locator: x.0, digest: x.1.prefetch->digest, path: x.1.path };
        assert((s + seq![x]).len() == 1);
        assert((s + seq![x])[0] == x);
        assert((s + seq![x]).skip(1).len() == 0);
        assert(overlay_kept((s + seq![x]).skip(1)) =~= Seq::<EntryV>::empty());
        assert(overlay_kept(s + seq![x]) == seq![e] + overlay_kept((s + seq![x]).skip(1)));
        assert(overlay_kept(s) =~= Seq::<EntryV>::empty());
        assert(overlay_kept(s + seq![x]) =~= overlay_kept(s) + seq![e]);
    } else {
        assert((s + seq![x])[0] == s[0]);
        assert((s + seq![x]).skip(1) =~= s.skip(1) + seq![x]);
        lemma_overlay_kept_snoc(s.skip(1), x);
        let e = EntryV { locator: x.0, digest: x.1.prefetch->digest, path: x.1.path };
        let h = match s[0].1.prefetch {
            SourceKindV::ContentAddressed { digest } => seq![
                EntryV { locator: s[0].0, digest, path: s[0].1.path },
            ],
            SourceKindV::Other => Seq::<EntryV>::empty(),
        };
        assert(overlay_kept(s + seq![x]) == h + overlay_kept(s.skip(1) + seq![x]));
        assert(overlay_kept(s) == h + overlay_kept(s.skip(1)));
        assert(h + (overlay_kept(s.skip(1)) + seq![e]) =~= (h + overlay_kept(s.skip(1)))
            + seq![e]);
    }
}

/// Over a wholly content-addressed overlay the kept entries line up one for
/// one.
proof fn lemma_overlay_kept_all(s: Seq<(Seq<u8>, PrefetchV)>)
    requires
        (forall|m: int| 0 <= m < s.len() ==> (#[trigger] s[m]).1.prefetch is ContentAddressed),
    ensures
        overlay_kept(s).len() == s.len(),
        (forall|m: int|
            0 <= m < s.len() ==> overlay_kept(s)[m] == EntryV {
                locator: (#[trigger] s[m]).0,
                digest: s[m].1.prefetch->digest,
                path: s[m].1.path,
            }),
    decreases s.len(),
{
    if s.len() > 0 {
        assert(s[0].1.prefetch is ContentAddressed);
        assert forall|m: int|
            0 <= m < s.skip(1).len() implies (#[trigger] s.skip(1)[m]).1.prefetch
            is ContentAddressed by {
            assert(s.skip(1)[m] == s[m + 1]);
        }
        lemma_overlay_kept_all(s.skip(1));
        assert forall|m: int|
            0 <= m < s.len() implies overlay_kept(s)[m] == EntryV {
            locator: (#[trigger] s[m]).0,
            digest: s[m].1.prefetch->digest,
            path: s[m].1.path,
        } by {
            if m >= 1 {
                assert(s.skip(1)[m - 1] == s[m]);
            }
        }
    }
}

/// Copies a byte vector.
fn copy_vec(v: &Vec<u8>) -> (r: Vec<u8>)
    ensures
        r@ == v@,
{
    let r = copy_range(v, 0, v.len());
    proof {
        assert(v@.subrange(0, v@.len() as int) =~= v@);
    }
    r
}

/// Bytewise equality of two vectors.
fn bytes_eq(a: &Vec<u8>, b: &Vec<u8>) -> (r: bool)
    ensures
        r == (a@ == b@),
{
    proof {
        assert(a@.subrange(0, a@.len() as int) =~= a@);
    }
    let c = cmp_range(a, 0, a.len(), b);
    match c {
        Cmp::Eq => true,
        _ => false,
    }
}

/// Copies an entry, fields and kind alike.
fn clone_prefetch(p: &Prefetch) -> (r: Prefetch)
    ensures
        r@ == p@,
{
    let prefetch = match &p.prefetch {
        SourceKind::ContentAddressed { digest } => SourceKind::ContentAddressed {
            digest: copy_vec(digest),
        },
        SourceKind::Other => SourceKind::Other,
    };
    let r = Prefetch { prefetch, path: copy_vec(&p.path) };
    proof {
        assert(r@ =~= p@);
    }
    r
}

} // verus!
