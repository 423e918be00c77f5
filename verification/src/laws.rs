//! The laws the cache obeys, stated over the same spec functions that its
//! contracts use and proved once and for all.

use vstd::prelude::*;
use crate::order::{
    lex_lt, lex_le, has_prefix, lemma_lex_lt_trans, lemma_lex_lt_le_trans, lemma_lex_total,
};
use crate::line::{
    FIELD_SEP, LINE_SEP, first_occ, lemma_first_occ_at, line_locator, line_rest, line_decodes,
    line_digest, line_path, split_lines,
};
use crate::cache::{
    Cache, EntryV, PrefetchV, entry_of, overlay_kept, merge_entries, encode_entry, encode_entries,
};

verus! {

/// Locators never decrease along the sequence.
pub open spec fn entries_sorted(s: Seq<EntryV>) -> bool {
    forall|i: int, j: int|
        0 <= i <= j < s.len() ==> lex_le((#[trigger] s[i]).locator, (#[trigger] s[j]).locator)
}

/// Locators strictly increase along the sequence.
pub open spec fn entries_sorted_strict(s: Seq<EntryV>) -> bool {
    forall|i: int, j: int|
        0 <= i < j < s.len() ==> lex_lt((#[trigger] s[i]).locator, (#[trigger] s[j]).locator)
}

/// Every merged entry comes from one of the two inputs.
pub proof fn lemma_merge_membership(p: Seq<EntryV>, o: Seq<EntryV>)
    ensures
        (forall|m: int|
            0 <= m < merge_entries(p, o).len() ==> p.contains(#[trigger] merge_entries(p, o)[m])
                || o.contains(merge_entries(p, o)[m])),
    decreases p.len() + o.len(),
{
    let mg = merge_entries(p, o);
    if p.len() == 0 {
        assert forall|m: int| 0 <= m < mg.len() implies p.contains(#[trigger] mg[m]) || o.contains(
            mg[m],
        ) by {
            assert(o[m] == mg[m]);
        }
    } else if o.len() == 0 {
        assert forall|m: int| 0 <= m < mg.len() implies p.contains(#[trigger] mg[m]) || o.contains(
            mg[m],
        ) by {
            assert(p[m] == mg[m]);
        }
    } else if lex_lt(p[0].locator, o[0].locator) {
        lemma_merge_membership(p.skip(1), o);
        let mt = merge_entries(p.skip(1), o);
        assert forall|m: int| 0 <= m < mg.len() implies p.contains(#[trigger] mg[m]) || o.contains(
            mg[m],
        ) by {
            if m == 0 {
                assert(mg[0] == p[0]);
                assert(p[0] == mg[0]);
            } else {
                assert(mg[m] == mt[m - 1]);
                if p.skip(1).contains(mt[m - 1]) {
                    let i = choose|i: int|
                        0 <= i < p.skip(1).len() && p.skip(1)[i] == mt[m - 1];
                    assert(p[i + 1] == mg[m]);
                }
            }
        }
    } else {
        lemma_merge_membership(p, o.skip(1));
        let mt = merge_entries(p, o.skip(1));
        assert forall|m: int| 0 <= m < mg.len() implies p.contains(#[trigger] mg[m]) || o.contains(
            mg[m],
        ) by {
            if m == 0 {
                assert(mg[0] == o[0]);
                assert(o[0] == mg[0]);
            } else {
                assert(mg[m] == mt[m - 1]);
                if o.skip(1).contains(mt[m - 1]) {
                    let i = choose|i: int|
                        0 <= i < o.skip(1).len() && o.skip(1)[i] == mt[m - 1];
                    assert(o[i + 1] == mg[m]);
                }
            }
        }
    }
}

/// Sortedness: merging a non-decreasing persisted sequence with a strictly
/// increasing overlay sequence that shares no locator with it yields a
/// non-decreasing sequence — the next backing file is sorted again.
pub proof fn lemma_merge_sorted(p: Seq<EntryV>, o: Seq<EntryV>)
    requires
        entries_sorted(p),
        entries_sorted_strict(o),
        (forall|i: int, j: int|
            0 <= i < p.len() && 0 <= j < o.len() ==> (#[trigger] p[i]).locator != (
            #[trigger] o[j]).locator),
    ensures
        entries_sorted(merge_entries(p, o)),
    decreases p.len() + o.len(),
{
    let mg = merge_entries(p, o);
    if p.len() == 0 || o.len() == 0 {
    } else {
        let h: EntryV;
        let mt: Seq<EntryV>;
        if lex_lt(p[0].locator, o[0].locator) {
            h = p[0];
            mt = merge_entries(p.skip(1), o);
            assert forall|i: int, j: int|
                0 <= i <= j < p.skip(1).len() implies lex_le(
                (#[trigger] p.skip(1)[i]).locator,
                (#[trigger] p.skip(1)[j]).locator,
            ) by {
                assert(p.skip(1)[i] == p[i + 1]);
                assert(p.skip(1)[j] == p[j + 1]);
            }
            assert forall|i: int, j: int|
                0 <= i < p.skip(1).len() && 0 <= j < o.len() implies (#[trigger] p.skip(
                1,
            )[i]).locator != (#[trigger] o[j]).locator by {
                assert(p.skip(1)[i] == p[i + 1]);
            }
            lemma_merge_sorted(p.skip(1), o);
            lemma_merge_membership(p.skip(1), o);
            assert forall|m: int| 0 <= m < mt.len() implies lex_le(
                h.locator,
                (#[trigger] mt[m]).locator,
            ) by {
                if p.skip(1).contains(mt[m]) {
                    let i = choose|i: int|
                        0 <= i < p.skip(1).len() && p.skip(1)[i] == mt[m];
                    assert(p.skip(1)[i] == p[i + 1]);
                    assert(lex_le(p[0].locator, p[i + 1].locator));
                } else {
                    let j = choose|j: int| 0 <= j < o.len() && o[j] == mt[m];
                    if j > 0 {
                        assert(lex_lt(o[0].locator, o[j].locator));
                        lemma_lex_lt_trans(p[0].locator, o[0].locator, o[j].locator);
                    }
                }
            }
        } else {
            h = o[0];
            mt = merge_entries(p, o.skip(1));
            if p[0].locator != o[0].locator {
                lemma_lex_total(p[0].locator, o[0].locator);
            }
            assert(lex_lt(o[0].locator, p[0].locator));
            assert forall|i: int, j: int|
                0 <= i <= j < o.skip(1).len() implies lex_lt(
                (#[trigger] o.skip(1)[i]).locator,
                (#[trigger] o.skip(1)[j]).locator,
            ) || i == j by {
                assert(o.skip(1)[i] == o[i + 1]);
                assert(o.skip(1)[j] == o[j + 1]);
            }
            assert forall|i: int, j: int|
                0 <= i < p.len() && 0 <= j < o.skip(1).len() implies (#[trigger] p[i]).locator != (
                #[trigger] o.skip(1)[j]).locator by {
                assert(o.skip(1)[j] == o[j + 1]);
            }
            lemma_merge_sorted(p, o.skip(1));
            lemma_merge_membership(p, o.skip(1));
            assert forall|m: int| 0 <= m < mt.len() implies lex_le(
                h.locator,
                (#[trigger] mt[m]).locator,
            ) by {
                if p.contains(mt[m]) {
                    let i = choose|i: int| 0 <= i < p.len() && p[i] == mt[m];
                    assert(lex_le(p[0].locator, p[i].locator));
                    lemma_lex_lt_le_trans(o[0].locator, p[0].locator, p[i].locator);
                } else {
                    let j = choose|j: int|
                        0 <= j < o.skip(1).len() && o.skip(1)[j] == mt[m];
                    assert(o.skip(1)[j] == o[j + 1]);
                    assert(lex_lt(o[0].locator, o[j + 1].locator));
                }
            }
        }
        assert forall|i: int, j: int| 0 <= i <= j < mg.len() implies lex_le(
            (#[trigger] mg[i]).locator,
            (#[trigger] mg[j]).locator,
        ) by {
            assert(mg == seq![h] + mt);
            if i == 0 {
                assert(mg[0] == h);
                if j > 0 {
                    assert(mg[j] == mt[j - 1]);
                }
            } else {
                assert(mg[i] == mt[i - 1]);
                assert(mg[j] == mt[j - 1]);
            }
        }
    }
}

/// `e` carries the locator of one of the overlay's content-addressed pairs.
pub open spec fn kept_from(s: Seq<(Seq<u8>, PrefetchV)>, e: EntryV) -> bool {
    exists|i: int|
        0 <= i < s.len() && e.locator == (#[trigger] s[i]).0 && s[i].1.prefetch
            is ContentAddressed
}

/// Each kept overlay entry is one of the overlay's content-addressed pairs.
pub proof fn lemma_overlay_kept_members(s: Seq<(Seq<u8>, PrefetchV)>)
    ensures
        (forall|m: int|
            0 <= m < overlay_kept(s).len() ==> kept_from(s, #[trigger] overlay_kept(s)[m])),
    decreases s.len(),
{
    if s.len() > 0 {
        lemma_overlay_kept_members(s.skip(1));
        let kt = overlay_kept(s.skip(1));
        assert forall|m: int| 0 <= m < overlay_kept(s).len() implies kept_from(
            s,
            #[trigger] overlay_kept(s)[m],
        ) by {
            let d: int = if s[0].1.prefetch is ContentAddressed {
                1int
            } else {
                0int
            };
            if m < d {
                assert(overlay_kept(s)[m].locator == s[0].0);
                assert(0 <= 0 < s.len() && overlay_kept(s)[m].locator == s[0].0 && s[0].1.prefetch
                    is ContentAddressed);
            } else {
                assert(overlay_kept(s)[m] == kt[m - d]);
                assert(kept_from(s.skip(1), kt[m - d]));
                let i = choose|i: int|
                    0 <= i < s.skip(1).len() && (kt[m - d]).locator == (#[trigger] s.skip(
                        1,
                    )[i]).0 && s.skip(1)[i].1.prefetch is ContentAddressed;
                assert(s.skip(1)[i] == s[i + 1]);
                assert(0 <= i + 1 < s.len() && overlay_kept(s)[m].locator == s[i + 1].0 && s[i
                    + 1].1.prefetch is ContentAddressed);
            }
        }
    }
}

/// Non-cacheable exclusion: a locator whose only overlay entry is not
/// content-addressed, and which no persisted entry carries, never appears in
/// what flush writes.
pub proof fn lemma_other_never_flushed(p: Seq<EntryV>, ov: Seq<(Seq<u8>, PrefetchV)>, k: Seq<u8>)
    requires
        (forall|i: int| 0 <= i < p.len() ==> (#[trigger] p[i]).locator != k),
        (forall|i: int|
            0 <= i < ov.len() && (#[trigger] ov[i]).0 == k ==> !(ov[i].1.prefetch
                is ContentAddressed)),
    ensures
        (forall|m: int|
            0 <= m < merge_entries(p, overlay_kept(ov)).len() ==> (#[trigger] merge_entries(
                p,
                overlay_kept(ov),
            )[m]).locator != k),
{
    let o = overlay_kept(ov);
    lemma_merge_membership(p, o);
    lemma_overlay_kept_members(ov);
    let mg = merge_entries(p, o);
    assert forall|m: int| 0 <= m < mg.len() implies (#[trigger] mg[m]).locator != k by {
        if p.contains(mg[m]) {
            let i = choose|i: int| 0 <= i < p.len() && p[i] == mg[m];
            assert(p[i].locator != k);
        } else {
            let j = choose|j: int| 0 <= j < o.len() && o[j] == mg[m];
            assert(kept_from(ov, o[j]));
            let i = choose|i: int|
                0 <= i < ov.len() && (o[j]).locator == (#[trigger] ov[i]).0 && ov[i].1.prefetch
                    is ContentAddressed;
            assert(ov[i].0 != k);
        }
    }
}

/// A byte field that the line format can carry: no space, no newline.
pub open spec fn clean_field(f: Seq<u8>) -> bool {
    forall|i: int| 0 <= i < f.len() ==> f[i] != FIELD_SEP && f[i] != LINE_SEP
}

/// An entry every field of which the line format can carry.
pub open spec fn entry_wf(e: EntryV) -> bool {
    clean_field(e.locator) && clean_field(e.digest) && clean_field(e.path)
}

/// One entry as a stored line, without its terminating newline.
pub open spec fn entry_line(e: EntryV) -> Seq<u8> {
    e.locator + seq![FIELD_SEP] + e.digest + seq![FIELD_SEP] + e.path
}

/// An encoded entry decodes back to itself.
pub proof fn lemma_decode_encoded(e: EntryV)
    requires
        entry_wf(e),
    ensures
        line_decodes(entry_line(e)),
        entry_of(entry_line(e)) == e,
{
    let s = entry_line(e);
    let lc = e.locator.len() as int;
    let dg = e.digest.len() as int;
    let pt = e.path.len() as int;
    assert(s =~= e.locator + (seq![FIELD_SEP] + (e.digest + (seq![FIELD_SEP] + e.path))));
    assert(s.len() == lc + 1 + dg + 1 + pt);
    assert forall|m: int| 0 <= m < lc implies s[m] != FIELD_SEP by {
        assert(s[m] == e.locator[m]);
    }
    assert(s[lc] == FIELD_SEP);
    lemma_first_occ_at(s, FIELD_SEP, lc);
    assert(line_locator(s) =~= e.locator);
    let rest = line_rest(s);
    assert(rest =~= e.digest + (seq![FIELD_SEP] + e.path));
    assert forall|m: int| 0 <= m < dg implies rest[m] != FIELD_SEP by {
        assert(rest[m] == e.digest[m]);
    }
    assert(rest[dg] == FIELD_SEP);
    lemma_first_occ_at(rest, FIELD_SEP, dg);
    assert(line_digest(s) =~= e.digest);
    let tail = rest.subrange(dg + 1, rest.len() as int);
    assert(tail =~= e.path);
    assert forall|m: int| 0 <= m < pt implies tail[m] != FIELD_SEP by {
        assert(tail[m] == e.path[m]);
    }
    lemma_first_occ_at(tail, FIELD_SEP, pt);
    assert(line_decodes(s));
    assert(line_path(s) == tail);
    assert(entry_of(s) =~= e);
}

/// Scanning what a sequence of well-formed entries encodes finds exactly
/// those entries' lines, in order.
pub proof fn lemma_split_encode(es: Seq<EntryV>)
    requires
        (forall|i: int| 0 <= i < es.len() ==> entry_wf(#[trigger] es[i])),
    ensures
        split_lines(encode_entries(es)).len() == es.len(),
        (forall|i: int|
            0 <= i < es.len() ==> split_lines(encode_entries(es))[i] == entry_line(
                #[trigger] es[i],
            )),
    decreases es.len(),
{
    if es.len() > 0 {
        let s = encode_entries(es);
        let el = entry_line(es[0]);
        let lc = el.len() as int;
        let t2 = encode_entries(es.skip(1));
        assert(encode_entry(es[0]) =~= el + seq![LINE_SEP]);
        assert(s == encode_entry(es[0]) + t2);
        assert(s =~= el + (seq![LINE_SEP] + t2));
        assert(entry_wf(es[0]));
        assert(el =~= es[0].locator + (seq![FIELD_SEP] + (es[0].digest + (seq![FIELD_SEP]
            + es[0].path))));
        assert forall|m: int| 0 <= m < lc implies s[m] != LINE_SEP by {
            assert(s[m] == el[m]);
            let a = es[0].locator.len() as int;
            let b = es[0].digest.len() as int;
            if m < a {
                assert(el[m] == es[0].locator[m]);
            } else if m == a {
                assert(el[m] == FIELD_SEP);
            } else if m < a + 1 + b {
                assert(el[m] == es[0].digest[m - a - 1]);
            } else if m == a + 1 + b {
                assert(el[m] == FIELD_SEP);
            } else {
                assert(el[m] == es[0].path[m - a - b - 2]);
            }
        }
        assert(s[lc] == LINE_SEP);
        lemma_first_occ_at(s, LINE_SEP, lc);
        assert(s.len() > 0);
        assert(split_lines(s) == seq![s.subrange(0, lc)] + split_lines(
            s.subrange(lc + 1, s.len() as int),
        ));
        assert(s.subrange(0, lc) =~= el);
        assert(s.subrange(lc + 1, s.len() as int) =~= t2);
        assert forall|i: int| 0 <= i < es.skip(1).len() implies entry_wf(
            #[trigger] es.skip(1)[i],
        ) by {
            assert(es.skip(1)[i] == es[i + 1]);
        }
        lemma_split_encode(es.skip(1));
        assert forall|i: int| 0 <= i < es.len() implies split_lines(s)[i] == entry_line(
            #[trigger] es[i],
        ) by {
            if i > 0 {
                assert(split_lines(s)[i] == split_lines(t2)[i - 1]);
                assert(es.skip(1)[i - 1] == es[i]);
            }
        }
    }
}

/// Sortedness, at the file level: the lines encoding a non-decreasing
/// sequence of well-formed entries, read back in file order, carry
/// non-decreasing locators.
pub proof fn lemma_encoded_file_sorted(es: Seq<EntryV>)
    requires
        (forall|i: int| 0 <= i < es.len() ==> entry_wf(#[trigger] es[i])),
        entries_sorted(es),
    ensures
        split_lines(encode_entries(es)).len() == es.len(),
        (forall|i: int, j: int|
            0 <= i <= j < es.len() ==> lex_le(
                line_locator(#[trigger] split_lines(encode_entries(es))[i]),
                line_locator(#[trigger] split_lines(encode_entries(es))[j]),
            )),
{
    lemma_split_encode(es);
    assert forall|i: int, j: int| 0 <= i <= j < es.len() implies lex_le(
        line_locator(#[trigger] split_lines(encode_entries(es))[i]),
        line_locator(#[trigger] split_lines(encode_entries(es))[j]),
    ) by {
        lemma_decode_encoded(es[i]);
        lemma_decode_encoded(es[j]);
        assert(lex_le(es[i].locator, es[j].locator));
    }
}

/// Round-trip: open a cache on the bytes that encode a sorted sequence of
/// well-formed entries whose locators are prefix-free, and every entry is
/// found again — the sorted-search premises of `Cache::get` all hold, so a
/// lookup of any stored locator returns that entry's digest and path.
///
/// Prefix-freedom is needed: with both `a` and `ab` stored, a lookup of `a`
/// may land on either line, since a stored locator that begins with the
/// query counts as a match.
pub proof fn lemma_round_trip(c: Cache, es: Seq<EntryV>, k: int)
    requires
        c.wf(),
        c.buffer() == encode_entries(es),
        c.lines_model() == split_lines(c.buffer()),
        c.overlay().len() == 0,
        (forall|i: int| 0 <= i < es.len() ==> entry_wf(#[trigger] es[i])),
        entries_sorted(es),
        (forall|i: int, j: int|
            0 <= i < es.len() && 0 <= j < es.len() && i != j ==> !has_prefix(
                (#[trigger] es[j]).locator,
                (#[trigger] es[i]).locator,
            )),
        0 <= k < es.len(),
    ensures
        !c.overlay_has(es[k].locator),
        c.lines_sorted(),
        c.match_at(k, es[k].locator),
        c.decodes_at(k),
        c.entry_at(k) == es[k],
        (forall|j: int| c.match_at(j, es[k].locator) ==> j == k),
{
    lemma_split_encode(es);
    assert(c.lines_model().len() == c.n_lines());
    assert(c.n_lines() == es.len());
    assert forall|i: int| 0 <= i < es.len() implies c.line_at(i) == entry_line(
        #[trigger] es[i],
    ) by {
        assert(c.lines_model()[i] == c.line_at(i));
    }
    assert forall|i: int| 0 <= i < es.len() implies c.decodes_at(i) && c.entry_at(i) == es[i]
        && c.locator_at(i) == es[i].locator by {
        lemma_decode_encoded(es[i]);
    }
    assert forall|i: int, j: int| 0 <= i <= j < c.n_lines() implies lex_le(
        #[trigger] c.locator_at(i),
        #[trigger] c.locator_at(j),
    ) by {
        assert(lex_le(es[i].locator, es[j].locator));
    }
    assert(has_prefix(es[k].locator, es[k].locator)) by {
        assert(es[k].locator.subrange(0, es[k].locator.len() as int) =~= es[k].locator);
    }
    assert(c.match_at(k, es[k].locator));
    assert forall|j: int| c.match_at(j, es[k].locator) implies j == k by {
        if j != k {
            assert(has_prefix(c.locator_at(j), es[k].locator));
            assert(!has_prefix(es[j].locator, es[k].locator));
        }
    }
}

} // verus!
