//! The interactive sheet: type to filter, sections stay put.
//!
//! This module holds the pager's state and every decision it makes: which
//! entries a filter leaves, where the cursor goes, what is on screen and what
//! a key does. The terminal itself (reading keys, drawing frames) is driven
//! from outside, which hands each key to [`Pager::handle`].
//!
//! Keys follow fzf, because that is the muscle memory this replaces: typing
//! filters, arrows or Ctrl-N/Ctrl-P move, Esc leaves. `q` is not quit; it goes
//! into the filter, same as in fzf.

use vstd::prelude::*;
use crate::group::{Row, RowView, Section, SectionView, chord_spec, sections_view};
use crate::render::{pad_exec, pad_spec, spaces};
use crate::theme::{modifier, modifier_spec, Colour};
use crate::text::{chars_of, extend_chars, string_of, trim_end, trim_end_chars};

verus! {

/// One line of the scrollable area: a section heading, or a row of a section.
#[derive(Debug, Clone, Copy, PartialEq, Eq, Structural)]
pub enum Entry {
    Heading { section: usize },
    Row { section: usize, row: usize },
}

impl Entry {
    pub fn is_row(&self) -> (r: bool)
        ensures
            r == (*self is Row),
    {
        match self {
            Entry::Row { .. } => true,
            Entry::Heading { .. } => false,
        }
    }
}

// ------------------------------------------------------------------ scores
/// The score that nucleo gives `hay` for the fzf-style pattern `filter`
/// (smart case, smart normalisation), or `None` when it does not match.
pub uninterp spec fn fuzzy_score_spec(filter: Seq<char>, hay: Seq<char>) -> Option<u32>;

/// Calls `nucleo_matcher::pattern::Pattern::parse` on `filter` (smart case,
/// smart normalisation) and `Pattern::score` on `hay` with a fresh
/// `Matcher` of the default configuration. The contract claims only that the
/// result is a function of the two strings, which holds because the matcher
/// starts from the same configuration on every call.
#[verifier::external_body]
fn fuzzy_score(filter: &str, hay: &str) -> (r: Option<u32>)
    ensures
        r == fuzzy_score_spec(filter@, hay@),
{
    let pattern = nucleo_matcher::pattern::Pattern::parse(
        filter,
        nucleo_matcher::pattern::CaseMatching::Smart,
        nucleo_matcher::pattern::Normalization::Smart,
    );
    let mut matcher = nucleo_matcher::Matcher::new(nucleo_matcher::Config::DEFAULT);
    let mut buf = Vec::new();
    pattern.score(nucleo_matcher::Utf32Str::new(hay, &mut buf), &mut matcher)
}

/// What a row is matched against: everything on its line plus the section
/// name, so "touchpad" or "resize" narrows to a section by name.
pub open spec fn hay_spec(title: Seq<char>, r: RowView) -> Seq<char> {
    title + " "@ + chord_spec(r) + " "@ + r.text
}

/// A row's score: every row matches an empty filter, with score 0.
pub open spec fn row_score(filter: Seq<char>, title: Seq<char>, r: RowView) -> Option<u32> {
    if filter.len() == 0 {
        Some(0u32)
    } else {
        fuzzy_score_spec(filter, hay_spec(title, r))
    }
}

/// The scores of every row of every section.
pub open spec fn scores_spec(secs: Seq<SectionView>, filter: Seq<char>) -> Seq<Seq<Option<u32>>> {
    Seq::new(
        secs.len(),
        |i: int| Seq::new(secs[i].rows.len(), |j: int| row_score(filter, secs[i].title, secs[i].rows[j])),
    )
}

// ----------------------------------------------------------------- entries
/// The rows that matched, with their scores, in row order.
pub open spec fn hits_of(scores: Seq<Option<u32>>) -> Seq<(u32, usize)>
    decreases scores.len(),
{
    if scores.len() == 0 {
        seq![]
    } else {
        let prev = hits_of(scores.drop_last());
        match scores.last() {
            Some(v) => prev.push((v, (scores.len() - 1) as usize)),
            None => prev,
        }
    }
}

/// Where a hit scoring `v` goes in a list sorted best first: after every hit
/// that scores at least as much, so equal scores keep their order.
pub open spec fn desc_pos(s: Seq<(u32, usize)>, v: u32) -> nat
    decreases s.len(),
{
    if s.len() == 0 {
        0
    } else if s.last().0 < v {
        desc_pos(s.drop_last(), v)
    } else {
        s.len()
    }
}

/// Hits sorted best first, ties in row order.
pub open spec fn sort_desc(s: Seq<(u32, usize)>) -> Seq<(u32, usize)>
    decreases s.len(),
{
    if s.len() == 0 {
        seq![]
    } else {
        let p = sort_desc(s.drop_last());
        p.insert(desc_pos(p, s.last().0) as int, s.last())
    }
}

/// The entries of section `i`: nothing when no row matched, else its heading
/// and its hits.
pub open spec fn block(i: int, hits: Seq<(u32, usize)>) -> Seq<Entry> {
    if hits.len() == 0 {
        seq![]
    } else {
        seq![Entry::Heading { section: i as usize }] + Seq::new(
            hits.len(),
            |k: int| Entry::Row { section: i as usize, row: hits[k].1 },
        )
    }
}

/// The hits of one section, best first when a filter is typed.
pub open spec fn section_hits(scores: Seq<Option<u32>>, ranked: bool) -> Seq<(u32, usize)> {
    if ranked {
        sort_desc(hits_of(scores))
    } else {
        hits_of(scores)
    }
}

/// The entries of the first `n` sections.
pub open spec fn entries_upto(scores: Seq<Seq<Option<u32>>>, ranked: bool, n: int) -> Seq<Entry>
    decreases n,
{
    if n <= 0 {
        seq![]
    } else {
        entries_upto(scores, ranked, n - 1) + block(n - 1, section_hits(scores[n - 1], ranked))
    }
}

/// The entry list for given scores.
pub open spec fn entries_from(scores: Seq<Seq<Option<u32>>>, ranked: bool) -> Seq<Entry> {
    entries_upto(scores, ranked, scores.len() as int)
}

/// The entry list a filter leaves.
pub open spec fn entries_spec(secs: Seq<SectionView>, filter: Seq<char>) -> Seq<Entry> {
    entries_from(scores_spec(secs, filter), filter.len() > 0)
}

proof fn lemma_desc_pos(s: Seq<(u32, usize)>, v: u32)
    ensures
        desc_pos(s, v) <= s.len(),
    decreases s.len(),
{
    if s.len() > 0 && s.last().0 < v {
        lemma_desc_pos(s.drop_last(), v);
    }
}

/// Hits in row order with their scores.
fn hits_exec(scores: &Vec<Option<u32>>) -> (r: Vec<(u32, usize)>)
    ensures
        r@ == hits_of(scores@),
{
    let mut r: Vec<(u32, usize)> = Vec::new();
    let mut j: usize = 0;
    proof {
        assert(scores@.take(0) =~= Seq::<Option<u32>>::empty());
    }
    while j < scores.len()
        invariant
            j <= scores.len(),
            r@ == hits_of(scores@.take(j as int)),
        decreases scores.len() - j,
    {
        proof {
            assert(scores@.take(j + 1).drop_last() =~= scores@.take(j as int));
            assert(scores@.take(j + 1).last() == scores@[j as int]);
        }
        match scores[j] {
            Some(v) => r.push((v, j)),
            None => {},
        }
        j += 1;
    }
    proof {
        assert(scores@.take(scores.len() as int) =~= scores@);
    }
    r
}

/// Best first, ties in order: insertion of each hit after every hit that
/// scores at least as much.
fn sort_hits(hits: &Vec<(u32, usize)>) -> (r: Vec<(u32, usize)>)
    ensures
        r@ == sort_desc(hits@),
{
    let mut r: Vec<(u32, usize)> = Vec::new();
    let mut i: usize = 0;
    while i < hits.len()
        invariant
            i <= hits.len(),
            r@ == sort_desc(hits@.take(i as int)),
        decreases hits.len() - i,
    {
        let h = hits[i];
        let ghost p = r@;
        let mut j = r.len();
        proof {
            assert(p.take(j as int) == p);
        }
        while j > 0 && r[j - 1].0 < h.0
            invariant
                j <= r.len(),
                p == r@,
                desc_pos(p, h.0) == desc_pos(p.take(j as int), h.0),
            decreases j,
        {
            proof {
                assert(p.take(j as int).drop_last() == p.take(j - 1));
                assert(p.take(j as int).last() == r@[j - 1]);
            }
            j -= 1;
        }
        proof {
            if j > 0 {
                assert(p.take(j as int).last() == r@[j - 1]);
            }
            let q = hits@.take(i + 1);
            assert(q.drop_last() == hits@.take(i as int));
            assert(q.last() == h);
            lemma_desc_pos(p, h.0);
        }
        r.insert(j, h);
        i += 1;
    }
    proof {
        assert(hits@.take(hits.len() as int) == hits@);
    }
    r
}

/// The entry list for given scores: for each section in order, its heading
/// and the rows that scored, best first when `ranked`; a section none of
/// whose rows scored is left out, heading and all.
pub fn entries_for_scores(scores: &Vec<Vec<Option<u32>>>, ranked: bool) -> (r: Vec<Entry>)
    ensures
        r@ == entries_from(scores@.map_values(|s: Vec<Option<u32>>| s@), ranked),
{
    let ghost sc = scores@.map_values(|s: Vec<Option<u32>>| s@);
    let mut r: Vec<Entry> = Vec::new();
    let mut i: usize = 0;
    while i < scores.len()
        invariant
            i <= scores.len(),
            sc == scores@.map_values(|s: Vec<Option<u32>>| s@),
            r@ == entries_upto(sc, ranked, i as int),
        decreases scores.len() - i,
    {
        let hits = hits_exec(&scores[i]);
        let hits = if ranked {
            sort_hits(&hits)
        } else {
            hits
        };
        proof {
            assert(sc[i as int] == scores@[i as int]@);
            assert(hits@ == section_hits(sc[i as int], ranked));
        }
        let ghost before = r@;
        if hits.len() > 0 {
            r.push(Entry::Heading { section: i });
            let mut k: usize = 0;
            while k < hits.len()
                invariant
                    k <= hits.len(),
                    r@ == before + seq![Entry::Heading { section: i }] + Seq::new(
                        k as nat,
                        |m: int| Entry::Row { section: i, row: hits@[m].1 },
                    ),
                decreases hits.len() - k,
            {
                r.push(Entry::Row { section: i, row: hits[k].1 });
                k += 1;
                proof {
                    assert(r@ =~= before + seq![Entry::Heading { section: i }] + Seq::new(
                        k as nat,
                        |m: int| Entry::Row { section: i, row: hits@[m].1 },
                    ));
                }
            }
        }
        proof {
            assert(r@ =~= before + block(i as int, hits@));
        }
        i += 1;
    }
    r
}


// ------------------------------------------------------------------- laws
proof fn lemma_desc_pos_split(s: Seq<(u32, usize)>, v: u32)
    ensures
        forall|k: int| desc_pos(s, v) <= k < s.len() ==> (#[trigger] s[k]).0 < v,
        desc_pos(s, v) > 0 ==> s[desc_pos(s, v) - 1].0 >= v,
    decreases s.len(),
{
    if s.len() > 0 && s.last().0 < v {
        lemma_desc_pos_split(s.drop_last(), v);
        lemma_desc_pos(s.drop_last(), v);
        assert forall|k: int| desc_pos(s, v) <= k < s.len() implies (#[trigger] s[k]).0 < v by {
            if k < s.len() - 1 {
                assert(s[k] == s.drop_last()[k]);
            }
        }
        if desc_pos(s, v) > 0 {
            assert(s[desc_pos(s, v) - 1] == s.drop_last()[desc_pos(s, v) - 1]);
        }
    }
}

/// Within a section, the best matches come first: a ranked list never
/// scores higher further down, and it holds exactly the hits it was given.
pub proof fn lemma_ranked_best_first(s: Seq<(u32, usize)>)
    ensures
        forall|a: int, b: int| 0 <= a < b < sort_desc(s).len() ==> sort_desc(s)[a].0 >= sort_desc(s)[b].0,
        sort_desc(s).len() == s.len(),
        forall|k: int| 0 <= k < sort_desc(s).len() ==> s.contains(#[trigger] sort_desc(s)[k]),
    decreases s.len(),
{
    if s.len() > 0 {
        let p = sort_desc(s.drop_last());
        let x = s.last();
        lemma_ranked_best_first(s.drop_last());
        lemma_desc_pos(p, x.0);
        lemma_desc_pos_split(p, x.0);
        let pos = desc_pos(p, x.0) as int;
        let r = p.insert(pos, x);
        assert(r == sort_desc(s));
        assert forall|a: int, b: int| 0 <= a < b < r.len() implies r[a].0 >= r[b].0 by {
            if b < pos {
                assert(r[a] == p[a] && r[b] == p[b]);
            } else if b == pos {
                assert(r[a] == p[a]);
                assert(p[a].0 >= p[pos - 1].0 || a == pos - 1);
            } else if a < pos {
                assert(r[a] == p[a] && r[b] == p[b - 1]);
            } else if a == pos {
                assert(r[b] == p[b - 1]);
            } else {
                assert(r[a] == p[a - 1] && r[b] == p[b - 1]);
            }
        }
        assert forall|k: int| 0 <= k < r.len() implies s.contains(#[trigger] r[k]) by {
            if k < pos {
                assert(r[k] == p[k]);
                assert(s.drop_last().contains(p[k]));
                let w = choose|w: int| 0 <= w < s.drop_last().len() && s.drop_last()[w] == p[k];
                assert(s[w] == p[k]);
            } else if k == pos {
                assert(s[s.len() - 1] == x);
            } else {
                assert(r[k] == p[k - 1]);
                assert(s.drop_last().contains(p[k - 1]));
                let w = choose|w: int| 0 <= w < s.drop_last().len() && s.drop_last()[w] == p[k - 1];
                assert(s[w] == p[k - 1]);
            }
        }
    }
}

proof fn lemma_hits_in_order(scores: Seq<Option<u32>>)
    requires
        scores.len() <= usize::MAX,
    ensures
        forall|a: int, b: int|
            0 <= a < b < hits_of(scores).len() ==> (#[trigger] hits_of(scores)[a]).1 < (
            #[trigger] hits_of(scores)[b]).1,
    decreases scores.len(),
{
    if scores.len() > 0 {
        lemma_hits_in_order(scores.drop_last());
        lemma_hits_rows(scores.drop_last());
        let prev = hits_of(scores.drop_last());
        let h = hits_of(scores);
        assert forall|a: int, b: int| 0 <= a < b < h.len() implies (#[trigger] h[a]).1 < (#[trigger] h[b]).1 by {
            assert(h[a] == prev[a]);
            if b < prev.len() {
                assert(h[b] == prev[b]);
            }
        }
    }
}

/// Ranking is stable: hits given in row order come out best first, equal
/// scores still in row order, none lost or added.
pub proof fn lemma_ranked_stable(s: Seq<(u32, usize)>)
    requires
        forall|a: int, b: int| 0 <= a < b < s.len() ==> (#[trigger] s[a]).1 < (#[trigger] s[b]).1,
    ensures
        forall|a: int, b: int|
            0 <= a < b < sort_desc(s).len() ==> (#[trigger] sort_desc(s)[a]).0 > (#[trigger] sort_desc(s)[b]).0
                || (sort_desc(s)[a].0 == sort_desc(s)[b].0 && sort_desc(s)[a].1 < sort_desc(s)[b].1),
        sort_desc(s).to_multiset() == s.to_multiset(),
    decreases s.len(),
{
    if s.len() > 0 {
        let q = s.drop_last();
        let p = sort_desc(q);
        let x = s.last();
        lemma_ranked_stable(q);
        lemma_ranked_best_first(q);
        lemma_desc_pos(p, x.0);
        lemma_desc_pos_split(p, x.0);
        let pos = desc_pos(p, x.0) as int;
        let r = p.insert(pos, x);
        assert(r == sort_desc(s));
        vstd::seq_lib::to_multiset_insert(p, pos, x);
        vstd::seq_lib::to_multiset_build(q, x);
        assert(q.push(x) =~= s);
        assert forall|a: int, b: int| 0 <= a < b < r.len() implies (#[trigger] r[a]).0 > (#[trigger] r[b]).0
            || (r[a].0 == r[b].0 && r[a].1 < r[b].1) by {
            if b < pos {
                assert(r[a] == p[a] && r[b] == p[b]);
            } else if b == pos {
                assert(r[a] == p[a] && r[b] == x);
                assert(p[pos - 1].0 >= x.0);
                if a < pos - 1 {
                    assert(p[a].0 > p[pos - 1].0 || p[a].0 == p[pos - 1].0);
                }
                assert(q.contains(p[a]));
                let w = choose|w: int| 0 <= w < q.len() && q[w] == p[a];
                assert(s[w] == p[a]);
                assert(s[w].1 < s[s.len() - 1].1);
            } else if a < pos {
                assert(r[a] == p[a] && r[b] == p[b - 1]);
            } else if a == pos {
                assert(r[a] == x && r[b] == p[b - 1]);
            } else {
                assert(r[a] == p[a - 1] && r[b] == p[b - 1]);
            }
        }
    } else {
        assert(s =~= sort_desc(s));
    }
}

/// What a new filter leaves. Section by section, in their order: nothing
/// for a section with no hit, else its heading and its hits (so no heading
/// stands without a row under it). With an empty
/// filter every row is a hit, in the order of its section; with a filter
/// the hits are the rows it scores, best first, equal scores in the order of
/// the section, none lost or added. The cursor is on the first row (just
/// after the first heading), or at 0 when nothing matched; the view is at
/// the top; sections and totals are kept.
pub proof fn lemma_refiltered(p: PagerView, f: Seq<char>)
    requires
        p.sections.len() <= usize::MAX,
        forall|i: int| 0 <= i < p.sections.len() ==> (#[trigger] p.sections[i]).rows.len() <= usize::MAX,
    ensures
        ({
            let q = refiltered(p, f);
            let sc = scores_spec(p.sections, f);
            let ranked = f.len() > 0;
            &&& q.entries == entries_upto(sc, ranked, sc.len() as int)
            &&& entries_shape(q.entries, sc, sc.len() as int)
            &&& forall|i: int|
                0 <= i < sc.len() ==> ({
                    let h = #[trigger] section_hits(sc[i], ranked);
                    &&& h.to_multiset() == hits_of(sc[i]).to_multiset()
                    &&& forall|a: int, b: int|
                        0 <= a < b < h.len() ==> (ranked && (#[trigger] h[a]).0 > (#[trigger] h[b]).0) || (h[a].0
                            == h[b].0 && h[a].1 < h[b].1)
                    &&& !ranked ==> h.len() == p.sections[i].rows.len()
                })
            &&& q.entries.len() > 0 ==> q.entries[0] is Heading && q.cursor == 1
            &&& q.entries.len() == 0 ==> q.cursor == 0
            &&& q.offset == 0
            &&& q.filter == f
            &&& q.sections == p.sections
            &&& q.total == p.total
        }),
{
    let q = refiltered(p, f);
    let sc = scores_spec(p.sections, f);
    let ranked = f.len() > 0;
    lemma_entries_shape(p.sections, f);
    let e = q.entries;
    if e.len() > 0 {
        assert(first_row_from(e, 1) == Some(1nat));
    }
    assert forall|i: int| 0 <= i < sc.len() implies ({
        let h = #[trigger] section_hits(sc[i], ranked);
        &&& h.to_multiset() == hits_of(sc[i]).to_multiset()
        &&& forall|a: int, b: int|
            0 <= a < b < h.len() ==> (ranked && (#[trigger] h[a]).0 > (#[trigger] h[b]).0) || (h[a].0 == h[b].0
                && h[a].1 < h[b].1)
        &&& !ranked ==> h.len() == p.sections[i].rows.len()
    }) by {
        let s = sc[i];
        assert(s.len() == p.sections[i].rows.len());
        lemma_hits_in_order(s);
        lemma_hits_matched(s);
        if ranked {
            lemma_ranked_stable(hits_of(s));
        } else {
            assert forall|j: int| 0 <= j < s.len() implies #[trigger] s[j] == Some(0u32) by {
                assert(s[j] == row_score(f, p.sections[i].title, p.sections[i].rows[j]));
            }
            lemma_hits_all(s);
            lemma_hits_rows(s);
            let h = hits_of(s);
            assert forall|a: int, b: int| 0 <= a < b < h.len() implies (ranked && (#[trigger] h[a]).0 > (
            #[trigger] h[b]).0) || (h[a].0 == h[b].0 && h[a].1 < h[b].1) by {
                assert(s[h[a].1 as int] == Some(h[a].0));
                assert(s[h[b].1 as int] == Some(h[b].0));
            }
        }
    }
}

proof fn lemma_hits_rows(scores: Seq<Option<u32>>)
    requires
        scores.len() <= usize::MAX,
    ensures
        forall|k: int| 0 <= k < hits_of(scores).len() ==> (#[trigger] hits_of(scores)[k]).1 < scores.len(),
    decreases scores.len(),
{
    if scores.len() > 0 {
        lemma_hits_rows(scores.drop_last());
        let prev = hits_of(scores.drop_last());
        assert forall|k: int| 0 <= k < hits_of(scores).len() implies (#[trigger] hits_of(scores)[k]).1
            < scores.len() by {
            if k < prev.len() {
                assert(hits_of(scores)[k] == prev[k]);
            }
        }
    }
}

/// The section an entry belongs to.
pub open spec fn section_of(e: Entry) -> usize {
    match e {
        Entry::Heading { section } => section,
        Entry::Row { section, .. } => section,
    }
}

/// The shape of every entry list: entries point at real sections and rows,
/// sections keep their order, every heading is followed by a row of its own
/// section (a heading is kept only when one of its rows matched), and a
/// non-empty list starts with a heading and a row.
pub open spec fn entries_shape(e: Seq<Entry>, scores: Seq<Seq<Option<u32>>>, n: int) -> bool {
    &&& forall|k: int| 0 <= k < e.len() ==> section_of(#[trigger] e[k]) < n
    &&& forall|k: int|
        0 <= k < e.len() && (#[trigger] e[k]) is Row ==> e[k]->row < scores[section_of(e[k]) as int].len()
    &&& forall|a: int, b: int| 0 <= a < b < e.len() ==> section_of(#[trigger] e[a]) <= section_of(#[trigger] e[b])
    &&& forall|k: int|
        0 <= k < e.len() && (#[trigger] e[k]) is Heading ==> k + 1 < e.len() && e[k + 1] is Row
            && section_of(e[k + 1]) == section_of(e[k])
    &&& e.len() > 0 ==> e[0] is Heading && e.len() > 1 && e[1] is Row
}

proof fn lemma_entries_upto_shape(scores: Seq<Seq<Option<u32>>>, ranked: bool, n: int)
    requires
        0 <= n <= scores.len(),
        scores.len() <= usize::MAX,
        forall|i: int| 0 <= i < scores.len() ==> (#[trigger] scores[i]).len() <= usize::MAX,
    ensures
        entries_shape(entries_upto(scores, ranked, n), scores, n),
    decreases n,
{
    if n > 0 {
        lemma_entries_upto_shape(scores, ranked, n - 1);
        let prev = entries_upto(scores, ranked, n - 1);
        let hits = section_hits(scores[n - 1], ranked);
        lemma_hits_rows(scores[n - 1]);
        lemma_ranked_best_first(hits_of(scores[n - 1]));
        assert forall|k: int| 0 <= k < hits.len() implies (#[trigger] hits[k]).1 < scores[n - 1].len() by {
            if ranked {
                assert(hits_of(scores[n - 1]).contains(hits[k]));
            }
        }
        let b = block(n - 1, hits);
        let e = prev + b;
        assert(e == entries_upto(scores, ranked, n));
        assert forall|k: int| prev.len() <= k < e.len() implies section_of(#[trigger] e[k]) == n - 1 by {
            assert(e[k] == b[k - prev.len()]);
        }
        assert forall|k: int| 0 <= k < prev.len() implies #[trigger] e[k] == prev[k] by {}
        assert forall|k: int|
            0 <= k < e.len() && (#[trigger] e[k]) is Row implies e[k]->row < scores[section_of(e[k]) as int].len() by {
            if k < prev.len() {
                assert(e[k] == prev[k]);
            } else {
                assert(e[k] == b[k - prev.len()]);
                assert(b[k - prev.len()] == Entry::Row { section: (n - 1) as usize, row: hits[k - prev.len() - 1].1 });
            }
        }
        assert forall|a: int, b2: int| 0 <= a < b2 < e.len() implies section_of(#[trigger] e[a]) <= section_of(#[trigger] e[b2]) by {
            if b2 < prev.len() {
                assert(e[a] == prev[a] && e[b2] == prev[b2]);
            } else if a < prev.len() {
                assert(e[a] == prev[a]);
            }
        }
        assert forall|k: int| 0 <= k < e.len() && (#[trigger] e[k]) is Heading implies k + 1 < e.len()
            && e[k + 1] is Row && section_of(e[k + 1]) == section_of(e[k]) by {
            if k < prev.len() {
                assert(e[k] == prev[k]);
                assert(e[k + 1] == prev[k + 1]);
            } else {
                assert(e[k] == b[k - prev.len()]);
                assert(k == prev.len());
                assert(e[k + 1] == b[1]);
            }
        }
        if e.len() > 0 {
            if prev.len() > 0 {
                assert(e[0] == prev[0] && e[1] == prev[1]);
            } else {
                assert(e[0] == b[0] && e[1] == b[1]);
            }
        }
    }
}

/// Every entry list a filter can leave has the shape above: sections survive
/// filtering as headings over their matching rows, in their fixed order.
pub proof fn lemma_entries_shape(secs: Seq<SectionView>, filter: Seq<char>)
    requires
        secs.len() <= usize::MAX,
        forall|i: int| 0 <= i < secs.len() ==> (#[trigger] secs[i]).rows.len() <= usize::MAX,
    ensures
        entries_shape(entries_spec(secs, filter), scores_spec(secs, filter), secs.len() as int),
{
    let sc = scores_spec(secs, filter);
    assert forall|i: int| 0 <= i < sc.len() implies (#[trigger] sc[i]).len() <= usize::MAX by {
        assert(sc[i].len() == secs[i].rows.len());
    }
    lemma_entries_upto_shape(sc, filter.len() > 0, secs.len() as int);
}

proof fn lemma_hits_matched(scores: Seq<Option<u32>>)
    requires
        scores.len() <= usize::MAX,
    ensures
        forall|k: int|
            0 <= k < hits_of(scores).len() ==> scores[(#[trigger] hits_of(scores)[k]).1 as int] == Some(
                hits_of(scores)[k].0,
            ),
        forall|v: u32| scores.len() > 0 && scores.last() == Some(v) ==> hits_of(scores).last() == (v, (scores.len() - 1) as usize),
    decreases scores.len(),
{
    if scores.len() > 0 {
        lemma_hits_matched(scores.drop_last());
        lemma_hits_rows(scores.drop_last());
        let prev = hits_of(scores.drop_last());
        assert forall|k: int| 0 <= k < hits_of(scores).len() implies scores[(#[trigger] hits_of(
            scores,
        )[k]).1 as int] == Some(hits_of(scores)[k].0) by {
            if k < prev.len() {
                assert(hits_of(scores)[k] == prev[k]);
                assert(scores[prev[k].1 as int] == scores.drop_last()[prev[k].1 as int]);
            }
        }
    }
}

proof fn lemma_entries_matched(scores: Seq<Seq<Option<u32>>>, ranked: bool, n: int)
    requires
        0 <= n <= scores.len(),
        scores.len() <= usize::MAX,
        forall|i: int| 0 <= i < scores.len() ==> (#[trigger] scores[i]).len() <= usize::MAX,
    ensures
        forall|k: int|
            0 <= k < entries_upto(scores, ranked, n).len() && (#[trigger] entries_upto(
                scores,
                ranked,
                n,
            )[k]) is Row ==> section_of(entries_upto(scores, ranked, n)[k]) < n && scores[section_of(
                entries_upto(scores, ranked, n)[k],
            ) as int][entries_upto(scores, ranked, n)[k]->row as int] is Some,
    decreases n,
{
    if n > 0 {
        lemma_entries_matched(scores, ranked, n - 1);
        let prev = entries_upto(scores, ranked, n - 1);
        let sc = scores[n - 1];
        let hits = section_hits(sc, ranked);
        lemma_hits_matched(sc);
        lemma_ranked_best_first(hits_of(sc));
        let b = block(n - 1, hits);
        let e = prev + b;
        assert(e == entries_upto(scores, ranked, n));
        assert forall|k: int| 0 <= k < e.len() && (#[trigger] e[k]) is Row implies section_of(e[k]) < n
            && scores[section_of(e[k]) as int][e[k]->row as int] is Some by {
            if k < prev.len() {
                assert(e[k] == prev[k]);
            } else {
                let j = k - prev.len() - 1;
                assert(e[k] == b[k - prev.len()]);
                assert(b[k - prev.len()] == Entry::Row { section: (n - 1) as usize, row: hits[j].1 });
                if ranked {
                    assert(hits_of(sc).contains(hits[j]));
                    let w = choose|w: int| 0 <= w < hits_of(sc).len() && hits_of(sc)[w] == hits[j];
                    assert(sc[hits_of(sc)[w].1 as int] == Some(hits_of(sc)[w].0));
                } else {
                    assert(sc[hits[j].1 as int] == Some(hits[j].0));
                }
                assert((n - 1) as usize as int == n - 1);
            }
        }
    }
}

/// A filter shows only what it matched: every row on the list is a row of
/// its section whose score against the filter is a match.
pub proof fn lemma_rows_match_the_filter(secs: Seq<SectionView>, f: Seq<char>)
    requires
        secs.len() <= usize::MAX,
        forall|i: int| 0 <= i < secs.len() ==> (#[trigger] secs[i]).rows.len() <= usize::MAX,
    ensures
        forall|k: int|
            0 <= k < entries_spec(secs, f).len() && (#[trigger] entries_spec(secs, f)[k]) is Row ==> {
                let s = section_of(entries_spec(secs, f)[k]) as int;
                let r = entries_spec(secs, f)[k]->row as int;
                &&& s < secs.len()
                &&& r < secs[s].rows.len()
                &&& row_score(f, secs[s].title, secs[s].rows[r]) is Some
            },
{
    let sc = scores_spec(secs, f);
    assert forall|i: int| 0 <= i < sc.len() implies (#[trigger] sc[i]).len() <= usize::MAX by {
        assert(sc[i].len() == secs[i].rows.len());
    }
    lemma_entries_matched(sc, f.len() > 0, secs.len() as int);
    lemma_entries_upto_shape(sc, f.len() > 0, secs.len() as int);
    let e = entries_spec(secs, f);
    assert forall|k: int| 0 <= k < e.len() && (#[trigger] e[k]) is Row implies {
        let s = section_of(e[k]) as int;
        let r = e[k]->row as int;
        &&& s < secs.len()
        &&& r < secs[s].rows.len()
        &&& row_score(f, secs[s].title, secs[s].rows[r]) is Some
    } by {
        let s = section_of(e[k]) as int;
        assert(sc[s].len() == secs[s].rows.len());
        assert(sc[s][e[k]->row as int] == row_score(f, secs[s].title, secs[s].rows[e[k]->row as int]));
    }
}

proof fn lemma_count_rows_concat(a: Seq<Entry>, b: Seq<Entry>)
    ensures
        count_rows(a + b) == count_rows(a) + count_rows(b),
    decreases b.len(),
{
    if b.len() == 0 {
        assert(a + b =~= a);
    } else {
        lemma_count_rows_concat(a, b.drop_last());
        assert((a + b).drop_last() =~= a + b.drop_last());
        assert((a + b).last() == b.last());
    }
}

proof fn lemma_count_rows_block(i: int, hits: Seq<(u32, usize)>)
    ensures
        count_rows(block(i, hits)) == hits.len(),
    decreases hits.len(),
{
    if hits.len() > 0 {
        let rows = Seq::new(hits.len(), |k: int| Entry::Row { section: i as usize, row: hits[k].1 });
        assert(block(i, hits) == seq![Entry::Heading { section: i as usize }] + rows);
        lemma_count_rows_concat(seq![Entry::Heading { section: i as usize }], rows);
        assert(count_rows(seq![Entry::Heading { section: i as usize }]) == 0) by {
            let h = seq![Entry::Heading { section: i as usize }];
            assert(h.drop_last() =~= Seq::<Entry>::empty());
            assert(count_rows(Seq::<Entry>::empty()) == 0);
            assert(!(h.last() is Row));
        }
        lemma_count_all_rows(rows);
    }
}

proof fn lemma_count_all_rows(e: Seq<Entry>)
    requires
        forall|k: int| 0 <= k < e.len() ==> (#[trigger] e[k]) is Row,
    ensures
        count_rows(e) == e.len(),
    decreases e.len(),
{
    if e.len() > 0 {
        assert forall|k: int| 0 <= k < e.drop_last().len() implies (#[trigger] e.drop_last()[k]) is Row by {
            assert(e.drop_last()[k] == e[k]);
        }
        lemma_count_all_rows(e.drop_last());
        assert(e.last() == e[e.len() - 1]);
    }
}

proof fn lemma_hits_all(scores: Seq<Option<u32>>)
    requires
        forall|j: int| 0 <= j < scores.len() ==> (#[trigger] scores[j]) is Some,
    ensures
        hits_of(scores).len() == scores.len(),
    decreases scores.len(),
{
    if scores.len() > 0 {
        assert forall|j: int| 0 <= j < scores.drop_last().len() implies (#[trigger] scores.drop_last()[j]) is Some by {
            assert(scores.drop_last()[j] == scores[j]);
        }
        lemma_hits_all(scores.drop_last());
        assert(scores.last() == scores[scores.len() - 1]);
    }
}

/// An empty filter shows every row of the sheet: the count of matches is the
/// total.
pub proof fn lemma_empty_filter_shows_every_row(secs: Seq<SectionView>)
    ensures
        count_rows(entries_spec(secs, seq![])) == total_rows(secs),
{
    lemma_empty_filter_upto(secs, secs.len() as int);
    assert(secs.take(secs.len() as int) =~= secs);
}

proof fn lemma_empty_filter_upto(secs: Seq<SectionView>, n: int)
    requires
        0 <= n <= secs.len(),
    ensures
        count_rows(entries_upto(scores_spec(secs, seq![]), false, n)) == total_rows(secs.take(n)),
    decreases n,
{
    let sc = scores_spec(secs, seq![]);
    if n == 0 {
        assert(secs.take(0) =~= Seq::<SectionView>::empty());
    } else {
        lemma_empty_filter_upto(secs, n - 1);
        let prev = entries_upto(sc, false, n - 1);
        let hits = section_hits(sc[n - 1], false);
        assert forall|j: int| 0 <= j < sc[n - 1].len() implies (#[trigger] sc[n - 1][j]) is Some by {}
        lemma_hits_all(sc[n - 1]);
        lemma_count_rows_block(n - 1, hits);
        lemma_count_rows_concat(prev, block(n - 1, hits));
        assert(secs.take(n).drop_last() =~= secs.take(n - 1));
        assert(secs.take(n).last() == secs[n - 1]);
    }
}

// ------------------------------------------------------------------ pager
/// A key as the pager sees it.
#[derive(Debug, Clone, Copy, PartialEq, Eq, Structural)]
pub enum Key {
    Esc,
    Enter,
    Backspace,
    Up,
    Down,
    PageUp,
    PageDown,
    Home,
    End,
    /// A character, typed with or without Ctrl.
    Char { c: char, ctrl: bool },
    Other,
}

/// The pager's state.
pub struct Pager {
    sections: Vec<Section>,
    filter: Vec<char>,
    entries: Vec<Entry>,
    /// Index into `entries`; always points at a row, never a heading.
    cursor: usize,
    /// First visible entry.
    offset: usize,
    total: usize,
    /// Width of the chord column, from the data rather than a guess: real
    /// configs carry names like `XF86AudioLowerVolume`.
    key_width: usize,
}

pub struct PagerView {
    pub sections: Seq<SectionView>,
    pub filter: Seq<char>,
    pub entries: Seq<Entry>,
    pub cursor: nat,
    pub offset: nat,
    pub total: nat,
    pub key_width: nat,
}

impl View for Pager {
    type V = PagerView;

    closed spec fn view(&self) -> PagerView {
        PagerView {
            sections: sections_view(self.sections@),
            filter: self.filter@,
            entries: self.entries@,
            cursor: self.cursor as nat,
            offset: self.offset as nat,
            total: self.total as nat,
            key_width: self.key_width as nat,
        }
    }
}

/// The first row at or after `k`.
pub open spec fn first_row_from(e: Seq<Entry>, k: int) -> Option<nat>
    decreases e.len() - k,
{
    if k < 0 || k >= e.len() {
        None
    } else if e[k] is Row {
        Some(k as nat)
    } else {
        first_row_from(e, k + 1)
    }
}

/// The last entry before `k` that is a row (`rows`) or a heading.
pub open spec fn last_before(e: Seq<Entry>, k: int, rows: bool) -> Option<nat>
    decreases k,
{
    if k <= 0 || k > e.len() {
        None
    } else if (e[k - 1] is Row) == rows {
        Some((k - 1) as nat)
    } else {
        last_before(e, k - 1, rows)
    }
}

/// The number of rows among the entries.
pub open spec fn count_rows(e: Seq<Entry>) -> nat
    decreases e.len(),
{
    if e.len() == 0 {
        0
    } else {
        count_rows(e.drop_last()) + if e.last() is Row {
            1nat
        } else {
            0nat
        }
    }
}

/// The number of rows on the sheet.
pub open spec fn total_rows(secs: Seq<SectionView>) -> nat
    decreases secs.len(),
{
    if secs.len() == 0 {
        0
    } else {
        total_rows(secs.drop_last()) + secs.last().rows.len()
    }
}

/// The cursor is on a row, or the list is empty and the cursor at 0.
pub open spec fn cursor_ok(e: Seq<Entry>, c: nat) -> bool {
    ||| e.len() == 0 && c == 0
    ||| c < e.len() && e[c as int] is Row
}

/// Walk `remaining` rows from `i`, one entry at a time, skipping headings;
/// `None` when the list ends first.
pub open spec fn walk(e: Seq<Entry>, i: int, forward: bool, remaining: nat) -> Option<nat>
    decreases remaining, (if forward {
        e.len() - i
    } else {
        i + 1
    }),
{
    if remaining == 0 {
        if i >= 0 {
            Some(i as nat)
        } else {
            None
        }
    } else {
        let n = if forward {
            i + 1
        } else {
            i - 1
        };
        if n < 0 || n >= e.len() || i < -1 || i > e.len() {
            None
        } else if e[n] is Row {
            walk(e, n, forward, (remaining - 1) as nat)
        } else {
            walk(e, n, forward, remaining)
        }
    }
}

/// The cursor after moving by `delta` rows: unchanged when the list ends
/// before the move is complete.
pub open spec fn moved(e: Seq<Entry>, cursor: nat, delta: int) -> nat {
    let rem = if delta < 0 {
        -delta
    } else {
        delta
    };
    match walk(e, cursor as int, delta > 0, rem as nat) {
        Some(i) => i,
        None => cursor,
    }
}

/// The cursor after Home (`to_end` false) or End.
pub open spec fn jumped(e: Seq<Entry>, cursor: nat, to_end: bool) -> nat {
    let found = if to_end {
        last_before(e, e.len() as int, true)
    } else {
        first_row_from(e, 0)
    };
    match found {
        Some(i) => i,
        None => cursor,
    }
}

pub open spec fn sat_sub1(a: nat) -> nat {
    if a >= 1 {
        (a - 1) as nat
    } else {
        0
    }
}

/// The first visible entry once the cursor has been scrolled into a view of
/// `height` entries: the heading above the cursor is pulled in when the view
/// has to move up, the cursor kept on the last line when it has to move down.
pub open spec fn scrolled(len: nat, cursor: nat, offset: nat, height: nat) -> nat {
    if height == 0 {
        offset
    } else {
        let want = sat_sub1(cursor);
        let o1 = if want < offset {
            want
        } else {
            offset
        };
        let o2 = if cursor >= o1 + height {
            (cursor + 1 - height) as nat
        } else {
            o1
        };
        let last = sat_sub1(len);
        if o2 < last {
            o2
        } else {
            last
        }
    }
}

/// The section whose heading sticks to the top: the cursor's, once that
/// heading has scrolled off.
pub open spec fn sticky_spec(e: Seq<Entry>, cursor: nat, offset: nat) -> Option<nat> {
    if cursor < e.len() && e[cursor as int] is Row {
        match last_before(e, cursor as int, false) {
            Some(h) => if h < offset {
                Some(section_of(e[cursor as int]) as nat)
            } else {
                None
            },
            None => None,
        }
    } else {
        None
    }
}

/// The filter after Ctrl-W: the last word and the blanks after it gone.
pub open spec fn cut_word(f: Seq<char>) -> Seq<char> {
    match last_space(trim_end(f)) {
        Some(i) => f.take(i + 1int),
        None => seq![],
    }
}

/// The last space in `s`.
pub open spec fn last_space(s: Seq<char>) -> Option<nat>
    decreases s.len(),
{
    if s.len() == 0 {
        None
    } else if s.last() == ' ' {
        Some((s.len() - 1) as nat)
    } else {
        last_space(s.drop_last())
    }
}

/// Keys that leave the pager.
pub open spec fn is_quit(key: Key) -> bool {
    match key {
        Key::Esc => true,
        Key::Enter => true,
        Key::Char { c, ctrl } => ctrl && (c == 'c' || c == 'd'),
        _ => false,
    }
}

/// The new filter, for keys that edit it.
pub open spec fn filter_edit(key: Key, f: Seq<char>) -> Option<Seq<char>> {
    match key {
        Key::Char { c, ctrl } => if ctrl && c == 'u' {
            Some(seq![])
        } else if ctrl && c == 'w' {
            Some(cut_word(f))
        } else if ctrl && (c == 'c' || c == 'd' || c == 'n' || c == 'p') {
            None
        } else {
            Some(f.push(c))
        },
        Key::Backspace => Some(
            if f.len() > 0 {
                f.drop_last()
            } else {
                f
            },
        ),
        _ => None,
    }
}

/// The cursor after a key that moves it.
pub open spec fn motion(key: Key, e: Seq<Entry>, cursor: nat, page: int) -> nat {
    match key {
        Key::Down => moved(e, cursor, 1),
        Key::Up => moved(e, cursor, -1),
        Key::PageDown => moved(e, cursor, page),
        Key::PageUp => moved(e, cursor, -page),
        Key::Home => jumped(e, cursor, false),
        Key::End => jumped(e, cursor, true),
        Key::Char { c, ctrl } => if ctrl && c == 'n' {
            moved(e, cursor, 1)
        } else if ctrl && c == 'p' {
            moved(e, cursor, -1)
        } else {
            cursor
        },
        _ => cursor,
    }
}

/// The state after a new filter: entries rebuilt, cursor on the first row,
/// view at the top.
pub open spec fn refiltered(p: PagerView, f: Seq<char>) -> PagerView {
    let e = entries_spec(p.sections, f);
    PagerView {
        sections: p.sections,
        filter: f,
        entries: e,
        cursor: match first_row_from(e, 0) {
            Some(i) => i,
            None => 0,
        },
        offset: 0,
        total: p.total,
        key_width: p.key_width,
    }
}

/// The state after a key that does not leave the pager.
pub open spec fn after_key(p: PagerView, key: Key, page: int) -> PagerView {
    if is_quit(key) {
        p
    } else {
        match filter_edit(key, p.filter) {
            Some(f) => refiltered(p, f),
            None => PagerView {
                sections: p.sections,
                filter: p.filter,
                entries: p.entries,
                cursor: motion(key, p.entries, p.cursor, page),
                offset: p.offset,
                total: p.total,
                key_width: p.key_width,
            },
        }
    }
}

proof fn lemma_first_row(e: Seq<Entry>, k: int)
    requires
        0 <= k,
    ensures
        match first_row_from(e, k) {
            Some(i) => k <= i < e.len() && e[i as int] is Row,
            None => forall|j: int| k <= j < e.len() ==> !(#[trigger] e[j] is Row),
        },
    decreases e.len() - k,
{
    if k < e.len() && !(e[k] is Row) {
        lemma_first_row(e, k + 1);
    }
}

proof fn lemma_last_before(e: Seq<Entry>, k: int, rows: bool)
    requires
        k <= e.len(),
    ensures
        match last_before(e, k, rows) {
            Some(i) => i < k && (e[i as int] is Row) == rows,
            None => forall|j: int| 0 <= j < k ==> (#[trigger] e[j] is Row) != rows,
        },
    decreases k,
{
    if k > 0 && (e[k - 1] is Row) != rows {
        lemma_last_before(e, k - 1, rows);
    }
}

proof fn lemma_walk(e: Seq<Entry>, i: int, forward: bool, remaining: nat)
    requires
        0 <= i < e.len(),
        remaining > 0,
    ensures
        match walk(e, i, forward, remaining) {
            Some(n) => n < e.len() && e[n as int] is Row,
            None => true,
        },
    decreases remaining, (if forward {
        e.len() - i
    } else {
        i + 1
    }),
{
    let n = if forward {
        i + 1
    } else {
        i - 1
    };
    if 0 <= n < e.len() {
        if e[n] is Row {
            if remaining > 1 {
                lemma_walk(e, n, forward, (remaining - 1) as nat);
            }
        } else {
            lemma_walk(e, n, forward, remaining);
        }
    }
}

impl Pager {
    /// The invariant: the entries are what the filter leaves, and the cursor
    /// is on a row.
    pub closed spec fn wf(&self) -> bool {
        &&& self.entries@ == entries_spec(sections_view(self.sections@), self.filter@)
        &&& cursor_ok(self.entries@, self.cursor as nat)
    }

    proof fn lemma_shape(&self)
        requires
            self.wf(),
        ensures
            entries_shape(
                self@.entries,
                scores_spec(self@.sections, self@.filter),
                self@.sections.len() as int,
            ),
            forall|i: int|
                0 <= i < self@.sections.len() ==> (#[trigger] self@.sections[i]) == self.sections@[i]@,
            self@.sections.len() == self.sections@.len(),
    {
        assert(self.sections@.len() == self.sections.len());
        lemma_sections_shape(self.sections@, self.filter@);
    }

    /// A pager over `sections`, unfiltered, cursor on the first row.
    pub fn new(sections: Vec<Section>) -> (p: Pager)
        requires
            total_rows(sections_view(sections@)) <= usize::MAX,
        ensures
            p.wf(),
            p@ == refiltered(
                PagerView {
                    sections: sections_view(sections@),
                    filter: seq![],
                    entries: seq![],
                    cursor: 0,
                    offset: 0,
                    total: total_rows(sections_view(sections@)),
                    key_width: pad_spec(sections_view(sections@)),
                },
                seq![],
            ),
    {
        let ghost sv = sections_view(sections@);
        let mut total: usize = 0;
        let mut i: usize = 0;
        proof {
            assert(sv.take(0) =~= Seq::<SectionView>::empty());
        }
        while i < sections.len()
            invariant
                i <= sections.len(),
                sv == sections_view(sections@),
                total_rows(sv) <= usize::MAX,
                total == total_rows(sv.take(i as int)),
            decreases sections.len() - i,
        {
            proof {
                assert(sv.take(i + 1).drop_last() =~= sv.take(i as int));
                assert(sv.take(i + 1).last() == sections@[i as int]@);
                lemma_total_rows_prefix(sv, i + 1);
            }
            total = total + sections[i].rows.len();
            i += 1;
        }
        proof {
            assert(sv.take(sections.len() as int) =~= sv);
        }
        let key_width = pad_exec(sections.as_slice());
        let mut p = Pager {
            sections,
            filter: Vec::new(),
            entries: Vec::new(),
            cursor: 0,
            offset: 0,
            total,
            key_width,
        };
        p.refilter();
        p
    }

    /// Rebuild the visible entry list for the current filter.
    ///
    /// A heading is kept only when at least one of its rows matched, which is
    /// what makes the sections survive filtering instead of collapsing into a
    /// flat list of hits.
    pub fn refilter(&mut self)
        ensures
            final(self).wf(),
            final(self)@ == refiltered(old(self)@, old(self)@.filter),
    {
        let ghost sv = sections_view(self.sections@);
        let ghost f = self.filter@;
        let filter = string_of(&self.filter);
        let ranked = self.filter.len() > 0;
        let mut scores: Vec<Vec<Option<u32>>> = Vec::new();
        let mut i: usize = 0;
        while i < self.sections.len()
            invariant
                i <= self.sections.len(),
                sv == sections_view(self.sections@),
                f == self.filter@,
                filter@ == f,
                ranked == (f.len() > 0),
                scores@.len() == i,
                forall|m: int| 0 <= m < i ==> (#[trigger] scores@[m])@ == scores_spec(sv, f)[m],
            decreases self.sections.len() - i,
        {
            let section = &self.sections[i];
            proof {
                assert(sv[i as int] == section@);
            }
            let mut row_scores: Vec<Option<u32>> = Vec::new();
            let mut j: usize = 0;
            while j < section.rows.len()
                invariant
                    j <= section.rows.len(),
                    sv[i as int] == section@,
                    filter@ == f,
                    ranked == (f.len() > 0),
                    row_scores@.len() == j,
                    forall|m: int| 0 <= m < j ==> #[trigger] row_scores@[m] == row_score(
                        f,
                        section@.title,
                        section@.rows[m],
                    ),
                decreases section.rows.len() - j,
            {
                let row = &section.rows[j];
                proof {
                    assert(section@.rows[j as int] == row@);
                }
                let score = if !ranked {
                    Some(0u32)
                } else {
                    let mut hay = chars_of(section.title.as_str());
                    extend_chars(&mut hay, &chars_of(" "));
                    extend_chars(&mut hay, &chars_of(row.chord().as_str()));
                    extend_chars(&mut hay, &chars_of(" "));
                    extend_chars(&mut hay, &chars_of(row.text.as_str()));
                    let hay = string_of(&hay);
                    fuzzy_score(filter.as_str(), hay.as_str())
                };
                row_scores.push(score);
                j += 1;
            }
            proof {
                assert(row_scores@ =~= scores_spec(sv, f)[i as int]);
            }
            scores.push(row_scores);
            i += 1;
        }
        proof {
            assert(scores@.map_values(|s: Vec<Option<u32>>| s@) =~= scores_spec(sv, f));
        }
        self.entries = entries_for_scores(&scores, ranked);
        let first = self.first_row();
        self.cursor = match first {
            Some(k) => k,
            None => 0,
        };
        self.offset = 0;
        proof {
            lemma_first_row(self.entries@, 0);
            lemma_sections_shape(self.sections@, f);
        }
    }

    /// The first entry that is a row.
    pub fn first_row(&self) -> (r: Option<usize>)
        ensures
            match r {
                Some(k) => first_row_from(self@.entries, 0) == Some(k as nat),
                None => first_row_from(self@.entries, 0) is None,
            },
    {
        let mut k: usize = 0;
        while k < self.entries.len()
            invariant
                k <= self.entries.len(),
                first_row_from(self.entries@, 0) == first_row_from(self.entries@, k as int),
            decreases self.entries.len() - k,
        {
            if self.entries[k].is_row() {
                return Some(k);
            }
            k += 1;
        }
        None
    }

    /// How many rows the filter leaves.
    pub fn matches(&self) -> (n: usize)
        ensures
            n == count_rows(self@.entries),
    {
        let ghost e = self.entries@;
        let mut n: usize = 0;
        let mut k: usize = 0;
        proof {
            assert(e.take(0) =~= Seq::<Entry>::empty());
        }
        while k < self.entries.len()
            invariant
                k <= self.entries.len(),
                e == self.entries@,
                n == count_rows(e.take(k as int)),
                n <= k,
            decreases self.entries.len() - k,
        {
            proof {
                assert(e.take(k + 1).drop_last() =~= e.take(k as int));
                assert(e.take(k + 1).last() == e[k as int]);
            }
            if self.entries[k].is_row() {
                n += 1;
            }
            k += 1;
        }
        proof {
            assert(e.take(e.len() as int) =~= e);
        }
        n
    }

    /// Move the cursor by `delta` rows, skipping headings; it stays put when
    /// the list ends first.
    pub fn move_cursor(&mut self, delta: isize)
        requires
            old(self).wf(),
            delta != isize::MIN,
        ensures
            final(self).wf(),
            final(self)@ == (PagerView { cursor: moved(old(self)@.entries, old(self)@.cursor, delta as int), ..old(self)@ }),
    {
        let forward = delta > 0;
        let mut remaining: usize = if delta < 0 {
            (-delta) as usize
        } else {
            delta as usize
        };
        let ghost rem0 = remaining as nat;
        let ghost e = self.entries@;
        let len = self.entries.len();
        let mut i: usize = self.cursor;
        while remaining > 0
            invariant
                e == self.entries@,
                self@ == old(self)@,
                self.wf(),
                len == e.len(),
                rem0 == (if delta < 0 { -delta } else { delta as int }),
                forward == (delta > 0),
                i < len || (len == 0 && i == 0),
                walk(e, old(self).cursor as int, forward, rem0) == walk(e, i as int, forward, remaining as nat),
            decreases remaining, (if forward {
                len - i
            } else {
                i + 1
            }),
        {
            if forward {
                if i + 1 >= len {
                    return;
                }
                i += 1;
            } else {
                if i == 0 {
                    return;
                }
                i -= 1;
            }
            if self.entries[i].is_row() {
                remaining -= 1;
            }
        }
        proof {
            if rem0 > 0 && len > 0 {
                lemma_walk(e, old(self).cursor as int, forward, rem0);
            }
        }
        self.cursor = i;
    }

    /// Home or End: the first or the last row.
    pub fn jump(&mut self, to_end: bool)
        requires
            old(self).wf(),
        ensures
            final(self).wf(),
            final(self)@ == (PagerView { cursor: jumped(old(self)@.entries, old(self)@.cursor, to_end), ..old(self)@ }),
    {
        let found = if to_end {
            let mut k: usize = self.entries.len();
            while k > 0 && !self.entries[k - 1].is_row()
                invariant
                    k <= self.entries.len(),
                    last_before(self.entries@, self.entries@.len() as int, true) == last_before(self.entries@, k as int, true),
                decreases k,
            {
                k -= 1;
            }
            if k > 0 {
                Some(k - 1)
            } else {
                None
            }
        } else {
            self.first_row()
        };
        proof {
            lemma_first_row(self.entries@, 0);
            lemma_last_before(self.entries@, self.entries@.len() as int, true);
        }
        if let Some(i) = found {
            self.cursor = i;
        }
    }

    /// Scroll so that the cursor is on screen in a view of `height` entries,
    /// pulling the heading above it into view when possible, so the first
    /// thing scrolled to is never a bare row.
    pub fn scroll_into_view(&mut self, height: usize)
        requires
            old(self).wf(),
        ensures
            final(self).wf(),
            final(self)@ == (PagerView {
                offset: scrolled(old(self)@.entries.len(), old(self)@.cursor, old(self)@.offset, height as nat),
                ..old(self)@
            }),
            height > 0 && final(self)@.entries.len() > 0 ==> final(self)@.offset <= final(self)@.cursor
                < final(self)@.offset + height,
    {
        if height == 0 {
            return;
        }
        let want = if self.cursor >= 1 {
            self.cursor - 1
        } else {
            0
        };
        if want < self.offset {
            self.offset = want;
        }
        if self.cursor >= self.offset && self.cursor - self.offset >= height {
            self.offset = self.cursor - height + 1;
        }
        let last = if self.entries.len() >= 1 {
            self.entries.len() - 1
        } else {
            0
        };
        if self.offset > last {
            self.offset = last;
        }
    }

    /// The title of the section the cursor is in, when its heading has
    /// scrolled off the top.
    pub fn sticky_heading(&self) -> (r: Option<String>)
        requires
            self.wf(),
        ensures
            match sticky_spec(self@.entries, self@.cursor, self@.offset) {
                Some(s) => r is Some && r->0@ == self@.sections[s as int].title,
                None => r is None,
            },
    {
        proof {
            self.lemma_shape();
            lemma_last_before(self.entries@, self.cursor as int, false);
        }
        if self.cursor >= self.entries.len() {
            return None;
        }
        let section = match self.entries[self.cursor] {
            Entry::Row { section, .. } => section,
            Entry::Heading { .. } => {
                return None;
            },
        };
        let mut k: usize = self.cursor;
        while k > 0
            invariant
                k <= self.cursor < self.entries.len(),
                last_before(self.entries@, self.cursor as int, false) == last_before(self.entries@, k as int, false),
                self.entries@[self.cursor as int] is Row,
                section == section_of(self.entries@[self.cursor as int]),
                section < self.sections.len(),
                self@.sections[section as int] == self.sections@[section as int]@,
            decreases k,
        {
            if !self.entries[k - 1].is_row() {
                if k - 1 < self.offset {
                    return Some(crate::text::copy_string(&self.sections[section].title));
                }
                return None;
            }
            k -= 1;
        }
        None
    }

    /// The row under the cursor, if any.
    pub fn current_row(&self) -> (r: Option<&Row>)
        requires
            self.wf(),
        ensures
            match r {
                Some(row) => self@.cursor < self@.entries.len() && self@.entries[self@.cursor as int] is Row
                    && row@ == self@.sections[section_of(self@.entries[self@.cursor as int]) as int].rows[
                    self@.entries[self@.cursor as int]->row as int],
                None => !(self@.cursor < self@.entries.len()),
            },
    {
        proof {
            self.lemma_shape();
        }
        if self.cursor >= self.entries.len() {
            return None;
        }
        match self.entries[self.cursor] {
            Entry::Row { section, row } => {
                proof {
                    assert(self@.sections[section as int] == self.sections@[section as int]@);
                }
                Some(&self.sections[section].rows[row])
            },
            Entry::Heading { .. } => None,
        }
    }

    /// Act on a key: edit the filter, move, or report that the pager is done.
    pub fn handle(&mut self, key: Key, page: isize) -> (quit: bool)
        requires
            old(self).wf(),
            page >= 1,
        ensures
            final(self).wf(),
            quit == is_quit(key),
            final(self)@ == after_key(old(self)@, key, page as int),
    {
        match key {
            Key::Esc | Key::Enter => {
                return true;
            },
            Key::Char { c, ctrl } => {
                if ctrl && (c == 'c' || c == 'd') {
                    return true;
                } else if ctrl && c == 'n' {
                    self.move_cursor(1);
                } else if ctrl && c == 'p' {
                    self.move_cursor(-1);
                } else if ctrl && c == 'u' {
                    self.filter.clear();
                    self.refilter();
                } else if ctrl && c == 'w' {
                    self.cut_word();
                    self.refilter();
                } else {
                    self.filter.push(c);
                    self.refilter();
                }
            },
            Key::Backspace => {
                self.filter.pop();
                self.refilter();
            },
            Key::Down => self.move_cursor(1),
            Key::Up => self.move_cursor(-1),
            Key::PageDown => self.move_cursor(page),
            Key::PageUp => self.move_cursor(-page),
            Key::Home => self.jump(false),
            Key::End => self.jump(true),
            Key::Other => {},
        }
        false
    }

    fn cut_word(&mut self)
        ensures
            final(self)@ == (PagerView { filter: cut_word(old(self)@.filter), ..old(self)@ }),
    {
        let trimmed = trim_end_chars(&self.filter);
        let ghost t = trimmed@;
        let mut k: usize = trimmed.len();
        proof {
            assert(t.take(k as int) =~= t);
        }
        while k > 0 && trimmed[k - 1] != ' '
            invariant
                k <= trimmed.len(),
                t == trimmed@,
                last_space(t) == last_space(t.take(k as int)),
            decreases k,
        {
            proof {
                assert(t.take(k as int).drop_last() =~= t.take(k - 1));
                assert(t.take(k as int).last() == t[k - 1]);
            }
            k -= 1;
        }
        let cut = k;
        proof {
            crate::text::lemma_trail_ws_bound(self.filter@);
            if cut == 0 {
                assert(t.take(0) =~= Seq::<char>::empty());
            } else {
                assert(t.take(k as int).last() == t[k - 1]);
            }
        }
        self.filter.truncate(cut);
        proof {
            assert(self.filter@ =~= cut_word(old(self)@.filter));
        }
    }

    pub fn sections(&self) -> (r: &Vec<Section>)
        ensures
            sections_view(r@) == self@.sections,
    {
        &self.sections
    }

    pub fn filter(&self) -> (r: String)
        ensures
            r@ == self@.filter,
    {
        string_of(&self.filter)
    }

    pub fn entries(&self) -> (r: &Vec<Entry>)
        ensures
            r@ == self@.entries,
    {
        &self.entries
    }

    pub fn cursor(&self) -> (r: usize)
        ensures
            r == self@.cursor,
    {
        self.cursor
    }

    pub fn offset(&self) -> (r: usize)
        ensures
            r == self@.offset,
    {
        self.offset
    }

    pub fn total(&self) -> (r: usize)
        ensures
            r == self@.total,
    {
        self.total
    }

    pub fn key_width(&self) -> (r: usize)
        ensures
            r == self@.key_width,
    {
        self.key_width
    }
}

/// Whether the rows of the sheet can be counted in a `usize`, which the
/// pager's row total needs.
pub fn total_rows_fit(sections: &[Section]) -> (r: bool)
    ensures
        r == (total_rows(sections_view(sections@)) <= usize::MAX),
{
    let ghost sv = sections_view(sections@);
    let mut total: usize = 0;
    let mut i: usize = 0;
    proof {
        assert(sv.take(0) =~= Seq::<SectionView>::empty());
    }
    while i < sections.len()
        invariant
            i <= sections.len(),
            sv == sections_view(sections@),
            total == total_rows(sv.take(i as int)),
        decreases sections.len() - i,
    {
        proof {
            assert(sv.take(i + 1).drop_last() =~= sv.take(i as int));
            assert(sv.take(i + 1).last() == sections@[i as int]@);
            lemma_total_rows_prefix(sv, i + 1);
        }
        let n = sections[i].rows.len();
        if total > usize::MAX - n {
            return false;
        }
        total = total + n;
        i += 1;
    }
    proof {
        assert(sv.take(sections.len() as int) =~= sv);
    }
    true
}

proof fn lemma_sections_shape(sections: Seq<Section>, f: Seq<char>)
    requires
        sections.len() <= usize::MAX,
    ensures
        entries_shape(
            entries_spec(sections_view(sections), f),
            scores_spec(sections_view(sections), f),
            sections.len() as int,
        ),
        forall|i: int| 0 <= i < sections.len() ==> (#[trigger] sections_view(sections)[i]) == sections[i]@,
        sections_view(sections).len() == sections.len(),
{
    let sv = sections_view(sections);
    assert forall|i: int| 0 <= i < sv.len() implies (#[trigger] sv[i]).rows.len() <= usize::MAX by {
        assert(sv[i] == sections[i]@);
        assert(sections[i].rows@.len() == sections[i].rows.len());
    }
    lemma_entries_shape(sv, f);
}

proof fn lemma_total_rows_prefix(secs: Seq<SectionView>, n: int)
    requires
        0 <= n <= secs.len(),
    ensures
        total_rows(secs.take(n)) <= total_rows(secs),
    decreases secs.len() - n,
{
    if n < secs.len() {
        lemma_total_rows_prefix(secs, n + 1);
        assert(secs.take(n + 1).drop_last() =~= secs.take(n));
    } else {
        assert(secs.take(n) =~= secs);
    }
}

// --------------------------------------------------------------- row lines
/// How a piece of a pager line is drawn.
#[derive(Debug, Clone, Copy, PartialEq, Eq, Structural)]
pub enum Look {
    Plain,
    /// In the palette's colour for a modifier.
    Colour { colour: Colour },
    Dim,
    Bold,
    /// Dimmed and struck through: the key of a binding that never fires.
    DimStruck,
}

/// The pieces of a row's line in the pager: the selection marker, the
/// modifiers (coloured, or dimmed when the binding never fires) each followed
/// by a dim `+`, the key, padding to line the texts up, and the dim text.
pub open spec fn row_segments_spec(r: RowView, selected: bool, key_width: nat) -> Seq<(Seq<char>, Look)> {
    let dead = r.shadowed_by is Some;
    let used = chord_spec(r).len();
    seq![(if selected {
        "> "@
    } else {
        "  "@
    }, Look::Plain)] + Seq::new(
        2 * r.modifiers.len(),
        |i: int|
            if i % 2 == 0 {
                (
                    r.modifiers[i / 2],
                    if dead {
                        Look::Dim
                    } else {
                        Look::Colour { colour: modifier_spec(r.modifiers[i / 2]) }
                    },
                )
            } else {
                ("+"@, Look::Dim)
            },
    ) + seq![
        (r.key, if dead {
            Look::DimStruck
        } else {
            Look::Bold
        }),
        (spaces(((if key_width >= used {
            key_width - used
        } else {
            0
        }) + 2) as nat), Look::Plain),
        (r.text, Look::Dim),
    ]
}

pub open spec fn segments_view(v: Seq<(String, Look)>) -> Seq<(Seq<char>, Look)> {
    v.map_values(|p: (String, Look)| (p.0@, p.1))
}

fn push_segment(v: &mut Vec<(String, Look)>, text: String, look: Look)
    ensures
        segments_view(final(v)@) == segments_view(old(v)@).push((text@, look)),
{
    let ghost t = text@;
    v.push((text, look));
    proof {
        assert(segments_view(v@) =~= segments_view(old(v)@).push((t, look)));
    }
}

/// The pieces of a row's line in the pager. Under `--all` a row that never
/// fires has to look different at a glance, not just in the detail line.
pub fn row_segments(row: &Row, selected: bool, key_width: usize) -> (r: Vec<(String, Look)>)
    ensures
        segments_view(r@) == row_segments_spec(row@, selected, key_width as nat),
{
    let ghost rv = row@;
    let dead = row.shadowed_by.is_some();
    let mut out: Vec<(String, Look)> = Vec::new();
    push_segment(&mut out, string_of(&chars_of(if selected {
        "> "
    } else {
        "  "
    })), Look::Plain);
    let ghost head = segments_view(out@);
    let ghost mods = Seq::new(
        2 * rv.modifiers.len(),
        |i: int|
            if i % 2 == 0 {
                (
                    rv.modifiers[i / 2],
                    if dead {
                        Look::Dim
                    } else {
                        Look::Colour { colour: modifier_spec(rv.modifiers[i / 2]) }
                    },
                )
            } else {
                ("+"@, Look::Dim)
            },
    );
    let mut i: usize = 0;
    while i < row.modifiers.len()
        invariant
            i <= row.modifiers.len(),
            rv == row@,
            dead == (rv.shadowed_by is Some),
            mods.len() == 2 * rv.modifiers.len(),
            segments_view(out@) == head + mods.take(2 * i),
            forall|k: int| 0 <= k < mods.len() ==> #[trigger] mods[k] == (if k % 2 == 0 {
                (
                    rv.modifiers[k / 2],
                    if dead {
                        Look::Dim
                    } else {
                        Look::Colour { colour: modifier_spec(rv.modifiers[k / 2]) }
                    },
                )
            } else {
                ("+"@, Look::Dim)
            }),
        decreases row.modifiers.len() - i,
    {
        let m = &row.modifiers[i];
        let look = if dead {
            Look::Dim
        } else {
            Look::Colour { colour: modifier(m.as_str()) }
        };
        proof {
            assert(rv.modifiers[i as int] == m@);
        }
        push_segment(&mut out, crate::text::copy_string(m), look);
        push_segment(&mut out, string_of(&chars_of("+")), Look::Dim);
        proof {
            assert(mods[2 * i as int] == (rv.modifiers[i as int], look));
            assert(mods[2 * i + 1] == ("+"@, Look::Dim));
            assert(mods.take(2 * i + 2) =~= mods.take(2 * i as int).push(mods[2 * i as int]).push(
                mods[2 * i + 1],
            ));
        }
        i += 1;
    }
    proof {
        assert(mods.take(2 * i as int) =~= mods);
    }
    push_segment(&mut out, crate::text::copy_string(&row.key), if dead {
        Look::DimStruck
    } else {
        Look::Bold
    });
    let used = row.chord().as_str().unicode_len();
    let mut pad: Vec<char> = Vec::new();
    let gap = if key_width >= used {
        key_width - used
    } else {
        0
    };
    let mut k: usize = 0;
    while k < gap
        invariant
            k <= gap,
            pad@ == spaces(k as nat),
        decreases gap - k,
    {
        pad.push(' ');
        k += 1;
        proof {
            assert(pad@ =~= spaces(k as nat));
        }
    }
    pad.push(' ');
    pad.push(' ');
    proof {
        assert(pad@ =~= spaces((gap + 2) as nat));
    }
    push_segment(&mut out, string_of(&pad), Look::Plain);
    push_segment(&mut out, crate::text::copy_string(&row.text), Look::Dim);
    proof {
        reveal_strlit("> ");
        reveal_strlit("  ");
        assert(segments_view(out@) =~= row_segments_spec(row@, selected, key_width as nat));
    }
    out
}
} // verus!
