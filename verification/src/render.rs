//! Output formats.
//!
//! Colour uses the 16 ANSI slots only, never truecolor: the terminal's own
//! theme then decides the actual shades, so the sheet stays readable on light
//! and dark backgrounds alike without us guessing either.

use vstd::prelude::*;
use crate::theme::{ansi_spec, modifier_spec};
use crate::group::{Row, RowView, Section, SectionView, chord_spec, rows_view, sections_view};
use crate::text::{
    chars_of, chars_of_strings, eq_lit, extend_chars, join, join_chars, seqs, slice_of, string_of,
    strs, trim_end, trim_end_chars,
};

verus! {

pub open spec fn reset() -> Seq<char> {
    "\x1b[0m"@
}

pub open spec fn bold() -> Seq<char> {
    "\x1b[1m"@
}

pub open spec fn dim() -> Seq<char> {
    "\x1b[2m"@
}

pub open spec fn underline() -> Seq<char> {
    "\x1b[4m"@
}

/// A distinct colour per modifier, so a chord is scannable at a glance.
pub open spec fn modifier_colour_spec(name: Seq<char>) -> Seq<char> {
    if name == "Super"@ {
        "\x1b[35m"@
    } else if name == "Ctrl"@ {
        "\x1b[33m"@
    } else if name == "Alt"@ {
        "\x1b[36m"@
    } else if name == "Shift"@ {
        "\x1b[32m"@
    } else {
        "\x1b[34m"@
    }
}

fn modifier_colour(name: &Vec<char>) -> (r: Vec<char>)
    ensures
        r@ == modifier_colour_spec(name@),
{
    if eq_lit(name, "Super") {
        chars_of("\x1b[35m")
    } else if eq_lit(name, "Ctrl") {
        chars_of("\x1b[33m")
    } else if eq_lit(name, "Alt") {
        chars_of("\x1b[36m")
    } else if eq_lit(name, "Shift") {
        chars_of("\x1b[32m")
    } else {
        chars_of("\x1b[34m")
    }
}

/// The sheet colours each modifier exactly as the shared palette says.
pub proof fn lemma_sheet_follows_palette(name: Seq<char>)
    ensures
        modifier_colour_spec(name) == ansi_spec(modifier_spec(name)),
{
}

#[derive(Debug, Clone, Copy)]
pub struct Style {
    pub color: bool,
}

/// `text` wrapped in `code` and a reset, when colour is on.
pub open spec fn paint_spec(color: bool, code: Seq<char>, text: Seq<char>) -> Seq<char> {
    if color {
        code + text + reset()
    } else {
        text
    }
}

/// The modifiers of a row, each painted in its colour.
pub open spec fn painted_modifiers(color: bool, r: RowView) -> Seq<Seq<char>> {
    Seq::new(
        r.modifiers.len(),
        |i: int| paint_spec(color, modifier_colour_spec(r.modifiers[i]), r.modifiers[i]),
    )
}

/// The chord as the sheet shows it: plain, or with coloured modifiers, a
/// bold key and dim `+`s.
pub open spec fn styled_chord(color: bool, r: RowView) -> Seq<char> {
    if !color {
        chord_spec(r)
    } else {
        join(painted_modifiers(color, r).push(paint_spec(color, bold(), r.key)), paint_spec(color, dim(), "+"@))
    }
}

impl Style {
    fn paint(&self, code: &Vec<char>, text: &Vec<char>) -> (r: Vec<char>)
        ensures
            r@ == paint_spec(self.color, code@, text@),
    {
        if self.color {
            let mut out = slice_of(code, 0, code.len());
            extend_chars(&mut out, text);
            extend_chars(&mut out, &chars_of("\x1b[0m"));
            proof {
                assert(code@.take(code@.len() as int) == code@);
            }
            out
        } else {
            slice_of(text, 0, text.len())
        }
    }

    fn chord(&self, row: &Row) -> (r: Vec<char>)
        ensures
            r@ == styled_chord(self.color, row@),
    {
        if !self.color {
            return chars_of(row.chord().as_str());
        }
        let mods = chars_of_strings(&row.modifiers);
        let mut parts: Vec<Vec<char>> = Vec::new();
        let mut i: usize = 0;
        while i < mods.len()
            invariant
                i <= mods.len(),
                self.color,
                seqs(mods@) == row@.modifiers,
                parts@.len() == i,
                forall|k: int| 0 <= k < i ==> (#[trigger] parts@[k])@ == painted_modifiers(
                    self.color,
                    row@,
                )[k],
            decreases mods.len() - i,
        {
            proof {
                assert(seqs(mods@)[i as int] == mods@[i as int]@);
            }
            let c = modifier_colour(&mods[i]);
            parts.push(self.paint(&c, &mods[i]));
            i += 1;
        }
        let ghost before = seqs(parts@);
        proof {
            assert(before =~= painted_modifiers(self.color, row@));
        }
        let key = chars_of(row.key.as_str());
        parts.push(self.paint(&chars_of("\x1b[1m"), &key));
        proof {
            assert(seqs(parts@) =~= before.push(paint_spec(self.color, bold(), row@.key)));
        }
        let sep = self.paint(&chars_of("\x1b[2m"), &chars_of("+"));
        join_chars(&parts, &sep)
    }
}

/// Visible width of a row's chord.
pub open spec fn width_spec(r: RowView) -> nat {
    chord_spec(r).len()
}

fn width(row: &Row) -> (w: usize)
    ensures
        w == width_spec(row@),
{
    row.chord().as_str().unicode_len()
}

/// `n` spaces.
pub open spec fn spaces(n: nat) -> Seq<char> {
    Seq::new(n, |i: int| ' ')
}

fn push_spaces(v: &mut Vec<char>, n: usize)
    ensures
        final(v)@ == old(v)@ + spaces(n as nat),
{
    let mut i: usize = 0;
    while i < n
        invariant
            i <= n,
            v@ == old(v)@ + spaces(i as nat),
        decreases n - i,
    {
        v.push(' ');
        i += 1;
        proof {
            assert(v@ =~= old(v)@ + spaces(i as nat));
        }
    }
}

/// Gap between columns.
pub const GUTTER: usize = 3;

/// `s` cut to `max` characters, the last of them an ellipsis, when longer.
pub open spec fn ellipsize_spec(s: Seq<char>, max: nat) -> Seq<char> {
    if s.len() <= max {
        s
    } else {
        s.take(if max >= 1 {
            max - 1
        } else {
            0
        }).push('…')
    }
}

fn ellipsize(s: &Vec<char>, max: usize) -> (r: Vec<char>)
    ensures
        r@ == ellipsize_spec(s@, max as nat),
{
    if s.len() <= max {
        return slice_of(s, 0, s.len());
    }
    let keep = if max >= 1 {
        max - 1
    } else {
        0
    };
    let mut r = slice_of(s, 0, keep);
    r.push('…');
    r
}

/// A clipped text never exceeds its budget.
pub proof fn lemma_ellipsize_fits(s: Seq<char>, max: nat)
    requires
        max >= 1,
    ensures
        ellipsize_spec(s, max).len() <= max,
{
}

/// A heading: bold and underlined when colour is on.
pub open spec fn heading_spec(title: Seq<char>, color: bool) -> Seq<char> {
    paint_spec(color, bold() + underline(), title)
}

fn heading(title: &Vec<char>, style: Style) -> (r: Vec<char>)
    ensures
        r@ == heading_spec(title@, style.color),
{
    let mut code = chars_of("\x1b[1m");
    extend_chars(&mut code, &chars_of("\x1b[4m"));
    style.paint(&code, title)
}

/// One row of the sheet: the chord, padded to `pad`, then the text (clipped
/// to the budget, if any), then where the binding that beats it lives.
pub open spec fn render_row_spec(r: RowView, color: bool, pad: nat, budget: Option<nat>) -> Seq<
    char,
> {
    let text = match budget {
        Some(max) => ellipsize_spec(r.text, max),
        None => r.text,
    };
    let base = "  "@ + styled_chord(color, r) + spaces((pad - width_spec(r) + 2) as nat) + paint_spec(
        color,
        dim(),
        text,
    );
    match r.shadowed_by {
        Some(o) => base + paint_spec(color, dim(), "  (shadowed by "@ + o + ")"@),
        None => base,
    }
}

fn render_row(row: &Row, style: Style, pad: usize, text_budget: Option<usize>) -> (r: Vec<char>)
    requires
        width_spec(row@) <= pad,
        pad + 2 <= usize::MAX,
    ensures
        r@ == render_row_spec(row@, style.color, pad as nat, match text_budget {
            Some(m) => Some(m as nat),
            None => None,
        }),
{
    let w = width(row);
    let t = chars_of(row.text.as_str());
    let text = match text_budget {
        Some(max) => ellipsize(&t, max),
        None => t,
    };
    let mut out = chars_of("  ");
    extend_chars(&mut out, &style.chord(row));
    push_spaces(&mut out, pad - w + 2);
    extend_chars(&mut out, &style.paint(&chars_of("\x1b[2m"), &text));
    if let Some(origin) = &row.shadowed_by {
        let mut note = chars_of("  (shadowed by ");
        extend_chars(&mut note, &chars_of(origin.as_str()));
        extend_chars(&mut note, &chars_of(")"));
        extend_chars(&mut out, &style.paint(&chars_of("\x1b[2m"), &note));
    }
    out
}

/// Character count with ANSI escape sequences discounted: from an ESC up to
/// and including the next `m`.
pub open spec fn visible_from(s: Seq<char>, in_escape: bool) -> nat
    decreases s.len(),
{
    if s.len() == 0 {
        0
    } else if in_escape {
        visible_from(s.drop_first(), s[0] != 'm')
    } else if s[0] == '\x1b' {
        visible_from(s.drop_first(), true)
    } else {
        1 + visible_from(s.drop_first(), false)
    }
}

pub open spec fn visible_len_spec(s: Seq<char>) -> nat {
    visible_from(s, false)
}

/// Character count with ANSI escape sequences discounted.
pub fn visible_len(s: &str) -> (n: usize)
    ensures
        n == visible_len_spec(s@),
{
    let v = chars_of(s);
    visible_len_chars(&v)
}

proof fn lemma_visible_from_bound(s: Seq<char>, e: bool)
    ensures
        visible_from(s, e) <= s.len(),
    decreases s.len(),
{
    if s.len() > 0 {
        lemma_visible_from_bound(s.drop_first(), if e {
            s[0] != 'm'
        } else {
            s[0] == '\x1b'
        });
        lemma_visible_from_bound(s.drop_first(), true);
        lemma_visible_from_bound(s.drop_first(), false);
    }
}

fn visible_len_chars(v: &Vec<char>) -> (n: usize)
    ensures
        n == visible_len_spec(v@),
{
    let mut n: usize = 0;
    let mut in_escape = false;
    let mut i: usize = 0;
    proof {
        assert(v@.skip(0) == v@);
    }
    while i < v.len()
        invariant
            i <= v.len(),
            n <= i,
            n + visible_from(v@.skip(i as int), in_escape) == visible_from(v@, false),
        decreases v.len() - i,
    {
        let c = v[i];
        proof {
            assert(v@.skip(i as int)[0] == c);
            assert(v@.skip(i as int).drop_first() == v@.skip(i + 1));
        }
        if in_escape {
            in_escape = c != 'm';
        } else if c == '\x1b' {
            in_escape = true;
        } else {
            n += 1;
        }
        i += 1;
    }
    n
}

// ------------------------------------------------------- visible widths
/// Whether scanning `s` from state `e` ends inside an escape sequence.
pub open spec fn escape_after(s: Seq<char>, e: bool) -> bool
    decreases s.len(),
{
    if s.len() == 0 {
        e
    } else if e {
        escape_after(s.drop_first(), s[0] != 'm')
    } else if s[0] == '\x1b' {
        escape_after(s.drop_first(), true)
    } else {
        escape_after(s.drop_first(), false)
    }
}

/// No escape character anywhere in `s`.
pub open spec fn no_escape(s: Seq<char>) -> bool {
    forall|i: int| 0 <= i < s.len() ==> s[i] != '\x1b'
}

/// Takes no room on screen and leaves the terminal outside any escape.
pub open spec fn inert(s: Seq<char>) -> bool {
    visible_from(s, false) == 0 && !escape_after(s, false)
}

proof fn lemma_visible_concat(a: Seq<char>, b: Seq<char>, e: bool)
    ensures
        visible_from(a + b, e) == visible_from(a, e) + visible_from(b, escape_after(a, e)),
        escape_after(a + b, e) == escape_after(b, escape_after(a, e)),
    decreases a.len(),
{
    if a.len() == 0 {
        assert(a + b =~= b);
    } else {
        assert((a + b).drop_first() =~= a.drop_first() + b);
        assert((a + b)[0] == a[0]);
        let next = if e {
            a[0] != 'm'
        } else {
            a[0] == '\x1b'
        };
        lemma_visible_concat(a.drop_first(), b, next);
    }
}

proof fn lemma_no_escape_visible(s: Seq<char>)
    requires
        no_escape(s),
    ensures
        visible_from(s, false) == s.len(),
        !escape_after(s, false),
    decreases s.len(),
{
    if s.len() > 0 {
        assert(s[0] != '\x1b');
        assert(no_escape(s.drop_first())) by {
            assert forall|i: int| 0 <= i < s.drop_first().len() implies s.drop_first()[i] != '\x1b' by {
                assert(s.drop_first()[i] == s[i + 1]);
            }
        }
        lemma_no_escape_visible(s.drop_first());
    }
}

proof fn lemma_escape_body(t: Seq<char>)
    requires
        t.len() >= 1,
        t.last() == 'm',
        forall|i: int| 0 <= i < t.len() - 1 ==> t[i] != 'm',
    ensures
        visible_from(t, true) == 0,
        !escape_after(t, true),
    decreases t.len(),
{
    if t.len() == 1 {
        assert(t[0] == 'm');
        assert(t.drop_first().len() == 0);
        assert(visible_from(t.drop_first(), false) == 0);
        assert(!escape_after(t.drop_first(), false));
        assert(visible_from(t, true) == visible_from(t.drop_first(), false));
        assert(escape_after(t, true) == escape_after(t.drop_first(), false));
    } else {
        assert(t[0] != 'm');
        let r = t.drop_first();
        assert(r.last() == t.last());
        assert forall|i: int| 0 <= i < r.len() - 1 implies r[i] != 'm' by {
            assert(r[i] == t[i + 1]);
        }
        lemma_escape_body(r);
        assert(visible_from(t, true) == visible_from(r, true));
        assert(escape_after(t, true) == escape_after(r, true));
    }
}

/// An SGR sequence `ESC … m` with no `m` before its end is inert.
proof fn lemma_sgr_inert(s: Seq<char>)
    requires
        s.len() >= 2,
        s[0] == '\x1b',
        s.last() == 'm',
        forall|i: int| 1 <= i < s.len() - 1 ==> s[i] != 'm',
    ensures
        inert(s),
{
    let t = s.drop_first();
    assert(t.last() == s.last());
    assert forall|i: int| 0 <= i < t.len() - 1 implies t[i] != 'm' by {
        assert(t[i] == s[i + 1]);
    }
    lemma_escape_body(t);
}

proof fn lemma_codes_inert()
    ensures
        inert(reset()),
        inert(bold()),
        inert(dim()),
        inert(bold() + underline()),
        forall|n: Seq<char>| #[trigger] inert(modifier_colour_spec(n)),
{
    reveal_strlit("\x1b[0m");
    reveal_strlit("\x1b[1m");
    reveal_strlit("\x1b[2m");
    reveal_strlit("\x1b[4m");
    reveal_strlit("\x1b[35m");
    reveal_strlit("\x1b[33m");
    reveal_strlit("\x1b[36m");
    reveal_strlit("\x1b[32m");
    reveal_strlit("\x1b[34m");
    lemma_sgr_inert("\x1b[0m"@);
    lemma_sgr_inert("\x1b[1m"@);
    lemma_sgr_inert("\x1b[2m"@);
    lemma_sgr_inert("\x1b[4m"@);
    lemma_sgr_inert("\x1b[35m"@);
    lemma_sgr_inert("\x1b[33m"@);
    lemma_sgr_inert("\x1b[36m"@);
    lemma_sgr_inert("\x1b[32m"@);
    lemma_sgr_inert("\x1b[34m"@);
    lemma_visible_concat(bold(), underline(), false);
}

/// Painting text without escapes keeps its width and closes every escape.
proof fn lemma_paint_visible(color: bool, code: Seq<char>, text: Seq<char>)
    requires
        inert(code),
        no_escape(text),
    ensures
        visible_from(paint_spec(color, code, text), false) == text.len(),
        !escape_after(paint_spec(color, code, text), false),
{
    lemma_no_escape_visible(text);
    lemma_codes_inert();
    if color {
        lemma_visible_concat(code, text, false);
        lemma_visible_concat(code + text, reset(), false);
    }
}

proof fn lemma_join_visible(ps: Seq<Seq<char>>, qs: Seq<Seq<char>>, s1: Seq<char>, s2: Seq<char>)
    requires
        ps.len() == qs.len(),
        forall|i: int|
            0 <= i < ps.len() ==> visible_from(#[trigger] ps[i], false) == visible_from(qs[i], false)
                && !escape_after(ps[i], false) && !escape_after(qs[i], false),
        visible_from(s1, false) == visible_from(s2, false),
        !escape_after(s1, false),
        !escape_after(s2, false),
    ensures
        visible_from(join(ps, s1), false) == visible_from(join(qs, s2), false),
        !escape_after(join(ps, s1), false),
        !escape_after(join(qs, s2), false),
    decreases ps.len(),
{
    if ps.len() == 0 {
    } else if ps.len() == 1 {
        assert(ps[0] == ps[0]);
        assert(qs[0] == qs[0]);
    } else {
        let pa = join(ps.drop_last(), s1);
        let qa = join(qs.drop_last(), s2);
        assert forall|i: int| 0 <= i < ps.drop_last().len() implies visible_from(
            #[trigger] ps.drop_last()[i],
            false,
        ) == visible_from(qs.drop_last()[i], false) && !escape_after(ps.drop_last()[i], false)
            && !escape_after(qs.drop_last()[i], false) by {
            assert(ps.drop_last()[i] == ps[i]);
            assert(qs.drop_last()[i] == qs[i]);
        }
        lemma_join_visible(ps.drop_last(), qs.drop_last(), s1, s2);
        assert(ps.last() == ps[ps.len() - 1]);
        assert(qs.last() == qs[qs.len() - 1]);
        lemma_visible_concat(pa, s1, false);
        lemma_visible_concat(pa + s1, ps.last(), false);
        lemma_visible_concat(qa, s2, false);
        lemma_visible_concat(qa + s2, qs.last(), false);
    }
}

/// Nothing in the row carries an escape of its own.
pub open spec fn row_escape_free(r: RowView) -> bool {
    &&& forall|i: int| 0 <= i < r.modifiers.len() ==> no_escape(#[trigger] r.modifiers[i])
    &&& no_escape(r.key)
    &&& no_escape(r.text)
    &&& r.shadowed_by matches Some(o) ==> no_escape(o)
}

/// Nothing on the sheet carries an escape of its own.
pub open spec fn escape_free(secs: Seq<SectionView>) -> bool {
    forall|i: int|
        0 <= i < secs.len() ==> no_escape(#[trigger] secs[i].title) && forall|k: int|
            0 <= k < secs[i].rows.len() ==> row_escape_free(#[trigger] secs[i].rows[k])
}

proof fn lemma_chord_visible(r: RowView)
    requires
        row_escape_free(r),
    ensures
        visible_from(styled_chord(true, r), false) == visible_from(styled_chord(false, r), false),
        !escape_after(styled_chord(true, r), false),
        !escape_after(styled_chord(false, r), false),
{
    lemma_codes_inert();
    let ps = painted_modifiers(true, r).push(paint_spec(true, bold(), r.key));
    let qs = r.modifiers.push(r.key);
    reveal_strlit("+");
    assert(no_escape("+"@));
    lemma_paint_visible(true, dim(), "+"@);
    lemma_no_escape_visible("+"@);
    assert forall|i: int| 0 <= i < ps.len() implies visible_from(#[trigger] ps[i], false)
        == visible_from(qs[i], false) && !escape_after(ps[i], false) && !escape_after(qs[i], false) by {
        if i < r.modifiers.len() {
            assert(no_escape(r.modifiers[i]));
            assert(inert(modifier_colour_spec(r.modifiers[i])));
            lemma_paint_visible(true, modifier_colour_spec(r.modifiers[i]), r.modifiers[i]);
            lemma_no_escape_visible(r.modifiers[i]);
            assert(ps[i] == paint_spec(true, modifier_colour_spec(r.modifiers[i]), r.modifiers[i]));
            assert(qs[i] == r.modifiers[i]);
        } else {
            lemma_paint_visible(true, bold(), r.key);
            lemma_no_escape_visible(r.key);
            assert(ps[i] == paint_spec(true, bold(), r.key));
            assert(qs[i] == r.key);
        }
    }
    lemma_join_visible(ps, qs, paint_spec(true, dim(), "+"@), "+"@);
}

proof fn lemma_spaces_visible(n: nat)
    ensures
        visible_from(spaces(n), false) == n,
        !escape_after(spaces(n), false),
{
    assert(no_escape(spaces(n)));
    lemma_no_escape_visible(spaces(n));
}

proof fn lemma_ellipsize_no_escape(s: Seq<char>, max: nat)
    requires
        no_escape(s),
    ensures
        no_escape(ellipsize_spec(s, max)),
{
    let e = ellipsize_spec(s, max);
    assert forall|i: int| 0 <= i < e.len() implies e[i] != '\x1b' by {
        if s.len() > max {
            let k: int = if max >= 1 {
                max - 1
            } else {
                0
            };
            if i < k {
                assert(e[i] == s[i]);
            }
        }
    }
}

/// Colour changes no row's width on screen.
proof fn lemma_row_visible(r: RowView, pad: nat, budget: Option<nat>)
    requires
        row_escape_free(r),
    ensures
        visible_from(render_row_spec(r, true, pad, budget), false) == visible_from(
            render_row_spec(r, false, pad, budget),
            false,
        ),
{
    lemma_codes_inert();
    lemma_chord_visible(r);
    let text = match budget {
        Some(max) => ellipsize_spec(r.text, max),
        None => r.text,
    };
    if let Some(max) = budget {
        lemma_ellipsize_no_escape(r.text, max);
    }
    reveal_strlit("  ");
    assert(no_escape("  "@));
    lemma_no_escape_visible("  "@);
    let sp = spaces((pad - width_spec(r) + 2) as nat);
    lemma_spaces_visible((pad - width_spec(r) + 2) as nat);
    lemma_paint_visible(true, dim(), text);
    lemma_paint_visible(false, dim(), text);
    let c1 = styled_chord(true, r);
    let c0 = styled_chord(false, r);
    lemma_visible_concat("  "@, c1, false);
    lemma_visible_concat("  "@, c0, false);
    lemma_visible_concat("  "@ + c1, sp, false);
    lemma_visible_concat("  "@ + c0, sp, false);
    lemma_visible_concat("  "@ + c1 + sp, paint_spec(true, dim(), text), false);
    lemma_visible_concat("  "@ + c0 + sp, paint_spec(false, dim(), text), false);
    if let Some(o) = r.shadowed_by {
        let note = "  (shadowed by "@ + o + ")"@;
        reveal_strlit("  (shadowed by ");
        reveal_strlit(")");
        assert(no_escape(note)) by {
            assert forall|i: int| 0 <= i < note.len() implies note[i] != '\x1b' by {
                if i >= 15 && i < 15 + o.len() {
                    assert(note[i] == o[i - 15]);
                }
            }
        }
        lemma_paint_visible(true, dim(), note);
        lemma_paint_visible(false, dim(), note);
        let b1 = "  "@ + c1 + sp + paint_spec(true, dim(), text);
        let b0 = "  "@ + c0 + sp + paint_spec(false, dim(), text);
        lemma_visible_concat(b1, paint_spec(true, dim(), note), false);
        lemma_visible_concat(b0, paint_spec(false, dim(), note), false);
    }
}

proof fn lemma_section_lines_visible(secs: Seq<SectionView>, i: int, pad: nat, budget: Option<nat>)
    requires
        0 <= i < secs.len(),
        escape_free(secs),
    ensures
        section_lines(secs, i, true, pad, budget).len() == section_lines(secs, i, false, pad, budget).len(),
        forall|k: int|
            0 <= k < section_lines(secs, i, true, pad, budget).len() ==> visible_len_spec(
                #[trigger] section_lines(secs, i, true, pad, budget)[k].text,
            ) == visible_len_spec(section_lines(secs, i, false, pad, budget)[k].text),
{
    let a = section_lines(secs, i, true, pad, budget);
    let b = section_lines(secs, i, false, pad, budget);
    let off: int = if i > 0 {
        1
    } else {
        0
    };
    lemma_codes_inert();
    lemma_paint_visible(true, bold() + underline(), secs[i].title);
    lemma_paint_visible(false, bold() + underline(), secs[i].title);
    assert forall|k: int| 0 <= k < a.len() implies visible_len_spec(#[trigger] a[k].text)
        == visible_len_spec(b[k].text) by {
        if k < off {
        } else if k == off {
            assert(a[k].text == heading_spec(secs[i].title, true));
            assert(b[k].text == heading_spec(secs[i].title, false));
        } else {
            let j = k - off - 1;
            assert(row_escape_free(secs[i].rows[j]));
            assert(a[k].text == render_row_spec(secs[i].rows[j], true, pad, budget));
            assert(b[k].text == render_row_spec(secs[i].rows[j], false, pad, budget));
            lemma_row_visible(secs[i].rows[j], pad, budget);
        }
    }
}

proof fn lemma_lines_visible(secs: Seq<SectionView>, n: int, pad: nat, budget: Option<nat>)
    requires
        0 <= n <= secs.len(),
        escape_free(secs),
    ensures
        lines_upto(secs, n, true, pad, budget).len() == lines_upto(secs, n, false, pad, budget).len(),
        forall|k: int|
            0 <= k < lines_upto(secs, n, true, pad, budget).len() ==> visible_len_spec(
                #[trigger] lines_upto(secs, n, true, pad, budget)[k].text,
            ) == visible_len_spec(lines_upto(secs, n, false, pad, budget)[k].text),
    decreases n,
{
    if n > 0 {
        lemma_lines_visible(secs, n - 1, pad, budget);
        lemma_section_lines_visible(secs, n - 1, pad, budget);
        let pa = lines_upto(secs, n - 1, true, pad, budget);
        let pb = lines_upto(secs, n - 1, false, pad, budget);
        let sa = section_lines(secs, n - 1, true, pad, budget);
        let sb = section_lines(secs, n - 1, false, pad, budget);
        assert forall|k: int| 0 <= k < (pa + sa).len() implies visible_len_spec(#[trigger] (pa + sa)[k].text)
            == visible_len_spec((pb + sb)[k].text) by {
            if k < pa.len() {
                assert((pa + sa)[k] == pa[k]);
                assert((pb + sb)[k] == pb[k]);
            } else {
                assert((pa + sa)[k] == sa[k - pa.len()]);
                assert((pb + sb)[k] == sb[k - pa.len()]);
            }
        }
    }
}

/// Colour does not disturb alignment: with colour on, the sheet has the same
/// lines, each as wide on screen as without it, as long as the config's own
/// text carries no escape character. (With one column these are exactly the
/// lines printed.)
pub proof fn lemma_colour_keeps_alignment(secs: Seq<SectionView>, columns: nat, term_width: nat)
    requires
        escape_free(secs),
    ensures
        sheet_lines(secs, true, columns, term_width).len() == sheet_lines(
            secs,
            false,
            columns,
            term_width,
        ).len(),
        forall|k: int|
            0 <= k < sheet_lines(secs, true, columns, term_width).len() ==> visible_len_spec(
                #[trigger] sheet_lines(secs, true, columns, term_width)[k].text,
            ) == visible_len_spec(sheet_lines(secs, false, columns, term_width)[k].text),
{
    let pad = pad_spec(secs);
    lemma_lines_visible(secs, secs.len() as int, pad, budget_spec(pad, columns, term_width));
}

// ------------------------------------------------------------------ plain
/// Widest chord among rows.
pub open spec fn rows_max(rows: Seq<RowView>) -> nat
    decreases rows.len(),
{
    if rows.len() == 0 {
        0
    } else {
        let m = rows_max(rows.drop_last());
        let w = width_spec(rows.last());
        if w > m {
            w
        } else {
            m
        }
    }
}

/// Widest chord on the sheet.
pub open spec fn pad_spec(secs: Seq<SectionView>) -> nat
    decreases secs.len(),
{
    if secs.len() == 0 {
        0
    } else {
        let m = pad_spec(secs.drop_last());
        let w = rows_max(secs.last().rows);
        if w > m {
            w
        } else {
            m
        }
    }
}

pub open spec fn sat_sub(a: nat, b: nat) -> nat {
    if a >= b {
        (a - b) as nat
    } else {
        0
    }
}

/// With more than one column, each row's text is clipped so that one long
/// `exec` line cannot push the columns to its right off the screen.
pub open spec fn budget_spec(pad: nat, columns: nat, term_width: nat) -> Option<nat> {
    if columns > 1 {
        let per_column = sat_sub(term_width, (3 * (columns - 1)) as nat) / columns;
        let b = sat_sub(per_column, pad + 4);
        Some(if b > 8 { b } else { 8 })
    } else {
        None
    }
}

/// One line of the sheet before it is laid out.
pub struct LineView {
    pub section: nat,
    pub text: Seq<char>,
    pub header: bool,
}

/// The lines of section `i`: a blank line before all but the first, the
/// heading, the rows.
pub open spec fn section_lines(secs: Seq<SectionView>, i: int, color: bool, pad: nat, budget: Option<
    nat,
>) -> Seq<LineView> {
    (if i > 0 {
        seq![LineView { section: i as nat, text: seq![], header: false }]
    } else {
        seq![]
    }) + seq![LineView { section: i as nat, text: heading_spec(secs[i].title, color), header: true }]
        + Seq::new(
        secs[i].rows.len(),
        |j: int|
            LineView {
                section: i as nat,
                text: render_row_spec(secs[i].rows[j], color, pad, budget),
                header: false,
            },
    )
}

pub open spec fn lines_upto(secs: Seq<SectionView>, n: int, color: bool, pad: nat, budget: Option<
    nat,
>) -> Seq<LineView>
    decreases n,
{
    if n <= 0 {
        seq![]
    } else {
        lines_upto(secs, n - 1, color, pad, budget) + section_lines(secs, n - 1, color, pad, budget)
    }
}

pub open spec fn line_texts(lines: Seq<LineView>) -> Seq<Seq<char>> {
    Seq::new(lines.len(), |i: int| lines[i].text)
}

/// The sheet's lines.
pub open spec fn sheet_lines(secs: Seq<SectionView>, color: bool, columns: nat, term_width: nat) -> Seq<
    LineView,
> {
    let pad = pad_spec(secs);
    lines_upto(secs, secs.len() as int, color, pad, budget_spec(pad, columns, term_width))
}

/// The aligned terminal sheet: one column of lines, or the lines balanced
/// across `columns`.
pub open spec fn plain_spec(secs: Seq<SectionView>, color: bool, columns: nat, term_width: nat) -> Seq<
    char,
> {
    let lines = sheet_lines(secs, color, columns, term_width);
    if columns <= 1 {
        join(line_texts(lines), "\n"@) + "\n"@
    } else {
        side_by_side_spec(lines, secs, color, columns)
    }
}

/// What `plain` needs to lay a sheet out without overflowing: the column
/// gutters and the chord widths fit in `usize`, and a multi-column sheet has
/// something to balance.
pub open spec fn plain_ok(secs: Seq<SectionView>, columns: nat) -> bool {
    &&& 3 * columns <= usize::MAX
    &&& pad_spec(secs) + 4 <= usize::MAX
    &&& columns > 1 ==> secs.len() > 0
}

proof fn lemma_rows_max(rows: Seq<RowView>)
    ensures
        forall|j: int| 0 <= j < rows.len() ==> width_spec(#[trigger] rows[j]) <= rows_max(rows),
    decreases rows.len(),
{
    if rows.len() > 0 {
        lemma_rows_max(rows.drop_last());
        assert forall|j: int| 0 <= j < rows.len() implies width_spec(#[trigger] rows[j]) <= rows_max(
            rows,
        ) by {
            if j < rows.len() - 1 {
                assert(rows[j] == rows.drop_last()[j]);
            }
        }
    }
}

proof fn lemma_pad(secs: Seq<SectionView>)
    ensures
        forall|i: int| 0 <= i < secs.len() ==> rows_max(#[trigger] secs[i].rows) <= pad_spec(secs),
    decreases secs.len(),
{
    if secs.len() > 0 {
        lemma_pad(secs.drop_last());
        assert forall|i: int| 0 <= i < secs.len() implies rows_max(#[trigger] secs[i].rows)
            <= pad_spec(secs) by {
            if i < secs.len() - 1 {
                assert(secs[i] == secs.drop_last()[i]);
            }
        }
    }
}

struct Line {
    section: usize,
    text: Vec<char>,
    header: bool,
}

spec fn lines_view(v: Seq<Line>) -> Seq<LineView> {
    v.map_values(|l: Line| LineView { section: l.section as nat, text: l.text@, header: l.header })
}

fn push_line(v: &mut Vec<Line>, section: usize, text: Vec<char>, header: bool)
    ensures
        lines_view(final(v)@) == lines_view(old(v)@).push(
            LineView { section: section as nat, text: text@, header: header },
        ),
{
    let ghost lv = LineView { section: section as nat, text: text@, header: header };
    v.push(Line { section, text, header });
    proof {
        assert(lines_view(v@) =~= lines_view(old(v)@).push(lv));
    }
}

fn rows_max_exec(rows: &Vec<Row>) -> (m: usize)
    ensures
        m == rows_max(rows_view(rows@)),
{
    let mut m: usize = 0;
    let mut j: usize = 0;
    let ghost rv = rows_view(rows@);
    proof {
        assert(rv.take(0) =~= Seq::<RowView>::empty());
    }
    while j < rows.len()
        invariant
            j <= rows.len(),
            rv == rows_view(rows@),
            m == rows_max(rv.take(j as int)),
        decreases rows.len() - j,
    {
        let w = width(&rows[j]);
        proof {
            assert(rv.take(j + 1).drop_last() == rv.take(j as int));
            assert(rv.take(j + 1).last() == rows@[j as int]@);
        }
        if w > m {
            m = w;
        }
        j += 1;
    }
    proof {
        assert(rv.take(rows.len() as int) == rv);
    }
    m
}

pub(crate) fn pad_exec(sections: &[Section]) -> (m: usize)
    ensures
        m == pad_spec(sections_view(sections@)),
{
    let ghost sv = sections_view(sections@);
    let mut m: usize = 0;
    let mut i: usize = 0;
    proof {
        assert(sv.take(0) =~= Seq::<SectionView>::empty());
    }
    while i < sections.len()
        invariant
            i <= sections.len(),
            sv == sections_view(sections@),
            m == pad_spec(sv.take(i as int)),
        decreases sections.len() - i,
    {
        let w = rows_max_exec(&sections[i].rows);
        proof {
            assert(sv.take(i + 1).drop_last() == sv.take(i as int));
            assert(sv.take(i + 1).last() == sections@[i as int]@);
        }
        if w > m {
            m = w;
        }
        i += 1;
    }
    proof {
        assert(sv.take(sections.len() as int) == sv);
    }
    m
}

/// Whether `plain` can lay these sections out in `columns`.
pub fn plain_fits(sections: &[Section], columns: usize) -> (r: bool)
    ensures
        r == plain_ok(sections_view(sections@), columns as nat),
{
    let pad = pad_exec(sections);
    columns <= usize::MAX / 3 && pad <= usize::MAX - 4 && (columns <= 1 || sections.len() > 0)
}

/// The aligned terminal sheet.
///
/// `term_width` bounds each column when there is more than one; a single
/// column is left to wrap or overflow, because truncating a command the reader
/// asked to see is worse than a long line.
pub fn plain(sections: &[Section], style: Style, columns: usize, term_width: usize) -> (r: String)
    requires
        plain_ok(sections_view(sections@), columns as nat),
    ensures
        r@ == plain_spec(sections_view(sections@), style.color, columns as nat, term_width as nat),
{
    let ghost sv = sections_view(sections@);
    let pad = pad_exec(sections);
    let text_budget: Option<usize> = if columns > 1 {
        let per_column = term_width.saturating_sub(GUTTER * (columns - 1)) / columns;
        let b = per_column.saturating_sub(pad + 4);
        Some(if b > 8 {
            b
        } else {
            8
        })
    } else {
        None
    };
    let ghost budget: Option<nat> = match text_budget {
        Some(b) => Some(b as nat),
        None => None,
    };
    proof {
        assert(budget == budget_spec(pad as nat, columns as nat, term_width as nat));
        lemma_pad(sv);
    }

    let mut lines: Vec<Line> = Vec::new();
    let mut i: usize = 0;
    proof {
        assert(lines_view(lines@) =~= Seq::<LineView>::empty());
    }
    while i < sections.len()
        invariant
            i <= sections.len(),
            sv == sections_view(sections@),
            pad == pad_spec(sv),
            pad + 4 <= usize::MAX,
            forall|k: int| 0 <= k < sv.len() ==> rows_max(#[trigger] sv[k].rows) <= pad,
            lines_view(lines@) == lines_upto(sv, i as int, style.color, pad as nat, budget),
            budget == match text_budget {
                Some(b) => Some(b as nat),
                None => None::<nat>,
            },
        decreases sections.len() - i,
    {
        let section = &sections[i];
        proof {
            assert(sv[i as int] == section@);
            lemma_rows_max(sv[i as int].rows);
        }
        let ghost base = lines_view(lines@);
        if i > 0 {
            push_line(&mut lines, i, Vec::new(), false);
        }
        push_line(&mut lines, i, heading(&chars_of(section.title.as_str()), style), true);
        let ghost with_head = lines_view(lines@);
        let mut j: usize = 0;
        while j < section.rows.len()
            invariant
                j <= section.rows.len(),
                sv[i as int] == section@,
                pad + 4 <= usize::MAX,
                forall|k: int| 0 <= k < section.rows.len() ==> width_spec(#[trigger] sv[i as int].rows[k])
                    <= pad,
                lines_view(lines@) == with_head + Seq::new(
                    j as nat,
                    |jj: int|
                        LineView {
                            section: i as nat,
                            text: render_row_spec(sv[i as int].rows[jj], style.color, pad as nat, budget),
                            header: false,
                        },
                ),
                budget == match text_budget {
                    Some(b) => Some(b as nat),
                    None => None::<nat>,
                },
            decreases section.rows.len() - j,
        {
            proof {
                assert(sv[i as int].rows[j as int] == section.rows@[j as int]@);
            }
            let t = render_row(&section.rows[j], style, pad, text_budget);
            let ghost before = lines_view(lines@);
            push_line(&mut lines, i, t, false);
            j += 1;
            proof {
                assert(lines_view(lines@) =~= with_head + Seq::new(
                    j as nat,
                    |jj: int|
                        LineView {
                            section: i as nat,
                            text: render_row_spec(sv[i as int].rows[jj], style.color, pad as nat, budget),
                            header: false,
                        },
                ));
            }
        }
        proof {
            assert(lines_view(lines@) =~= base + section_lines(sv, i as int, style.color, pad as nat, budget));
        }
        i += 1;
    }

    if columns <= 1 {
        let mut texts: Vec<Vec<char>> = Vec::new();
        let mut k: usize = 0;
        while k < lines.len()
            invariant
                k <= lines.len(),
                texts@.len() == k,
                forall|m: int| 0 <= m < k ==> (#[trigger] texts@[m])@ == lines_view(lines@)[m].text,
            decreases lines.len() - k,
        {
            texts.push(slice_of(&lines[k].text, 0, lines[k].text.len()));
            proof {
                assert(lines@[k as int].text@.take(lines@[k as int].text@.len() as int)
                    == lines@[k as int].text@);
            }
            k += 1;
        }
        proof {
            assert(seqs(texts@) =~= line_texts(lines_view(lines@)));
        }
        let mut out = join_chars(&texts, &chars_of("\n"));
        out.push('\n');
        proof {
            reveal_strlit("\n");
            assert(out@ =~= join(line_texts(lines_view(lines@)), "\n"@) + "\n"@);
        }
        return string_of(&out);
    }
    proof {
        assert(lines_view(lines@).len() == lines@.len());
        assert(section_lines(sv, sv.len() - 1, style.color, pad as nat, budget).len() > 0);
    }
    side_by_side(&lines, sections, style, columns)
}


// ------------------------------------------------------------ side by side
/// Lines per column: the line count divided by the columns, rounded up.
pub open spec fn target_spec(len: nat, columns: nat) -> nat {
    len / columns + (if len % columns != 0 {
        1nat
    } else {
        0nat
    })
}

/// `lines` cut into runs of `size`, the last one possibly shorter.
pub open spec fn chunks_spec(lines: Seq<LineView>, size: nat) -> Seq<Seq<LineView>>
    decreases lines.len(),
{
    if lines.len() == 0 || size == 0 {
        seq![]
    } else {
        let k = if lines.len() <= size {
            lines.len()
        } else {
            size
        };
        seq![lines.take(k as int)] + chunks_spec(lines.skip(k as int), size)
    }
}

/// The heading repeated at the top of column `n` when that column starts in
/// the middle of a section.
pub open spec fn cont_heading(secs: Seq<SectionView>, first: LineView, n: int, color: bool) -> Seq<
    Seq<char>,
> {
    if n > 0 && !first.header && first.section < secs.len() {
        seq![heading_spec(secs[first.section as int].title + " (cont.)"@, color)]
    } else {
        seq![]
    }
}

/// The cells of column `n`.
pub open spec fn group_spec(secs: Seq<SectionView>, chunk: Seq<LineView>, n: int, color: bool) -> Seq<
    Seq<char>,
> {
    cont_heading(secs, chunk[0], n, color) + line_texts(chunk)
}

pub open spec fn groups_spec(lines: Seq<LineView>, secs: Seq<SectionView>, color: bool, columns: nat) -> Seq<
    Seq<Seq<char>>,
> {
    let ch = chunks_spec(lines, target_spec(lines.len(), columns));
    Seq::new(ch.len(), |n: int| group_spec(secs, ch[n], n, color))
}

/// The widest visible cell of a column.
pub open spec fn max_visible(g: Seq<Seq<char>>) -> nat
    decreases g.len(),
{
    if g.len() == 0 {
        0
    } else {
        let m = max_visible(g.drop_last());
        let w = visible_len_spec(g.last());
        if w > m {
            w
        } else {
            m
        }
    }
}

/// The tallest column.
pub open spec fn max_height(gs: Seq<Seq<Seq<char>>>) -> nat
    decreases gs.len(),
{
    if gs.len() == 0 {
        0
    } else {
        let m = max_height(gs.drop_last());
        let h = gs.last().len();
        if h > m {
            h
        } else {
            m
        }
    }
}

/// Cell `i` of a column, empty below its end.
pub open spec fn cell_spec(g: Seq<Seq<char>>, i: int) -> Seq<char> {
    if 0 <= i < g.len() {
        g[i]
    } else {
        seq![]
    }
}

/// Row `i` of the first `c` columns, each but the last padded to its
/// column's width and the gutter.
pub open spec fn row_upto(gs: Seq<Seq<Seq<char>>>, i: int, c: int) -> Seq<char>
    decreases c,
{
    if c <= 0 {
        seq![]
    } else {
        let cell = cell_spec(gs[c - 1], i);
        row_upto(gs, i, c - 1) + cell + (if c != gs.len() {
            spaces((max_visible(gs[c - 1]) - visible_len_spec(cell) + 3) as nat)
        } else {
            seq![]
        })
    }
}

/// The first `k` rows of the laid-out sheet, each with its trailing blanks
/// trimmed and a newline.
pub open spec fn rows_out(gs: Seq<Seq<Seq<char>>>, k: int) -> Seq<char>
    decreases k,
{
    if k <= 0 {
        seq![]
    } else {
        rows_out(gs, k - 1) + trim_end(row_upto(gs, k - 1, gs.len() as int)) + "\n"@
    }
}

/// The sheet balanced across `columns`: the lines are cut into runs of equal
/// length, a run that starts inside a section repeats its heading, and the
/// runs stand side by side.
pub open spec fn side_by_side_spec(lines: Seq<LineView>, secs: Seq<SectionView>, color: bool, columns: nat) -> Seq<
    char,
> {
    let gs = groups_spec(lines, secs, color, columns);
    rows_out(gs, max_height(gs) as int)
}

/// The lines in order, as one sequence.
pub open spec fn flatten_lines(ch: Seq<Seq<LineView>>) -> Seq<LineView>
    decreases ch.len(),
{
    if ch.len() == 0 {
        seq![]
    } else {
        ch[0] + flatten_lines(ch.drop_first())
    }
}

/// Cutting the lines into columns loses and reorders nothing: the columns,
/// read one after another, are the lines, and none is empty or longer than
/// the run length.
pub proof fn lemma_columns_keep_every_line(lines: Seq<LineView>, size: nat)
    requires
        size > 0,
    ensures
        flatten_lines(chunks_spec(lines, size)) == lines,
        forall|n: int|
            0 <= n < chunks_spec(lines, size).len() ==> 0 < (#[trigger] chunks_spec(lines, size)[n]).len()
                <= size,
    decreases lines.len(),
{
    if lines.len() > 0 {
        let k: int = if lines.len() <= size {
            lines.len() as int
        } else {
            size as int
        };
        let rest = lines.skip(k);
        lemma_columns_keep_every_line(rest, size);
        let ch = chunks_spec(lines, size);
        assert(ch == seq![lines.take(k)] + chunks_spec(rest, size));
        assert(ch.drop_first() =~= chunks_spec(rest, size));
        assert(ch[0] == lines.take(k));
        assert(lines.take(k) + rest =~= lines);
        assert forall|n: int| 0 <= n < ch.len() implies 0 < (#[trigger] ch[n]).len() <= size by {
            if n > 0 {
                assert(ch[n] == chunks_spec(rest, size)[n - 1]);
            }
        }
    }
}

proof fn lemma_max_visible(g: Seq<Seq<char>>)
    ensures
        forall|i: int| 0 <= i < g.len() ==> visible_len_spec(#[trigger] g[i]) <= max_visible(g),
    decreases g.len(),
{
    if g.len() > 0 {
        lemma_max_visible(g.drop_last());
        assert forall|i: int| 0 <= i < g.len() implies visible_len_spec(#[trigger] g[i])
            <= max_visible(g) by {
            if i < g.len() - 1 {
                assert(g[i] == g.drop_last()[i]);
            }
        }
    }
}

fn max_visible_exec(g: &Vec<Vec<char>>) -> (m: usize)
    ensures
        m == max_visible(seqs(g@)),
{
    let ghost gv = seqs(g@);
    let mut m: usize = 0;
    let mut j: usize = 0;
    proof {
        assert(gv.take(0) =~= Seq::<Seq<char>>::empty());
    }
    while j < g.len()
        invariant
            j <= g.len(),
            gv == seqs(g@),
            m == max_visible(gv.take(j as int)),
        decreases g.len() - j,
    {
        let w = visible_len_chars(&g[j]);
        proof {
            assert(gv.take(j + 1).drop_last() == gv.take(j as int));
            assert(gv.take(j + 1).last() == g@[j as int]@);
        }
        if w > m {
            m = w;
        }
        j += 1;
    }
    proof {
        assert(gv.take(g.len() as int) == gv);
    }
    m
}

spec fn groups_view(v: Seq<Vec<Vec<char>>>) -> Seq<Seq<Seq<char>>> {
    v.map_values(|g: Vec<Vec<char>>| seqs(g@))
}

fn max_height_exec(gs: &Vec<Vec<Vec<char>>>) -> (m: usize)
    ensures
        m == max_height(groups_view(gs@)),
{
    let ghost gv = groups_view(gs@);
    let mut m: usize = 0;
    let mut j: usize = 0;
    proof {
        assert(gv.take(0) =~= Seq::<Seq<Seq<char>>>::empty());
    }
    while j < gs.len()
        invariant
            j <= gs.len(),
            gv == groups_view(gs@),
            m == max_height(gv.take(j as int)),
        decreases gs.len() - j,
    {
        let h = gs[j].len();
        proof {
            assert(gv.take(j + 1).drop_last() == gv.take(j as int));
            assert(gv.take(j + 1).last() == seqs(gs@[j as int]@));
        }
        if h > m {
            m = h;
        }
        j += 1;
    }
    proof {
        assert(gv.take(gs.len() as int) == gv);
    }
    m
}

/// The cells of one column: the repeated heading, if any, then the texts.
fn make_group(
    lines: &Vec<Line>,
    from: usize,
    to: usize,
    n: usize,
    sections: &[Section],
    style: Style,
) -> (g: Vec<Vec<char>>)
    requires
        from < to <= lines.len(),
    ensures
        seqs(g@) == group_spec(
            sections_view(sections@),
            lines_view(lines@).subrange(from as int, to as int),
            n as int,
            style.color,
        ),
{
    let ghost sv = sections_view(sections@);
    let ghost chunk = lines_view(lines@).subrange(from as int, to as int);
    let mut g: Vec<Vec<char>> = Vec::new();
    let first = &lines[from];
    if n > 0 && !first.header && first.section < sections.len() {
        let mut t = chars_of(sections[first.section].title.as_str());
        extend_chars(&mut t, &chars_of(" (cont.)"));
        g.push(heading(&t, style));
        proof {
            assert(sv[first.section as int] == sections@[first.section as int]@);
        }
    }
    let ghost head = seqs(g@);
    proof {
        assert(chunk[0] == lines_view(lines@)[from as int]);
        assert(head =~= cont_heading(sv, chunk[0], n as int, style.color));
    }
    let mut k: usize = from;
    while k < to
        invariant
            from <= k <= to <= lines.len(),
            chunk == lines_view(lines@).subrange(from as int, to as int),
            seqs(g@) == head + line_texts(chunk.take(k - from)),
        decreases to - k,
    {
        let ghost prev = seqs(g@);
        g.push(slice_of(&lines[k].text, 0, lines[k].text.len()));
        proof {
            assert(seqs(g@) =~= prev.push(g@[g@.len() - 1]@));
            assert(lines@[k as int].text@.take(lines@[k as int].text@.len() as int)
                == lines@[k as int].text@);
            assert(chunk[k - from] == lines_view(lines@)[k as int]);
            assert(line_texts(chunk.take(k + 1 - from)) =~= line_texts(chunk.take(k - from)).push(
                lines@[k as int].text@,
            ));
            assert(seqs(g@) =~= head + line_texts(chunk.take(k + 1 - from)));
        }
        k += 1;
    }
    proof {
        assert(chunk.take(to - from) =~= chunk);
    }
    g
}

/// Balance the sheet across `columns`.
///
/// Splitting only between sections would be tidier, but useless in practice:
/// "Standard" is almost the whole sheet on any real config, so the second
/// column would sit nearly empty. Sections are cut where the balance falls and
/// the heading is repeated at the top of the next column, the way a printed
/// cheat sheet does it.
fn side_by_side(lines: &Vec<Line>, sections: &[Section], style: Style, columns: usize) -> (r: String)
    requires
        columns > 1,
        lines.len() > 0,
    ensures
        r@ == side_by_side_spec(lines_view(lines@), sections_view(sections@), style.color, columns as nat),
{
    let ghost lv = lines_view(lines@);
    let ghost sv = sections_view(sections@);
    let len = lines.len();
    proof {
        assert(len / columns < len) by (nonlinear_arith)
            requires
                len > 0,
                columns > 1,
        ;
    }
    let target = len / columns + if len % columns != 0 {
        1
    } else {
        0
    };
    let ghost t = target_spec(len as nat, columns as nat);
    proof {
        assert(target == t);
        assert(target > 0) by (nonlinear_arith)
            requires
                len > 0,
                columns > 1,
                target == len / columns + (if len % columns != 0 {
                    1int
                } else {
                    0int
                }),
        ;
    }
    let ghost all = chunks_spec(lv, t);

    let mut groups: Vec<Vec<Vec<char>>> = Vec::new();
    let mut start: usize = 0;
    proof {
        assert(lv.skip(0) =~= lv);
    }
    while start < len
        invariant
            start <= len == lines.len(),
            lv == lines_view(lines@),
            sv == sections_view(sections@),
            target == t,
            t > 0,
            all == chunks_spec(lv, t),
            groups@.len() <= all.len(),
            all == all.take(groups@.len() as int) + chunks_spec(lv.skip(start as int), t),
            forall|n: int| 0 <= n < groups@.len() ==> seqs(#[trigger] groups@[n]@) == group_spec(sv, all[n], n, style.color),
        decreases len - start,
    {
        let end = if len - start <= target {
            len
        } else {
            start + target
        };
        let n = groups.len();
        let g = make_group(lines, start, end, n, sections, style);
        proof {
            let rest = lv.skip(start as int);
            let k = (end - start) as int;
            assert(rest.take(k) =~= lv.subrange(start as int, end as int));
            assert(rest.skip(k) =~= lv.skip(end as int));
            assert(chunks_spec(rest, t) == seq![rest.take(k)] + chunks_spec(rest.skip(k), t));
            assert(all[n as int] == rest.take(k));
            assert(all.take(n + 1) =~= all.take(n as int).push(rest.take(k)));
            assert(all =~= all.take(n + 1) + chunks_spec(lv.skip(end as int), t));
        }
        groups.push(g);
        start = end;
    }
    proof {
        assert(lv.skip(len as int) =~= Seq::<LineView>::empty());
        assert(all =~= all.take(groups@.len() as int));
        assert(groups_view(groups@) =~= groups_spec(lv, sv, style.color, columns as nat));
    }
    let ghost gs = groups_view(groups@);

    let mut widths: Vec<usize> = Vec::new();
    let mut c: usize = 0;
    while c < groups.len()
        invariant
            c <= groups.len(),
            gs == groups_view(groups@),
            widths@.len() == c,
            forall|m: int| 0 <= m < c ==> #[trigger] widths@[m] == max_visible(gs[m]),
        decreases groups.len() - c,
    {
        widths.push(max_visible_exec(&groups[c]));
        c += 1;
    }
    let height = max_height_exec(&groups);

    let mut out: Vec<char> = Vec::new();
    let mut i: usize = 0;
    while i < height
        invariant
            i <= height,
            height == max_height(gs),
            gs == groups_view(groups@),
            widths@.len() == groups.len(),
            forall|m: int| 0 <= m < groups.len() ==> #[trigger] widths@[m] == max_visible(gs[m]),
            out@ == rows_out(gs, i as int),
        decreases height - i,
    {
        let mut line: Vec<char> = Vec::new();
        let mut col: usize = 0;
        while col < groups.len()
            invariant
                col <= groups.len(),
                gs == groups_view(groups@),
                widths@.len() == groups.len(),
                forall|m: int| 0 <= m < groups.len() ==> #[trigger] widths@[m] == max_visible(gs[m]),
                line@ == row_upto(gs, i as int, col as int),
            decreases groups.len() - col,
        {
            let group = &groups[col];
            let ghost g = gs[col as int];
            proof {
                assert(g == seqs(group@));
                lemma_max_visible(g);
            }
            let cell: Vec<char> = if i < group.len() {
                slice_of(&group[i], 0, group[i].len())
            } else {
                Vec::new()
            };
            proof {
                if i < group.len() {
                    assert(group@[i as int]@.take(group@[i as int]@.len() as int) == group@[i as int]@);
                    assert(g[i as int] == group@[i as int]@);
                }
                assert(cell@ == cell_spec(g, i as int));
            }
            extend_chars(&mut line, &cell);
            if col + 1 != groups.len() {
                let v = visible_len_chars(&cell);
                proof {
                    if i < group.len() {
                        assert(visible_len_spec(g[i as int]) <= max_visible(g));
                    }
                }
                push_spaces(&mut line, widths[col] - v);
                push_spaces(&mut line, 3);
                proof {
                    assert(spaces((widths[col as int] - v) as nat) + spaces(3) =~= spaces(
                        (max_visible(g) - visible_len_spec(cell@) + 3) as nat,
                    ));
                }
            }
            proof {
                assert(line@ =~= row_upto(gs, i as int, col + 1));
            }
            col += 1;
        }
        let trimmed = trim_end_chars(&line);
        extend_chars(&mut out, &trimmed);
        out.push('\n');
        proof {
            reveal_strlit("\n");
            assert(gs.len() == groups@.len());
            assert(out@ =~= rows_out(gs, i + 1));
        }
        i += 1;
    }
    string_of(&out)
}

// ---------------------------------------------------------------- markdown
/// `s` padded with spaces on the right to `w` characters.
pub open spec fn pad_to(s: Seq<char>, w: nat) -> Seq<char> {
    if s.len() < w {
        s + spaces((w - s.len()) as nat)
    } else {
        s
    }
}

/// `n` dashes.
pub open spec fn dashes(n: nat) -> Seq<char> {
    Seq::new(n, |i: int| '-')
}

/// The key column's cell for a row: the chord in backticks.
pub open spec fn key_cell(r: RowView) -> Seq<char> {
    "`"@ + chord_spec(r) + "`"@
}

/// Width of the key column: its widest cell, and never under the header's.
pub open spec fn key_width(rows: Seq<RowView>) -> nat
    decreases rows.len(),
{
    if rows.len() == 0 {
        3
    } else {
        let m = key_width(rows.drop_last());
        let w = width_spec(rows.last()) + 2;
        if w > m {
            w
        } else {
            m
        }
    }
}

/// Width of the action column: its widest cell, and never under the
/// header's.
pub open spec fn action_width(rows: Seq<RowView>) -> nat
    decreases rows.len(),
{
    if rows.len() == 0 {
        6
    } else {
        let m = action_width(rows.drop_last());
        let w = rows.last().text.len();
        if w > m {
            w
        } else {
            m
        }
    }
}

pub open spec fn table_line(a: Seq<char>, b: Seq<char>, kw: nat, aw: nat) -> Seq<char> {
    "| "@ + pad_to(a, kw) + " | "@ + pad_to(b, aw) + " |"@
}

/// The table of a section: header, rule, one line per row.
pub open spec fn table_lines(s: SectionView) -> Seq<Seq<char>> {
    let kw = key_width(s.rows);
    let aw = action_width(s.rows);
    seq![table_line("Key"@, "Action"@, kw, aw), table_line(dashes(kw), dashes(aw), kw, aw)]
        + Seq::new(s.rows.len(), |j: int| table_line(key_cell(s.rows[j]), s.rows[j].text, kw, aw))
}

/// Lines, each followed by a newline.
pub open spec fn line_block(ls: Seq<Seq<char>>) -> Seq<char>
    decreases ls.len(),
{
    if ls.len() == 0 {
        seq![]
    } else {
        line_block(ls.drop_last()) + ls.last() + "\n"@
    }
}

pub open spec fn section_markdown(s: SectionView) -> Seq<char> {
    "## "@ + s.title + "\n\n"@ + line_block(table_lines(s)) + "\n"@
}

pub open spec fn markdown_spec(secs: Seq<SectionView>) -> Seq<char>
    decreases secs.len(),
{
    if secs.len() == 0 {
        seq![]
    } else {
        markdown_spec(secs.drop_last()) + section_markdown(secs.last())
    }
}

proof fn lemma_column_widths(rows: Seq<RowView>)
    ensures
        key_width(rows) >= 3,
        action_width(rows) >= 6,
        forall|j: int| 0 <= j < rows.len() ==> width_spec(#[trigger] rows[j]) + 2 <= key_width(rows),
        forall|j: int| 0 <= j < rows.len() ==> (#[trigger] rows[j]).text.len() <= action_width(rows),
    decreases rows.len(),
{
    if rows.len() > 0 {
        lemma_column_widths(rows.drop_last());
        assert forall|j: int| 0 <= j < rows.len() implies width_spec(#[trigger] rows[j]) + 2
            <= key_width(rows) && rows[j].text.len() <= action_width(rows) by {
            if j < rows.len() - 1 {
                assert(rows[j] == rows.drop_last()[j]);
            }
        }
    }
}

/// Every line of a section's markdown table has the same length, so the
/// source reads as a table without a renderer.
pub proof fn lemma_markdown_table_aligned(s: SectionView)
    ensures
        forall|i: int|
            0 <= i < table_lines(s).len() ==> (#[trigger] table_lines(s)[i]).len() == key_width(
                s.rows,
            ) + action_width(s.rows) + 7,
{
    lemma_column_widths(s.rows);
    let kw = key_width(s.rows);
    let aw = action_width(s.rows);
    reveal_strlit("| ");
    reveal_strlit(" | ");
    reveal_strlit(" |");
    reveal_strlit("Key");
    reveal_strlit("Action");
    reveal_strlit("`");
    assert forall|i: int| 0 <= i < table_lines(s).len() implies (#[trigger] table_lines(s)[i]).len()
        == kw + aw + 7 by {
        if i >= 2 {
            let r = s.rows[i - 2];
            assert(table_lines(s)[i] == table_line(key_cell(r), r.text, kw, aw));
            assert(key_cell(r).len() == width_spec(r) + 2);
        }
    }
}

fn push_padded(out: &mut Vec<char>, s: &Vec<char>, w: usize)
    ensures
        final(out)@ == old(out)@ + pad_to(s@, w as nat),
{
    extend_chars(out, s);
    if s.len() < w {
        push_spaces(out, w - s.len());
    }
    proof {
        assert(final(out)@ =~= old(out)@ + pad_to(s@, w as nat)) by {
            reveal_strlit(" ");
        }
    }
}

fn push_table_line(out: &mut Vec<char>, a: &Vec<char>, b: &Vec<char>, kw: usize, aw: usize)
    ensures
        final(out)@ == old(out)@ + table_line(a@, b@, kw as nat, aw as nat) + "\n"@,
{
    extend_chars(out, &chars_of("| "));
    push_padded(out, a, kw);
    extend_chars(out, &chars_of(" | "));
    push_padded(out, b, aw);
    extend_chars(out, &chars_of(" |\n"));
    proof {
        reveal_strlit(" |\n");
        reveal_strlit(" |");
        reveal_strlit("\n");
        assert(final(out)@ =~= old(out)@ + table_line(a@, b@, kw as nat, aw as nat) + "\n"@);
    }
}

fn key_cell_exec(row: &Row) -> (r: Vec<char>)
    ensures
        r@ == key_cell(row@),
{
    let mut r = chars_of("`");
    extend_chars(&mut r, &chars_of(row.chord().as_str()));
    extend_chars(&mut r, &chars_of("`"));
    r
}

fn repeat_char(c: char, n: usize) -> (r: Vec<char>)
    ensures
        r@ == Seq::new(n as nat, |i: int| c),
{
    let mut r: Vec<char> = Vec::new();
    let mut i: usize = 0;
    while i < n
        invariant
            i <= n,
            r@ == Seq::new(i as nat, |k: int| c),
        decreases n - i,
    {
        r.push(c);
        i += 1;
        proof {
            assert(r@ =~= Seq::new(i as nat, |k: int| c));
        }
    }
    r
}

/// GitHub-flavoured markdown, one table per section, columns padded so the
/// source is readable without a renderer.
pub fn markdown(sections: &[Section]) -> (r: String)
    ensures
        r@ == markdown_spec(sections_view(sections@)),
{
    let ghost sv = sections_view(sections@);
    let mut out: Vec<char> = Vec::new();
    let mut i: usize = 0;
    proof {
        assert(sv.take(0) =~= Seq::<SectionView>::empty());
    }
    while i < sections.len()
        invariant
            i <= sections.len(),
            sv == sections_view(sections@),
            out@ == markdown_spec(sv.take(i as int)),
        decreases sections.len() - i,
    {
        let section = &sections[i];
        let ghost s = section@;
        let ghost rows = s.rows;
        proof {
            assert(sv[i as int] == s);
        }
        // The key cells first: their lengths give the key column's width.
        let mut keys: Vec<Vec<char>> = Vec::new();
        let mut key_w: usize = 3;
        let mut act_w: usize = 6;
        let mut j: usize = 0;
        proof {
            assert(rows.take(0) =~= Seq::<RowView>::empty());
        }
        while j < section.rows.len()
            invariant
                j <= section.rows.len(),
                s == section@,
                rows == s.rows,
                keys@.len() == j,
                forall|k: int| 0 <= k < j ==> (#[trigger] keys@[k])@ == key_cell(rows[k]),
                key_w == key_width(rows.take(j as int)),
                act_w == action_width(rows.take(j as int)),
            decreases section.rows.len() - j,
        {
            proof {
                assert(rows[j as int] == section.rows@[j as int]@);
            }
            let k = key_cell_exec(&section.rows[j]);
            let kl = k.len();
            let tl = section.rows[j].text.as_str().unicode_len();
            proof {
                reveal_strlit("`");
                assert(kl == width_spec(rows[j as int]) + 2);
                assert(rows.take(j + 1).drop_last() == rows.take(j as int));
                assert(rows.take(j + 1).last() == rows[j as int]);
            }
            if kl > key_w {
                key_w = kl;
            }
            if tl > act_w {
                act_w = tl;
            }
            keys.push(k);
            j += 1;
        }
        proof {
            assert(rows.take(rows.len() as int) == rows);
        }
        let ghost before = out@;
        extend_chars(&mut out, &chars_of("## "));
        extend_chars(&mut out, &chars_of(section.title.as_str()));
        extend_chars(&mut out, &chars_of("\n\n"));
        let ghost head = out@;
        let ghost tl = table_lines(s);
        push_table_line(&mut out, &chars_of("Key"), &chars_of("Action"), key_w, act_w);
        push_table_line(&mut out, &repeat_char('-', key_w), &repeat_char('-', act_w), key_w, act_w);
        proof {
            assert(Seq::new(key_w as nat, |k: int| '-') =~= dashes(key_w as nat));
            assert(Seq::new(act_w as nat, |k: int| '-') =~= dashes(act_w as nat));
            assert(tl.take(2) =~= seq![tl[0], tl[1]]);
            assert(line_block(tl.take(1)) =~= tl[0] + "\n"@) by {
                assert(tl.take(1).drop_last() =~= Seq::<Seq<char>>::empty());
                assert(line_block(Seq::<Seq<char>>::empty()) == Seq::<char>::empty());
                assert(tl.take(1).last() == tl[0]);
            }
            assert(tl.take(2).drop_last() =~= tl.take(1));
            assert(out@ =~= head + line_block(tl.take(2)));
        }
        let mut j: usize = 0;
        while j < section.rows.len()
            invariant
                j <= section.rows.len(),
                s == section@,
                rows == s.rows,
                tl == table_lines(s),
                keys@.len() == rows.len(),
                forall|k: int| 0 <= k < rows.len() ==> (#[trigger] keys@[k])@ == key_cell(rows[k]),
                key_w == key_width(rows),
                act_w == action_width(rows),
                out@ == head + line_block(tl.take(j + 2)),
            decreases section.rows.len() - j,
        {
            proof {
                assert(rows[j as int] == section.rows@[j as int]@);
            }
            push_table_line(&mut out, &keys[j], &chars_of(section.rows[j].text.as_str()), key_w, act_w);
            proof {
                assert(tl.take(j + 3).drop_last() =~= tl.take(j + 2));
                assert(tl[j + 2] == table_line(key_cell(rows[j as int]), rows[j as int].text, key_w as nat, act_w as nat));
            }
            j += 1;
        }
        out.push('\n');
        proof {
            reveal_strlit("\n");
            assert(tl.take(rows.len() + 2int) =~= tl);
            assert(out@ =~= before + section_markdown(s));
            assert(sv.take(i + 1).drop_last() =~= sv.take(i as int));
        }
        i += 1;
    }
    proof {
        assert(sv.take(sections.len() as int) =~= sv);
    }
    string_of(&out)
}
} // verus!
