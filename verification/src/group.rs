//! Bindings arranged for reading: sections, descriptions, and the two things
//! that never appear as a `bind*` line but do respond to keys.

use vstd::prelude::*;
use crate::model::{Binding, BindingView, Bindings, Bucket, Kind, bindings_view};
use crate::source::{Directive, DirectiveView, directives_view, origin_spec};
use crate::text::{
    ascii_lower, ascii_lower_chars, chars_of, copy_string, copy_strings, eq_chars, eq_lit,
    extend_chars, join, join_chars, seqs, slice_of, split_whitespace, split_ws, starts_with,
    starts_with_lit, string_of, strs, trim, trim_chars, chars_of_strings,
};

verus! {

/// One line of the help sheet, already reduced to strings.
#[derive(Debug, Clone)]
pub struct Row {
    /// Modifier names, kept separate from the key so they can be coloured.
    pub modifiers: Vec<String>,
    /// The key, button, gesture or switch part.
    pub key: String,
    /// What to show: the description when asked for and available, else the
    /// raw command.
    pub text: String,
    /// Always the raw command, for the detail line in the pager.
    pub command: String,
    pub origin: String,
    /// Where the binding that beats this one is defined.
    pub shadowed_by: Option<String>,
}

pub struct RowView {
    pub modifiers: Seq<Seq<char>>,
    pub key: Seq<char>,
    pub text: Seq<char>,
    pub command: Seq<char>,
    pub origin: Seq<char>,
    pub shadowed_by: Option<Seq<char>>,
}

impl View for Row {
    type V = RowView;

    open spec fn view(&self) -> RowView {
        RowView {
            modifiers: strs(self.modifiers@),
            key: self.key@,
            text: self.text@,
            command: self.command@,
            origin: self.origin@,
            shadowed_by: match self.shadowed_by {
                Some(s) => Some(s@),
                None => None,
            },
        }
    }
}

pub open spec fn rows_view(v: Seq<Row>) -> Seq<RowView> {
    v.map_values(|r: Row| r@)
}

/// `Super+Shift+r`: the modifiers and the key joined by `+`.
pub open spec fn chord_spec(r: RowView) -> Seq<char> {
    join(r.modifiers.push(r.key), "+"@)
}

impl Row {
    /// `Super+Shift+r`.
    pub fn chord(&self) -> (s: String)
        ensures
            s@ == chord_spec(self@),
    {
        let mut parts = chars_of_strings(&self.modifiers);
        let ghost before = seqs(parts@);
        parts.push(chars_of(self.key.as_str()));
        proof {
            assert(seqs(parts@) =~= before.push(self.key@));
        }
        string_of(&join_chars(&parts, &chars_of("+")))
    }

    /// A copy of the row.
    pub fn duplicate(&self) -> (r: Row)
        ensures
            r@ == self@,
    {
        Row {
            modifiers: copy_strings(&self.modifiers),
            key: copy_string(&self.key),
            text: copy_string(&self.text),
            command: copy_string(&self.command),
            origin: copy_string(&self.origin),
            shadowed_by: match &self.shadowed_by {
                Some(s) => Some(copy_string(s)),
                None => None,
            },
        }
    }
}

/// A run of bindings under one heading.
pub struct Section {
    pub title: String,
    pub rows: Vec<Row>,
}

pub struct SectionView {
    pub title: Seq<char>,
    pub rows: Seq<RowView>,
}

impl View for Section {
    type V = SectionView;

    open spec fn view(&self) -> SectionView {
        SectionView { title: self.title@, rows: rows_view(self.rows@) }
    }
}

pub open spec fn sections_view(v: Seq<Section>) -> Seq<SectionView> {
    v.map_values(|s: Section| s@)
}

#[derive(Debug, Clone, Copy)]
pub struct Opts {
    /// Include bindings that never fire.
    pub all: bool,
    /// Prefer the comment above a binding over its command.
    pub desc: bool,
}

impl Default for Opts {
    fn default() -> (o: Opts)
        ensures
            !o.all && !o.desc,
    {
        Opts { all: false, desc: false }
    }
}

// ------------------------------------------------------------ description
/// Index of the first `". "`.
pub open spec fn find_dot_space(s: Seq<char>) -> Option<nat>
    decreases s.len(),
{
    if s.len() < 2 {
        None
    } else if s[0] == '.' && s[1] == ' ' {
        Some(0)
    } else {
        match find_dot_space(s.drop_first()) {
            Some(k) => Some(k + 1),
            None => None,
        }
    }
}

/// Index of the last space.
pub open spec fn last_space(s: Seq<char>) -> Option<nat>
    decreases s.len(),
{
    if s.len() == 0 {
        None
    } else if s.last() == ' ' {
        Some((s.len() - 1) as nat)
    } else {
        last_space(s.drop_last())
    }
}

/// The longest a description may be, in characters.
pub const DESCRIPTION_MAX: usize = 72;

/// First sentence of the comment block above a binding, cut at a word
/// boundary with `…` when longer than [`DESCRIPTION_MAX`] characters.
pub open spec fn description_spec(comment: Seq<Seq<char>>) -> Option<Seq<char>> {
    let text = trim(join(comment, " "@));
    if text.len() == 0 {
        None
    } else {
        let first = match find_dot_space(text) {
            Some(i) => text.take(i as int),
            None => if text.last() == '.' {
                text.drop_last()
            } else {
                text
            },
        };
        let sentence = trim(first);
        if sentence.len() == 0 {
            None
        } else if sentence.len() <= 72 {
            Some(sentence)
        } else {
            let cut = sentence.take(71);
            let head = match last_space(cut) {
                Some(k) => cut.take(k as int),
                None => cut,
            };
            Some(head.push('…'))
        }
    }
}

proof fn lemma_find_dot_space(s: Seq<char>, k: int)
    requires
        0 <= k <= s.len(),
        forall|i: int| 0 <= i < k && i + 1 < s.len() ==> !(#[trigger] s[i] == '.' && s[i + 1] == ' '),
    ensures
        k + 1 < s.len() && s[k] == '.' && s[k + 1] == ' ' ==> find_dot_space(s) == Some(k as nat),
        k + 1 >= s.len() ==> find_dot_space(s) is None,
    decreases k,
{
    if k > 0 && s.len() >= 2 {
        let t = s.drop_first();
        assert forall|i: int| 0 <= i < k - 1 && i + 1 < t.len() implies !(#[trigger] t[i] == '.'
            && t[i + 1] == ' ') by {
            assert(t[i] == s[i + 1]);
            assert(t[i + 1] == s[i + 2]);
        }
        if k + 1 < s.len() {
            assert(t[k - 1] == s[k]);
            assert(t[k] == s[k + 1]);
        }
        lemma_find_dot_space(t, k - 1);
    }
}

proof fn lemma_last_space(s: Seq<char>, k: int)
    requires
        0 <= k <= s.len(),
        forall|i: int| k <= i < s.len() ==> #[trigger] s[i] != ' ',
    ensures
        k > 0 && s[k - 1] == ' ' ==> last_space(s) == Some((k - 1) as nat),
        k == 0 ==> last_space(s) is None,
    decreases s.len(),
{
    if s.len() > 0 && s.last() != ' ' && s.len() > k {
        let t = s.drop_last();
        assert forall|i: int| k <= i < t.len() implies #[trigger] t[i] != ' ' by {
            assert(t[i] == s[i]);
        }
        lemma_last_space(t, k);
    }
}

proof fn lemma_last_space_bound(s: Seq<char>)
    ensures
        last_space(s) matches Some(j) ==> j < s.len(),
    decreases s.len(),
{
    if s.len() > 0 && s.last() != ' ' {
        lemma_last_space_bound(s.drop_last());
    }
}

/// First sentence of the comment block above a binding.
///
/// A heuristic, which is why `--desc` is opt-in: config comments are prose,
/// and prose does not promise to put the useful half first. Wrong here costs a
/// worse label, not a wrong binding.
pub fn description(comment: &[String]) -> (r: Option<String>)
    ensures
        match r {
            Some(s) => description_spec(strs(comment@)) == Some(s@),
            None => description_spec(strs(comment@)) is None,
        },
{
    let mut parts: Vec<Vec<char>> = Vec::new();
    let mut i: usize = 0;
    while i < comment.len()
        invariant
            i <= comment.len(),
            parts@.len() == i,
            forall|k: int| 0 <= k < i ==> (#[trigger] parts@[k])@ == comment@[k]@,
        decreases comment.len() - i,
    {
        parts.push(chars_of(comment[i].as_str()));
        i += 1;
    }
    proof {
        assert(seqs(parts@) =~= strs(comment@));
    }
    let joined = join_chars(&parts, &chars_of(" "));
    let text = trim_chars(&joined);
    if text.len() == 0 {
        return None;
    }
    let mut k: usize = 0;
    while k + 1 < text.len() && !(text[k] == '.' && text[k + 1] == ' ')
        invariant
            k + 1 <= text.len(),
            forall|i: int| 0 <= i < k && i + 1 < text@.len() ==> !(#[trigger] text@[i] == '.'
                && text@[i + 1] == ' '),
        decreases text.len() - k,
    {
        k += 1;
    }
    proof {
        lemma_find_dot_space(text@, k as int);
    }
    let first = if k + 1 < text.len() {
        slice_of(&text, 0, k)
    } else if text[text.len() - 1] == '.' {
        slice_of(&text, 0, text.len() - 1)
    } else {
        slice_of(&text, 0, text.len())
    };
    proof {
        assert(text@.take(text@.len() as int) == text@);
    }
    let sentence = trim_chars(&first);
    if sentence.len() == 0 {
        return None;
    }
    if sentence.len() <= DESCRIPTION_MAX {
        return Some(string_of(&sentence));
    }
    let cut = slice_of(&sentence, 0, DESCRIPTION_MAX - 1);
    let mut j = cut.len();
    while j > 0 && cut[j - 1] != ' '
        invariant
            j <= cut.len(),
            forall|i: int| j <= i < cut@.len() ==> #[trigger] cut@[i] != ' ',
        decreases j,
    {
        j -= 1;
    }
    proof {
        lemma_last_space(cut@, j as int);
    }
    let mut head = if j > 0 {
        slice_of(&cut, 0, j - 1)
    } else {
        slice_of(&cut, 0, cut.len())
    };
    proof {
        assert(cut@.take(cut@.len() as int) == cut@);
    }
    head.push('…');
    Some(string_of(&head))
}

/// A description is never longer than [`DESCRIPTION_MAX`] characters.
pub proof fn lemma_description_fits(comment: Seq<Seq<char>>)
    ensures
        description_spec(comment) matches Some(s) ==> s.len() <= 72,
{
    let text = trim(join(comment, " "@));
    if text.len() > 0 {
        let first = match find_dot_space(text) {
            Some(i) => text.take(i as int),
            None => if text.last() == '.' {
                text.drop_last()
            } else {
                text
            },
        };
        let sentence = trim(first);
        if sentence.len() > 72 {
            let cut = sentence.take(71);
            lemma_last_space_bound(cut);
        }
    }
}

// --------------------------------------------------------------- modifier
/// A modifier as the sheet names it.
pub open spec fn pretty_modifier_spec(name: Seq<char>) -> Seq<char> {
    let l = ascii_lower(name);
    if l == "mod4"@ || l == "super"@ {
        "Super"@
    } else if l == "mod1"@ || l == "alt"@ {
        "Alt"@
    } else if l == "control"@ || l == "ctrl"@ {
        "Ctrl"@
    } else {
        l
    }
}

fn pretty_modifier(name: &Vec<char>) -> (r: Vec<char>)
    ensures
        r@ == pretty_modifier_spec(name@),
{
    let l = ascii_lower_chars(name);
    if eq_lit(&l, "mod4") || eq_lit(&l, "super") {
        chars_of("Super")
    } else if eq_lit(&l, "mod1") || eq_lit(&l, "alt") {
        chars_of("Alt")
    } else if eq_lit(&l, "control") || eq_lit(&l, "ctrl") {
        chars_of("Ctrl")
    } else {
        l
    }
}

// ------------------------------------------------------ floating modifier
/// Index of the last top-level `floating_modifier ` directive, from the
/// first `n`.
pub open spec fn last_floating(dirs: Seq<DirectiveView>, n: int) -> Option<nat>
    decreases n,
{
    if n <= 0 || n > dirs.len() {
        None
    } else if dirs[n - 1].blocks.len() == 0 && starts_with(dirs[n - 1].text, "floating_modifier "@) {
        Some((n - 1) as nat)
    } else {
        last_floating(dirs, n - 1)
    }
}

/// A row for one of the two drags `floating_modifier` binds.
pub open spec fn drag_row(d: DirectiveView, modifier: Seq<char>, button: Seq<char>, action: Seq<
    char,
>) -> RowView {
    RowView {
        modifiers: seq![pretty_modifier_spec(modifier)],
        key: button,
        text: action,
        command: "floating_modifier "@ + trim(d.text.skip(18)),
        origin: origin_spec(d),
        shadowed_by: None,
    }
}

/// `floating_modifier <mod> [normal|inverse]` binds the pointer without ever
/// naming a button: the drag and the resize it binds, from the last top-level
/// one, unless its modifier is `none`.
pub open spec fn floating_spec(dirs: Seq<DirectiveView>) -> Seq<RowView> {
    match last_floating(dirs, dirs.len() as int) {
        None => seq![],
        Some(k) => {
            let d = dirs[k as int];
            let t = split_ws(d.text).skip(1);
            if t.len() == 0 || ascii_lower(t[0]) == "none"@ {
                seq![]
            } else {
                let inverse = t.len() > 1 && ascii_lower(t[1]) == "inverse"@;
                let (left, right) = if inverse {
                    ("resize floating window"@, "move floating window"@)
                } else {
                    ("move floating window"@, "resize floating window"@)
                };
                seq![drag_row(d, t[0], "left drag"@, left), drag_row(d, t[0], "right drag"@, right)]
            }
        },
    }
}

proof fn lemma_last_floating(dirs: Seq<DirectiveView>, n: int)
    ensures
        last_floating(dirs, n) matches Some(k) ==> k < n && k < dirs.len() && starts_with(
            dirs[k as int].text,
            "floating_modifier "@,
        ),
    decreases n,
{
    if 0 < n <= dirs.len() {
        lemma_last_floating(dirs, n - 1);
    }
}

/// `floating_modifier` binds two drags with the modifier it names: the left
/// drag moves a floating window and the right drag resizes it, the other way
/// round when the word after the modifier is `inverse` (in any case). With
/// no such line, or with `none`, it binds nothing.
pub proof fn lemma_floating_drags(dirs: Seq<DirectiveView>)
    ensures
        ({
            let rows = floating_spec(dirs);
            match last_floating(dirs, dirs.len() as int) {
                None => rows.len() == 0,
                Some(k) => {
                    let t = split_ws(dirs[k as int].text);
                    if t.len() < 2 || ascii_lower(t[1]) == "none"@ {
                        rows.len() == 0
                    } else {
                        let inverse = t.len() > 2 && ascii_lower(t[2]) == "inverse"@;
                        &&& rows.len() == 2
                        &&& rows[0].key == "left drag"@
                        &&& rows[1].key == "right drag"@
                        &&& rows[0].modifiers == seq![pretty_modifier_spec(t[1])]
                        &&& rows[1].modifiers == seq![pretty_modifier_spec(t[1])]
                        &&& rows[0].text == (if inverse {
                            "resize floating window"@
                        } else {
                            "move floating window"@
                        })
                        &&& rows[1].text == (if inverse {
                            "move floating window"@
                        } else {
                            "resize floating window"@
                        })
                    }
                },
            }
        }),
{
    lemma_last_floating(dirs, dirs.len() as int);
    if let Some(k) = last_floating(dirs, dirs.len() as int) {
        let text = dirs[k as int].text;
        let t = split_ws(text);
        reveal_strlit("floating_modifier ");
        assert(text.take(18)[0] == 'f');
        assert(text[0] == 'f');
        crate::text::lemma_word_len_prop(text);
        assert(t.len() > 0);
        assert(t.skip(1).len() == t.len() - 1);
        if t.len() >= 2 {
            assert(t.skip(1)[0] == t[1]);
            if t.len() > 2 {
                assert(t.skip(1)[1] == t[2]);
            }
        }
    }
}

fn drag_row_of(d: &Directive, modifier: &Vec<char>, button: &str, action: &str) -> (r: Row)
    requires
        starts_with(d.text@, "floating_modifier "@),
    ensures
        r@ == drag_row(d@, modifier@, button@, action@),
{
    proof {
        reveal_strlit("floating_modifier ");
        assert("floating_modifier "@.len() == 18);
    }
    let mut mods: Vec<String> = Vec::new();
    mods.push(string_of(&pretty_modifier(modifier)));
    let text = chars_of(d.text.as_str());
    let rest = slice_of(&text, 18, text.len());
    let mut cmd = chars_of("floating_modifier ");
    extend_chars(&mut cmd, &trim_chars(&rest));
    let r = Row {
        modifiers: mods,
        key: string_of(&chars_of(button)),
        text: string_of(&chars_of(action)),
        command: string_of(&cmd),
        origin: d.origin(),
        shadowed_by: None,
    };
    proof {
        assert(rest@ == d.text@.skip(18));
        assert(strs(r.modifiers@) =~= seq![pretty_modifier_spec(modifier@)]);
    }
    r
}

fn floating_modifier_rows(directives: &[Directive]) -> (r: Vec<Row>)
    ensures
        rows_view(r@) == floating_spec(directives_view(directives@)),
{
    let ghost dv = directives_view(directives@);
    let mut n = directives.len();
    let mut found = false;
    while n > 0 && !found
        invariant
            n <= directives.len(),
            dv == directives_view(directives@),
            !found ==> last_floating(dv, dv.len() as int) == last_floating(dv, n as int),
            found ==> n > 0 && last_floating(dv, dv.len() as int) == Some((n - 1) as nat)
                && starts_with(dv[n - 1].text, "floating_modifier "@),
        decreases n, if found { 0int } else { 1int },
    {
        let d = &directives[n - 1];
        proof {
            assert(dv[n - 1] == d@);
        }
        if d.blocks.len() == 0 && starts_with_lit(&chars_of(d.text.as_str()), "floating_modifier ") {
            found = true;
        } else {
            n -= 1;
        }
    }
    let mut rows: Vec<Row> = Vec::new();
    if !found {
        proof {
            assert(rows_view(rows@) =~= Seq::<RowView>::empty());
        }
        return rows;
    }
    let d = &directives[n - 1];
    proof {
        assert(dv[n - 1] == d@);
    }
    let all = split_whitespace(&chars_of(d.text.as_str()));
    let ghost t = seqs(all@).skip(1);
    proof {
        assert(seqs(all@) == split_ws(d@.text));
        reveal_strlit("floating_modifier ");
        assert(d@.text.take(18)[0] == 'f');
        assert(d@.text[0] == 'f');
        crate::text::lemma_word_len_prop(d@.text);
        assert(split_ws(d@.text).len() > 0);
    }
    if all.len() < 2 {
        proof {
            assert(t.len() == 0);
            assert(rows_view(rows@) =~= Seq::<RowView>::empty());
        }
        return rows;
    }
    let modifier = &all[1];
    proof {
        assert(t[0] == modifier@);
    }
    if eq_lit(&ascii_lower_chars(modifier), "none") {
        proof {
            assert(rows_view(rows@) =~= Seq::<RowView>::empty());
        }
        return rows;
    }
    let inverse = all.len() > 2 && eq_lit(&ascii_lower_chars(&all[2]), "inverse");
    proof {
        if all.len() > 2 {
            assert(t[1] == all@[2]@);
        }
    }
    let (left, right) = if inverse {
        ("resize floating window", "move floating window")
    } else {
        ("move floating window", "resize floating window")
    };
    rows.push(drag_row_of(d, modifier, "left drag", left));
    rows.push(drag_row_of(d, modifier, "right drag", right));
    proof {
        assert(rows_view(rows@) =~= floating_spec(dv));
    }
    rows
}

// --------------------------------------------------------------- built-in
/// The one binding compiled into sway: Ctrl+Alt+F1..F12 switch virtual
/// terminal, but only *after* config bindings and only when none matched — a
/// fallback, not a reservation.
pub open spec fn builtin_spec() -> Seq<RowView> {
    seq![
        RowView {
            modifiers: seq!["Ctrl"@, "Alt"@],
            key: "F1…F12"@,
            text: "switch to virtual terminal 1–12"@,
            command: "compositor fallback; a config binding on the same chord wins"@,
            origin: "built into sway"@,
            shadowed_by: None,
        },
    ]
}

fn builtin_rows() -> (r: Vec<Row>)
    ensures
        rows_view(r@) == builtin_spec(),
{
    let mut mods: Vec<String> = Vec::new();
    mods.push(string_of(&chars_of("Ctrl")));
    mods.push(string_of(&chars_of("Alt")));
    let mut r: Vec<Row> = Vec::new();
    let row = Row {
        modifiers: mods,
        key: string_of(&chars_of("F1…F12")),
        text: string_of(&chars_of("switch to virtual terminal 1–12")),
        command: string_of(&chars_of("compositor fallback; a config binding on the same chord wins")),
        origin: string_of(&chars_of("built into sway")),
        shadowed_by: None,
    };
    proof {
        assert(strs(row.modifiers@) =~= seq!["Ctrl"@, "Alt"@]);
    }
    r.push(row);
    proof {
        assert(rows_view(r@) =~= builtin_spec());
    }
    r
}

// --------------------------------------------------------------- sections
/// `s.splitn(n + 1, '+').last()`: what follows the first `n` `+`s, or the
/// last piece when there are fewer.
pub open spec fn after_plus(s: Seq<char>, n: nat) -> Seq<char>
    decreases n,
{
    if n == 0 {
        s
    } else {
        match crate::text::index_of(s, '+') {
            Some(k) => if k < s.len() {
                after_plus(s.skip(k + 1 as int), (n - 1) as nat)
            } else {
                s
            },
            None => s,
        }
    }
}

/// The row a binding is shown as.
pub open spec fn row_spec(b: BindingView, all: Seq<BindingView>, opts: Opts) -> RowView {
    RowView {
        modifiers: b.modifiers,
        key: after_plus(b.chord, b.modifiers.len()),
        text: if opts.desc {
            match description_spec(b.comment) {
                Some(d) => d,
                None => b.command,
            }
        } else {
            b.command
        },
        command: b.command,
        origin: b.origin,
        shadowed_by: match b.shadowed_by {
            Some(i) => Some(all[i as int].origin),
            None => None,
        },
    }
}

fn after_plus_chars(s: &Vec<char>, n: usize) -> (r: Vec<char>)
    ensures
        r@ == after_plus(s@, n as nat),
{
    let mut cur = slice_of(s, 0, s.len());
    let mut left = n;
    proof {
        assert(s@.take(s@.len() as int) == s@);
    }
    while left > 0
        invariant
            left <= n,
            after_plus(cur@, left as nat) == after_plus(s@, n as nat),
        decreases left,
    {
        let mut k: usize = 0;
        while k < cur.len() && cur[k] != '+'
            invariant
                k <= cur.len(),
                forall|i: int| 0 <= i < k ==> #[trigger] cur@[i] != '+',
            decreases cur.len() - k,
        {
            k += 1;
        }
        proof {
            crate::text::lemma_index_of(cur@, '+', k as int);
        }
        if k == cur.len() {
            return cur;
        }
        let next = slice_of(&cur, k + 1, cur.len());
        proof {
            assert(next@ == cur@.skip(k + 1));
        }
        cur = next;
        left -= 1;
    }
    cur
}

fn row_of(b: &Binding, all: &Bindings, opts: Opts) -> (r: Row)
    requires
        b.shadowed_by matches Some(i) ==> i < all.list.len(),
    ensures
        r@ == row_spec(b@, bindings_view(all.list@), opts),
{
    let text = if opts.desc {
        match description(b.comment.as_slice()) {
            Some(d) => d,
            None => copy_string(&b.command),
        }
    } else {
        copy_string(&b.command)
    };
    let key = after_plus_chars(&chars_of(b.chord.as_str()), b.modifiers.len());
    let shadowed_by = match b.shadowed_by {
        Some(i) => {
            proof {
                assert(bindings_view(all.list@)[i as int] == all.list@[i as int]@);
            }
            Some(copy_string(&all.list[i].origin))
        },
        None => None,
    };
    Row {
        modifiers: copy_strings(&b.modifiers),
        key: string_of(&key),
        text,
        command: copy_string(&b.command),
        origin: copy_string(&b.origin),
        shadowed_by,
    }
}

proof fn lemma_after_plus_join(m: Seq<Seq<char>>, keys: Seq<Seq<char>>)
    requires
        keys.len() > 0,
        forall|i: int| 0 <= i < m.len() ==> !(#[trigger] m[i]).contains('+'),
    ensures
        after_plus(join(m + keys, "+"@), m.len()) == join(keys, "+"@),
    decreases m.len(),
{
    if m.len() == 0 {
        assert(m + keys =~= keys);
    } else {
        let a = m[0];
        let rest = m.drop_first();
        assert forall|i: int| 0 <= i < rest.len() implies !(#[trigger] rest[i]).contains('+') by {
            assert(rest[i] == m[i + 1]);
        }
        lemma_after_plus_join(rest, keys);
        assert(m + keys =~= seq![a] + (rest + keys));
        crate::text::lemma_join_append(seq![a], rest + keys, "+"@);
        assert(join(seq![a], "+"@) == a);
        let t = join(rest + keys, "+"@);
        let s = a + "+"@ + t;
        assert(!a.contains('+'));
        assert("+"@ =~= seq!['+']) by {
            reveal_strlit("+");
        }
        assert forall|i: int| 0 <= i < a.len() implies #[trigger] s[i] != '+' by {
            assert(s[i] == a[i]);
            if a[i] == '+' {
                assert(a.contains('+'));
            }
        }
        assert(s[a.len() as int] == '+');
        crate::text::lemma_index_of(s, '+', a.len() as int);
        assert(s.skip(a.len() + 1 as int) =~= t);
    }
}

/// The row of a binding says what the binding says: its text is the
/// description when one is asked for and the comment gives one, else the
/// command; command, modifiers and origin are the binding's; a binding that
/// never fires names where the winner is defined. And where the chord is
/// the modifier names and the keys joined by `+`, with no `+` inside a
/// name (as for every parsed binding), the row's key is the keys so joined
/// and the row's chord is the binding's chord.
pub proof fn lemma_row_of(b: BindingView, all: Seq<BindingView>, opts: Opts, keys: Seq<Seq<char>>)
    requires
        keys.len() > 0,
        b.chord == join(b.modifiers + keys, "+"@),
        forall|i: int| 0 <= i < b.modifiers.len() ==> !(#[trigger] b.modifiers[i]).contains('+'),
    ensures
        ({
            let r = row_spec(b, all, opts);
            &&& r.text == (if opts.desc && description_spec(b.comment) is Some {
                description_spec(b.comment)->0
            } else {
                b.command
            })
            &&& r.command == b.command
            &&& r.modifiers == b.modifiers
            &&& r.origin == b.origin
            &&& r.shadowed_by == (match b.shadowed_by {
                Some(i) => Some(all[i as int].origin),
                None => None,
            })
            &&& r.key == join(keys, "+"@)
            &&& chord_spec(r) == b.chord
        }),
{
    lemma_after_plus_join(b.modifiers, keys);
    let r = row_spec(b, all, opts);
    if b.modifiers.len() == 0 {
        assert(b.modifiers.push(r.key) =~= seq![r.key]);
        assert(b.modifiers + keys =~= keys);
    } else {
        assert(b.modifiers.push(r.key) =~= b.modifiers + seq![r.key]);
        crate::text::lemma_join_append(b.modifiers, seq![r.key], "+"@);
        crate::text::lemma_join_append(b.modifiers, keys, "+"@);
    }
}

/// A parsed key binding reads back as itself: its row's chord is the chord
/// the binding was parsed with.
pub proof fn lemma_parsed_row_chord(
    d: DirectiveView,
    res: crate::model::ResolverView,
    all: Seq<BindingView>,
    opts: Opts,
)
    requires
        crate::model::parse_spec(d, res) is Some,
        crate::model::verb_spec(split_ws(d.text)[0]) matches Some((v, _)) && (v == crate::model::Verb::Sym
            || v == crate::model::Verb::Code),
    ensures
        crate::model::parse_spec(d, res) matches Some((b, _)) ==> chord_spec(row_spec(b, all, opts)) == b.chord,
{
    crate::model::lemma_parse_shape(d, res);
    let (b, u) = crate::model::parse_spec(d, res)->0;
    crate::model::lemma_names_plain(b.mods);
    lemma_row_of(b, all, opts, crate::model::shown_keys(b.keys, res));
}

/// Rows gathered per kind of section, modes in order of first appearance.
pub struct GroupState {
    pub standard: Seq<RowView>,
    pub modes: Seq<(Seq<char>, Seq<RowView>)>,
    pub mouse: Seq<RowView>,
    pub touchpad: Seq<RowView>,
    pub switches: Seq<RowView>,
}

/// Index of the mode named `name`.
pub open spec fn find_mode(modes: Seq<(Seq<char>, Seq<RowView>)>, name: Seq<char>) -> Option<nat>
    decreases modes.len(),
{
    if modes.len() == 0 {
        None
    } else if modes[0].0 == name {
        Some(0)
    } else {
        match find_mode(modes.drop_first(), name) {
            Some(i) => Some(i + 1),
            None => None,
        }
    }
}

/// One binding filed into its section. Bindings that never fire are left
/// out unless all are asked for.
pub open spec fn group_step(st: GroupState, b: BindingView, all: Seq<BindingView>, opts: Opts) -> GroupState {
    if b.shadowed_by is Some && !opts.all {
        st
    } else {
        let row = row_spec(b, all, opts);
        if b.bucket == Bucket::Gesture {
            GroupState { touchpad: st.touchpad.push(row), ..st }
        } else if b.bucket == Bucket::Switch {
            GroupState { switches: st.switches.push(row), ..st }
        } else if b.bucket == Bucket::Mouse {
            GroupState { mouse: st.mouse.push(row), ..st }
        } else if b.kind == Kind::Chord && b.mode != "default"@ {
            match find_mode(st.modes, b.mode) {
                Some(i) => if i < st.modes.len() {
                    GroupState {
                        modes: st.modes.update(
                            i as int,
                            (st.modes[i as int].0, st.modes[i as int].1.push(row)),
                        ),
                        ..st
                    }
                } else {
                    st
                },
                None => GroupState { modes: st.modes.push((b.mode, seq![row])), ..st },
            }
        } else {
            GroupState { standard: st.standard.push(row), ..st }
        }
    }
}

pub open spec fn group_upto(bs: Seq<BindingView>, n: int, opts: Opts) -> GroupState
    decreases n,
{
    if n <= 0 || n > bs.len() {
        GroupState { standard: seq![], modes: seq![], mouse: seq![], touchpad: seq![], switches: seq![] }
    } else {
        group_step(group_upto(bs, n - 1, opts), bs[n - 1], bs, opts)
    }
}

/// The sections that hold at least one row.
pub open spec fn non_empty(secs: Seq<SectionView>) -> Seq<SectionView>
    decreases secs.len(),
{
    if secs.len() == 0 {
        seq![]
    } else if secs.last().rows.len() > 0 {
        non_empty(secs.drop_last()).push(secs.last())
    } else {
        non_empty(secs.drop_last())
    }
}

/// `Standard`, then one per binding mode (named and ordered as in the
/// config), then `Mouse` (with the `floating_modifier` drags), `Touchpad`,
/// `Switches`, `Built-in`; empty ones left out.
pub open spec fn sections_spec(bs: Seq<BindingView>, dirs: Seq<DirectiveView>, opts: Opts) -> Seq<
    SectionView,
> {
    let st = group_upto(bs, bs.len() as int, opts);
    non_empty(
        seq![SectionView { title: "Standard"@, rows: st.standard }] + mode_sections(st.modes) + seq![
            SectionView { title: "Mouse"@, rows: st.mouse + floating_spec(dirs) },
            SectionView { title: "Touchpad"@, rows: st.touchpad },
            SectionView { title: "Switches"@, rows: st.switches },
            SectionView { title: "Built-in"@, rows: builtin_spec() },
        ],
    )
}

/// One section per binding mode.
pub open spec fn mode_sections(m: Seq<(Seq<char>, Seq<RowView>)>) -> Seq<SectionView> {
    Seq::new(m.len(), |i: int| SectionView { title: m[i].0, rows: m[i].1 })
}

fn push_section(v: &mut Vec<Section>, title: String, rows: Vec<Row>)
    ensures
        sections_view(final(v)@) == sections_view(old(v)@).push(
            SectionView { title: title@, rows: rows_view(rows@) },
        ),
{
    let ghost sv = SectionView { title: title@, rows: rows_view(rows@) };
    v.push(Section { title, rows });
    proof {
        assert(sections_view(v@) =~= sections_view(old(v)@).push(sv));
    }
}

/// Every `shadowed_by` names a binding of the list.
pub open spec fn shadow_refs_ok(bs: Seq<BindingView>) -> bool {
    forall|i: int|
        0 <= i < bs.len() ==> ((#[trigger] bs[i]).shadowed_by matches Some(j) ==> j < bs.len())
}

/// Whether every "shadowed by" of the list points into it, which `sections`
/// needs when it shows shadowed rows.
pub fn shadow_refs_valid(bindings: &Bindings) -> (r: bool)
    ensures
        r == shadow_refs_ok(bindings_view(bindings.list@)),
{
    let ghost bs = bindings_view(bindings.list@);
    let mut i: usize = 0;
    while i < bindings.list.len()
        invariant
            i <= bindings.list.len(),
            bs == bindings_view(bindings.list@),
            forall|k: int| 0 <= k < i ==> ((#[trigger] bs[k]).shadowed_by matches Some(j) ==> j < bs.len()),
        decreases bindings.list.len() - i,
    {
        proof {
            assert(bs[i as int] == bindings.list@[i as int]@);
        }
        match bindings.list[i].shadowed_by {
            Some(j) => {
                if j >= bindings.list.len() {
                    return false;
                }
            },
            None => {},
        }
        i += 1;
    }
    true
}

fn push_row(v: &mut Vec<Row>, r: Row)
    ensures
        rows_view(final(v)@) == rows_view(old(v)@).push(r@),
{
    let ghost rv = r@;
    v.push(r);
    proof {
        assert(rows_view(v@) =~= rows_view(old(v)@).push(rv));
    }
}

pub open spec fn modes_view(m: Seq<(Vec<char>, Vec<Row>)>) -> Seq<(Seq<char>, Seq<RowView>)> {
    m.map_values(|p: (Vec<char>, Vec<Row>)| (p.0@, rows_view(p.1@)))
}

/// Fixed section order. Modes keep the name they have in the config and appear
/// in the order they were first defined.
pub fn sections(bindings: &Bindings, directives: &[Directive], opts: Opts) -> (r: Vec<Section>)
    requires
        opts.all ==> shadow_refs_ok(bindings_view(bindings.list@)),
    ensures
        sections_view(r@) == sections_spec(
            bindings_view(bindings.list@),
            directives_view(directives@),
            opts,
        ),
{
    let ghost bs = bindings_view(bindings.list@);
    let mut standard: Vec<Row> = Vec::new();
    let mut modes: Vec<(Vec<char>, Vec<Row>)> = Vec::new();
    let mut mouse: Vec<Row> = Vec::new();
    let mut touchpad: Vec<Row> = Vec::new();
    let mut switches: Vec<Row> = Vec::new();
    let mut n: usize = 0;
    proof {
        assert(rows_view(standard@) =~= Seq::<RowView>::empty());
        assert(rows_view(mouse@) =~= Seq::<RowView>::empty());
        assert(rows_view(touchpad@) =~= Seq::<RowView>::empty());
        assert(rows_view(switches@) =~= Seq::<RowView>::empty());
        assert(modes_view(modes@) =~= Seq::<(Seq<char>, Seq<RowView>)>::empty());
    }
    while n < bindings.list.len()
        invariant
            n <= bindings.list.len(),
            bs == bindings_view(bindings.list@),
            opts.all ==> shadow_refs_ok(bs),
            group_upto(bs, n as int, opts) == (GroupState {
                standard: rows_view(standard@),
                modes: modes_view(modes@),
                mouse: rows_view(mouse@),
                touchpad: rows_view(touchpad@),
                switches: rows_view(switches@),
            }),
        decreases bindings.list.len() - n,
    {
        let b = &bindings.list[n];
        proof {
            assert(bs[n as int] == b@);
        }
        n += 1;
        if b.shadowed_by.is_some() && !opts.all {
            continue;
        }
        proof {
            if b.shadowed_by is Some {
                assert(shadow_refs_ok(bs));
                assert(bs[n - 1].shadowed_by == b.shadowed_by);
            }
        }
        let row = row_of(b, bindings, opts);
        if b.bucket == Bucket::Gesture {
            push_row(&mut touchpad, row);
        } else if b.bucket == Bucket::Switch {
            push_row(&mut switches, row);
        } else if b.bucket == Bucket::Mouse {
            push_row(&mut mouse, row);
        } else if b.kind == Kind::Chord && !eq_lit(&chars_of(b.mode.as_str()), "default") {
            let name = chars_of(b.mode.as_str());
            let mut i: usize = 0;
            let ghost mv = modes_view(modes@);
            proof {
                assert(mv.skip(0) == mv);
            }
            while i < modes.len() && !eq_chars(&modes[i].0, &name)
                invariant
                    i <= modes.len(),
                    mv == modes_view(modes@),
                    forall|k: int| 0 <= k < i ==> (#[trigger] mv[k]).0 != name@,
                decreases modes.len() - i,
            {
                proof {
                    assert(mv[i as int].0 == modes@[i as int].0@);
                }
                i += 1;
            }
            proof {
                if i < modes.len() {
                    assert(mv[i as int].0 == modes@[i as int].0@);
                }
                lemma_find_mode(mv, name@, i as int);
            }
            let ghost rv = row@;
            if i < modes.len() {
                let (nm, mut rows) = modes.remove(i);
                push_row(&mut rows, row);
                modes.insert(i, (nm, rows));
                proof {
                    assert(modes_view(modes@) =~= mv.update(i as int, (mv[i as int].0, mv[i as int].1.push(rv))));
                }
            } else {
                let mut rows: Vec<Row> = Vec::new();
                push_row(&mut rows, row);
                proof {
                    assert(rows_view(rows@) =~= seq![rv]);
                }
                modes.push((name, rows));
                proof {
                    assert(modes_view(modes@) =~= mv.push((b.mode@, seq![rv])));
                }
            }
        } else {
            push_row(&mut standard, row);
        }
    }

    let floating = floating_modifier_rows(directives);
    let ghost m0 = rows_view(mouse@);
    proof {
        assert(floating_spec(directives_view(directives@)) == rows_view(floating@));
    }
    let mut fl = floating;
    while fl.len() > 0
        invariant
            rows_view(mouse@) + rows_view(fl@) == m0 + floating_spec(directives_view(directives@)),
        decreases fl.len(),
    {
        let r = fl.remove(0);
        let ghost rv = r@;
        let ghost rest = rows_view(fl@);
        push_row(&mut mouse, r);
        proof {
            assert(rows_view(mouse@) + rest =~= (rows_view(mouse@).drop_last()) + seq![rv] + rest);
        }
    }
    proof {
        assert(rows_view(fl@) =~= Seq::<RowView>::empty());
        assert(rows_view(mouse@) + Seq::<RowView>::empty() == rows_view(mouse@));
    }

    let ghost st = group_upto(bs, bs.len() as int, opts);
    let ghost m0 = modes_view(modes@);
    let ghost fixed = seq![
        SectionView { title: "Mouse"@, rows: st.mouse + floating_spec(directives_view(directives@)) },
        SectionView { title: "Touchpad"@, rows: st.touchpad },
        SectionView { title: "Switches"@, rows: st.switches },
        SectionView { title: "Built-in"@, rows: builtin_spec() },
    ];
    let ghost whole = seq![SectionView { title: "Standard"@, rows: st.standard }] + mode_sections(m0)
        + fixed;
    let mut all: Vec<Section> = Vec::new();
    push_section(&mut all, string_of(&chars_of("Standard")), standard);
    proof {
        assert(sections_view(all@) =~= seq![SectionView { title: "Standard"@, rows: st.standard }]);
        assert(m0.skip(0) == m0);
    }
    let mut c: usize = 0;
    let total_modes = modes.len();
    while modes.len() > 0
        invariant
            m0.len() == total_modes,
            modes_view(modes@) == m0.skip(c as int),
            c <= m0.len(),
            sections_view(all@) == seq![SectionView { title: "Standard"@, rows: st.standard }]
                + mode_sections(m0.take(c as int)),
        decreases modes.len(),
    {
        proof {
            assert(modes_view(modes@).len() == modes@.len());
            assert(c < m0.len());
        }
        let (nm, rows) = modes.remove(0);
        proof {
            assert(m0.skip(c as int)[0] == m0[c as int]);
            assert(m0.skip(c as int).drop_first() == m0.skip(c + 1));
        }
        let ghost before = sections_view(all@);
        push_section(&mut all, string_of(&nm), rows);
        proof {
            assert(mode_sections(m0.take(c + 1)) =~= mode_sections(m0.take(c as int)).push(
                SectionView { title: m0[c as int].0, rows: m0[c as int].1 },
            ));
        }
        c += 1;
    }
    proof {
        assert(c == m0.len());
        assert(m0.take(c as int) == m0);
    }
    push_section(&mut all, string_of(&chars_of("Mouse")), mouse);
    push_section(&mut all, string_of(&chars_of("Touchpad")), touchpad);
    push_section(&mut all, string_of(&chars_of("Switches")), switches);
    push_section(&mut all, string_of(&chars_of("Built-in")), builtin_rows());
    proof {
        assert(sections_view(all@) =~= whole);
    }
    let mut out: Vec<Section> = Vec::new();
    let mut d: usize = 0;
    let total_secs = all.len();
    proof {
        assert(whole.skip(0) == whole);
        assert(whole.take(0) =~= Seq::<SectionView>::empty());
        assert(sections_view(out@) =~= Seq::<SectionView>::empty());
    }
    while all.len() > 0
        invariant
            whole.len() == total_secs,
            d <= whole.len(),
            sections_view(all@) == whole.skip(d as int),
            sections_view(out@) == non_empty(whole.take(d as int)),
        decreases all.len(),
    {
        proof {
            assert(sections_view(all@).len() == all@.len());
            assert(d < whole.len());
        }
        let sec = all.remove(0);
        proof {
            assert(whole.skip(d as int)[0] == whole[d as int]);
            assert(whole.skip(d as int).drop_first() == whole.skip(d + 1));
            assert(whole.take(d + 1).drop_last() == whole.take(d as int));
            assert(whole.take(d + 1).last() == whole[d as int]);
        }
        if sec.rows.len() > 0 {
            let ghost sv = sec@;
            let ghost before_out = sections_view(out@);
            out.push(sec);
            proof {
                assert(sections_view(out@) =~= before_out.push(sv));
            }
        }
        d += 1;
    }
    proof {
        assert(whole.take(d as int) == whole);
    }
    out
}

proof fn lemma_find_mode(modes: Seq<(Seq<char>, Seq<RowView>)>, name: Seq<char>, k: int)
    requires
        0 <= k <= modes.len(),
        forall|j: int| 0 <= j < k ==> (#[trigger] modes[j]).0 != name,
        k < modes.len() ==> modes[k].0 == name,
    ensures
        k < modes.len() ==> find_mode(modes, name) == Some(k as nat),
        k == modes.len() ==> find_mode(modes, name) is None,
    decreases k,
{
    if k > 0 {
        let t = modes.drop_first();
        assert forall|j: int| 0 <= j < k - 1 implies (#[trigger] t[j]).0 != name by {
            assert(t[j] == modes[j + 1]);
        }
        if k < modes.len() {
            assert(t[k - 1] == modes[k]);
        }
        lemma_find_mode(t, name, k - 1);
    }
}


// ------------------------------------------------------------------- laws
/// Every row of the sections is live: none names a winner.
pub open spec fn all_live(secs: Seq<SectionView>) -> bool {
    forall|i: int, k: int|
        0 <= i < secs.len() && 0 <= k < secs[i].rows.len() ==> (#[trigger] secs[i].rows[k]).shadowed_by
            is None
}

pub open spec fn live_rows(rs: Seq<RowView>) -> bool {
    forall|k: int| 0 <= k < rs.len() ==> (#[trigger] rs[k]).shadowed_by is None
}

pub open spec fn live_state(st: GroupState) -> bool {
    &&& live_rows(st.standard)
    &&& live_rows(st.mouse)
    &&& live_rows(st.touchpad)
    &&& live_rows(st.switches)
    &&& forall|m: int| 0 <= m < st.modes.len() ==> live_rows(#[trigger] st.modes[m].1)
}

proof fn lemma_non_empty(secs: Seq<SectionView>)
    ensures
        forall|i: int| 0 <= i < non_empty(secs).len() ==> (#[trigger] non_empty(secs)[i]).rows.len() > 0,
        forall|i: int| 0 <= i < non_empty(secs).len() ==> secs.contains(#[trigger] non_empty(secs)[i]),
    decreases secs.len(),
{
    if secs.len() > 0 {
        let prev = non_empty(secs.drop_last());
        lemma_non_empty(secs.drop_last());
        assert forall|i: int| 0 <= i < non_empty(secs).len() implies secs.contains(
            #[trigger] non_empty(secs)[i],
        ) by {
            if i < prev.len() {
                assert(non_empty(secs)[i] == prev[i]);
                assert(secs.drop_last().contains(prev[i]));
                let w = choose|w: int| 0 <= w < secs.drop_last().len() && secs.drop_last()[w] == prev[i];
                assert(secs[w] == prev[i]);
            } else {
                assert(non_empty(secs)[i] == secs.last());
                assert(secs[secs.len() - 1] == secs.last());
            }
        }
        assert forall|i: int| 0 <= i < non_empty(secs).len() implies (#[trigger] non_empty(
            secs,
        )[i]).rows.len() > 0 by {
            if i < prev.len() {
                assert(non_empty(secs)[i] == prev[i]);
            }
        }
    }
}

/// No section on the sheet is empty: a section with nothing to show is left
/// out.
pub proof fn lemma_no_empty_section(bs: Seq<BindingView>, dirs: Seq<DirectiveView>, opts: Opts)
    ensures
        forall|i: int|
            0 <= i < sections_spec(bs, dirs, opts).len() ==> (#[trigger] sections_spec(
                bs,
                dirs,
                opts,
            )[i]).rows.len() > 0,
{
    let st = group_upto(bs, bs.len() as int, opts);
    lemma_non_empty(
        seq![SectionView { title: "Standard"@, rows: st.standard }] + mode_sections(st.modes) + seq![
            SectionView { title: "Mouse"@, rows: st.mouse + floating_spec(dirs) },
            SectionView { title: "Touchpad"@, rows: st.touchpad },
            SectionView { title: "Switches"@, rows: st.switches },
            SectionView { title: "Built-in"@, rows: builtin_spec() },
        ],
    );
}

proof fn lemma_group_live(bs: Seq<BindingView>, n: int, opts: Opts)
    requires
        !opts.all,
    ensures
        live_state(group_upto(bs, n, opts)),
    decreases n,
{
    if 0 < n <= bs.len() {
        lemma_group_live(bs, n - 1, opts);
        let st = group_upto(bs, n - 1, opts);
        let b = bs[n - 1];
        let st2 = group_step(st, b, bs, opts);
        if !(b.shadowed_by is Some) {
            let row = row_spec(b, bs, opts);
            assert(row.shadowed_by is None);
            assert(live_rows(st.standard.push(row)));
            assert(live_rows(st.mouse.push(row)));
            assert(live_rows(st.touchpad.push(row)));
            assert(live_rows(st.switches.push(row)));
            if b.kind == Kind::Chord && b.mode != "default"@ && b.bucket != Bucket::Gesture
                && b.bucket != Bucket::Switch && b.bucket != Bucket::Mouse {
                match find_mode(st.modes, b.mode) {
                    Some(i) => {
                        if i < st.modes.len() {
                            assert(live_rows(st.modes[i as int].1.push(row)));
                            assert forall|m: int| 0 <= m < st2.modes.len() implies live_rows(
                                #[trigger] st2.modes[m].1,
                            ) by {
                                if m != i {
                                    assert(st2.modes[m] == st.modes[m]);
                                }
                            }
                        }
                    },
                    None => {
                        assert(live_rows(seq![row]));
                        assert forall|m: int| 0 <= m < st2.modes.len() implies live_rows(
                            #[trigger] st2.modes[m].1,
                        ) by {
                            if m < st.modes.len() {
                                assert(st2.modes[m] == st.modes[m]);
                            }
                        }
                    },
                }
            }
        }
    }
}

/// Unless all are asked for, a binding that never fires stays off the
/// sheet: no row shown names a winner.
pub proof fn lemma_shadowed_rows_hidden(bs: Seq<BindingView>, dirs: Seq<DirectiveView>, opts: Opts)
    requires
        !opts.all,
    ensures
        all_live(sections_spec(bs, dirs, opts)),
{
    let st = group_upto(bs, bs.len() as int, opts);
    lemma_group_live(bs, bs.len() as int, opts);
    let whole = seq![SectionView { title: "Standard"@, rows: st.standard }] + mode_sections(st.modes)
        + seq![
        SectionView { title: "Mouse"@, rows: st.mouse + floating_spec(dirs) },
        SectionView { title: "Touchpad"@, rows: st.touchpad },
        SectionView { title: "Switches"@, rows: st.switches },
        SectionView { title: "Built-in"@, rows: builtin_spec() },
    ];
    assert(live_rows(st.mouse + floating_spec(dirs))) by {
        let f = floating_spec(dirs);
        assert forall|k: int| 0 <= k < f.len() implies (#[trigger] f[k]).shadowed_by is None by {}
        assert forall|k: int| 0 <= k < (st.mouse + f).len() implies (#[trigger] (st.mouse + f)[k]).shadowed_by
            is None by {
            if k < st.mouse.len() {
                assert((st.mouse + f)[k] == st.mouse[k]);
            } else {
                assert((st.mouse + f)[k] == f[k - st.mouse.len()]);
            }
        }
    }
    assert forall|j: int| 0 <= j < whole.len() implies live_rows(#[trigger] whole[j].rows) by {
        let nm = st.modes.len() as int;
        if 1 <= j < 1 + nm {
            assert(whole[j] == mode_sections(st.modes)[j - 1]);
            assert(live_rows(st.modes[j - 1].1));
        }
    }
    lemma_non_empty(whole);
    let ne = non_empty(whole);
    assert forall|i: int, k: int|
        0 <= i < ne.len() && 0 <= k < ne[i].rows.len() implies (#[trigger] ne[i].rows[k]).shadowed_by
        is None by {
        assert(whole.contains(ne[i]));
        let w = choose|w: int| 0 <= w < whole.len() && whole[w] == ne[i];
        assert(live_rows(whole[w].rows));
    }
}

/// The sheet always ends with the built-in section: one row, the virtual
/// terminal switch.
pub proof fn lemma_built_in_last(bs: Seq<BindingView>, dirs: Seq<DirectiveView>, opts: Opts)
    ensures
        sections_spec(bs, dirs, opts).len() > 0,
        sections_spec(bs, dirs, opts).last() == (SectionView { title: "Built-in"@, rows: builtin_spec() }),
        builtin_spec().len() == 1,
{
    let st = group_upto(bs, bs.len() as int, opts);
    let whole = seq![SectionView { title: "Standard"@, rows: st.standard }] + mode_sections(st.modes)
        + seq![
        SectionView { title: "Mouse"@, rows: st.mouse + floating_spec(dirs) },
        SectionView { title: "Touchpad"@, rows: st.touchpad },
        SectionView { title: "Switches"@, rows: st.switches },
        SectionView { title: "Built-in"@, rows: builtin_spec() },
    ];
    assert(whole.last() == SectionView { title: "Built-in"@, rows: builtin_spec() });
    assert(whole.last().rows.len() > 0);
    assert(non_empty(whole) == non_empty(whole.drop_last()).push(whole.last()));
}
/// The section a binding's row belongs in.
pub enum Place {
    Standard,
    Mode(Seq<char>),
    Mouse,
    Touchpad,
    Switches,
}

/// Gestures under Touchpad, switches under Switches, the mouse list under
/// Mouse; a key binding of a named mode under that mode, any other under
/// Standard.
pub open spec fn place_of(b: BindingView) -> Place {
    if b.bucket == Bucket::Gesture {
        Place::Touchpad
    } else if b.bucket == Bucket::Switch {
        Place::Switches
    } else if b.bucket == Bucket::Mouse {
        Place::Mouse
    } else if b.kind == Kind::Chord && b.mode != "default"@ {
        Place::Mode(b.mode)
    } else {
        Place::Standard
    }
}

/// Whether a binding gets a row at all: every binding when all are asked
/// for, else only those that fire.
pub open spec fn shown(b: BindingView, opts: Opts) -> bool {
    opts.all || b.shadowed_by is None
}

/// The rows of the first `n` bindings that are shown and belong in `p`, in
/// the order of the list.
pub open spec fn rows_in(bs: Seq<BindingView>, n: int, opts: Opts, p: Place) -> Seq<RowView>
    decreases n,
{
    if n <= 0 || n > bs.len() {
        seq![]
    } else if shown(bs[n - 1], opts) && place_of(bs[n - 1]) == p {
        rows_in(bs, n - 1, opts, p).push(row_spec(bs[n - 1], bs, opts))
    } else {
        rows_in(bs, n - 1, opts, p)
    }
}

/// The named modes of the first `n` bindings that are shown, in order of
/// first appearance.
pub open spec fn mode_order(bs: Seq<BindingView>, n: int, opts: Opts) -> Seq<Seq<char>>
    decreases n,
{
    if n <= 0 || n > bs.len() {
        seq![]
    } else {
        let prev = mode_order(bs, n - 1, opts);
        let b = bs[n - 1];
        if shown(b, opts) && place_of(b) == Place::Mode(b.mode) && !prev.contains(b.mode) {
            prev.push(b.mode)
        } else {
            prev
        }
    }
}

proof fn lemma_rows_in_absent(bs: Seq<BindingView>, n: int, opts: Opts, m: Seq<char>)
    requires
        !mode_order(bs, n, opts).contains(m),
    ensures
        rows_in(bs, n, opts, Place::Mode(m)) == Seq::<RowView>::empty(),
    decreases n,
{
    if 0 < n <= bs.len() {
        let prev = mode_order(bs, n - 1, opts);
        let b = bs[n - 1];
        if prev.contains(m) {
            let w = choose|w: int| 0 <= w < prev.len() && prev[w] == m;
            if shown(b, opts) && place_of(b) == Place::Mode(b.mode) && !prev.contains(b.mode) {
                assert(prev.push(b.mode)[w] == m);
            }
        }
        if shown(b, opts) && place_of(b) == Place::Mode(m) {
            assert(b.mode == m);
            if prev.contains(m) {
            } else {
                assert(prev.push(m)[prev.len() as int] == m);
            }
        }
        lemma_rows_in_absent(bs, n - 1, opts, m);
    }
}

proof fn lemma_group_upto_rows(bs: Seq<BindingView>, n: int, opts: Opts)
    ensures
        ({
            let st = group_upto(bs, n, opts);
            let ms = mode_order(bs, n, opts);
            &&& st.standard == rows_in(bs, n, opts, Place::Standard)
            &&& st.mouse == rows_in(bs, n, opts, Place::Mouse)
            &&& st.touchpad == rows_in(bs, n, opts, Place::Touchpad)
            &&& st.switches == rows_in(bs, n, opts, Place::Switches)
            &&& st.modes.len() == ms.len()
            &&& forall|i: int|
                0 <= i < ms.len() ==> #[trigger] st.modes[i] == (ms[i], rows_in(bs, n, opts, Place::Mode(ms[i])))
            &&& ms.no_duplicates()
            &&& forall|i: int| 0 <= i < ms.len() ==> #[trigger] ms[i] != "default"@
        }),
    decreases n,
{
    if 0 < n <= bs.len() {
        lemma_group_upto_rows(bs, n - 1, opts);
        let st0 = group_upto(bs, n - 1, opts);
        let ms0 = mode_order(bs, n - 1, opts);
        let st = group_upto(bs, n, opts);
        let ms = mode_order(bs, n, opts);
        let b = bs[n - 1];
        let row = row_spec(b, bs, opts);
        assert(st == group_step(st0, b, bs, opts));
        if shown(b, opts) && place_of(b) == Place::Mode(b.mode) {
            let m = b.mode;
            assert(b.kind == Kind::Chord && b.mode != "default"@);
            if ms0.contains(m) {
                let i = choose|i: int| 0 <= i < ms0.len() && ms0[i] == m;
                assert forall|j: int| 0 <= j < i implies (#[trigger] st0.modes[j]).0 != m by {
                    assert(st0.modes[j] == (ms0[j], rows_in(bs, n - 1, opts, Place::Mode(ms0[j]))));
                }
                assert(st0.modes[i] == (ms0[i], rows_in(bs, n - 1, opts, Place::Mode(ms0[i]))));
                lemma_find_mode(st0.modes, m, i);
                assert(ms == ms0);
                assert forall|j: int| 0 <= j < ms.len() implies #[trigger] st.modes[j] == (
                    ms[j],
                    rows_in(bs, n, opts, Place::Mode(ms[j])),
                ) by {
                    assert(st0.modes[j] == (ms0[j], rows_in(bs, n - 1, opts, Place::Mode(ms0[j]))));
                    if j != i {
                        assert(ms0[j] != m);
                    }
                }
            } else {
                assert forall|j: int| 0 <= j < st0.modes.len() implies (#[trigger] st0.modes[j]).0 != m by {
                    assert(st0.modes[j] == (ms0[j], rows_in(bs, n - 1, opts, Place::Mode(ms0[j]))));
                }
                lemma_find_mode(st0.modes, m, st0.modes.len() as int);
                lemma_rows_in_absent(bs, n - 1, opts, m);
                assert(ms == ms0.push(m));
                assert forall|j: int| 0 <= j < ms.len() implies #[trigger] st.modes[j] == (
                    ms[j],
                    rows_in(bs, n, opts, Place::Mode(ms[j])),
                ) by {
                    if j < ms0.len() {
                        assert(st0.modes[j] == (ms0[j], rows_in(bs, n - 1, opts, Place::Mode(ms0[j]))));
                        assert(ms[j] == ms0[j]);
                        assert(ms0[j] != m);
                    } else {
                        assert(rows_in(bs, n, opts, Place::Mode(m)) =~= seq![row]);
                    }
                }
                assert(ms.no_duplicates()) by {
                    assert forall|x: int, y: int| 0 <= x < ms.len() && 0 <= y < ms.len() && x != y implies ms[x]
                        != ms[y] by {
                        if x < ms0.len() && y < ms0.len() {
                        } else if x < ms0.len() {
                            assert(ms0.contains(ms0[x]));
                        } else {
                            assert(ms0.contains(ms0[y]));
                        }
                    }
                }
            }
        } else {
            assert(ms == ms0);
            assert forall|j: int| 0 <= j < ms.len() implies #[trigger] st.modes[j] == (
                ms[j],
                rows_in(bs, n, opts, Place::Mode(ms[j])),
            ) by {
                assert(st0.modes[j] == (ms0[j], rows_in(bs, n - 1, opts, Place::Mode(ms0[j]))));
            }
        }
    }
}

/// The sheet's layout. `Standard` first, then one section per named mode in
/// the order the modes first appear among the bindings shown, then `Mouse`
/// (with the `floating_modifier` drags after the bindings), `Touchpad`,
/// `Switches` and `Built-in`, with empty sections left out. Each section
/// holds, in the order of the list, the row of every binding shown that
/// belongs in it and of no other: so each binding shown gets exactly one
/// row, and a binding that never fires gets one only when all are asked
/// for. No mode is named twice, and none is `default`.
pub proof fn lemma_sections_layout(bs: Seq<BindingView>, dirs: Seq<DirectiveView>, opts: Opts)
    ensures
        ({
            let n = bs.len() as int;
            let ms = mode_order(bs, n, opts);
            &&& ms.no_duplicates()
            &&& forall|i: int| 0 <= i < ms.len() ==> #[trigger] ms[i] != "default"@
            &&& sections_spec(bs, dirs, opts) == non_empty(
                seq![SectionView { title: "Standard"@, rows: rows_in(bs, n, opts, Place::Standard) }]
                    + Seq::new(
                    ms.len(),
                    |i: int| SectionView { title: ms[i], rows: rows_in(bs, n, opts, Place::Mode(ms[i])) },
                ) + seq![
                    SectionView { title: "Mouse"@, rows: rows_in(bs, n, opts, Place::Mouse) + floating_spec(dirs) },
                    SectionView { title: "Touchpad"@, rows: rows_in(bs, n, opts, Place::Touchpad) },
                    SectionView { title: "Switches"@, rows: rows_in(bs, n, opts, Place::Switches) },
                    SectionView { title: "Built-in"@, rows: builtin_spec() },
                ],
            )
        }),
{
    let n = bs.len() as int;
    let st = group_upto(bs, n, opts);
    let ms = mode_order(bs, n, opts);
    lemma_group_upto_rows(bs, n, opts);
    assert(mode_sections(st.modes) =~= Seq::new(
        ms.len(),
        |i: int| SectionView { title: ms[i], rows: rows_in(bs, n, opts, Place::Mode(ms[i])) },
    )) by {
        assert forall|i: int| 0 <= i < ms.len() implies mode_sections(st.modes)[i] == (SectionView {
            title: ms[i],
            rows: rows_in(bs, n, opts, Place::Mode(ms[i])),
        }) by {
            assert(st.modes[i] == (ms[i], rows_in(bs, n, opts, Place::Mode(ms[i]))));
        }
    }
}
} // verus!
