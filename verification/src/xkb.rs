//! The keysym ↔ keycode half, and the shadow detection it makes possible.
//!
//! sway rebuilds its translation state from **the first input config that
//! sets `xkb_layout` or `xkb_file`**, identifier configs before type configs,
//! and translates against group 0 of that layout. Compiling the keymap needs
//! libxkbcommon and belongs to the program; what is decided here is which
//! settings it is compiled from, the tables read out of it, and which bindings
//! can never fire because another list is queried first.

use std::collections::HashMap;

use vstd::prelude::*;
use crate::model::{
    Binding, BindingView, Bucket, Key, KeyView, Kind, Resolver, ResolverView, bindings_view,
    keys_view, resolver_view,
};
use crate::source::{Directive, DirectiveView, directives_view};
use crate::text::{
    chars_of, eq_chars, eq_lit, is_ws, is_ws_char, seqs, slice_of, split_whitespace, split_ws,
    starts_with, starts_with_lit, string_of, strs, trim, trim_chars, word_len, split_on, split_char,
};

verus! {

/// `xkb_*` settings lifted out of the config's `input` blocks.
#[derive(Debug)]
pub struct Settings {
    pub rules: Option<String>,
    pub model: Option<String>,
    pub layout: Option<String>,
    pub variant: Option<String>,
    pub options: Option<String>,
}

pub open spec fn opt_view(o: Option<String>) -> Option<Seq<char>> {
    match o {
        Some(s) => Some(s@),
        None => None,
    }
}

pub struct SettingsView {
    pub rules: Option<Seq<char>>,
    pub model: Option<Seq<char>>,
    pub layout: Option<Seq<char>>,
    pub variant: Option<Seq<char>>,
    pub options: Option<Seq<char>>,
}

impl View for Settings {
    type V = SettingsView;

    open spec fn view(&self) -> SettingsView {
        SettingsView {
            rules: opt_view(self.rules),
            model: opt_view(self.model),
            layout: opt_view(self.layout),
            variant: opt_view(self.variant),
            options: opt_view(self.options),
        }
    }
}

pub open spec fn no_settings() -> SettingsView {
    SettingsView { rules: None, model: None, layout: None, variant: None, options: None }
}

impl Default for Settings {
    fn default() -> (s: Settings)
        ensures
            s@ == no_settings(),
    {
        Settings { rules: None, model: None, layout: None, variant: None, options: None }
    }
}

// ------------------------------------------------------------ input blocks
/// Every block header of every directive, in order.
pub open spec fn all_headers(dirs: Seq<DirectiveView>) -> Seq<Seq<char>>
    decreases dirs.len(),
{
    if dirs.len() == 0 {
        seq![]
    } else {
        all_headers(dirs.drop_last()) + dirs.last().blocks
    }
}

pub open spec fn is_input_header(h: Seq<char>) -> bool {
    split_ws(h).len() > 0 && split_ws(h)[0] == "input"@
}

/// The distinct `input …` headers among `hs`, in order of first appearance.
pub open spec fn distinct_inputs(hs: Seq<Seq<char>>) -> Seq<Seq<char>>
    decreases hs.len(),
{
    if hs.len() == 0 {
        seq![]
    } else {
        let prev = distinct_inputs(hs.drop_last());
        if is_input_header(hs.last()) && !prev.contains(hs.last()) {
            prev.push(hs.last())
        } else {
            prev
        }
    }
}

fn contains_string(v: &Vec<String>, s: &Vec<char>) -> (r: bool)
    ensures
        r == strs(v@).contains(s@),
{
    let mut i: usize = 0;
    while i < v.len()
        invariant
            i <= v.len(),
            forall|k: int| 0 <= k < i ==> strs(v@)[k] != s@,
        decreases v.len() - i,
    {
        let c = chars_of(v[i].as_str());
        proof {
            assert(strs(v@)[i as int] == v@[i as int]@);
        }
        if eq_chars(&c, s) {
            return true;
        }
        i += 1;
    }
    false
}

/// Distinct `input …` block headers, in config order.
fn input_blocks(directives: &[Directive]) -> (r: Vec<String>)
    ensures
        strs(r@) == distinct_inputs(all_headers(directives_view(directives@))),
{
    let ghost dv = directives_view(directives@);
    let mut seen: Vec<String> = Vec::new();
    let mut i: usize = 0;
    proof {
        assert(strs(seen@) =~= Seq::<Seq<char>>::empty());
        assert(dv.take(0) =~= Seq::<DirectiveView>::empty());
    }
    while i < directives.len()
        invariant
            i <= directives.len(),
            dv == directives_view(directives@),
            strs(seen@) == distinct_inputs(all_headers(dv.take(i as int))),
        decreases directives.len() - i,
    {
        let d = &directives[i];
        let ghost base = all_headers(dv.take(i as int));
        proof {
            assert(dv[i as int] == d@);
            assert(dv.take(i + 1).drop_last() == dv.take(i as int));
            assert(base + d@.blocks.take(0) == base);
        }
        let mut j: usize = 0;
        while j < d.blocks.len()
            invariant
                j <= d.blocks.len(),
                strs(seen@) == distinct_inputs(base + d@.blocks.take(j as int)),
            decreases d.blocks.len() - j,
        {
            let block = chars_of(d.blocks[j].as_str());
            let t = split_whitespace(&block);
            let ghost hs = base + d@.blocks.take(j + 1);
            proof {
                assert(d@.blocks[j as int] == block@);
                assert(hs.drop_last() == base + d@.blocks.take(j as int));
                assert(hs.last() == block@);
                if t.len() > 0 {
                    assert(seqs(t@)[0] == t@[0]@);
                }
            }
            if t.len() > 0 && eq_lit(&t[0], "input") && !contains_string(&seen, &block) {
                let ghost before = strs(seen@);
                seen.push(string_of(&block));
                proof {
                    assert(strs(seen@) =~= before.push(block@));
                }
            }
            j += 1;
        }
        proof {
            assert(d@.blocks.take(d.blocks.len() as int) == d@.blocks);
            assert(all_headers(dv.take(i + 1)) == base + d@.blocks);
        }
        i += 1;
    }
    proof {
        assert(dv.take(directives.len() as int) == dv);
    }
    seen
}

// -------------------------------------------------------- xkb settings
pub open spec fn lead_dq(s: Seq<char>) -> nat
    decreases s.len(),
{
    if s.len() > 0 && s[0] == '"' {
        1 + lead_dq(s.drop_first())
    } else {
        0
    }
}

pub open spec fn trail_dq(s: Seq<char>) -> nat
    decreases s.len(),
{
    if s.len() > 0 && s.last() == '"' {
        1 + trail_dq(s.drop_last())
    } else {
        0
    }
}

/// `s.trim_matches('"')`.
pub open spec fn trim_dq(s: Seq<char>) -> Seq<char> {
    let a = s.skip(lead_dq(s) as int);
    a.take(a.len() - trail_dq(a))
}

proof fn lemma_lead_dq(s: Seq<char>, k: int)
    requires
        0 <= k <= s.len(),
        forall|i: int| 0 <= i < k ==> #[trigger] s[i] == '"',
        k == s.len() || s[k] != '"',
    ensures
        lead_dq(s) == k,
    decreases k,
{
    if k > 0 {
        let t = s.drop_first();
        assert forall|i: int| 0 <= i < k - 1 implies #[trigger] t[i] == '"' by {
            assert(t[i] == s[i + 1]);
        }
        if k - 1 < t.len() {
            assert(t[k - 1] == s[k]);
        }
        lemma_lead_dq(t, k - 1);
    }
}

proof fn lemma_trail_dq(s: Seq<char>, k: int)
    requires
        0 <= k <= s.len(),
        forall|i: int| s.len() - k <= i < s.len() ==> #[trigger] s[i] == '"',
        k == s.len() || s[s.len() - k - 1] != '"',
    ensures
        trail_dq(s) == k,
    decreases k,
{
    if k > 0 {
        let t = s.drop_last();
        assert forall|i: int| t.len() - (k - 1) <= i < t.len() implies #[trigger] t[i] == '"' by {
            assert(t[i] == s[i]);
        }
        if k - 1 < t.len() {
            assert(t[t.len() - (k - 1) - 1] == s[s.len() - k - 1]);
        }
        lemma_trail_dq(t, k - 1);
    }
}

fn trim_dq_chars(v: &Vec<char>) -> (r: Vec<char>)
    ensures
        r@ == trim_dq(v@),
{
    let mut a: usize = 0;
    while a < v.len() && v[a] == '"'
        invariant
            a <= v.len(),
            forall|i: int| 0 <= i < a ==> #[trigger] v@[i] == '"',
        decreases v.len() - a,
    {
        a += 1;
    }
    proof {
        lemma_lead_dq(v@, a as int);
    }
    let s = slice_of(v, a, v.len());
    let mut b: usize = 0;
    while b < s.len() && s[s.len() - b - 1] == '"'
        invariant
            b <= s.len(),
            forall|i: int| s.len() - b <= i < s.len() ==> #[trigger] s@[i] == '"',
        decreases s.len() - b,
    {
        b += 1;
    }
    proof {
        lemma_trail_dq(s@, b as int);
    }
    slice_of(&s, 0, s.len() - b)
}

/// One directive's effect on the settings of the block `header`: a directive
/// directly inside it that sets one of the `xkb_*` keys overrides that key.
pub open spec fn collect_step(s: SettingsView, d: DirectiveView, header: Seq<char>) -> SettingsView {
    if d.blocks.len() > 0 && d.blocks.last() == header {
        let k = word_len(d.text);
        if k < d.text.len() {
            let key = d.text.take(k as int);
            let value = trim_dq(trim(d.text.skip(k + 1 as int)));
            if key == "xkb_rules"@ {
                SettingsView { rules: Some(value), ..s }
            } else if key == "xkb_model"@ {
                SettingsView { model: Some(value), ..s }
            } else if key == "xkb_layout"@ {
                SettingsView { layout: Some(value), ..s }
            } else if key == "xkb_variant"@ {
                SettingsView { variant: Some(value), ..s }
            } else if key == "xkb_options"@ {
                SettingsView { options: Some(value), ..s }
            } else {
                s
            }
        } else {
            s
        }
    } else {
        s
    }
}

/// The settings of one input block: its `xkb_*` lines, the last of each
/// winning.
pub open spec fn collect_spec(dirs: Seq<DirectiveView>, header: Seq<char>) -> SettingsView
    decreases dirs.len(),
{
    if dirs.len() == 0 {
        no_settings()
    } else {
        collect_step(collect_spec(dirs.drop_last(), header), dirs.last(), header)
    }
}

fn collect(directives: &[Directive], header: &Vec<char>) -> (r: Settings)
    ensures
        r@ == collect_spec(directives_view(directives@), header@),
{
    let ghost dv = directives_view(directives@);
    let mut s = Settings::default();
    let mut i: usize = 0;
    proof {
        assert(dv.take(0) =~= Seq::<DirectiveView>::empty());
    }
    while i < directives.len()
        invariant
            i <= directives.len(),
            dv == directives_view(directives@),
            s@ == collect_spec(dv.take(i as int), header@),
        decreases directives.len() - i,
    {
        let d = &directives[i];
        proof {
            assert(dv[i as int] == d@);
            assert(dv.take(i + 1).drop_last() == dv.take(i as int));
        }
        let ghost before = s@;
        let n = d.blocks.len();
        if n > 0 {
            let last = chars_of(d.blocks[n - 1].as_str());
            proof {
                assert(d@.blocks.last() == last@);
            }
            if eq_chars(&last, header) {
                let text = chars_of(d.text.as_str());
                let mut k: usize = 0;
                while k < text.len() && !is_ws_char(text[k])
                    invariant
                        k <= text.len(),
                        forall|m: int| 0 <= m < k ==> !is_ws(#[trigger] text@[m]),
                    decreases text.len() - k,
                {
                    k += 1;
                }
                proof {
                    crate::text::lemma_word_len(text@, k as int);
                }
                if k < text.len() {
                    let key = slice_of(&text, 0, k);
                    let raw = slice_of(&text, k + 1, text.len());
                    let value = string_of(&trim_dq_chars(&trim_chars(&raw)));
                    if eq_lit(&key, "xkb_rules") {
                        s.rules = Some(value);
                    } else if eq_lit(&key, "xkb_model") {
                        s.model = Some(value);
                    } else if eq_lit(&key, "xkb_layout") {
                        s.layout = Some(value);
                    } else if eq_lit(&key, "xkb_variant") {
                        s.variant = Some(value);
                    } else if eq_lit(&key, "xkb_options") {
                        s.options = Some(value);
                    }
                }
            }
        }
        proof {
            assert(s@ == collect_step(before, d@, header@));
        }
        i += 1;
    }
    proof {
        assert(dv.take(directives.len() as int) == dv);
    }
    s
}

/// A line directly inside the block `header`, by its first word and the
/// rest, trimmed and unquoted.
pub open spec fn block_line(d: DirectiveView, header: Seq<char>) -> Option<(Seq<char>, Seq<char>)> {
    if d.blocks.len() > 0 && d.blocks.last() == header && word_len(d.text) < d.text.len() {
        let k = word_len(d.text);
        Some((d.text.take(k as int), trim_dq(trim(d.text.skip(k + 1 as int)))))
    } else {
        None
    }
}

/// The setting an `xkb_*` key names, read from `s`; `None` for any other
/// word.
pub open spec fn setting(s: SettingsView, key: Seq<char>) -> Option<Option<Seq<char>>> {
    if key == "xkb_rules"@ {
        Some(s.rules)
    } else if key == "xkb_model"@ {
        Some(s.model)
    } else if key == "xkb_layout"@ {
        Some(s.layout)
    } else if key == "xkb_variant"@ {
        Some(s.variant)
    } else if key == "xkb_options"@ {
        Some(s.options)
    } else {
        None
    }
}

#[verifier::rlimit(100)]
proof fn lemma_xkb_keys_distinct()
    ensures
        "xkb_rules"@ != "xkb_model"@,
        "xkb_rules"@ != "xkb_layout"@,
        "xkb_rules"@ != "xkb_variant"@,
        "xkb_rules"@ != "xkb_options"@,
        "xkb_model"@ != "xkb_layout"@,
        "xkb_model"@ != "xkb_variant"@,
        "xkb_model"@ != "xkb_options"@,
        "xkb_layout"@ != "xkb_variant"@,
        "xkb_layout"@ != "xkb_options"@,
        "xkb_variant"@ != "xkb_options"@,
{
    reveal_strlit("xkb_rules");
    reveal_strlit("xkb_model");
    reveal_strlit("xkb_layout");
    reveal_strlit("xkb_variant");
    reveal_strlit("xkb_options");
    assert("xkb_rules"@[4] != "xkb_model"@[4]);
    assert("xkb_rules"@[4] != "xkb_layout"@[4]);
    assert("xkb_rules"@[4] != "xkb_variant"@[4]);
    assert("xkb_rules"@[4] != "xkb_options"@[4]);
    assert("xkb_model"@[4] != "xkb_layout"@[4]);
    assert("xkb_model"@[4] != "xkb_variant"@[4]);
    assert("xkb_model"@[4] != "xkb_options"@[4]);
    assert("xkb_layout"@[4] != "xkb_variant"@[4]);
    assert("xkb_layout"@[4] != "xkb_options"@[4]);
    assert("xkb_variant"@[4] != "xkb_options"@[4]);
}

/// One line of a block: an `xkb_*` line sets its own setting to its value
/// and leaves every other setting as it was; any other line changes
/// nothing.
proof fn lemma_collect_step_setting(s: SettingsView, d: DirectiveView, header: Seq<char>, key: Seq<char>)
    requires
        setting(s, key) is Some,
    ensures
        setting(collect_step(s, d, header), key) == (match block_line(d, header) {
            Some((k, v)) => if k == key {
                Some(Some(v))
            } else {
                setting(s, key)
            },
            None => setting(s, key),
        }),
{
    lemma_xkb_keys_distinct();
}

/// The value a line of the block `header` gives its key.
pub open spec fn line_value(d: DirectiveView, header: Seq<char>) -> Seq<char> {
    match block_line(d, header) {
        Some((_, v)) => v,
        None => seq![],
    }
}

/// Whether `d` is a line of the block `header` that sets `key`.
pub open spec fn sets(d: DirectiveView, header: Seq<char>, key: Seq<char>) -> bool {
    block_line(d, header) matches Some((k, _)) && k == key
}

/// The settings of a block carry, for each `xkb_*` key, the value of the
/// last line of the block that sets it, or nothing when none does.
pub proof fn lemma_collect_last_wins(dirs: Seq<DirectiveView>, header: Seq<char>, key: Seq<char>)
    requires
        setting(no_settings(), key) is Some,
    ensures
        (forall|i: int| 0 <= i < dirs.len() ==> !sets(#[trigger] dirs[i], header, key)) ==> setting(
            collect_spec(dirs, header),
            key,
        ) == Some(None::<Seq<char>>),
        forall|i: int|
            0 <= i < dirs.len() && #[trigger] sets(dirs[i], header, key) && (forall|j: int|
                i < j < dirs.len() ==> !sets(#[trigger] dirs[j], header, key)) ==> setting(
                collect_spec(dirs, header),
                key,
            ) == Some(Some(line_value(dirs[i], header))),
    decreases dirs.len(),
{
    lemma_xkb_keys_distinct();
    if dirs.len() > 0 {
        let prev = dirs.drop_last();
        let n = dirs.len() - 1;
        lemma_collect_last_wins(prev, header, key);
        lemma_collect_step_setting(collect_spec(prev, header), dirs.last(), header, key);
        assert(dirs.last() == dirs[n]);
        if forall|i: int| 0 <= i < dirs.len() ==> !sets(#[trigger] dirs[i], header, key) {
            assert forall|i: int| 0 <= i < prev.len() implies !sets(#[trigger] prev[i], header, key) by {
                assert(prev[i] == dirs[i]);
            }
        }
        assert forall|i: int|
            0 <= i < dirs.len() && #[trigger] sets(dirs[i], header, key) && (forall|j: int|
                i < j < dirs.len() ==> !sets(#[trigger] dirs[j], header, key)) implies setting(
                collect_spec(dirs, header),
                key,
            ) == Some(Some(line_value(dirs[i], header))) by {
            if i < n {
                assert(!sets(dirs[n], header, key));
                assert(prev[i] == dirs[i]);
                assert forall|j: int| i < j < prev.len() implies !sets(#[trigger] prev[j], header, key) by {
                    assert(prev[j] == dirs[j]);
                }
                assert(sets(prev[i], header, key));
            }
        }
    }
}

/// `input "type:keyboard"`: the identifier names a device type.
pub open spec fn is_type_header(h: Seq<char>) -> bool {
    split_ws(h).len() > 1 && starts_with(trim_dq(split_ws(h)[1]), "type:"@)
}

/// The first identifier block and the first type block, among `headers`, that
/// set a layout.
pub open spec fn pick_spec(dirs: Seq<DirectiveView>, headers: Seq<Seq<char>>) -> (
    Option<SettingsView>,
    Option<SettingsView>,
)
    decreases headers.len(),
{
    if headers.len() == 0 {
        (None, None)
    } else {
        let (id, ty) = pick_spec(dirs, headers.drop_last());
        let h = headers.last();
        let s = collect_spec(dirs, h);
        if s.layout is None {
            (id, ty)
        } else if is_type_header(h) {
            (id, if ty is None { Some(s) } else { ty })
        } else {
            (if id is None { Some(s) } else { id }, ty)
        }
    }
}

/// The settings sway would translate against.
pub open spec fn settings_spec(dirs: Seq<DirectiveView>) -> SettingsView {
    let (id, ty) = pick_spec(dirs, distinct_inputs(all_headers(dirs)));
    match id {
        Some(s) => s,
        None => match ty {
            Some(s) => s,
            None => no_settings(),
        },
    }
}

proof fn lemma_pick_from(dirs: Seq<DirectiveView>, headers: Seq<Seq<char>>)
    ensures
        pick_spec(dirs, headers).0 matches Some(s) ==> exists|h: Seq<char>|
            headers.contains(h) && s == collect_spec(dirs, h) && s.layout is Some,
        pick_spec(dirs, headers).1 matches Some(s) ==> exists|h: Seq<char>|
            headers.contains(h) && s == collect_spec(dirs, h) && s.layout is Some,
    decreases headers.len(),
{
    if headers.len() > 0 {
        let prev = headers.drop_last();
        lemma_pick_from(dirs, prev);
        let h = headers.last();
        assert(headers[headers.len() - 1] == h);
        assert forall|x: Seq<char>| prev.contains(x) implies headers.contains(x) by {
            let w = choose|w: int| 0 <= w < prev.len() && prev[w] == x;
            assert(headers[w] == x);
        }
    }
}

/// The settings sway translates against are those of one input block that
/// sets a layout, or none at all.
pub proof fn lemma_settings_of_one_block(dirs: Seq<DirectiveView>)
    ensures
        settings_spec(dirs) == no_settings() || exists|h: Seq<char>|
            settings_spec(dirs) == collect_spec(dirs, h) && collect_spec(dirs, h).layout is Some,
{
    lemma_pick_from(dirs, distinct_inputs(all_headers(dirs)));
}

proof fn lemma_pick_none(dirs: Seq<DirectiveView>, hs: Seq<Seq<char>>, ty: bool)
    requires
        forall|j: int| 0 <= j < hs.len() && is_type_header(#[trigger] hs[j]) == ty ==> collect_spec(dirs, hs[j]).layout is None,
    ensures
        if ty {
            pick_spec(dirs, hs).1 is None
        } else {
            pick_spec(dirs, hs).0 is None
        },
    decreases hs.len(),
{
    if hs.len() > 0 {
        let prev = hs.drop_last();
        assert forall|j: int| 0 <= j < prev.len() && is_type_header(#[trigger] prev[j]) == ty implies collect_spec(dirs, prev[j]).layout is None by {
            assert(prev[j] == hs[j]);
        }
        lemma_pick_none(dirs, prev, ty);
        assert(hs.last() == hs[hs.len() - 1]);
    }
}

proof fn lemma_pick_first(dirs: Seq<DirectiveView>, hs: Seq<Seq<char>>, ty: bool, i: int)
    requires
        0 <= i < hs.len(),
        is_type_header(hs[i]) == ty,
        collect_spec(dirs, hs[i]).layout is Some,
        forall|j: int| 0 <= j < i && is_type_header(#[trigger] hs[j]) == ty ==> collect_spec(dirs, hs[j]).layout is None,
    ensures
        if ty {
            pick_spec(dirs, hs).1 == Some(collect_spec(dirs, hs[i]))
        } else {
            pick_spec(dirs, hs).0 == Some(collect_spec(dirs, hs[i]))
        },
    decreases hs.len(),
{
    let prev = hs.drop_last();
    assert(hs.last() == hs[hs.len() - 1]);
    if i == hs.len() - 1 {
        assert forall|j: int| 0 <= j < prev.len() && is_type_header(#[trigger] prev[j]) == ty implies collect_spec(dirs, prev[j]).layout is None by {
            assert(prev[j] == hs[j]);
        }
        lemma_pick_none(dirs, prev, ty);
    } else {
        assert(prev[i] == hs[i]);
        assert forall|j: int| 0 <= j < i && is_type_header(#[trigger] prev[j]) == ty implies collect_spec(dirs, prev[j]).layout is None by {
            assert(prev[j] == hs[j]);
        }
        lemma_pick_first(dirs, prev, ty, i);
    }
}

/// Which input block sway translates against, among the input blocks in
/// order of first appearance: the first identifier block that sets a
/// layout; failing that, the first `type:` block that does; failing that,
/// none.
pub proof fn lemma_settings_pick(dirs: Seq<DirectiveView>, i: int)
    ensures
        ({
            let hs = distinct_inputs(all_headers(dirs));
            &&& (0 <= i < hs.len() && !is_type_header(hs[i]) && collect_spec(dirs, hs[i]).layout is Some
                && (forall|j: int|
                0 <= j < i && !is_type_header(#[trigger] hs[j]) ==> collect_spec(dirs, hs[j]).layout is None))
                ==> settings_spec(dirs) == collect_spec(dirs, hs[i])
            &&& (0 <= i < hs.len() && is_type_header(hs[i]) && collect_spec(dirs, hs[i]).layout is Some
                && (forall|j: int|
                0 <= j < i && is_type_header(#[trigger] hs[j]) ==> collect_spec(dirs, hs[j]).layout is None)
                && (forall|j: int|
                0 <= j < hs.len() && !is_type_header(#[trigger] hs[j]) ==> collect_spec(dirs, hs[j]).layout is None))
                ==> settings_spec(dirs) == collect_spec(dirs, hs[i])
            &&& (forall|j: int| 0 <= j < hs.len() ==> collect_spec(dirs, #[trigger] hs[j]).layout is None)
                ==> settings_spec(dirs) == no_settings()
        }),
{
    let hs = distinct_inputs(all_headers(dirs));
    if 0 <= i < hs.len() && collect_spec(dirs, hs[i]).layout is Some {
        if !is_type_header(hs[i]) && (forall|j: int|
            0 <= j < i && !is_type_header(#[trigger] hs[j]) ==> collect_spec(dirs, hs[j]).layout is None) {
            lemma_pick_first(dirs, hs, false, i);
        }
        if is_type_header(hs[i]) && (forall|j: int|
            0 <= j < i && is_type_header(#[trigger] hs[j]) ==> collect_spec(dirs, hs[j]).layout is None) && (forall|j: int|
            0 <= j < hs.len() && !is_type_header(#[trigger] hs[j]) ==> collect_spec(dirs, hs[j]).layout is None) {
            lemma_pick_first(dirs, hs, true, i);
            lemma_pick_none(dirs, hs, false);
        }
    }
    if forall|j: int| 0 <= j < hs.len() ==> collect_spec(dirs, #[trigger] hs[j]).layout is None {
        lemma_pick_none(dirs, hs, false);
        lemma_pick_none(dirs, hs, true);
    }
}

impl Settings {
    /// Pick the input config sway would translate against: the first one
    /// setting `xkb_layout`, identifier blocks before `type:` blocks.
    pub fn from_directives(directives: &[Directive]) -> (r: Settings)
        ensures
            r@ == settings_spec(directives_view(directives@)),
    {
        let ghost dv = directives_view(directives@);
        let headers = input_blocks(directives);
        let ghost hs = strs(headers@);
        let mut by_identifier: Option<Settings> = None;
        let mut by_type: Option<Settings> = None;
        let mut i: usize = 0;
        proof {
            assert(hs.take(0) =~= Seq::<Seq<char>>::empty());
        }
        while i < headers.len()
            invariant
                i <= headers.len(),
                dv == directives_view(directives@),
                hs == strs(headers@),
                pick_spec(dv, hs.take(i as int)) == (
                    match by_identifier {
                        Some(s) => Some(s@),
                        None => None::<SettingsView>,
                    },
                    match by_type {
                        Some(s) => Some(s@),
                        None => None::<SettingsView>,
                    },
                ),
            decreases headers.len() - i,
        {
            let h = chars_of(headers[i].as_str());
            proof {
                assert(hs[i as int] == h@);
                assert(hs.take(i + 1).drop_last() == hs.take(i as int));
                assert(hs.take(i + 1).last() == h@);
            }
            let settings = collect(directives, &h);
            if settings.layout.is_some() {
                let t = split_whitespace(&h);
                let is_type = if t.len() > 1 {
                    let id = trim_dq_chars(&t[1]);
                    starts_with_lit(&id, "type:")
                } else {
                    false
                };
                proof {
                    if t.len() > 1 {
                        assert(seqs(t@)[1] == t@[1]@);
                    }
                    assert(is_type == is_type_header(h@));
                }
                if is_type {
                    if by_type.is_none() {
                        by_type = Some(settings);
                    }
                } else {
                    if by_identifier.is_none() {
                        by_identifier = Some(settings);
                    }
                }
            }
            i += 1;
        }
        proof {
            assert(hs.take(headers.len() as int) == hs);
        }
        match by_identifier {
            Some(s) => s,
            None => match by_type {
                Some(s) => s,
                None => Settings::default(),
            },
        }
    }
}

// ------------------------------------------------------------ keymap tables
/// The two lookup tables read out of a compiled keymap.
pub struct Keymap {
    /// keycode → the name of the single keysym it produces in group 0.
    name_of: HashMap<u32, String>,
    /// keysym → the last keycode seen producing it, and how many do. sway's
    /// `--to-code` succeeds only at a count of exactly one.
    codes_for: HashMap<u32, (u32, usize)>,
}

pub struct KeymapView {
    pub name_of: Map<u32, Seq<char>>,
    pub codes_for: Map<u32, (u32, usize)>,
}

impl View for Keymap {
    type V = KeymapView;

    closed spec fn view(&self) -> KeymapView {
        KeymapView {
            name_of: self.name_of@.map_values(|s: String| s@),
            codes_for: self.codes_for@,
        }
    }
}

/// The tables after one keycode of the keymap, producing keysym `sym`
/// (`0` for none) named `name`.
pub open spec fn record_spec(k: KeymapView, code: u32, sym: u32, name: Option<Seq<char>>) -> KeymapView {
    if sym == 0 {
        k
    } else {
        let n = if k.codes_for.contains_key(sym) {
            k.codes_for[sym].1 + 1
        } else {
            1
        };
        KeymapView {
            codes_for: k.codes_for.insert(sym, (code, n as usize)),
            name_of: match name {
                Some(s) => k.name_of.insert(code, s),
                None => k.name_of,
            },
        }
    }
}

/// The keycode that alone produces `sym`.
pub open spec fn single_code(k: KeymapView, sym: u32) -> Option<u32> {
    if k.codes_for.contains_key(sym) && k.codes_for[sym].1 == 1 {
        Some(k.codes_for[sym].0)
    } else {
        None
    }
}

impl Keymap {
    /// Tables with nothing recorded.
    pub fn new() -> (k: Keymap)
        ensures
            k@.name_of == Map::<u32, Seq<char>>::empty(),
            k@.codes_for == Map::<u32, (u32, usize)>::empty(),
    {
        let k = Keymap { name_of: HashMap::new(), codes_for: HashMap::new() };
        proof {
            assert(k@.name_of =~= Map::<u32, Seq<char>>::empty());
        }
        k
    }

    /// Record one keycode of the compiled keymap: the keysym it produces in
    /// group 0 (`0` when none — such keys are skipped) and that keysym's name.
    pub fn record(&mut self, code: u32, sym: u32, name: Option<String>)
        requires
            old(self)@.codes_for.contains_key(sym) ==> old(self)@.codes_for[sym].1 < usize::MAX,
        ensures
            final(self)@ == record_spec(old(self)@, code, sym, opt_view(name)),
    {
        broadcast use vstd::std_specs::hash::group_hash_axioms;
        if sym == 0 {
            return;
        }
        let n: usize = match self.codes_for.get(&sym) {
            Some(e) => e.1 + 1,
            None => 1,
        };
        self.codes_for.insert(sym, (code, n));
        match name {
            Some(s) => {
                let ghost sv = s@;
                self.name_of.insert(code, s);
                proof {
                    assert(self@.name_of =~= old(self)@.name_of.insert(code, sv));
                }
            },
            None => {},
        }
    }

    /// The keycode that alone produces keysym `sym`, if exactly one does.
    pub fn code_for_sym(&self, sym: u32) -> (r: Option<u32>)
        ensures
            r == single_code(self@, sym),
    {
        broadcast use vstd::std_specs::hash::group_hash_axioms;
        match self.codes_for.get(&sym) {
            Some(e) => if e.1 == 1 {
                Some(e.0)
            } else {
                None
            },
            None => None,
        }
    }

    /// Name of the keysym a keycode produces.
    pub fn keycode_name(&self, code: u32) -> (r: Option<String>)
        ensures
            opt_view(r) == (if self@.name_of.contains_key(code) {
                Some(self@.name_of[code])
            } else {
                None
            }),
    {
        broadcast use vstd::std_specs::hash::group_hash_axioms;
        match self.name_of.get(&code) {
            Some(s) => Some(crate::text::copy_string(s)),
            None => None,
        }
    }
}

// ---------------------------------------------------------------- resolver
/// The `+`-separated pieces of each token, in order.
pub open spec fn pieces_of(toks: Seq<Seq<char>>) -> Seq<Seq<char>>
    decreases toks.len(),
{
    if toks.len() == 0 {
        seq![]
    } else {
        pieces_of(toks.drop_last()) + split_on(toks.last(), '+')
    }
}

/// Every name a binding could ask the keymap about: each `+`-separated
/// piece of each whitespace-separated token of each directive, in order.
pub open spec fn keysym_names_spec(dirs: Seq<DirectiveView>) -> Seq<Seq<char>>
    decreases dirs.len(),
{
    if dirs.len() == 0 {
        seq![]
    } else {
        keysym_names_spec(dirs.drop_last()) + pieces_of(split_ws(dirs.last().text))
    }
}

/// The names whose keysyms the program looks up before building, so that
/// the resolver can answer every key of every binding.
pub fn keysym_names(directives: &[Directive]) -> (r: Vec<String>)
    ensures
        strs(r@) == keysym_names_spec(directives_view(directives@)),
{
    let ghost dv = directives_view(directives@);
    let mut out: Vec<String> = Vec::new();
    let mut i: usize = 0;
    proof {
        assert(dv.take(0) =~= Seq::<DirectiveView>::empty());
    }
    while i < directives.len()
        invariant
            i <= directives.len(),
            dv == directives_view(directives@),
            strs(out@) == keysym_names_spec(dv.take(i as int)),
        decreases directives.len() - i,
    {
        let toks = split_whitespace(&chars_of(directives[i].text.as_str()));
        let ghost before = strs(out@);
        let ghost ts = seqs(toks@);
        let mut k: usize = 0;
        proof {
            assert(ts.take(0) =~= Seq::<Seq<char>>::empty());
        }
        while k < toks.len()
            invariant
                k <= toks.len(),
                ts == seqs(toks@),
                strs(out@) == before + pieces_of(ts.take(k as int)),
            decreases toks.len() - k,
        {
            let parts = split_char(&toks[k], '+');
            let ghost mid = strs(out@);
            let mut m: usize = 0;
            while m < parts.len()
                invariant
                    m <= parts.len(),
                    strs(out@) == mid + seqs(parts@).take(m as int),
                decreases parts.len() - m,
            {
                let ghost pv = parts@[m as int]@;
                let piece = string_of(&parts[m]);
                let ghost prev = strs(out@);
                out.push(piece);
                proof {
                    assert(strs(out@) =~= prev.push(pv));
                    assert(seqs(parts@).take(m + 1) =~= seqs(parts@).take(m as int).push(pv));
                    assert(strs(out@) =~= mid + seqs(parts@).take(m + 1));
                }
                m += 1;
            }
            proof {
                assert(seqs(parts@).take(parts@.len() as int) =~= seqs(parts@));
                assert(ts.take(k + 1).drop_last() =~= ts.take(k as int));
                assert(ts.take(k + 1).last() == toks@[k as int]@);
                assert(strs(out@) =~= before + pieces_of(ts.take(k + 1)));
            }
            k += 1;
        }
        proof {
            assert(ts.take(toks@.len() as int) =~= ts);
            assert(dv.take(i + 1).drop_last() =~= dv.take(i as int));
            assert(dv.take(i + 1).last() == directives@[i as int]@);
        }
        i += 1;
    }
    proof {
        assert(dv.take(directives@.len() as int) =~= dv);
    }
    out
}

proof fn lemma_pieces_of(toks: Seq<Seq<char>>, k: int, j: int)
    requires
        0 <= k < toks.len(),
        0 <= j < split_on(toks[k], '+').len(),
    ensures
        pieces_of(toks).contains(split_on(toks[k], '+')[j]),
    decreases toks.len(),
{
    let prev = pieces_of(toks.drop_last());
    let last = split_on(toks.last(), '+');
    let p = split_on(toks[k], '+')[j];
    if k < toks.len() - 1 {
        assert(toks.drop_last()[k] == toks[k]);
        lemma_pieces_of(toks.drop_last(), k, j);
        let w = choose|w: int| 0 <= w < prev.len() && prev[w] == p;
        assert((prev + last)[w] == p);
    } else {
        assert((prev + last)[prev.len() + j] == p);
    }
}

/// Every key a binding can name is looked up: each `+`-separated piece of
/// each whitespace-separated token of each directive is among the names.
pub proof fn lemma_keysym_names_cover(dirs: Seq<DirectiveView>, d: int, k: int, j: int)
    requires
        0 <= d < dirs.len(),
        0 <= k < split_ws(dirs[d].text).len(),
        0 <= j < split_on(split_ws(dirs[d].text)[k], '+').len(),
    ensures
        keysym_names_spec(dirs).contains(split_on(split_ws(dirs[d].text)[k], '+')[j]),
    decreases dirs.len(),
{
    let p = split_on(split_ws(dirs[d].text)[k], '+')[j];
    let prev = keysym_names_spec(dirs.drop_last());
    let last = pieces_of(split_ws(dirs.last().text));
    if d < dirs.len() - 1 {
        assert(dirs.drop_last()[d] == dirs[d]);
        lemma_keysym_names_cover(dirs.drop_last(), d, k, j);
        let w = choose|w: int| 0 <= w < prev.len() && prev[w] == p;
        assert((prev + last)[w] == p);
    } else {
        lemma_pieces_of(split_ws(dirs.last().text), k, j);
        let w = choose|w: int| 0 <= w < last.len() && last[w] == p;
        assert((prev + last)[prev.len() + w] == p);
    }
}

/// The keysym a table gives a name: its first entry for that name.
pub open spec fn keysym_in(t: Seq<(Seq<char>, u32)>, name: Seq<char>) -> Option<u32>
    decreases t.len(),
{
    if t.len() == 0 {
        None
    } else if t[0].0 == name {
        Some(t[0].1)
    } else {
        keysym_in(t.drop_first(), name)
    }
}

pub open spec fn keysyms_view(t: Seq<(String, u32)>) -> Seq<(Seq<char>, u32)> {
    t.map_values(|p: (String, u32)| (p.0@, p.1))
}

/// The resolver of a compiled keymap: its tables, and the keysyms of the
/// names the config uses, as parsed against it. A name the list leaves out
/// has no keysym.
pub struct XkbResolver {
    pub tables: Keymap,
    pub keysyms: Vec<(String, u32)>,
}

impl XkbResolver {
    fn keysym(&self, name: &str) -> (r: Option<u32>)
        ensures
            r == keysym_in(keysyms_view(self.keysyms@), name@),
    {
        let n = chars_of(name);
        let ghost t = keysyms_view(self.keysyms@);
        let mut i: usize = 0;
        proof {
            assert(t.skip(0) =~= t);
        }
        while i < self.keysyms.len()
            invariant
                i <= self.keysyms.len(),
                t == keysyms_view(self.keysyms@),
                n@ == name@,
                keysym_in(t, name@) == keysym_in(t.skip(i as int), name@),
            decreases self.keysyms.len() - i,
        {
            proof {
                assert(t.skip(i as int)[0] == t[i as int]);
                assert(t.skip(i as int).drop_first() =~= t.skip(i + 1));
            }
            if crate::text::eq_chars(&chars_of(self.keysyms[i].0.as_str()), &n) {
                return Some(self.keysyms[i].1);
            }
            i += 1;
        }
        None
    }
}

impl Resolver for XkbResolver {
    open spec fn spec_resolves(&self, sym: Seq<char>) -> bool {
        self.spec_keycode_for(sym) is Some
    }

    open spec fn spec_keycode_for(&self, sym: Seq<char>) -> Option<u32> {
        match keysym_in(keysyms_view(self.keysyms@), sym) {
            Some(k) => single_code(self.tables@, k),
            None => None,
        }
    }

    open spec fn spec_keycode_name(&self, code: u32) -> Option<Seq<char>> {
        if self.tables@.name_of.contains_key(code) {
            Some(self.tables@.name_of[code])
        } else {
            None
        }
    }

    /// sway files a `--to-code` binding under keycodes only when its keysym
    /// comes from exactly one keycode.
    fn resolves_to_single_keycode(&self, sym: &str) -> (r: bool) {
        self.keycode_for(sym).is_some()
    }

    /// Zero or several keycodes: `translate_binding` bails out.
    fn keycode_for(&self, sym: &str) -> (r: Option<u32>) {
        match self.keysym(sym) {
            Some(k) => self.tables.code_for_sym(k),
            None => None,
        }
    }

    fn keycode_name(&self, code: u32) -> (r: Option<String>) {
        self.tables.keycode_name(code)
    }
}

// --------------------------------------------------------------- shadowing
/// Where `c` goes in a sorted sequence of keycodes.
pub open spec fn insert_at_u32(s: Seq<u32>, c: u32) -> nat
    decreases s.len(),
{
    if s.len() == 0 {
        0
    } else if c < s.last() {
        insert_at_u32(s.drop_last(), c)
    } else {
        s.len()
    }
}

/// The keycodes in ascending order.
pub open spec fn sort_u32(s: Seq<u32>) -> Seq<u32>
    decreases s.len(),
{
    if s.len() == 0 {
        seq![]
    } else {
        let p = sort_u32(s.drop_last());
        p.insert(insert_at_u32(p, s.last()) as int, s.last())
    }
}

proof fn lemma_insert_at_u32(s: Seq<u32>, c: u32)
    ensures
        insert_at_u32(s, c) <= s.len(),
    decreases s.len(),
{
    if s.len() > 0 && c < s.last() {
        lemma_insert_at_u32(s.drop_last(), c);
    }
}

fn sort_codes(v: Vec<u32>) -> (r: Vec<u32>)
    ensures
        r@ == sort_u32(v@),
{
    let mut r: Vec<u32> = Vec::new();
    let mut i: usize = 0;
    while i < v.len()
        invariant
            i <= v.len(),
            r@ == sort_u32(v@.take(i as int)),
        decreases v.len() - i,
    {
        let c = v[i];
        let ghost p = r@;
        let mut j = r.len();
        proof {
            assert(p.take(j as int) == p);
        }
        while j > 0 && c < r[j - 1]
            invariant
                j <= r.len(),
                p == r@,
                insert_at_u32(p, c) == insert_at_u32(p.take(j as int), c),
            decreases j,
        {
            proof {
                assert(p.take(j as int).drop_last() == p.take(j - 1));
            }
            j -= 1;
        }
        proof {
            let q = v@.take(i + 1);
            assert(q.drop_last() == v@.take(i as int));
            lemma_insert_at_u32(p, c);
        }
        r.insert(j, c);
        i += 1;
    }
    proof {
        assert(v@.take(v.len() as int) == v@);
    }
    r
}

/// The keycode a key stands for, where the resolver can pin it down.
pub open spec fn key_code(k: KeyView, r: ResolverView) -> Option<u32> {
    match k {
        KeyView::Code(c) => Some(c),
        KeyView::Sym(s) => (r.keycode_for)(s),
    }
}

/// The keycodes a binding's chord resolves to, sorted, or `None` when any
/// key cannot be pinned down — in which case nothing is claimed about it.
pub open spec fn codes_of(b: BindingView, r: ResolverView) -> Option<Seq<u32>> {
    if b.kind != Kind::Chord {
        None
    } else if forall|i: int| 0 <= i < b.keys.len() ==> (#[trigger] key_code(b.keys[i], r)) is Some {
        Some(sort_u32(Seq::new(b.keys.len(), |i: int| key_code(b.keys[i], r)->0)))
    } else {
        None
    }
}

fn keycodes_of<R: Resolver + ?Sized>(binding: &Binding, resolver: &R) -> (r: Option<Vec<u32>>)
    ensures
        match r {
            Some(v) => codes_of(binding@, resolver_view(resolver)) == Some(v@),
            None => codes_of(binding@, resolver_view(resolver)) is None,
        },
{
    let ghost rv = resolver_view(resolver);
    let ghost kv = keys_view(binding.keys@);
    if binding.kind != Kind::Chord {
        return None;
    }
    let mut out: Vec<u32> = Vec::new();
    let mut i: usize = 0;
    while i < binding.keys.len()
        invariant
            i <= binding.keys.len(),
            kv == keys_view(binding.keys@),
            rv == resolver_view(resolver),
            out@.len() == i,
            forall|k: int| 0 <= k < i ==> (#[trigger] key_code(kv[k], rv)) == Some(out@[k]),
        decreases binding.keys.len() - i,
    {
        proof {
            assert(kv[i as int] == binding.keys@[i as int]@);
        }
        let c = match &binding.keys[i] {
            Key::Code(c) => Some(*c),
            Key::Sym(s) => resolver.keycode_for(s.as_str()),
        };
        match c {
            Some(c) => out.push(c),
            None => {
                proof {
                    assert(key_code(kv[i as int], rv) is None);
                }
                return None;
            },
        }
        i += 1;
    }
    proof {
        assert(out@ =~= Seq::new(kv.len(), |k: int| key_code(kv[k], rv)->0));
    }
    Some(sort_codes(out))
}

/// Would both bindings be candidates for the very same key event? Same mode
/// and modifiers, no device-specific binding (which outranks `*` only for
/// its own device, which cannot be seen from here), same group, and the same
/// press/release, lock and inhibit passes.
pub open spec fn equally_applicable_spec(a: BindingView, b: BindingView) -> bool {
    &&& a.mode == b.mode
    &&& a.mods == b.mods
    &&& a.flags.input == "*"@
    &&& b.flags.input == "*"@
    &&& a.flags.group == b.flags.group
    &&& a.flags.release == b.flags.release
    &&& a.flags.locked == b.flags.locked
    &&& a.flags.inhibited == b.flags.inhibited
}

fn equally_applicable(a: &Binding, b: &Binding) -> (r: bool)
    ensures
        r == equally_applicable_spec(a@, b@),
{
    eq_chars(&chars_of(a.mode.as_str()), &chars_of(b.mode.as_str())) && a.mods.0 == b.mods.0
        && eq_lit(&chars_of(a.flags.input.as_str()), "*") && eq_lit(
        &chars_of(b.flags.input.as_str()),
        "*",
    ) && a.flags.group == b.flags.group && a.flags.release == b.flags.release
        && a.flags.locked == b.flags.locked && a.flags.inhibited == b.flags.inhibited
}

/// The first keycode binding, from index `j` on, that binding `i` loses to.
pub open spec fn winner_from(bs: Seq<BindingView>, r: ResolverView, i: int, j: int) -> Option<usize>
    decreases bs.len() - j,
{
    if j < 0 || j >= bs.len() {
        None
    } else if bs[j].bucket == Bucket::Keycode && codes_of(bs[j], r) == codes_of(bs[i], r)
        && equally_applicable_spec(bs[i], bs[j]) {
        Some(j as usize)
    } else {
        winner_from(bs, r, i, j + 1)
    }
}

/// Whether binding `i` is examined at all: a keysym binding whose keycodes
/// are known.
pub open spec fn examined(b: BindingView, r: ResolverView) -> bool {
    b.bucket == Bucket::Keysym && codes_of(b, r) is Some
}

/// The bindings with every examined one marked by the keycode binding that
/// beats it, or unmarked when none does.
pub open spec fn mark_spec(bs: Seq<BindingView>, r: ResolverView) -> Seq<BindingView> {
    Seq::new(
        bs.len(),
        |i: int|
            if examined(bs[i], r) {
                BindingView { shadowed_by: winner_from(bs, r, i, 0), ..bs[i] }
            } else {
                bs[i]
            },
    )
}

/// Mark bindings that never fire because another list is queried first.
///
/// sway walks the keycode list, then the keysym list, keeping the *first*
/// match whenever specificity ties, so an equally-applicable keycode binding
/// always beats a keysym one. An unmarked binding means "not known to be
/// shadowed", never "definitely fires".
pub fn mark_shadowed<R: Resolver + ?Sized>(bindings: &mut Vec<Binding>, resolver: &R)
    ensures
        bindings_view(final(bindings)@) == mark_spec(
            bindings_view(old(bindings)@),
            resolver_view(resolver),
        ),
{
    let ghost bs = bindings_view(bindings@);
    let ghost rv = resolver_view(resolver);
    let n = bindings.len();
    let mut codes: Vec<Option<Vec<u32>>> = Vec::new();
    let mut i: usize = 0;
    while i < n
        invariant
            i <= n == bindings.len(),
            bs == bindings_view(bindings@),
            rv == resolver_view(resolver),
            codes@.len() == i,
            forall|k: int|
                0 <= k < i ==> match #[trigger] codes@[k] {
                    Some(v) => codes_of(bs[k], rv) == Some(v@),
                    None => codes_of(bs[k], rv) is None,
                },
        decreases n - i,
    {
        proof {
            assert(bs[i as int] == bindings@[i as int]@);
        }
        codes.push(keycodes_of(&bindings[i], resolver));
        i += 1;
    }

    // The decision for each binding, from the bindings as they were.
    let mut marks: Vec<Option<Option<usize>>> = Vec::new();
    let mut i: usize = 0;
    while i < n
        invariant
            i <= n == bindings.len() == codes@.len(),
            bs == bindings_view(bindings@),
            forall|k: int|
                0 <= k < n ==> match #[trigger] codes@[k] {
                    Some(v) => codes_of(bs[k], rv) == Some(v@),
                    None => codes_of(bs[k], rv) is None,
                },
            marks@.len() == i,
            forall|k: int|
                0 <= k < i ==> #[trigger] marks@[k] == (if examined(bs[k], rv) {
                    Some(winner_from(bs, rv, k, 0))
                } else {
                    None::<Option<usize>>
                }),
        decreases n - i,
    {
        proof {
            assert(bs[i as int] == bindings@[i as int]@);
        }
        if bindings[i].bucket != Bucket::Keysym {
            marks.push(None);
            i += 1;
            continue;
        }
        let loser = match &codes[i] {
            Some(v) => v,
            None => {
                marks.push(None);
                i += 1;
                continue;
            },
        };
        let mut j: usize = 0;
        let mut winner: Option<usize> = None;
        proof {
            assert(codes@[i as int] is Some);
        }
        while j < n && winner.is_none()
            invariant
                j <= n == bindings.len() == codes@.len(),
                i < n,
                bs == bindings_view(bindings@),
                codes@[i as int] == Some(*loser),
                forall|k: int|
                    0 <= k < n ==> match #[trigger] codes@[k] {
                        Some(v) => codes_of(bs[k], rv) == Some(v@),
                        None => codes_of(bs[k], rv) is None,
                    },
                winner is None ==> winner_from(bs, rv, i as int, 0) == winner_from(
                    bs,
                    rv,
                    i as int,
                    j as int,
                ),
                winner matches Some(w) ==> winner_from(bs, rv, i as int, 0) == Some(w),
            decreases n - j,
        {
            proof {
                assert(bs[j as int] == bindings@[j as int]@);
                assert(codes@[j as int] == codes@[j as int]);
            }
            let same = match &codes[j] {
                Some(v) => {
                    let mut eq = v.len() == loser.len();
                    let mut k: usize = 0;
                    while eq && k < v.len()
                        invariant
                            k <= v.len(),
                            eq ==> v.len() == loser.len(),
                            eq ==> forall|m: int| 0 <= m < k ==> v@[m] == loser@[m],
                            !eq ==> v@ != loser@,
                        decreases v.len() - k,
                    {
                        if v[k] != loser[k] {
                            eq = false;
                        }
                        k += 1;
                    }
                    proof {
                        if eq {
                            assert(v@ =~= loser@);
                        }
                    }
                    eq
                },
                None => false,
            };
            if bindings[j].bucket == Bucket::Keycode && same && equally_applicable(
                &bindings[i],
                &bindings[j],
            ) {
                winner = Some(j);
            }
            j += 1;
        }
        marks.push(Some(winner));
        i += 1;
    }

    // Apply them.
    let mut i: usize = 0;
    while i < n
        invariant
            i <= n == bindings.len() == marks@.len(),
            bs.len() == n,
            forall|k: int|
                0 <= k < n ==> #[trigger] marks@[k] == (if examined(bs[k], rv) {
                    Some(winner_from(bs, rv, k, 0))
                } else {
                    None::<Option<usize>>
                }),
            forall|k: int| 0 <= k < i ==> #[trigger] bindings@[k]@ == mark_spec(bs, rv)[k],
            forall|k: int| i <= k < n ==> #[trigger] bindings@[k]@ == bs[k],
        decreases n - i,
    {
        let ghost before = bindings@;
        proof {
            assert(mark_spec(bs, rv)[i as int] == (if examined(bs[i as int], rv) {
                BindingView { shadowed_by: winner_from(bs, rv, i as int, 0), ..bs[i as int] }
            } else {
                bs[i as int]
            }));
        }
        if let Some(w) = marks[i] {
            let mut b = bindings.remove(i);
            proof {
                assert(b@ == bs[i as int]);
            }
            b.shadowed_by = w;
            proof {
                assert(b@ == BindingView { shadowed_by: w, ..bs[i as int] });
            }
            bindings.insert(i, b);
            proof {
                assert(bindings@ == before.update(i as int, bindings@[i as int]));
            }
        }
        proof {
            assert(bindings@[i as int]@ == mark_spec(bs, rv)[i as int]);
        }
        i += 1;
    }
    proof {
        assert(bindings_view(bindings@) =~= mark_spec(bs, rv));
    }
}

/// Marking only ever touches keysym bindings, and every mark names an
/// equally applicable keycode binding with the same keycodes: in the same
/// mode, with the same modifier mask, neither bound to one device, in the
/// same layout group and on the same press/release, lock and inhibit
/// passes.
pub proof fn lemma_marks_point_to_keycode_bindings(bs: Seq<BindingView>, r: ResolverView, i: int)
    requires
        bs.len() <= usize::MAX,
        0 <= i < bs.len(),
        bs[i].shadowed_by is None,
        mark_spec(bs, r)[i].shadowed_by is Some,
    ensures
        ({
            let j = mark_spec(bs, r)[i].shadowed_by->0 as int;
            &&& bs[i].bucket == Bucket::Keysym
            &&& 0 <= j < bs.len()
            &&& bs[j].bucket == Bucket::Keycode
            &&& codes_of(bs[j], r) == codes_of(bs[i], r)
            &&& equally_applicable_spec(bs[i], bs[j])
            &&& bs[j].mode == bs[i].mode
            &&& bs[j].mods == bs[i].mods
            &&& bs[j].flags.input == "*"@
            &&& bs[i].flags.input == "*"@
            &&& bs[j].flags.group == bs[i].flags.group
            &&& bs[j].flags.release == bs[i].flags.release
            &&& bs[j].flags.locked == bs[i].flags.locked
            &&& bs[j].flags.inhibited == bs[i].flags.inhibited
        }),
{
    lemma_winner_from(bs, r, i, 0);
}

proof fn lemma_winner_from(bs: Seq<BindingView>, r: ResolverView, i: int, j: int)
    requires
        0 <= j,
        bs.len() <= usize::MAX,
    ensures
        winner_from(bs, r, i, j) matches Some(w) ==> {
            &&& j <= w < bs.len()
            &&& bs[w as int].bucket == Bucket::Keycode
            &&& codes_of(bs[w as int], r) == codes_of(bs[i], r)
            &&& equally_applicable_spec(bs[i], bs[w as int])
        },
    decreases bs.len() - j,
{
    if j < bs.len() && !(bs[j].bucket == Bucket::Keycode && codes_of(bs[j], r) == codes_of(bs[i], r)
        && equally_applicable_spec(bs[i], bs[j])) {
        lemma_winner_from(bs, r, i, j + 1);
    }
}

} // verus!
