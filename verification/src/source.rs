//! Walking the config the way sway walks it: block structure, `set`
//! variables, and the decisions around `include`.
//!
//! Reading files, globbing and the IPC live with the caller. What is decided
//! here is everything that depends only on the text: which shape a line has,
//! what a `set` defines, what a command expands to, which block it sits in,
//! and where an `include` points.

use vstd::prelude::*;
use crate::lex::{LineView, LogicalLine};
use crate::text::{
    chars_of, decimal, decimal_chars, eq_lit, extend_chars, is_ws, is_ws_char, lead_ws_len,
    lemma_lead_ws_bound, seqs, slice_of, split_whitespace, split_ws, starts_with,
    starts_with_chars, starts_with_lit, string_of, strs, trim, trim_chars, trim_end,
    trim_end_chars, copy_strings, strings_of, chars_of_strings,
};
use crate::vars::{expand_spec, set_spec, Vars};

verus! {

/// One command line of the config, variables already expanded.
#[derive(Debug, Clone)]
pub struct Directive {
    pub text: String,
    /// Enclosing block headers, outermost first — e.g. `["mode \"resize\""]`.
    pub blocks: Vec<String>,
    /// The file it came from, as shown to a reader (`$HOME` shortened to `~`).
    pub file: String,
    pub line: u32,
    pub comment: Vec<String>,
}

pub struct DirectiveView {
    pub text: Seq<char>,
    pub blocks: Seq<Seq<char>>,
    pub file: Seq<char>,
    pub line: u32,
    pub comment: Seq<Seq<char>>,
}

impl View for Directive {
    type V = DirectiveView;

    open spec fn view(&self) -> DirectiveView {
        DirectiveView {
            text: self.text@,
            blocks: strs(self.blocks@),
            file: self.file@,
            line: self.line,
            comment: strs(self.comment@),
        }
    }
}

pub open spec fn directives_view(v: Seq<Directive>) -> Seq<DirectiveView> {
    v.map_values(|d: Directive| d@)
}

/// `file:line`.
pub open spec fn origin_spec(d: DirectiveView) -> Seq<char> {
    d.file + seq![':'] + decimal(d.line as nat)
}

impl Directive {
    /// `file:line`, for diagnostics and the machine-readable output.
    pub fn origin(&self) -> (r: String)
        ensures
            r@ == origin_spec(self@),
    {
        let mut v = chars_of(self.file.as_str());
        v.push(':');
        let n = decimal_chars(self.line);
        extend_chars(&mut v, &n);
        string_of(&v)
    }

    /// A copy of this directive.
    pub fn duplicate(&self) -> (r: Directive)
        ensures
            r@ == self@,
    {
        Directive {
            text: crate::text::copy_string(&self.text),
            blocks: copy_strings(&self.blocks),
            file: crate::text::copy_string(&self.file),
            line: self.line,
            comment: copy_strings(&self.comment),
        }
    }
}

/// The walked config.
pub struct Config {
    pub directives: Vec<Directive>,
    /// Root config path. `None` when only the IPC could supply the text.
    pub root: Option<String>,
    /// Non-fatal complaints, for stderr.
    pub warnings: Vec<String>,
}

/// A path shown with the home directory shortened to `~`.
pub open spec fn shorten_home_spec(path: Seq<char>, home: Option<Seq<char>>) -> Seq<char> {
    match home {
        Some(h) => if h.len() > 0 && starts_with(path, h) {
            seq!['~'] + path.skip(h.len() as int)
        } else {
            path
        },
        None => path,
    }
}

/// How a path is shown: with `$HOME` (when set and non-empty) replaced by
/// `~`.
pub fn shorten_home(path: &str, home: Option<&str>) -> (r: String)
    ensures
        r@ == shorten_home_spec(path@, match home {
            Some(h) => Some(h@),
            None => None,
        }),
{
    let p = chars_of(path);
    match home {
        Some(h) => {
            let hv = chars_of(h);
            if hv.len() > 0 && starts_with_chars(&p, &hv) {
                let mut out: Vec<char> = Vec::new();
                out.push('~');
                let rest = slice_of(&p, hv.len(), p.len());
                extend_chars(&mut out, &rest);
                proof {
                    assert(out@ =~= seq!['~'] + p@.skip(hv@.len() as int));
                }
                string_of(&out)
            } else {
                string_of(&p)
            }
        },
        None => string_of(&p),
    }
}

// ------------------------------------------------------------------ shapes
/// Which of the three shapes a logical line has.
#[derive(Debug)]
pub enum Kind {
    BlockOpen(String),
    BlockClose,
    Command,
}

pub enum KindView {
    BlockOpen(Seq<char>),
    BlockClose,
    Command,
}

/// The line ends in a `{` token that is not the whole line.
pub open spec fn opens_block(text: Seq<char>) -> bool {
    let t = split_ws(text);
    t.len() > 0 && t.last() == seq!['{'] && t[0] != seq!['{']
}

/// sway decides the shape on the last whitespace-separated token, so
/// `mode "x"{` is *not* a block — the brace has to be its own argument — and a
/// lone `{` is an invalid command rather than a block.
pub open spec fn classify_spec(text: Seq<char>) -> KindView {
    let t = split_ws(text);
    if opens_block(text) {
        KindView::BlockOpen(trim_end(text.drop_last()))
    } else if t.len() > 0 && t.last() == seq!['}'] {
        KindView::BlockClose
    } else {
        KindView::Command
    }
}

pub open spec fn kind_view(k: Kind) -> KindView {
    match k {
        Kind::BlockOpen(h) => KindView::BlockOpen(h@),
        Kind::BlockClose => KindView::BlockClose,
        Kind::Command => KindView::Command,
    }
}

/// Cutting the last byte off a line that opens a block lands on a character
/// boundary.
pub open spec fn classify_ok(text: Seq<char>) -> bool {
    opens_block(text) ==> (text.last() as u32) < 0x80
}

/// Whether `classify` can take this line: always, unless it opens a block
/// and ends in a character wider than one byte.
pub fn classifiable(text: &str) -> (r: bool)
    ensures
        r == classify_ok(text@),
{
    let v = chars_of(text);
    if v.len() == 0 {
        proof {
            assert(split_ws(v@).len() == 0);
        }
        return true;
    }
    if (v[v.len() - 1] as u32) < 0x80 {
        return true;
    }
    let t = split_whitespace(&v);
    proof {
        reveal_strlit("{");
        assert("{"@ =~= seq!['{']);
        if t.len() > 0 {
            assert(seqs(t@)[t.len() - 1] == t@[t.len() - 1]@);
            assert(seqs(t@)[0] == t@[0]@);
        }
    }
    !(t.len() > 0 && eq_lit(&t[t.len() - 1], "{") && !eq_lit(&t[0], "{"))
}

/// Which of the three shapes a logical line has.
pub fn classify(text: &str) -> (k: Kind)
    requires
        classify_ok(text@),
    ensures
        kind_view(k) == classify_spec(text@),
{
    let v = chars_of(text);
    let t = split_whitespace(&v);
    if t.len() > 0 && eq_lit(&t[t.len() - 1], "{") && !eq_lit(&t[0], "{") {
        proof {
            reveal_strlit("{");
            assert("{"@ =~= seq!['{']);
            assert(seqs(t@)[t.len() - 1] == t@[t.len() - 1]@);
            assert(seqs(t@)[0] == t@[0]@);
            assert(opens_block(v@));
            crate::text::lemma_split_ws_words(v@);
            assert(v@.len() > 0) by {
                if v@.len() == 0 {
                    assert(split_ws(v@).len() == 0);
                }
            }
        }
        let head = slice_of(&v, 0, v.len() - 1);
        let header = trim_end_chars(&head);
        proof {
            assert(head@ == v@.drop_last());
        }
        return Kind::BlockOpen(string_of(&header));
    }
    proof {
        reveal_strlit("{");
        reveal_strlit("}");
        assert("{"@ =~= seq!['{']);
        assert("}"@ =~= seq!['}']);
        if t.len() > 0 {
            assert(seqs(t@)[t.len() - 1] == t@[t.len() - 1]@);
            assert(seqs(t@)[0] == t@[0]@);
        }
    }
    if t.len() > 0 && eq_lit(&t[t.len() - 1], "}") {
        return Kind::BlockClose;
    }
    Kind::Command
}

/// Strip one layer of matching quotes.
pub open spec fn unquote_spec(s: Seq<char>) -> Seq<char> {
    if s.len() >= 2 && s[0] == '"' && s.last() == '"' {
        s.subrange(1, s.len() - 1)
    } else if s.len() >= 2 && s[0] == '\'' && s.last() == '\'' {
        s.subrange(1, s.len() - 1)
    } else {
        s
    }
}

/// Strip one layer of matching quotes, as sway does per argument.
pub fn unquote(s: &str) -> (r: String)
    ensures
        r@ == unquote_spec(s@),
{
    let v = chars_of(s);
    let r = unquote_chars(&v);
    string_of(&r)
}

fn unquote_chars(v: &Vec<char>) -> (r: Vec<char>)
    ensures
        r@ == unquote_spec(v@),
{
    let n = v.len();
    if n >= 2 && ((v[0] == '"' && v[n - 1] == '"') || (v[0] == '\'' && v[n - 1] == '\'')) {
        slice_of(v, 1, n - 1)
    } else {
        slice_of(v, 0, n)
    }
}

// ----------------------------------------------------------------- walking
/// Splits at the first whitespace character: the text before it and the
/// text after it.
pub open spec fn split_once_ws(s: Seq<char>) -> Option<(Seq<char>, Seq<char>)> {
    let k = crate::text::word_len(s);
    if k < s.len() {
        Some((s.take(k as int), s.skip(k + 1 as int)))
    } else {
        None
    }
}

/// What the walk has gathered so far.
pub struct WalkView {
    pub vars: Seq<(Seq<char>, Seq<char>)>,
    pub blocks: Seq<Seq<char>>,
    pub out: Seq<DirectiveView>,
    pub warnings: Seq<Seq<char>>,
}

/// The table after a `set` line (its text after `set `).
pub open spec fn define_spec(t: Seq<(Seq<char>, Seq<char>)>, rest: Seq<char>) -> Seq<
    (Seq<char>, Seq<char>),
> {
    match split_once_ws(trim(rest)) {
        Some((name, value)) => if name.len() > 0 && name[0] == '$' {
            set_spec(t, name, unquote_spec(expand_spec(t, trim(value))))
        } else {
            t
        },
        None => t,
    }
}

/// The state after one logical line of `file` (shown as `display` in
/// warnings and as `file` in directives), and the include pattern to
/// resolve, when the line is an `include`.
pub open spec fn step_spec(w: WalkView, display: Seq<char>, file: Seq<char>, l: LineView) -> (
    WalkView,
    Option<Seq<char>>,
) {
    match classify_spec(l.text) {
        KindView::BlockOpen(h) => (WalkView { blocks: w.blocks.push(h), ..w }, None),
        KindView::BlockClose => if w.blocks.len() > 0 {
            (WalkView { blocks: w.blocks.drop_last(), ..w }, None)
        } else {
            (
                WalkView {
                    warnings: w.warnings.push(
                        display + seq![':'] + decimal(l.line as nat) + ": unmatched '}'"@,
                    ),
                    ..w
                },
                None,
            )
        },
        KindView::Command => if starts_with(l.text, "set "@) {
            (WalkView { vars: define_spec(w.vars, l.text.skip(4)), ..w }, None)
        } else {
            let text = expand_spec(w.vars, l.text);
            if starts_with(text, "include "@) {
                (w, Some(trim(text.skip(8))))
            } else {
                (
                    WalkView {
                        out: w.out.push(
                            DirectiveView {
                                text: text,
                                blocks: w.blocks,
                                file: file,
                                line: l.line,
                                comment: l.comment,
                            },
                        ),
                        ..w
                    },
                    None,
                )
            }
        },
    }
}

/// The walk over a config: variables, the open blocks, and what came out.
pub struct Walker {
    vars: Vars,
    blocks: Vec<String>,
    out: Vec<Directive>,
    warnings: Vec<String>,
}

impl View for Walker {
    type V = WalkView;

    closed spec fn view(&self) -> WalkView {
        WalkView {
            vars: self.vars@,
            blocks: strs(self.blocks@),
            out: directives_view(self.out@),
            warnings: strs(self.warnings@),
        }
    }
}

impl Walker {
    pub closed spec fn wf(&self) -> bool {
        self.vars.wf()
    }

    /// A walk that has seen nothing yet; `warnings` are those gathered
    /// before it started.
    pub fn new(warnings: Vec<String>) -> (w: Walker)
        ensures
            w.wf(),
            w@.vars.len() == 0,
            w@.blocks.len() == 0,
            w@.out.len() == 0,
            w@.warnings == strs(warnings@),
    {
        let w = Walker { vars: Vars::default(), blocks: Vec::new(), out: Vec::new(), warnings };
        proof {
            assert(strs(w.blocks@).len() == 0);
            assert(directives_view(w.out@).len() == 0);
        }
        w
    }

    /// Add a non-fatal complaint.
    pub fn warn(&mut self, message: String)
        requires
            old(self).wf(),
        ensures
            final(self).wf(),
            final(self)@ == (WalkView { warnings: old(self)@.warnings.push(message@), ..old(self)@ }),
    {
        let ghost m = message@;
        self.warnings.push(message);
        proof {
            assert(strs(self.warnings@) =~= strs(old(self).warnings@).push(m));
        }
    }

    /// The directives gathered so far, and the warnings.
    pub fn finish(self) -> (r: (Vec<Directive>, Vec<String>))
        ensures
            directives_view(r.0@) == self@.out,
            strs(r.1@) == self@.warnings,
    {
        (self.out, self.warnings)
    }

    /// One logical line of `file`. `display` names the file in warnings;
    /// `file` is what the resulting directive records. Returns the pattern of
    /// an `include` line, which the caller resolves and walks before the next
    /// line.
    pub fn step(&mut self, display: &str, file: &str, line: &LogicalLine) -> (inc: Option<String>)
        requires
            old(self).wf(),
            classify_ok(line.text@),
        ensures
            final(self).wf(),
            (final(self)@, match inc {
                Some(s) => Some(s@),
                None => None,
            }) == step_spec(old(self)@, display@, file@, line@),
    {
        proof {
            reveal_strlit("set ");
            reveal_strlit("include ");
        }
        match classify(line.text.as_str()) {
            Kind::BlockOpen(header) => {
                let ghost h = header@;
                self.blocks.push(header);
                proof {
                    assert(strs(self.blocks@) =~= strs(old(self).blocks@).push(h));
                    assert(self@ == WalkView { blocks: old(self)@.blocks.push(h), ..old(self)@ });
                    assert(step_spec(old(self)@, display@, file@, line@) == (self@, None::<Seq<char>>));
                }
                None
            },
            Kind::BlockClose => {
                if self.blocks.len() > 0 {
                    self.blocks.pop();
                    proof {
                        assert(strs(self.blocks@) =~= strs(old(self).blocks@).drop_last());
                        assert(step_spec(old(self)@, display@, file@, line@) == (self@, None::<Seq<char>>));
                    }
                } else {
                    let mut m = chars_of(display);
                    m.push(':');
                    let n = decimal_chars(line.line);
                    extend_chars(&mut m, &n);
                    let tail = chars_of(": unmatched '}'");
                    extend_chars(&mut m, &tail);
                    let ghost mv = m@;
                    proof {
                        assert(mv =~= display@ + seq![':'] + decimal(line.line as nat)
                            + ": unmatched '}'"@);
                    }
                    self.warnings.push(string_of(&m));
                    proof {
                        assert(strs(self.warnings@) =~= strs(old(self).warnings@).push(mv));
                        assert(step_spec(old(self)@, display@, file@, line@) == (self@, None::<Seq<char>>));
                    }
                }
                None
            },
            Kind::Command => {
                let t = chars_of(line.text.as_str());
                if starts_with_lit(&t, "set ") {
                    let rest = slice_of(&t, 4, t.len());
                    proof {
                        assert(rest@ == line.text@.skip(4));
                    }
                    self.define(&rest);
                    return None;
                }
                let text = self.vars.expand(line.text.as_str());
                let tv = chars_of(text.as_str());
                if starts_with_lit(&tv, "include ") {
                    let rest = slice_of(&tv, 8, tv.len());
                    proof {
                        assert(rest@ == text@.skip(8));
                    }
                    let pat = trim_chars(&rest);
                    return Some(string_of(&pat));
                }
                let d = Directive {
                    text,
                    blocks: copy_strings(&self.blocks),
                    file: string_of(&chars_of(file)),
                    line: line.line,
                    comment: copy_strings(&line.comment),
                };
                let ghost dv = d@;
                proof {
                    assert(dv == DirectiveView {
                        text: expand_spec(old(self)@.vars, line@.text),
                        blocks: old(self)@.blocks,
                        file: file@,
                        line: line@.line,
                        comment: line@.comment,
                    });
                }
                self.out.push(d);
                proof {
                    assert(directives_view(self.out@) =~= directives_view(old(self).out@).push(dv));
                    assert(step_spec(old(self)@, display@, file@, line@) == (self@, None::<Seq<char>>));
                }
                None
            },
        }
    }

    /// `set $name value…` (the text after `set `). The name is never
    /// substituted; the value is expanded once, here, against the table as it
    /// stands at this point in the file.
    fn define(&mut self, rest: &Vec<char>)
        requires
            old(self).wf(),
        ensures
            final(self).wf(),
            final(self)@ == (WalkView { vars: define_spec(old(self)@.vars, rest@), ..old(self)@ }),
    {
        let s = trim_chars(rest);
        let mut k: usize = 0;
        while k < s.len() && !is_ws_char(s[k])
            invariant
                k <= s.len(),
                forall|i: int| 0 <= i < k ==> !is_ws(#[trigger] s@[i]),
            decreases s.len() - k,
        {
            k += 1;
        }
        proof {
            crate::text::lemma_word_len(s@, k as int);
        }
        if k == s.len() {
            return;
        }
        let name = slice_of(&s, 0, k);
        let value = slice_of(&s, k + 1, s.len());
        if !(name.len() > 0 && name[0] == '$') {
            return;
        }
        let tv = trim_chars(&value);
        let expanded = self.vars.expand(string_of(&tv).as_str());
        let ev = chars_of(expanded.as_str());
        let uq = unquote_chars(&ev);
        let name_s = string_of(&name);
        self.vars.set(name_s.as_str(), string_of(&uq));
    }
}

// ---------------------------------------------------------------- includes
/// `Path::join` on Unix: an absolute path replaces the base.
pub open spec fn join_path_spec(dir: Seq<char>, rel: Seq<char>) -> Seq<char> {
    if rel.len() > 0 && rel[0] == '/' {
        rel
    } else if dir.len() == 0 {
        rel
    } else if dir.last() == '/' {
        dir + rel
    } else {
        dir + seq!['/'] + rel
    }
}

pub fn join_path(dir: &str, rel: &str) -> (r: String)
    ensures
        r@ == join_path_spec(dir@, rel@),
{
    let d = chars_of(dir);
    let r = chars_of(rel);
    if r.len() > 0 && r[0] == '/' {
        return string_of(&r);
    }
    if d.len() == 0 {
        return string_of(&r);
    }
    let mut out = slice_of(&d, 0, d.len());
    if d[d.len() - 1] != '/' {
        out.push('/');
    }
    extend_chars(&mut out, &r);
    string_of(&out)
}

/// An ASCII letter, digit or underscore.
pub open spec fn is_name_char(c: char) -> bool {
    ('0' <= c <= '9') || ('A' <= c <= 'Z') || ('a' <= c <= 'z') || c == '_'
}

/// The value an environment snapshot gives a name, or empty.
pub open spec fn env_value(env: Seq<(Seq<char>, Seq<char>)>, name: Seq<char>) -> Seq<char>
    decreases env.len(),
{
    if env.len() == 0 {
        seq![]
    } else if env[0].0 == name {
        env[0].1
    } else {
        env_value(env.drop_first(), name)
    }
}

/// End of the run of name characters starting at `k`.
pub open spec fn name_end(b: Seq<char>, k: int) -> int
    decreases b.len() - k,
{
    if 0 <= k < b.len() && is_name_char(b[k]) {
        name_end(b, k + 1)
    } else {
        k
    }
}

/// `$VAR` and `${VAR}` expansion over a path, from character `i` on. Every
/// other character is kept as it is.
pub open spec fn env_expand_at(b: Seq<char>, env: Seq<(Seq<char>, Seq<char>)>, i: int) -> Seq<char>
    decreases b.len() - i,
{
    if i < 0 || i >= b.len() {
        seq![]
    } else if b[i] != '$' {
        seq![b[i]] + env_expand_at(b, env, i + 1)
    } else {
        let braced = i + 1 < b.len() && b[i + 1] == '{';
        let ns = if braced {
            i + 2
        } else {
            i + 1
        };
        let e = name_end(b, ns);
        if e <= ns || e > b.len() {
            seq!['$'] + env_expand_at(b, env, i + 1)
        } else {
            let next = if braced && e < b.len() && b[e] == '}' {
                e + 1
            } else {
                e
            };
            env_value(env, b.subrange(ns, e)) + env_expand_at(b, env, next)
        }
    }
}

/// The path after `~/` expansion.
pub open spec fn tilde_spec(s: Seq<char>, home: Option<Seq<char>>) -> Seq<char> {
    if starts_with(s, "~/"@) {
        match home {
            Some(h) => h + seq!['/'] + s.skip(2),
            None => s,
        }
    } else {
        s
    }
}

proof fn lemma_name_end(b: Seq<char>, k: int)
    requires
        0 <= k <= b.len(),
    ensures
        k <= name_end(b, k) <= b.len(),
        forall|j: int| k <= j < name_end(b, k) ==> is_name_char(#[trigger] b[j]),
        name_end(b, k) < b.len() ==> !is_name_char(b[name_end(b, k)]),
    decreases b.len() - k,
{
    if k < b.len() && is_name_char(b[k]) {
        lemma_name_end(b, k + 1);
    }
}

/// The env-var value for a name, from a snapshot of the environment.
fn env_lookup(env: &Vec<(String, String)>, name: &Vec<char>) -> (r: Vec<char>)
    ensures
        r@ == env_value(env_view(env@), name@),
{
    let mut i: usize = 0;
    proof {
        assert(env_view(env@).skip(0) == env_view(env@));
    }
    while i < env.len()
        invariant
            i <= env.len(),
            env_value(env_view(env@), name@) == env_value(env_view(env@).skip(i as int), name@),
        decreases env.len() - i,
    {
        let k = chars_of(env[i].0.as_str());
        proof {
            let s = env_view(env@).skip(i as int);
            assert(s[0] == env_view(env@)[i as int]);
            assert(s.drop_first() == env_view(env@).skip(i + 1));
        }
        if crate::text::eq_chars(&k, name) {
            return chars_of(env[i].1.as_str());
        }
        i += 1;
    }
    Vec::new()
}

pub open spec fn env_view(env: Seq<(String, String)>) -> Seq<(Seq<char>, Seq<char>)> {
    env.map_values(|p: (String, String)| (p.0@, p.1@))
}

/// The parts of `wordexp()` we are willing to do: `~/` and `$VAR`, given the
/// home directory and a snapshot of the environment. Globbing is left to the
/// caller, and command substitution is refused before this is reached.
pub fn shell_expand(s: &str, home: Option<&str>, env: &Vec<(String, String)>) -> (r: String)
    ensures
        r@ == env_expand_at(
            tilde_spec(s@, match home {
                Some(h) => Some(h@),
                None => None,
            }),
            env_view(env@),
            0,
        ),
{
    proof {
        reveal_strlit("~/");
    }
    let v = chars_of(s);
    let ghost hv: Option<Seq<char>> = match home {
        Some(h) => Some(h@),
        None => None,
    };
    let t = if starts_with_lit(&v, "~/") {
        match home {
            Some(h) => {
                let mut out = chars_of(h);
                out.push('/');
                let rest = slice_of(&v, 2, v.len());
                extend_chars(&mut out, &rest);
                proof {
                    assert(out@ =~= h@ + seq!['/'] + s@.skip(2));
                }
                string_of(&out)
            },
            None => string_of(&v),
        }
    } else {
        string_of(&v)
    };
    proof {
        assert(t@ == tilde_spec(s@, hv));
    }
    let b = chars_of(t.as_str());
    let mut out: Vec<char> = Vec::new();
    let mut i: usize = 0;
    while i < b.len()
        invariant
            i <= b.len(),
            out@ + env_expand_at(b@, env_view(env@), i as int) == env_expand_at(
                b@,
                env_view(env@),
                0,
            ),
        decreases b.len() - i,
    {
        if b[i] != '$' {
            out.push(b[i]);
            i += 1;
            continue;
        }
        let start = i + 1;
        let braced = start < b.len() && b[start] == '{';
        let name_start = if braced {
            start + 1
        } else {
            start
        };
        let mut end = name_start;
        while end < b.len() && (('0' <= b[end] && b[end] <= '9') || ('A' <= b[end] && b[end] <= 'Z')
            || ('a' <= b[end] && b[end] <= 'z') || b[end] == '_')
            invariant
                name_start <= end <= b.len(),
                name_end(b@, name_start as int) == name_end(b@, end as int),
            decreases b.len() - end,
        {
            end += 1;
        }
        proof {
            lemma_name_end(b@, name_start as int);
        }
        if end == name_start {
            out.push('$');
            i += 1;
            continue;
        }
        let name = slice_of(&b, name_start, end);
        let val = env_lookup(env, &name);
        extend_chars(&mut out, &val);
        i = if braced && end < b.len() && b[end] == '}' {
            end + 1
        } else {
            end
        };
    }
    proof {
        assert(out@ + seq![] == out@);
    }
    string_of(&out)
}

/// Before any expansion: an include path that asks for command
/// substitution is refused.
pub open spec fn refuses_substitution(p: Seq<char>) -> bool {
    (exists|i: int| 0 <= i < p.len() - 1 && #[trigger] p[i] == '$' && p[i + 1] == '(') || (exists|i: int|
        0 <= i < p.len() && p[i] == '`')
}

/// `pattern.contains("$(") || pattern.contains('`')`.
pub fn has_substitution(p: &Vec<char>) -> (r: bool)
    ensures
        r == refuses_substitution(p@),
{
    let mut i: usize = 0;
    while i < p.len()
        invariant
            i <= p.len(),
            forall|k: int| 0 <= k < i ==> #[trigger] p@[k] != '`',
            forall|k: int| 0 <= k < i && k + 1 < p.len() ==> !(#[trigger] p@[k] == '$' && p@[k
                + 1] == '('),
        decreases p.len() - i,
    {
        if p[i] == '`' || (p[i] == '$' && i + 1 < p.len() && p[i + 1] == '(') {
            return true;
        }
        i += 1;
    }
    false
}

/// Where an `include` points, or the refusal to say.
pub enum IncludeTarget {
    /// The expanded path or glob pattern, joined to the including file's
    /// directory when relative.
    Path(String),
    /// Command substitution was asked for; the message says so.
    Refused(String),
}

/// The pattern of an include line resolved against the directory of the
/// including file: one layer of quotes stripped, `~/` and `$VAR` expanded, and
/// made absolute against `dir` when relative. Command substitution is refused,
/// with a message naming `parent` and `line`.
pub open spec fn include_target_spec(
    dir: Seq<char>,
    pattern: Seq<char>,
    parent: Seq<char>,
    line: u32,
    home: Option<Seq<char>>,
    env: Seq<(Seq<char>, Seq<char>)>,
) -> (bool, Seq<char>) {
    let p = unquote_spec(pattern);
    if refuses_substitution(p) {
        (
            false,
            parent + seq![':'] + decimal(line as nat)
                + ": refusing to run command substitution in an include path: "@ + p,
        )
    } else {
        (true, join_path_spec(dir, env_expand_at(tilde_spec(p, home), env, 0)))
    }
}

pub fn include_target(
    dir: &str,
    pattern: &str,
    parent: &str,
    line: u32,
    home: Option<&str>,
    env: &Vec<(String, String)>,
) -> (r: IncludeTarget)
    ensures
        match r {
            IncludeTarget::Path(s) => include_target_spec(dir@, pattern@, parent@, line, match home {
                Some(h) => Some(h@),
                None => None,
            }, env_view(env@)) == (true, s@),
            IncludeTarget::Refused(s) => include_target_spec(dir@, pattern@, parent@, line, match home {
                Some(h) => Some(h@),
                None => None,
            }, env_view(env@)) == (false, s@),
        },
{
    let p = unquote(pattern);
    let pv = chars_of(p.as_str());
    if has_substitution(&pv) {
        let mut m = chars_of(parent);
        m.push(':');
        let n = decimal_chars(line);
        extend_chars(&mut m, &n);
        let tail = chars_of(": refusing to run command substitution in an include path: ");
        extend_chars(&mut m, &tail);
        extend_chars(&mut m, &pv);
        return IncludeTarget::Refused(string_of(&m));
    }
    let expanded = shell_expand(p.as_str(), home, env);
    IncludeTarget::Path(join_path(dir, expanded.as_str()))
}

/// A glob that matches nothing is silent in sway; a plain missing file is
/// worth saying out loud. The warning for an include that matched nothing,
/// if any.
pub open spec fn missing_include_spec(joined: Seq<char>, parent: Seq<char>, line: u32) -> Option<
    Seq<char>,
> {
    if exists|i: int| 0 <= i < joined.len() && (joined[i] == '*' || joined[i] == '?' || joined[i] == '[') {
        None
    } else {
        Some(parent + seq![':'] + decimal(line as nat) + ": include not found: "@ + joined)
    }
}

pub fn missing_include(joined: &str, parent: &str, line: u32) -> (r: Option<String>)
    ensures
        match r {
            Some(s) => missing_include_spec(joined@, parent@, line) == Some(s@),
            None => missing_include_spec(joined@, parent@, line) is None,
        },
{
    let j = chars_of(joined);
    let mut i: usize = 0;
    while i < j.len()
        invariant
            i <= j.len(),
            j@ == joined@,
            forall|k: int| 0 <= k < i ==> !(#[trigger] j@[k] == '*' || j@[k] == '?' || j@[k] == '['),
        decreases j.len() - i,
    {
        if j[i] == '*' || j[i] == '?' || j[i] == '[' {
            proof {
                let k = i as int;
                assert(0 <= k < joined@.len() && (joined@[k] == '*' || joined@[k] == '?'
                    || joined@[k] == '['));
            }
            return None;
        }
        i += 1;
    }
    let mut m = chars_of(parent);
    m.push(':');
    let n = decimal_chars(line);
    extend_chars(&mut m, &n);
    let tail = chars_of(": include not found: ");
    extend_chars(&mut m, &tail);
    extend_chars(&mut m, &j);
    Some(string_of(&m))
}


// --------------------------------------------------------------------- ipc
/// The message type of `GET_CONFIG` in the sway IPC.
pub const GET_CONFIG: u32 = 9;

/// The largest reply accepted: a config is text, not a stream, and anything
/// past a few MB is a bad frame.
pub const MAX_REPLY: u32 = 67108864;

/// `u32::to_ne_bytes`: the bytes of `n` in the machine's order. Every
/// target is little- or big-endian, so they read back as `n` one of the two
/// ways; which one is the machine's and is not stated.
#[verifier::external_body]
fn ne_bytes(n: u32) -> (r: [u8; 4])
    ensures
        le_value(r@) == n || be_value(r@) == n,
{
    n.to_ne_bytes()
}

/// The number whose bytes, least significant first, are `b`.
pub open spec fn le_value(b: Seq<u8>) -> int {
    b[0] + 256 * b[1] + 65536 * b[2] + 16777216 * b[3]
}

/// The number whose bytes, most significant first, are `b`.
pub open spec fn be_value(b: Seq<u8>) -> int {
    b[3] + 256 * b[2] + 65536 * b[1] + 16777216 * b[0]
}

/// `u32::from_ne_bytes`: the number whose bytes in the machine's order are
/// `b`. Every target is little- or big-endian, so that is one of the two
/// readings; which one is the machine's and is not stated.
#[verifier::external_body]
fn from_ne_bytes(b: [u8; 4]) -> (r: u32)
    ensures
        r as int == le_value(b@) || r as int == be_value(b@),
{
    u32::from_ne_bytes(b)
}

/// The IPC magic string.
pub open spec fn ipc_magic() -> Seq<u8> {
    seq![105u8, 51u8, 45u8, 105u8, 112u8, 99u8]
}

/// The `GET_CONFIG` request: the magic, an empty payload's length and the
/// message type, both native-endian (`man 7 sway-ipc`).
pub fn ipc_request() -> (r: Vec<u8>)
    ensures
        r@.len() == 14,
        r@.take(6) == ipc_magic(),
        r@.subrange(6, 10) == seq![0u8, 0u8, 0u8, 0u8],
        le_value(r@.subrange(10, 14)) == GET_CONFIG || be_value(r@.subrange(10, 14)) == GET_CONFIG,
{
    let mut msg: Vec<u8> = Vec::new();
    msg.push(105u8);
    msg.push(51u8);
    msg.push(45u8);
    msg.push(105u8);
    msg.push(112u8);
    msg.push(99u8);
    proof {
        assert(msg@.take(6) =~= ipc_magic());
    }
    let zero = ne_bytes(0);
    let kind = ne_bytes(GET_CONFIG);
    proof {
        let z = zero@;
        assert(z[0] + 256 * z[1] + 65536 * z[2] + 16777216 * z[3] == 0
            || z[3] + 256 * z[2] + 65536 * z[1] + 16777216 * z[0] == 0);
    }
    let mut i: usize = 0;
    while i < 4
        invariant
            i <= 4,
            msg@.len() == 6 + i,
            msg@.take(6) == ipc_magic(),
            le_value(zero@) == 0 || be_value(zero@) == 0,
            forall|k: int| 0 <= k < i ==> msg@[6 + k] == zero@[k],
        decreases 4 - i,
    {
        let ghost prev = msg@;
        msg.push(zero[i]);
        proof {
            assert(msg@.take(6) =~= prev.take(6));
        }
        i += 1;
    }
    proof {
        assert(zero@ =~= seq![0u8, 0u8, 0u8, 0u8]);
        assert(msg@.subrange(6, 10) =~= seq![0u8, 0u8, 0u8, 0u8]);
    }
    let mut j: usize = 0;
    while j < 4
        invariant
            j <= 4,
            msg@.len() == 10 + j,
            msg@.take(6) == ipc_magic(),
            msg@.subrange(6, 10) == seq![0u8, 0u8, 0u8, 0u8],
            forall|k: int| 0 <= k < j ==> msg@[10 + k] == kind@[k],
        decreases 4 - j,
    {
        let ghost prev = msg@;
        msg.push(kind[j]);
        proof {
            assert(msg@.take(6) =~= prev.take(6));
            assert(msg@.subrange(6, 10) =~= prev.subrange(6, 10));
        }
        j += 1;
    }
    proof {
        assert(msg@.subrange(10, 14) =~= kind@);
    }
    msg
}

/// Whether a reply header carries the IPC magic.
pub open spec fn header_ok(header: Seq<u8>) -> bool {
    header.len() >= 10 && header.take(6) == ipc_magic()
}

/// What [`reply_len`] makes of an announced length.
pub open spec fn reply_len_spec(len: int) -> Option<usize> {
    if 0 <= len <= MAX_REPLY {
        Some(len as usize)
    } else {
        None
    }
}

/// The payload length announced by a reply header, or `None` when the
/// header lacks the magic or announces more than [`MAX_REPLY`] bytes. The
/// length field (bytes 6 to 9) is read in the machine's byte order, which is
/// little- or big-endian.
pub fn ipc_reply_len(header: &[u8]) -> (r: Option<usize>)
    requires
        header@.len() == 14,
    ensures
        !header_ok(header@) ==> r is None,
        header_ok(header@) ==> (r == reply_len_spec(le_value(header@.subrange(6, 10)))
            || r == reply_len_spec(be_value(header@.subrange(6, 10)))),
{
    let magic: [u8; 6] = [105u8, 51u8, 45u8, 105u8, 112u8, 99u8];
    let mut i: usize = 0;
    while i < 6
        invariant
            i <= 6,
            header@.len() == 14,
            magic@ == ipc_magic(),
            forall|k: int| 0 <= k < i ==> header@[k] == ipc_magic()[k],
        decreases 6 - i,
    {
        if header[i] != magic[i] {
            proof {
                assert(header@.take(6)[i as int] != ipc_magic()[i as int]);
            }
            return None;
        }
        i += 1;
    }
    proof {
        assert(header@.take(6) =~= ipc_magic());
    }
    let field: [u8; 4] = [header[6], header[7], header[8], header[9]];
    proof {
        assert(field@ =~= header@.subrange(6, 10));
    }
    let len = from_ne_bytes(field);
    reply_len(len)
}

/// An announced payload length, accepted when it is at most [`MAX_REPLY`].
pub fn reply_len(len: u32) -> (r: Option<usize>)
    ensures
        r == (if len <= MAX_REPLY {
            Some(len as usize)
        } else {
            None
        }),
{
    if len > MAX_REPLY {
        None
    } else {
        Some(len as usize)
    }
}

// ------------------------------------------------------------------- root
/// The warning when the running sway loaded a config other than the file
/// found on disk: the running one is used, includes resolved from the file's
/// directory.
pub open spec fn mismatch_warning_spec(path: Seq<char>, disk: Seq<char>, ipc: Seq<char>) -> Option<
    Seq<char>,
> {
    if disk == ipc {
        None
    } else {
        Some(
            "running sway loaded a config that differs from "@ + path
                + "; using the running one, resolving includes from that directory"@,
        )
    }
}

pub fn mismatch_warning(path: &str, disk: &str, ipc: &str) -> (r: Option<String>)
    ensures
        match r {
            Some(w) => mismatch_warning_spec(path@, disk@, ipc@) == Some(w@),
            None => mismatch_warning_spec(path@, disk@, ipc@) is None,
        },
{
    let d = chars_of(disk);
    let i = chars_of(ipc);
    if crate::text::eq_chars(&d, &i) {
        return None;
    }
    let mut m = chars_of("running sway loaded a config that differs from ");
    extend_chars(&mut m, &chars_of(path));
    extend_chars(&mut m, &chars_of("; using the running one, resolving includes from that directory"));
    Some(string_of(&m))
}

/// An optional text, by its characters.
pub open spec fn text_view(o: Option<String>) -> Option<Seq<char>> {
    match o {
        Some(s) => Some(s@),
        None => None,
    }
}

/// A config file found on disk, by its path and what reading it gave: its
/// text, or why it could not be read.
pub open spec fn found_view(found: Option<(String, Result<String, String>)>) -> Option<
    (Seq<char>, Result<Seq<char>, Seq<char>>),
> {
    match found {
        Some((p, Ok(t))) => Some((p@, Ok(t@))),
        Some((p, Err(e))) => Some((p@, Err(e@))),
        None => None,
    }
}

/// Which root config to walk, from the file the search path found (if any)
/// and what the running sway reported (if it runs): its path, its text and a
/// warning, or why there is none. The running sway's text wins, and a file
/// that differs from it is reported; without sway the file is read as it
/// is; without a file relative includes cannot be resolved.
pub open spec fn root_spec(
    found: Option<(Seq<char>, Result<Seq<char>, Seq<char>>)>,
    ipc: Option<Seq<char>>,
) -> Result<(Option<Seq<char>>, Seq<char>, Option<Seq<char>>), Seq<char>> {
    match (found, ipc) {
        (Some((p, disk)), Some(t)) => Ok(
            (
                Some(p),
                t,
                mismatch_warning_spec(
                    p,
                    match disk {
                        Ok(d) => d,
                        Err(_) => seq![],
                    },
                    t,
                ),
            ),
        ),
        (Some((p, disk)), None) => match disk {
            Ok(d) => Ok((Some(p), d, None)),
            Err(e) => Err(p + ": "@ + e),
        },
        (None, Some(t)) => Ok(
            (
                None,
                t,
                Some(
                    "sway is running but no config file was found in the search path; relative includes cannot be resolved"@,
                ),
            ),
        ),
        (None, None) => Err("no sway config found and sway is not running (try --config PATH)"@),
    }
}

/// Which root config to walk: see `root_spec`.
pub fn choose_root(found: Option<(String, Result<String, String>)>, ipc: Option<String>) -> (r: Result<
    (Option<String>, String, Option<String>),
    String,
>)
    ensures
        match r {
            Ok((p, t, w)) => root_spec(found_view(found), text_view(ipc)) matches Ok((rp, rt, rw)) && rp
                == text_view(p) && rt == t@ && rw == text_view(w),
            Err(e) => root_spec(found_view(found), text_view(ipc)) matches Err(re) && re == e@,
        },
{
    match found {
        Some((p, disk)) => match ipc {
            Some(t) => {
                let d = match disk {
                    Ok(d) => d,
                    Err(_) => String::new(),
                };
                let w = mismatch_warning(p.as_str(), d.as_str(), t.as_str());
                Ok((Some(p), t, w))
            },
            None => match disk {
                Ok(d) => Ok((Some(p), d, None)),
                Err(e) => {
                    let mut m = chars_of(p.as_str());
                    extend_chars(&mut m, &chars_of(": "));
                    extend_chars(&mut m, &chars_of(e.as_str()));
                    Err(string_of(&m))
                },
            },
        },
        None => match ipc {
            Some(t) => {
                let w = string_of(
                    &chars_of(
                        "sway is running but no config file was found in the search path; relative includes cannot be resolved",
                    ),
                );
                Ok((None, t, Some(w)))
            },
            None => Err(string_of(&chars_of("no sway config found and sway is not running (try --config PATH)"))),
        },
    }
}

/// Two byte strings are equal.
fn eq_bytes(a: &Vec<u8>, b: &Vec<u8>) -> (r: bool)
    ensures
        r == (a@ == b@),
{
    if a.len() != b.len() {
        return false;
    }
    let mut i: usize = 0;
    while i < a.len()
        invariant
            i <= a.len() == b.len(),
            forall|k: int| 0 <= k < i ==> a@[k] == b@[k],
        decreases a.len() - i,
    {
        if a[i] != b[i] {
            return false;
        }
        i += 1;
    }
    proof {
        assert(a@ =~= b@);
    }
    true
}

/// The byte strings of a list, by their contents.
pub open spec fn byte_seqs(v: Seq<Vec<u8>>) -> Seq<Seq<u8>> {
    v.map_values(|b: Vec<u8>| b@)
}

/// Note a file as visited, by the bytes of its canonical path. `true` the
/// first time a path is seen, so a cycle of includes terminates.
pub fn mark_seen(seen: &mut Vec<Vec<u8>>, canonical: Vec<u8>) -> (first: bool)
    ensures
        first == !byte_seqs(old(seen)@).contains(canonical@),
        byte_seqs(final(seen)@) == (if first {
            byte_seqs(old(seen)@).push(canonical@)
        } else {
            byte_seqs(old(seen)@)
        }),
{
    let mut i: usize = 0;
    while i < seen.len()
        invariant
            i <= seen.len(),
            forall|k: int| 0 <= k < i ==> (#[trigger] seen@[k])@ != canonical@,
        decreases seen.len() - i,
    {
        if eq_bytes(&seen[i], &canonical) {
            proof {
                assert(byte_seqs(seen@)[i as int] == canonical@);
            }
            return false;
        }
        i += 1;
    }
    let ghost before = byte_seqs(seen@);
    proof {
        assert forall|k: int| 0 <= k < before.len() implies before[k] != canonical@ by {
            assert(before[k] == seen@[k]@);
        }
    }
    let ghost rv = canonical@;
    seen.push(canonical);
    proof {
        assert(byte_seqs(seen@) =~= before.push(rv));
    }
    true
}

/// The config directory: `$XDG_CONFIG_HOME` when set and non-empty, else
/// `$HOME/.config`.
pub open spec fn config_home(home: Option<Seq<char>>, xdg: Option<Seq<char>>) -> Option<Seq<char>> {
    match xdg {
        Some(x) if x.len() > 0 => Some(x),
        _ => match home {
            Some(h) => Some(join_path_spec(h, ".config"@)),
            None => None,
        },
    }
}

pub open spec fn joined_if(base: Option<Seq<char>>, rel: Seq<char>) -> Seq<Seq<char>> {
    match base {
        Some(b) => seq![join_path_spec(b, rel)],
        None => seq![],
    }
}

/// Config search order, straight out of `man sway(1)`, given `$HOME` and
/// `$XDG_CONFIG_HOME`.
pub open spec fn search_path_spec(home: Option<Seq<char>>, xdg: Option<Seq<char>>) -> Seq<Seq<char>> {
    let x = config_home(home, xdg);
    joined_if(home, ".sway/config"@) + joined_if(x, "sway/config"@) + joined_if(home, ".i3/config"@)
        + joined_if(x, "i3/config"@) + seq!["/etc/sway/config"@, "/etc/i3/config"@]
}

fn push_joined(v: &mut Vec<String>, base: &Option<String>, rel: &str)
    ensures
        strs(final(v)@) == strs(old(v)@) + joined_if(
            match base {
                Some(b) => Some(b@),
                None => None,
            },
            rel@,
        ),
{
    match base {
        Some(b) => {
            let j = join_path(b.as_str(), rel);
            let ghost jv = j@;
            v.push(j);
            proof {
                assert(strs(v@) =~= strs(old(v)@) + seq![jv]);
            }
        },
        None => {
            proof {
                assert(strs(v@) =~= strs(old(v)@) + Seq::<Seq<char>>::empty());
            }
        },
    }
}

/// Where to look for the config, in order.
pub fn search_path(home: Option<&str>, xdg: Option<&str>) -> (r: Vec<String>)
    ensures
        strs(r@) == search_path_spec(
            match home {
                Some(h) => Some(h@),
                None => None,
            },
            match xdg {
                Some(x) => Some(x@),
                None => None,
            },
        ),
{
    let h: Option<String> = match home {
        Some(h) => Some(string_of(&chars_of(h))),
        None => None,
    };
    let x: Option<String> = match xdg {
        Some(v) if v.unicode_len() > 0 => Some(string_of(&chars_of(v))),
        _ => match home {
            Some(hh) => Some(join_path(hh, ".config")),
            None => None,
        },
    };
    let mut out: Vec<String> = Vec::new();
    push_joined(&mut out, &h, ".sway/config");
    push_joined(&mut out, &x, "sway/config");
    push_joined(&mut out, &h, ".i3/config");
    push_joined(&mut out, &x, "i3/config");
    let ghost before = strs(out@);
    out.push(string_of(&chars_of("/etc/sway/config")));
    out.push(string_of(&chars_of("/etc/i3/config")));
    proof {
        assert(strs(out@) =~= before + seq!["/etc/sway/config"@, "/etc/i3/config"@]);
    }
    out
}
} // verus!
