//! Line mechanics of the sway config format.
//!
//! This follows sway's own read loop (`read_config`), because the details are
//! load-bearing and none of them are what you would guess:
//!
//! * A trailing backslash continues the line, and the next physical line is
//!   appended *verbatim* — leading whitespace included. A line whose very
//!   first character is `#` never continues.
//! * Only *whole* lines are comments. `bindsym $mod+x exec foo # note` keeps
//!   `# note` as part of the command.
//! * An opening brace may sit on its own line. sway looks ahead past blank
//!   lines — but not past comments — to find it.

use vstd::prelude::*;
use crate::text::{
    chars_of, ends_with, extend_chars, lemma_trim_shape, seqs, slice_of,
    split_char, split_on, starts_with, string_of, strings_of, strs, trim, trim_chars,
};

verus! {

/// One logical line: continuations joined, whitespace stripped, never empty
/// and never a comment.
#[derive(Debug, Clone)]
pub struct LogicalLine {
    pub text: String,
    /// 1-based number of the first physical line this came from.
    pub line: u32,
    /// The contiguous run of `#` comment lines directly above, `#` and one
    /// following space removed. Empty when the line had no comment block.
    pub comment: Vec<String>,
}

/// What a logical line is, as values.
pub struct LineView {
    pub text: Seq<char>,
    pub line: u32,
    pub comment: Seq<Seq<char>>,
}

impl View for LogicalLine {
    type V = LineView;

    open spec fn view(&self) -> LineView {
        LineView { text: self.text@, line: self.line, comment: strs(self.comment@) }
    }
}

pub open spec fn lines_view(v: Seq<LogicalLine>) -> Seq<LineView> {
    v.map_values(|l: LogicalLine| l@)
}

/// A physical line with the `\r` of a `\r\n` ending removed.
pub open spec fn strip_cr(l: Seq<char>) -> Seq<char> {
    if l.len() > 0 && l.last() == '\r' {
        l.drop_last()
    } else {
        l
    }
}

/// `str::lines`: split at `\n`, drop the `\r` of a `\r\n`, and no empty
/// line after a final newline.
pub open spec fn phys_lines(s: Seq<char>) -> Seq<Seq<char>> {
    let p = split_on(s, '\n');
    let n = if p.len() > 0 && p.last().len() == 0 {
        p.len() - 1
    } else {
        p.len() as int
    };
    Seq::new(
        n as nat,
        |i: int|
            if i < p.len() - 1 {
                strip_cr(p[i])
            } else {
                p[i]
            },
    )
}

/// Backslash continuation from physical line `k` on, with `text` gathered so
/// far: the joined text and the index of the next unread line.
pub open spec fn cont_from(phys: Seq<Seq<char>>, text: Seq<char>, k: int) -> (Seq<char>, int)
    decreases phys.len() - k,
{
    if 0 <= k < phys.len() && !starts_with(text, seq!['#']) && ends_with(text, seq!['\\']) {
        cont_from(phys, text.drop_last() + phys[k], k + 1)
    } else {
        (text, k)
    }
}

/// `detect_brace`: skipping blank lines, is the first line with content a
/// lone `{`? The count of lines to consume when it is.
pub open spec fn detect_brace_spec(rest: Seq<Seq<char>>) -> Option<nat>
    decreases rest.len(),
{
    if rest.len() == 0 {
        None
    } else if trim(rest[0]).len() == 0 {
        match detect_brace_spec(rest.drop_first()) {
            Some(n) => Some(n + 1),
            None => None,
        }
    } else if trim(rest[0]) == seq!['{'] {
        Some(1)
    } else {
        None
    }
}

/// The text of a comment line after its `#`, with one following space
/// removed.
pub open spec fn comment_body(st: Seq<char>) -> Seq<char> {
    let rest = st.drop_first();
    if rest.len() > 0 && rest[0] == ' ' {
        rest.drop_first()
    } else {
        rest
    }
}

/// The logical lines from physical line `i` on, with `comment` the comment
/// block gathered above it.
pub open spec fn lines_from(phys: Seq<Seq<char>>, i: int, comment: Seq<Seq<char>>) -> Seq<
    LineView,
>
    decreases phys.len() - i,
{
    if i < 0 || i >= phys.len() {
        seq![]
    } else {
        let (text, j) = cont_from(phys, phys[i], i + 1);
        let st = trim(text);
        if !(i < j <= phys.len()) {
            seq![]
        } else if st.len() == 0 {
            lines_from(phys, j, seq![])
        } else if st[0] == '#' {
            lines_from(phys, j, comment.push(comment_body(st)))
        } else {
            let braced = !ends_with(st, seq!['{']) && !ends_with(st, seq!['}']);
            let (t, j2) = if braced {
                match detect_brace_spec(phys.skip(j)) {
                    Some(c) => (st + seq![' ', '{'], j + c),
                    None => (st, j),
                }
            } else {
                (st, j)
            };
            if j <= j2 <= phys.len() {
                seq![LineView { text: t, line: (i + 1) as u32, comment: comment }] + lines_from(
                    phys,
                    j2,
                    seq![],
                )
            } else {
                seq![]
            }
        }
    }
}

/// Config text as sway reads it.
pub open spec fn logical_lines_spec(content: Seq<char>) -> Seq<LineView> {
    lines_from(phys_lines(content), 0, seq![])
}

proof fn lemma_cont_from(phys: Seq<Seq<char>>, text: Seq<char>, k: int)
    requires
        0 <= k <= phys.len(),
    ensures
        k <= cont_from(phys, text, k).1 <= phys.len(),
    decreases phys.len() - k,
{
    if 0 <= k < phys.len() && !starts_with(text, seq!['#']) && ends_with(text, seq!['\\']) {
        lemma_cont_from(phys, text.drop_last() + phys[k], k + 1);
    }
}

proof fn lemma_detect_brace(rest: Seq<Seq<char>>)
    ensures
        detect_brace_spec(rest) matches Some(n) ==> 0 < n <= rest.len(),
    decreases rest.len(),
{
    if rest.len() > 0 && trim(rest[0]).len() == 0 {
        lemma_detect_brace(rest.drop_first());
    }
}

proof fn lemma_line_numbers_from(phys: Seq<Seq<char>>, i: int, comment: Seq<Seq<char>>)
    requires
        0 <= i,
        phys.len() < u32::MAX,
    ensures
        forall|k: int|
            0 <= k < lines_from(phys, i, comment).len() ==> i < (#[trigger] lines_from(
                phys,
                i,
                comment,
            )[k]).line <= phys.len(),
        forall|a: int, b: int|
            0 <= a < b < lines_from(phys, i, comment).len() ==> (#[trigger] lines_from(
                phys,
                i,
                comment,
            )[a]).line < (#[trigger] lines_from(phys, i, comment)[b]).line,
    decreases phys.len() - i,
{
    let l = lines_from(phys, i, comment);
    if i < phys.len() {
        let (text, j) = cont_from(phys, phys[i], i + 1);
        lemma_cont_from(phys, phys[i], i + 1);
        let st = trim(text);
        if !(i < j <= phys.len()) {
        } else if st.len() == 0 {
            lemma_line_numbers_from(phys, j, seq![]);
            assert(l == lines_from(phys, j, seq![]));
        } else if st[0] == '#' {
            lemma_line_numbers_from(phys, j, comment.push(comment_body(st)));
            assert(l == lines_from(phys, j, comment.push(comment_body(st))));
        } else {
            let braced = !ends_with(st, seq!['{']) && !ends_with(st, seq!['}']);
            let (t, j2) = if braced {
                match detect_brace_spec(phys.skip(j)) {
                    Some(c) => (st + seq![' ', '{'], j + c),
                    None => (st, j),
                }
            } else {
                (st, j)
            };
            if j <= j2 <= phys.len() {
                lemma_line_numbers_from(phys, j2, seq![]);
                let head = seq![LineView { text: t, line: (i + 1) as u32, comment: comment }];
                let rest = lines_from(phys, j2, seq![]);
                assert(l == head + rest);
                assert(l[0].line == i + 1);
                assert forall|k: int| 0 <= k < l.len() implies i < (#[trigger] l[k]).line <= phys.len() by {
                    if k > 0 {
                        assert(l[k] == rest[k - 1]);
                    }
                }
                assert forall|a: int, b: int| 0 <= a < b < l.len() implies (#[trigger] l[a]).line < (
                #[trigger] l[b]).line by {
                    assert(l[b] == rest[b - 1]);
                    if a > 0 {
                        assert(l[a] == rest[a - 1]);
                    }
                }
            }
        }
    }
}

/// Line numbers count physical lines from 1, never pass the last one, and
/// strictly increase down the logical lines.
pub proof fn lemma_line_numbers(content: Seq<char>)
    requires
        phys_lines(content).len() < u32::MAX,
    ensures
        forall|k: int|
            0 <= k < logical_lines_spec(content).len() ==> 1 <= (#[trigger] logical_lines_spec(
                content,
            )[k]).line <= phys_lines(content).len(),
        forall|a: int, b: int|
            0 <= a < b < logical_lines_spec(content).len() ==> (#[trigger] logical_lines_spec(
                content,
            )[a]).line < (#[trigger] logical_lines_spec(content)[b]).line,
{
    lemma_line_numbers_from(phys_lines(content), 0, seq![]);
}

/// Every logical line is non-empty, trimmed, and not a comment.
pub proof fn lemma_lines_shape(phys: Seq<Seq<char>>, i: int, comment: Seq<Seq<char>>)
    ensures
        forall|k: int|
            0 <= k < lines_from(phys, i, comment).len() ==> {
                let t = (#[trigger] lines_from(phys, i, comment)[k]).text;
                &&& t.len() > 0
                &&& t[0] != '#'
                &&& t == trim(t)
            },
    decreases phys.len() - i,
{
    if 0 <= i < phys.len() {
        let (text, j) = cont_from(phys, phys[i], i + 1);
        lemma_cont_from(phys, phys[i], i + 1);
        let st = trim(text);
        if st.len() == 0 {
            lemma_lines_shape(phys, j, seq![]);
            assert(lines_from(phys, i, comment) == lines_from(phys, j, seq![]));
        } else if st[0] == '#' {
            lemma_lines_shape(phys, j, comment.push(comment_body(st)));
            assert(lines_from(phys, i, comment) == lines_from(
                phys,
                j,
                comment.push(comment_body(st)),
            ));
        } else {
            let braced = !ends_with(st, seq!['{']) && !ends_with(st, seq!['}']);
            lemma_detect_brace(phys.skip(j));
            let (t, j2) = if braced {
                match detect_brace_spec(phys.skip(j)) {
                    Some(c) => (st + seq![' ', '{'], j + c),
                    None => (st, j),
                }
            } else {
                (st, j)
            };
            lemma_lines_shape(phys, j2, seq![]);
            lemma_trim_shape(text);
            lemma_trim_idem(st);
            if t != st {
                assert(t[0] == st[0]);
                assert(t.last() == '{');
                lemma_trim_keeps(t);
            }
            let head = seq![LineView { text: t, line: (i + 1) as u32, comment: comment }];
            let rest = lines_from(phys, j2, seq![]);
            assert(lines_from(phys, i, comment) == head + rest);
            assert forall|k: int| 0 <= k < lines_from(phys, i, comment).len() implies {
                let u = (#[trigger] lines_from(phys, i, comment)[k]).text;
                &&& u.len() > 0
                &&& u[0] != '#'
                &&& u == trim(u)
            } by {
                if k > 0 {
                    assert(lines_from(phys, i, comment)[k] == rest[k - 1]);
                }
            }
        }
    }
}

/// One-character prefix and suffix tests.
proof fn lemma_first_last(s: Seq<char>)
    ensures
        forall|c: char| #[trigger] starts_with(s, seq![c]) == (s.len() > 0 && s[0] == c),
        forall|c: char| #[trigger] ends_with(s, seq![c]) == (s.len() > 0 && s.last() == c),
{
    assert forall|c: char| #[trigger] starts_with(s, seq![c]) == (s.len() > 0 && s[0] == c) by {
        if s.len() > 0 {
            if s[0] == c {
                assert(s.take(1) =~= seq![c]);
            }
            if s.take(1) == seq![c] {
                assert(s.take(1)[0] == s[0]);
            }
        }
    }
    assert forall|c: char| #[trigger] ends_with(s, seq![c]) == (s.len() > 0 && s.last() == c) by {
        if s.len() > 0 {
            if s.last() == c {
                assert(s.skip(s.len() - 1) =~= seq![c]);
            }
            if s.skip(s.len() - 1) == seq![c] {
                assert(s.skip(s.len() - 1)[0] == s.last());
            }
        }
    }
}

proof fn lemma_trim_idem(s: Seq<char>)
    requires
        s.len() == 0 || (!crate::text::is_ws(s[0]) && !crate::text::is_ws(s.last())),
    ensures
        trim(s) == s,
{
    crate::text::lemma_lead_ws(s, 0);
    assert(s.skip(0) == s);
    crate::text::lemma_trail_ws(s, 0);
    assert(s.take(s.len() as int) == s);
}

proof fn lemma_trim_keeps(s: Seq<char>)
    requires
        s.len() > 0,
        !crate::text::is_ws(s[0]),
        !crate::text::is_ws(s.last()),
    ensures
        trim(s) == s,
{
    lemma_trim_idem(s);
}

/// `str::lines`.
fn physical_lines(content: &Vec<char>) -> (r: Vec<Vec<char>>)
    ensures
        seqs(r@) == phys_lines(content@),
{
    let p = split_char(content, '\n');
    let ghost ps = seqs(p@);
    let n = if p[p.len() - 1].len() == 0 {
        p.len() - 1
    } else {
        p.len()
    };
    let mut r: Vec<Vec<char>> = Vec::new();
    let mut i: usize = 0;
    while i < n
        invariant
            i <= n <= p.len(),
            ps == seqs(p@),
            ps == split_on(content@, '\n'),
            n == (if ps.last().len() == 0 {
                ps.len() - 1
            } else {
                ps.len() as int
            }),
            r@.len() == i,
            forall|k: int| 0 <= k < i ==> (#[trigger] r@[k])@ == phys_lines(content@)[k],
        decreases n - i,
    {
        let l = &p[i];
        let piece = if i + 1 < p.len() && l.len() > 0 && l[l.len() - 1] == '\r' {
            slice_of(l, 0, l.len() - 1)
        } else {
            slice_of(l, 0, l.len())
        };
        proof {
            assert(ps[i as int] == l@);
            assert(l@.take(l@.len() as int) == l@);
        }
        r.push(piece);
        i += 1;
    }
    proof {
        assert(seqs(r@) =~= phys_lines(content@));
    }
    r
}

/// `detect_brace`.
fn detect_brace(phys: &Vec<Vec<char>>, from: usize) -> (r: Option<usize>)
    requires
        from <= phys.len(),
    ensures
        r matches Some(n) ==> detect_brace_spec(seqs(phys@).skip(from as int)) == Some(n as nat),
        r is None ==> detect_brace_spec(seqs(phys@).skip(from as int)) is None,
{
    let mut k = from;
    while k < phys.len()
        invariant
            from <= k <= phys.len(),
            forall|m: int| from <= m < k ==> trim((#[trigger] seqs(phys@)[m])).len() == 0,
        decreases phys.len() - k,
    {
        let t = trim_chars(&phys[k]);
        if t.len() > 0 {
            let brace = t.len() == 1 && t[0] == '{';
            proof {
                assert(seqs(phys@)[k as int] == phys@[k as int]@);
                lemma_detect_brace_at(seqs(phys@), from as int, k as int);
                if brace {
                    assert(t@ =~= seq!['{']);
                }
                if t@ == seq!['{'] {
                    assert(t@[0] == '{');
                }
                assert(brace == (trim(seqs(phys@)[k as int]) == seq!['{']));
            }
            return if brace {
                Some(k - from + 1)
            } else {
                None
            };
        }
        proof {
            assert(seqs(phys@)[k as int] == phys@[k as int]@);
        }
        k += 1;
    }
    proof {
        lemma_detect_brace_end(seqs(phys@), from as int);
    }
    None
}

proof fn lemma_detect_brace_at(p: Seq<Seq<char>>, from: int, k: int)
    requires
        0 <= from <= k < p.len(),
        forall|m: int| from <= m < k ==> trim((#[trigger] p[m])).len() == 0,
        trim(p[k]).len() > 0,
    ensures
        detect_brace_spec(p.skip(from)) == (if trim(p[k]) == seq!['{'] {
            Some((k - from + 1) as nat)
        } else {
            None
        }),
    decreases k - from,
{
    let r = p.skip(from);
    assert(r[0] == p[from]);
    if from < k {
        assert(r.drop_first() == p.skip(from + 1));
        lemma_detect_brace_at(p, from + 1, k);
    }
}

proof fn lemma_detect_brace_end(p: Seq<Seq<char>>, from: int)
    requires
        0 <= from <= p.len(),
        forall|m: int| from <= m < p.len() ==> trim((#[trigger] p[m])).len() == 0,
    ensures
        detect_brace_spec(p.skip(from)) is None,
    decreases p.len() - from,
{
    let r = p.skip(from);
    if from < p.len() {
        assert(r[0] == p[from]);
        assert(r.drop_first() == p.skip(from + 1));
        lemma_detect_brace_end(p, from + 1);
    }
}

/// Split config text into logical lines the way sway does.
pub fn logical_lines(content: &str) -> (out: Vec<LogicalLine>)
    requires
        phys_lines(content@).len() < u32::MAX,
    ensures
        lines_view(out@) == logical_lines_spec(content@),
{
    let chars = chars_of(content);
    let phys = physical_lines(&chars);
    let ghost ph = seqs(phys@);
    let mut out: Vec<LogicalLine> = Vec::new();
    let mut comment: Vec<Vec<char>> = Vec::new();
    let mut i: usize = 0;
    proof {
        assert(seqs(comment@) =~= Seq::<Seq<char>>::empty());
        assert(lines_view(out@) =~= Seq::<LineView>::empty());
    }

    while i < phys.len()
        invariant
            i <= phys.len() < u32::MAX,
            ph == seqs(phys@),
            ph == phys_lines(content@),
            lines_view(out@) + lines_from(ph, i as int, seqs(comment@)) == logical_lines_spec(
                content@,
            ),
        decreases phys.len() - i,
    {
        let start = i;
        let mut text = slice_of(&phys[i], 0, phys[i].len());
        i += 1;
        proof {
            assert(phys[start as int]@.take(phys[start as int]@.len() as int) == phys[start as int]@);
            assert(ph[start as int] == phys@[start as int]@);
        }
        while !(text.len() > 0 && text[0] == '#') && (text.len() > 0 && text[text.len() - 1]
            == '\\') && i < phys.len()
            invariant
                start < i <= phys.len(),
                ph == seqs(phys@),
                cont_from(ph, text@, i as int) == cont_from(ph, ph[start as int], start + 1),
            decreases phys.len() - i,
        {
            proof {
                lemma_first_last(text@);
            }
            text.pop();
            extend_chars(&mut text, &phys[i]);
            proof {
                assert(ph[i as int] == phys@[i as int]@);
            }
            i += 1;
        }
        proof {
            lemma_first_last(text@);
        }
        let ghost cur = seqs(comment@);
        proof {
            assert(cont_from(ph, text@, i as int) == (text@, i as int));
        }
        let stripped = trim_chars(&text);
        if stripped.len() == 0 {
            comment = Vec::new();
            proof {
                assert(seqs(comment@) =~= Seq::<Seq<char>>::empty());
                assert(lines_from(ph, start as int, cur) == lines_from(ph, i as int, seq![]));
            }
            continue;
        }
        if stripped[0] == '#' {
            let body = if stripped.len() > 1 && stripped[1] == ' ' {
                slice_of(&stripped, 2, stripped.len())
            } else {
                slice_of(&stripped, 1, stripped.len())
            };
            proof {
                assert(body@ == comment_body(stripped@));
            }
            comment.push(body);
            proof {
                assert(seqs(comment@) =~= cur.push(comment_body(stripped@)));
                assert(lines_from(ph, start as int, cur) == lines_from(
                    ph,
                    i as int,
                    cur.push(comment_body(stripped@)),
                ));
            }
            continue;
        }
        let mut t = stripped;
        let ghost st = t@;
        let ghost j = i as int;
        proof {
            lemma_first_last(t@);
            lemma_detect_brace(ph.skip(i as int));
        }
        if !(t[t.len() - 1] == '{') && !(t[t.len() - 1] == '}') {
            match detect_brace(&phys, i) {
                Some(consumed) => {
                    proof {
                        lemma_detect_brace(ph.skip(i as int));
                    }
                    i += consumed;
                    t.push(' ');
                    t.push('{');
                    proof {
                        assert(t@ =~= st + seq![' ', '{']);
                    }
                },
                None => {},
            }
        }
        let text_s = string_of(&t);
        let comment_s = strings_of(&comment);
        let ghost before = out@;
        out.push(LogicalLine { text: text_s, line: start as u32 + 1, comment: comment_s });
        comment = Vec::new();
        proof {
            assert(seqs(comment@) =~= Seq::<Seq<char>>::empty());
            assert(lines_view(out@) =~= lines_view(before) + seq![out@.last()@]);
            assert(out@.last()@ == LineView { text: t@, line: (start + 1) as u32, comment: cur });
            assert(lines_from(ph, start as int, cur) == seq![
                LineView { text: t@, line: (start + 1) as u32, comment: cur },
            ] + lines_from(ph, i as int, seq![]));
        }
    }
    out
}

} // verus!
