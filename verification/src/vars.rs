//! `set $var value` and the substitution that goes with it.
//!
//! Three things about sway's substitution (`do_var_replacement`) are easy to
//! get wrong, and each is part of the contracts below:
//!
//! * Symbols are kept sorted longest-name-first (by UTF-8 length) and matched
//!   as a *prefix* of the text at `$`, so `$mod1` wins over `$mod` — there is no
//!   word boundary involved.
//! * Substitution is a single left-to-right pass and scanning resumes *after*
//!   the inserted value, so a value containing `$foo` is not re-expanded.
//! * `set` stores a value as given; expanding it first is the caller's job, so
//!   a later redefinition never reaches back into a value already stored.

use vstd::prelude::*;
use crate::text::{chars_of, eq_chars, extend_chars, slice_of, starts_with, starts_with_chars, string_of};

verus! {

/// Bytes `c` takes in UTF-8 (`char::len_utf8`).
pub open spec fn char_utf8_len(c: char) -> nat {
    if (c as u32) < 0x80 {
        1
    } else if (c as u32) < 0x800 {
        2
    } else if (c as u32) < 0x10000 {
        3
    } else {
        4
    }
}

/// Bytes `s` takes in UTF-8 (`str::len`).
pub open spec fn utf8_len(s: Seq<char>) -> nat
    decreases s.len(),
{
    if s.len() == 0 {
        0
    } else {
        utf8_len(s.drop_last()) + char_utf8_len(s.last())
    }
}

fn utf8_len_of(v: &Vec<char>) -> (n: u128)
    ensures
        n == utf8_len(v@),
{
    let mut n: u128 = 0;
    let mut i: usize = 0;
    while i < v.len()
        invariant
            i <= v.len(),
            n == utf8_len(v@.take(i as int)),
            n <= 4 * i,
        decreases v.len() - i,
    {
        let c = v[i] as u32;
        let w: u128 = if c < 0x80 {
            1
        } else if c < 0x800 {
            2
        } else if c < 0x10000 {
            3
        } else {
            4
        };
        proof {
            assert(v@.take(i + 1).drop_last() == v@.take(i as int));
            assert(v@.take(i + 1).last() == v@[i as int]);
        }
        n = n + w;
        i += 1;
    }
    proof {
        assert(v@.take(v.len() as int) == v@);
    }
    n
}

/// Variable table, kept in sway's longest-name-first order.
#[derive(Debug, Clone)]
pub struct Vars {
    syms: Vec<(Vec<char>, Vec<char>)>,
}

/// The table as (name, value) pairs, in lookup order.
pub open spec fn sym_view(syms: Seq<(Vec<char>, Vec<char>)>) -> Seq<(Seq<char>, Seq<char>)> {
    syms.map_values(|p: (Vec<char>, Vec<char>)| (p.0@, p.1@))
}

impl View for Vars {
    type V = Seq<(Seq<char>, Seq<char>)>;

    closed spec fn view(&self) -> Seq<(Seq<char>, Seq<char>)> {
        sym_view(self.syms@)
    }
}

/// Well-formed table: names are non-empty and distinct, and sorted by
/// non-increasing UTF-8 length.
pub open spec fn table_wf(t: Seq<(Seq<char>, Seq<char>)>) -> bool {
    &&& forall|i: int| 0 <= i < t.len() ==> (#[trigger] t[i]).0.len() > 0
    &&& forall|i: int, j: int| 0 <= i < j < t.len() ==> (#[trigger] t[i]).0 != (#[trigger] t[j]).0
    &&& forall|i: int, j: int|
        0 <= i < j < t.len() ==> utf8_len((#[trigger] t[i]).0) >= utf8_len((#[trigger] t[j]).0)
}

/// Index of the entry named `name`.
pub open spec fn find_name(t: Seq<(Seq<char>, Seq<char>)>, name: Seq<char>) -> Option<nat>
    decreases t.len(),
{
    if t.len() == 0 {
        None
    } else if t.last().0 == name {
        Some((t.len() - 1) as nat)
    } else {
        find_name(t.drop_last(), name)
    }
}

/// Where a new name of `len` bytes goes: before the first shorter name, so
/// names of equal length keep the order they were defined in.
pub open spec fn insert_pos(t: Seq<(Seq<char>, Seq<char>)>, len: nat) -> nat
    decreases t.len(),
{
    if t.len() == 0 {
        0
    } else if utf8_len(t[0].0) < len {
        0
    } else {
        1 + insert_pos(t.drop_first(), len)
    }
}

/// The table after `set(name, value)`.
pub open spec fn set_spec(t: Seq<(Seq<char>, Seq<char>)>, name: Seq<char>, value: Seq<char>) -> Seq<
    (Seq<char>, Seq<char>),
> {
    match find_name(t, name) {
        Some(k) => t.update(k as int, (name, value)),
        None => t.insert(insert_pos(t, utf8_len(name)) as int, (name, value)),
    }
}

/// The value a name is bound to.
pub open spec fn lookup(t: Seq<(Seq<char>, Seq<char>)>, name: Seq<char>) -> Option<Seq<char>> {
    match find_name(t, name) {
        Some(k) => Some(t[k as int].1),
        None => None,
    }
}

/// Index of the first entry whose name is a prefix of `rest`, from `k` on.
pub open spec fn first_prefix(t: Seq<(Seq<char>, Seq<char>)>, rest: Seq<char>, k: int) -> Option<nat>
    decreases t.len() - k,
{
    if k < 0 || k >= t.len() {
        None
    } else if starts_with(rest, t[k].0) {
        Some(k as nat)
    } else {
        first_prefix(t, rest, k + 1)
    }
}

/// A `$` at `i` is escaped by one backslash, but not by a backslash that is
/// itself escaped.
pub open spec fn escaped(s: Seq<char>, i: int) -> bool {
    i > 0 && s[i - 1] == '\\' && !(i > 1 && s[i - 2] == '\\')
}

/// The expansion of `s` from position `i` on.
pub open spec fn expand_at(t: Seq<(Seq<char>, Seq<char>)>, s: Seq<char>, i: int) -> Seq<char>
    decreases s.len() - i,
{
    if i < 0 || i >= s.len() {
        seq![]
    } else if s[i] != '$' {
        seq![s[i]] + expand_at(t, s, i + 1)
    } else if escaped(s, i) {
        seq!['$'] + expand_at(t, s, i + 1)
    } else if i + 1 < s.len() && s[i + 1] == '$' {
        seq!['$'] + expand_at(t, s, i + 2)
    } else {
        match first_prefix(t, s.skip(i), 0) {
            Some(k) => if k < t.len() && t[k as int].0.len() > 0 && i + t[k as int].0.len()
                <= s.len() {
                t[k as int].1 + expand_at(t, s, i + t[k as int].0.len())
            } else {
                seq!['$'] + expand_at(t, s, i + 1)
            },
            None => seq!['$'] + expand_at(t, s, i + 1),
        }
    }
}

/// Every `$var` in `s` replaced, in one pass.
pub open spec fn expand_spec(t: Seq<(Seq<char>, Seq<char>)>, s: Seq<char>) -> Seq<char> {
    expand_at(t, s, 0)
}

proof fn lemma_find_name(t: Seq<(Seq<char>, Seq<char>)>, name: Seq<char>)
    ensures
        find_name(t, name) matches Some(k) ==> k < t.len() && t[k as int].0 == name,
        find_name(t, name) is None ==> forall|i: int| 0 <= i < t.len() ==> (#[trigger] t[i]).0
            != name,
    decreases t.len(),
{
    if t.len() > 0 && t.last().0 != name {
        lemma_find_name(t.drop_last(), name);
        assert forall|i: int| 0 <= i < t.len() - 1 implies (#[trigger] t[i]).0 == t.drop_last()[i].0 by {}
    }
}

proof fn lemma_find_name_unique(t: Seq<(Seq<char>, Seq<char>)>, name: Seq<char>, k: int)
    requires
        table_wf(t),
        0 <= k < t.len(),
        t[k].0 == name,
    ensures
        find_name(t, name) == Some(k as nat),
    decreases t.len(),
{
    if k < t.len() - 1 {
        assert(t.last().0 != name);
        let u = t.drop_last();
        assert(table_wf(u)) by {
            assert forall|i: int| 0 <= i < u.len() implies (#[trigger] u[i]) == t[i] by {}
        }
        lemma_find_name_unique(u, name, k);
    }
}

proof fn lemma_insert_pos(t: Seq<(Seq<char>, Seq<char>)>, len: nat)
    requires
        table_wf(t),
    ensures
        insert_pos(t, len) <= t.len(),
        forall|i: int| 0 <= i < insert_pos(t, len) ==> utf8_len((#[trigger] t[i]).0) >= len,
        forall|i: int| insert_pos(t, len) <= i < t.len() ==> utf8_len((#[trigger] t[i]).0) < len,
    decreases t.len(),
{
    if t.len() > 0 && utf8_len(t[0].0) >= len {
        let u = t.drop_first();
        assert(table_wf(u)) by {
            assert forall|i: int| 0 <= i < u.len() implies (#[trigger] u[i]) == t[i + 1] by {}
        }
        lemma_insert_pos(u, len);
        assert forall|i: int| 0 <= i < insert_pos(t, len) implies utf8_len((#[trigger] t[i]).0)
            >= len by {
            if i > 0 {
                assert(t[i] == u[i - 1]);
            }
        }
        assert forall|i: int| insert_pos(t, len) <= i < t.len() implies utf8_len(
            (#[trigger] t[i]).0,
        ) < len by {
            assert(t[i] == u[i - 1]);
        }
    } else if t.len() > 0 {
        assert forall|i: int| 0 <= i < t.len() implies utf8_len((#[trigger] t[i]).0) < len by {
            if i > 0 {
                assert(utf8_len(t[0].0) >= utf8_len(t[i].0));
            }
        }
    }
}

/// Defining a name keeps the table well-formed, binds the name to the value,
/// and leaves every other binding as it was.
pub proof fn lemma_set_law(t: Seq<(Seq<char>, Seq<char>)>, name: Seq<char>, value: Seq<char>)
    requires
        table_wf(t),
        name.len() > 0,
    ensures
        table_wf(set_spec(t, name, value)),
        lookup(set_spec(t, name, value), name) == Some(value),
        forall|other: Seq<char>|
            other != name ==> #[trigger] lookup(set_spec(t, name, value), other) == lookup(
                t,
                other,
            ),
{
    let r = set_spec(t, name, value);
    lemma_find_name(t, name);
    match find_name(t, name) {
        Some(k) => {
            assert(table_wf(r));
            lemma_find_name_unique(r, name, k as int);
            assert forall|other: Seq<char>| other != name implies #[trigger] lookup(r, other)
                == lookup(t, other) by {
                lemma_find_name(t, other);
                if let Some(j) = find_name(t, other) {
                    lemma_find_name_unique(r, other, j as int);
                } else {
                    lemma_find_name(r, other);
                    assert forall|i: int| 0 <= i < r.len() implies (#[trigger] r[i]).0 != other by {
                        if i != k {
                            assert(r[i] == t[i]);
                        }
                    }
                    lemma_find_name_none(r, other);
                }
            }
        },
        None => {
            let p = insert_pos(t, utf8_len(name)) as int;
            lemma_insert_pos(t, utf8_len(name));
            assert forall|i: int| 0 <= i < r.len() implies (#[trigger] r[i]) == (if i < p {
                t[i]
            } else if i == p {
                (name, value)
            } else {
                t[i - 1]
            }) by {}
            assert(table_wf(r));
            lemma_find_name_unique(r, name, p);
            assert forall|other: Seq<char>| other != name implies #[trigger] lookup(r, other)
                == lookup(t, other) by {
                lemma_find_name(t, other);
                if let Some(j) = find_name(t, other) {
                    let jj = if j < p {
                        j as int
                    } else {
                        j + 1 as int
                    };
                    assert(r[jj] == t[j as int]);
                    lemma_find_name_unique(r, other, jj);
                } else {
                    assert forall|i: int| 0 <= i < r.len() implies (#[trigger] r[i]).0 != other by {
                        if i < p {
                            assert(r[i] == t[i]);
                        } else if i > p {
                            assert(r[i] == t[i - 1]);
                        }
                    }
                    lemma_find_name_none(r, other);
                }
            }
        },
    }
}

proof fn lemma_find_name_none(t: Seq<(Seq<char>, Seq<char>)>, name: Seq<char>)
    requires
        forall|i: int| 0 <= i < t.len() ==> (#[trigger] t[i]).0 != name,
    ensures
        find_name(t, name) is None,
    decreases t.len(),
{
    if t.len() > 0 {
        let u = t.drop_last();
        assert forall|i: int| 0 <= i < u.len() implies (#[trigger] u[i]).0 != name by {
            assert(u[i] == t[i]);
        }
        lemma_find_name_none(u, name);
    }
}

/// When two names are both prefixes of the text at a `$`, expansion takes
/// the longer one (by UTF-8 length).
pub proof fn lemma_longest_name_wins(t: Seq<(Seq<char>, Seq<char>)>, rest: Seq<char>, j: int)
    requires
        table_wf(t),
        0 <= j < t.len(),
        starts_with(rest, t[j].0),
    ensures
        first_prefix(t, rest, 0) matches Some(k) && k <= j && utf8_len(t[k as int].0) >= utf8_len(
            t[j].0,
        ),
{
    lemma_first_prefix(t, rest, 0, j);
}

proof fn lemma_first_prefix(t: Seq<(Seq<char>, Seq<char>)>, rest: Seq<char>, k: int, j: int)
    requires
        table_wf(t),
        0 <= k <= j < t.len(),
        starts_with(rest, t[j].0),
    ensures
        first_prefix(t, rest, k) matches Some(m) && k <= m <= j && utf8_len(t[m as int].0)
            >= utf8_len(t[j].0),
    decreases j - k,
{
    if !starts_with(rest, t[k].0) {
        lemma_first_prefix(t, rest, k + 1, j);
    } else if k < j {
        assert(utf8_len(t[k].0) >= utf8_len(t[j].0));
    }
}

impl Default for Vars {
    /// An empty table.
    fn default() -> (v: Vars)
        ensures
            v@ == Seq::<(Seq<char>, Seq<char>)>::empty(),
            v.wf(),
    {
        let v = Vars { syms: Vec::new() };
        proof {
            assert(v@ =~= Seq::<(Seq<char>, Seq<char>)>::empty());
        }
        v
    }
}

impl Vars {
    pub open spec fn wf(&self) -> bool {
        table_wf(self@)
    }

    /// Define or redefine `name`. The value is stored as given — expand it
    /// first if it came from a config line.
    pub fn set(&mut self, name: &str, value: String)
        requires
            old(self).wf(),
            name@.len() > 0,
        ensures
            final(self).wf(),
            final(self)@ == set_spec(old(self)@, name@, value@),
    {
        let n = chars_of(name);
        let v = chars_of(value.as_str());
        proof {
            lemma_find_name(self@, name@);
        }
        let mut i = self.syms.len();
        while i > 0
            invariant
                i <= self.syms.len(),
                self.syms@ == old(self).syms@,
                self.wf(),
                n@ == name@,
                v@ == value@,
                name@.len() > 0,
                forall|k: int| i <= k < self.syms@.len() ==> (#[trigger] self.syms@[k]).0@ != n@,
            decreases i,
        {
            if eq_chars(&self.syms[i - 1].0, &n) {
                let k = i - 1;
                proof {
                    lemma_find_name_unique(self@, name@, k as int);
                }
                let ghost before = self.syms@;
                let ghost nv = n@;
                let ghost vv = v@;
                self.syms.set(k, (n, v));
                proof {
                    assert(nv == name@ && vv == value@);
                    assert forall|j: int| 0 <= j < self@.len() implies #[trigger] self@[j]
                        == set_spec(old(self)@, name@, value@)[j] by {
                        if j != k {
                            assert(self.syms@[j] == before[j]);
                        }
                    }
                    assert(self@ =~= set_spec(old(self)@, name@, value@));
                    lemma_set_law(old(self)@, name@, value@);
                }
                return;
            }
            i -= 1;
        }
        proof {
            assert forall|k: int| 0 <= k < self@.len() implies (#[trigger] self@[k]).0 != name@ by {
                assert(self@[k].0 == self.syms@[k].0@);
            }
            lemma_find_name_none(self@, name@);
            lemma_insert_pos(self@, utf8_len(name@));
        }
        let len = utf8_len_of(&n);
        let mut p: usize = 0;
        while p < self.syms.len() && utf8_len_of(&self.syms[p].0) >= len
            invariant
                p <= self.syms.len(),
                self.syms@ == old(self).syms@,
                self.wf(),
                len == utf8_len(name@),
                name@.len() > 0,
                forall|k: int| 0 <= k < p ==> utf8_len((#[trigger] self@[k]).0) >= len,
            decreases self.syms.len() - p,
        {
            p += 1;
        }
        proof {
            if p < self@.len() {
                assert(self@[p as int].0 == self.syms@[p as int].0@);
            }
            lemma_insert_pos_is(self@, len as nat, p as int);
        }
        self.syms.insert(p, (n, v));
        proof {
            assert(self@ =~= set_spec(old(self)@, name@, value@));
            lemma_set_law(old(self)@, name@, value@);
        }
    }

    /// Substitute every `$var` in `s`.
    pub fn expand(&self, s: &str) -> (r: String)
        requires
            self.wf(),
        ensures
            r@ == expand_spec(self@, s@),
    {
        let b = chars_of(s);
        let mut out: Vec<char> = Vec::new();
        let mut i: usize = 0;
        while i < b.len()
            invariant
                i <= b.len(),
                b@ == s@,
                self.wf(),
                out@ + expand_at(self@, b@, i as int) == expand_at(self@, b@, 0),
            decreases b.len() - i,
        {
            if b[i] != '$' {
                out.push(b[i]);
                i += 1;
                continue;
            }
            let escaped = i > 0 && b[i - 1] == '\\' && !(i > 1 && b[i - 2] == '\\');
            if escaped {
                out.push('$');
                i += 1;
                continue;
            }
            if i + 1 < b.len() && b[i + 1] == '$' {
                out.push('$');
                i += 2;
                continue;
            }
            let rest = slice_of(&b, i, b.len());
            let mut k: usize = 0;
            while k < self.syms.len() && !starts_with_chars(&rest, &self.syms[k].0)
                invariant
                    k <= self.syms.len(),
                    rest@ == b@.skip(i as int),
                    first_prefix(self@, rest@, 0) == first_prefix(self@, rest@, k as int),
                decreases self.syms.len() - k,
            {
                k += 1;
            }
            if k < self.syms.len() {
                let ghost name = self@[k as int].0;
                proof {
                    assert(self@[k as int].0 == self.syms@[k as int].0@);
                    assert(self@[k as int].1 == self.syms@[k as int].1@);
                    assert(name.len() > 0);
                }
                let ghost before = out@;
                extend_chars(&mut out, &self.syms[k].1);
                proof {
                    assert(starts_with(rest@, name));
                    assert(i + name.len() <= b.len());
                }
                i += self.syms[k].0.len();
                proof {
                    assert(out@ + expand_at(self@, b@, i as int) == before + expand_at(
                        self@,
                        b@,
                        i - name.len(),
                    ));
                }
            } else {
                proof {
                    assert(first_prefix(self@, rest@, k as int) is None);
                }
                out.push('$');
                i += 1;
            }
        }
        proof {
            assert(out@ + seq![] == out@);
        }
        string_of(&out)
    }
}

proof fn lemma_insert_pos_is(t: Seq<(Seq<char>, Seq<char>)>, len: nat, p: int)
    requires
        table_wf(t),
        0 <= p <= t.len(),
        forall|k: int| 0 <= k < p ==> utf8_len((#[trigger] t[k]).0) >= len,
        p == t.len() || utf8_len(t[p].0) < len,
    ensures
        insert_pos(t, len) == p,
{
    lemma_insert_pos(t, len);
    let q = insert_pos(t, len) as int;
    if q < p {
        assert(utf8_len(t[q].0) >= len);
    } else if p < q {
        assert(utf8_len(t[p].0) >= len);
    }
}


// ------------------------------------------------------- order of `set`
proof fn lemma_first_prefix_basic(t: Seq<(Seq<char>, Seq<char>)>, rest: Seq<char>, k: int)
    requires
        0 <= k,
    ensures
        first_prefix(t, rest, k) matches Some(m) ==> k <= m < t.len() && starts_with(rest, t[m as int].0),
        first_prefix(t, rest, k) is None ==> forall|j: int| k <= j < t.len() ==> !starts_with(rest, #[trigger] t[j].0),
    decreases t.len() - k,
{
    if k < t.len() && !starts_with(rest, t[k].0) {
        lemma_first_prefix_basic(t, rest, k + 1);
    }
}

proof fn lemma_utf8_concat(a: Seq<char>, b: Seq<char>)
    ensures
        utf8_len(a + b) == utf8_len(a) + utf8_len(b),
    decreases b.len(),
{
    if b.len() == 0 {
        assert(a + b =~= a);
    } else {
        lemma_utf8_concat(a, b.drop_last());
        assert((a + b).drop_last() =~= a + b.drop_last());
        assert((a + b).last() == b.last());
    }
}

proof fn lemma_utf8_at_least_len(s: Seq<char>)
    ensures
        utf8_len(s) >= s.len(),
    decreases s.len(),
{
    if s.len() > 0 {
        lemma_utf8_at_least_len(s.drop_last());
    }
}

/// Two prefixes of one text with the same UTF-8 length are the same.
proof fn lemma_prefix_same_len(a: Seq<char>, b: Seq<char>, rest: Seq<char>)
    requires
        starts_with(rest, a),
        starts_with(rest, b),
        utf8_len(a) == utf8_len(b),
    ensures
        a == b,
{
    if a.len() < b.len() {
        assert(b.take(a.len() as int) =~= a);
        assert(b =~= a + b.skip(a.len() as int));
        lemma_utf8_concat(a, b.skip(a.len() as int));
        lemma_utf8_at_least_len(b.skip(a.len() as int));
    } else if b.len() < a.len() {
        assert(a.take(b.len() as int) =~= b);
        assert(a =~= b + a.skip(b.len() as int));
        lemma_utf8_concat(b, a.skip(b.len() as int));
        lemma_utf8_at_least_len(a.skip(b.len() as int));
    } else {
        assert(a =~= b);
    }
}

/// A name is in a well-formed table exactly when it has a value there.
proof fn lemma_in_table(t: Seq<(Seq<char>, Seq<char>)>, j: int)
    requires
        table_wf(t),
        0 <= j < t.len(),
    ensures
        lookup(t, t[j].0) == Some(t[j].1),
{
    lemma_find_name_unique(t, t[j].0, j);
}

/// Tables that give every name the same value find the same entry for a
/// `$` in the same text.
proof fn lemma_first_prefix_same(
    t1: Seq<(Seq<char>, Seq<char>)>,
    t2: Seq<(Seq<char>, Seq<char>)>,
    rest: Seq<char>,
)
    requires
        table_wf(t1),
        table_wf(t2),
        forall|n: Seq<char>| #[trigger] lookup(t1, n) == lookup(t2, n),
    ensures
        first_prefix(t1, rest, 0) is None <==> first_prefix(t2, rest, 0) is None,
        first_prefix(t1, rest, 0) matches Some(k1) ==> first_prefix(t2, rest, 0) matches Some(k2)
            && k1 < t1.len() && k2 < t2.len() && t1[k1 as int] == t2[k2 as int],
{
    lemma_first_prefix_basic(t1, rest, 0);
    lemma_first_prefix_basic(t2, rest, 0);
    if let Some(k1) = first_prefix(t1, rest, 0) {
        let n1 = t1[k1 as int].0;
        lemma_in_table(t1, k1 as int);
        assert(lookup(t2, n1) == Some(t1[k1 as int].1));
        lemma_find_name(t2, n1);
        let j2 = find_name(t2, n1)->0 as int;
        lemma_first_prefix(t2, rest, 0, j2);
        let k2 = first_prefix(t2, rest, 0)->0 as int;
        let n2 = t2[k2].0;
        lemma_in_table(t2, k2);
        assert(lookup(t1, n2) == Some(t2[k2].1));
        lemma_find_name(t1, n2);
        let j1 = find_name(t1, n2)->0 as int;
        lemma_first_prefix(t1, rest, 0, j1);
        lemma_prefix_same_len(n1, n2, rest);
        assert(lookup(t2, n2) == Some(t2[k2].1));
    } else if let Some(k2) = first_prefix(t2, rest, 0) {
        let n2 = t2[k2 as int].0;
        lemma_in_table(t2, k2 as int);
        assert(lookup(t1, n2) == Some(t2[k2 as int].1));
        lemma_find_name(t1, n2);
        let j1 = find_name(t1, n2)->0 as int;
        lemma_first_prefix(t1, rest, 0, j1);
    }
}

proof fn lemma_expand_same(t1: Seq<(Seq<char>, Seq<char>)>, t2: Seq<(Seq<char>, Seq<char>)>, s: Seq<char>, i: int)
    requires
        table_wf(t1),
        table_wf(t2),
        forall|n: Seq<char>| #[trigger] lookup(t1, n) == lookup(t2, n),
    ensures
        expand_at(t1, s, i) == expand_at(t2, s, i),
    decreases s.len() - i,
{
    if 0 <= i < s.len() {
        lemma_expand_same(t1, t2, s, i + 1);
        if i + 2 <= s.len() {
            lemma_expand_same(t1, t2, s, i + 2);
        }
        lemma_first_prefix_same(t1, t2, s.skip(i));
        if let Some(k1) = first_prefix(t1, s.skip(i), 0) {
            let k2 = first_prefix(t2, s.skip(i), 0)->0;
            if t1[k1 as int].0.len() > 0 && i + t1[k1 as int].0.len() <= s.len() {
                lemma_expand_same(t1, t2, s, i + t1[k1 as int].0.len());
            }
        }
    }
}

/// The order of two `set`s of different names does not matter to any
/// expansion: the table stays longest-name-first, so which of two names that
/// both match is taken never depends on which was defined first.
pub proof fn lemma_sets_commute(
    t: Seq<(Seq<char>, Seq<char>)>,
    a: Seq<char>,
    x: Seq<char>,
    b: Seq<char>,
    y: Seq<char>,
    s: Seq<char>,
)
    requires
        table_wf(t),
        a.len() > 0,
        b.len() > 0,
        a != b,
    ensures
        expand_spec(set_spec(set_spec(t, a, x), b, y), s) == expand_spec(set_spec(set_spec(t, b, y), a, x), s),
{
    let t1 = set_spec(set_spec(t, a, x), b, y);
    let t2 = set_spec(set_spec(t, b, y), a, x);
    lemma_set_law(t, a, x);
    lemma_set_law(set_spec(t, a, x), b, y);
    lemma_set_law(t, b, y);
    lemma_set_law(set_spec(t, b, y), a, x);
    assert forall|n: Seq<char>| #[trigger] lookup(t1, n) == lookup(t2, n) by {
        if n == a {
            assert(lookup(t1, n) == lookup(set_spec(t, a, x), n));
        } else if n == b {
            assert(lookup(t2, n) == lookup(set_spec(t, b, y), n));
        } else {
            assert(lookup(t1, n) == lookup(set_spec(t, a, x), n));
            assert(lookup(t2, n) == lookup(set_spec(t, b, y), n));
        }
    }
    lemma_expand_same(t1, t2, s, 0);
}
} // verus!
